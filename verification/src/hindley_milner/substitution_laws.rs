//! Substitution and alpha-equivalence: substitution respects alpha-equivalence.
use vstd::prelude::*;

use super::term_laws::{
    lemma_alpha_any_fresh, lemma_alpha_free_vars, lemma_alpha_reflexive, lemma_alpha_rename,
    lemma_alpha_symmetric, lemma_alpha_transitive, lemma_binder_for, lemma_common_fresh,
    lemma_rename_free_vars, lemma_rename_twice, lemma_rename_vars, renamed,
};
use super::terms::{lemma_rename_size, lemma_term_vars, Tm};
use crate::names::{fresh_name, lemma_fresh_name, Name};

verus! {

/// The term with every name replaced as `names` says.
pub open spec fn renamed_by(t: Tm, names: spec_fn(Name) -> Name) -> Tm
    decreases t,
{
    match t {
        Tm::Variable(v) => Tm::Variable(names(v)),
        Tm::Abstraction(v, b) => Tm::Abstraction(names(v), Box::new(renamed_by(*b, names))),
        Tm::Application(f, a) => Tm::Application(
            Box::new(renamed_by(*f, names)),
            Box::new(renamed_by(*a, names)),
        ),
        Tm::Let(v, b, o) => Tm::Let(
            names(v),
            Box::new(renamed_by(*b, names)),
            Box::new(renamed_by(*o, names)),
        ),
    }
}

/// Renaming one name is replacing every name by what `renamed` makes of it.
pub proof fn lemma_rename_is_renamed_by(t: Tm, from: Name, to: Name)
    ensures
        t.rename(from, to) == renamed_by(t, |n: Name| renamed(n, from, to)),
    decreases t,
{
    match t {
        Tm::Variable(_) => {},
        Tm::Abstraction(_, b) => {
            lemma_rename_is_renamed_by(*b, from, to);
        },
        Tm::Application(f, a) => {
            lemma_rename_is_renamed_by(*f, from, to);
            lemma_rename_is_renamed_by(*a, from, to);
        },
        Tm::Let(_, b, o) => {
            lemma_rename_is_renamed_by(*b, from, to);
            lemma_rename_is_renamed_by(*o, from, to);
        },
    }
}

/// Two replacements that say the same of the names of a term replace its names alike.
pub proof fn lemma_renamed_by_agree(t: Tm, one: spec_fn(Name) -> Name, other: spec_fn(Name) -> Name)
    requires
        forall|n: Name| (#[trigger] t.vars().contains(n)) ==> one(n) == other(n),
    ensures
        renamed_by(t, one) == renamed_by(t, other),
    decreases t,
{
    match t {
        Tm::Variable(v) => {
            assert(t.vars().contains(v));
        },
        Tm::Abstraction(v, b) => {
            assert(t.vars().contains(v));
            assert forall|n: Name| (#[trigger] b.vars().contains(n)) implies one(n) == other(n) by {
                assert(t.vars().contains(n));
            }
            lemma_renamed_by_agree(*b, one, other);
        },
        Tm::Application(f, a) => {
            assert forall|n: Name| (#[trigger] f.vars().contains(n)) implies one(n) == other(n) by {
                assert(t.vars().contains(n));
            }
            assert forall|n: Name| (#[trigger] a.vars().contains(n)) implies one(n) == other(n) by {
                assert(t.vars().contains(n));
            }
            lemma_renamed_by_agree(*f, one, other);
            lemma_renamed_by_agree(*a, one, other);
        },
        Tm::Let(v, b, o) => {
            assert(t.vars().contains(v));
            assert forall|n: Name| (#[trigger] b.vars().contains(n)) implies one(n) == other(n) by {
                assert(t.vars().contains(n));
            }
            assert forall|n: Name| (#[trigger] o.vars().contains(n)) implies one(n) == other(n) by {
                assert(t.vars().contains(n));
            }
            lemma_renamed_by_agree(*b, one, other);
            lemma_renamed_by_agree(*o, one, other);
        },
    }
}

/// One replacement after another is the replacement by both.
pub proof fn lemma_renamed_by_twice(t: Tm, first: spec_fn(Name) -> Name, second: spec_fn(Name) -> Name)
    ensures
        renamed_by(renamed_by(t, first), second) == renamed_by(t, |n: Name| second(first(n))),
    decreases t,
{
    match t {
        Tm::Variable(_) => {},
        Tm::Abstraction(_, b) => {
            lemma_renamed_by_twice(*b, first, second);
        },
        Tm::Application(f, a) => {
            lemma_renamed_by_twice(*f, first, second);
            lemma_renamed_by_twice(*a, first, second);
        },
        Tm::Let(_, b, o) => {
            lemma_renamed_by_twice(*b, first, second);
            lemma_renamed_by_twice(*o, first, second);
        },
    }
}

/// Renaming a name that the term does not hold changes nothing.
pub proof fn lemma_rename_absent(t: Tm, from: Name, to: Name)
    requires
        !t.vars().contains(from),
    ensures
        t.rename(from, to) == t,
    decreases t,
{
    match t {
        Tm::Variable(_) => {},
        Tm::Abstraction(_, b) => {
            lemma_rename_absent(*b, from, to);
        },
        Tm::Application(f, a) => {
            lemma_rename_absent(*f, from, to);
            lemma_rename_absent(*a, from, to);
        },
        Tm::Let(_, b, o) => {
            lemma_rename_absent(*b, from, to);
            lemma_rename_absent(*o, from, to);
        },
    }
}

/// Functions with alpha-equivalent bodies under the same name are alpha-equivalent.
pub proof fn lemma_alpha_under_binder(w: Name, s: Tm, t: Tm)
    requires
        s.alpha_eq(t),
    ensures
        Tm::Abstraction(w, Box::new(s)).alpha_eq(Tm::Abstraction(w, Box::new(t))),
{
    let a = Tm::Abstraction(w, Box::new(s));
    let b = Tm::Abstraction(w, Box::new(t));
    lemma_common_fresh(a, b);
    lemma_alpha_rename(s, t, w, fresh_name(a.vars().union(b.vars())));
}

/// A function is alpha-equivalent to itself with its binder renamed to a name that it does
/// not hold.
pub proof fn lemma_alpha_rename_binder(v: Name, s: Tm, w: Name)
    requires
        !s.vars().contains(w),
        w != v,
    ensures
        Tm::Abstraction(v, Box::new(s)).alpha_eq(Tm::Abstraction(w, Box::new(s.rename(v, w)))),
{
    let a = Tm::Abstraction(v, Box::new(s));
    let b = Tm::Abstraction(w, Box::new(s.rename(v, w)));
    let z = fresh_name(a.vars().union(b.vars()));
    lemma_common_fresh(a, b);
    lemma_rename_twice(s, v, w, z);
    lemma_rename_size(s, v, z);
    lemma_alpha_reflexive(s.rename(v, z));
}

/// Two functions are alpha-equivalent if their bodies are under one name that neither of
/// them holds.
pub proof fn lemma_alpha_functions(x: Name, s: Tm, y: Name, t: Tm, z: Name)
    requires
        !s.vars().contains(z),
        !t.vars().contains(z),
        z != x,
        z != y,
        s.rename(x, z).alpha_eq(t.rename(y, z)),
    ensures
        Tm::Abstraction(x, Box::new(s)).alpha_eq(Tm::Abstraction(y, Box::new(t))),
{
    let a = Tm::Abstraction(x, Box::new(s));
    let b = Tm::Abstraction(y, Box::new(t));
    lemma_alpha_any_fresh(a, b, x, s, y, t, z);
}


/// Definitions with alpha-equivalent parts under the same name are alpha-equivalent.
pub proof fn lemma_alpha_under_let(w: Name, b: Tm, s: Tm, b2: Tm, t: Tm)
    requires
        b.alpha_eq(b2),
        s.alpha_eq(t),
    ensures
        Tm::Let(w, Box::new(b), Box::new(s)).alpha_eq(Tm::Let(w, Box::new(b2), Box::new(t))),
{
    let one = Tm::Let(w, Box::new(b), Box::new(s));
    let other = Tm::Let(w, Box::new(b2), Box::new(t));
    lemma_common_fresh(one, other);
    lemma_alpha_rename(s, t, w, fresh_name(one.vars().union(other.vars())));
}

/// A definition is alpha-equivalent to itself with its binder renamed to a name that it
/// does not hold.
pub proof fn lemma_alpha_rename_let_binder(v: Name, b: Tm, s: Tm, w: Name)
    requires
        !s.vars().contains(w),
        !b.vars().contains(w),
        w != v,
    ensures
        Tm::Let(v, Box::new(b), Box::new(s)).alpha_eq(
            Tm::Let(w, Box::new(b), Box::new(s.rename(v, w))),
        ),
{
    let one = Tm::Let(v, Box::new(b), Box::new(s));
    let other = Tm::Let(w, Box::new(b), Box::new(s.rename(v, w)));
    let z = fresh_name(one.vars().union(other.vars()));
    lemma_common_fresh(one, other);
    lemma_rename_twice(s, v, w, z);
    lemma_rename_size(s, v, z);
    lemma_alpha_reflexive(s.rename(v, z));
    lemma_alpha_reflexive(b);
}

/// Two definitions are alpha-equivalent if what they bind is, and their bodies are under
/// one name that neither of them holds.
pub proof fn lemma_alpha_lets(x: Name, b: Tm, s: Tm, y: Name, b2: Tm, t: Tm, z: Name)
    requires
        !s.vars().contains(z),
        !t.vars().contains(z),
        !b.vars().contains(z),
        !b2.vars().contains(z),
        z != x,
        z != y,
        b.alpha_eq(b2),
        s.rename(x, z).alpha_eq(t.rename(y, z)),
    ensures
        Tm::Let(x, Box::new(b), Box::new(s)).alpha_eq(Tm::Let(y, Box::new(b2), Box::new(t))),
{
    let one = Tm::Let(x, Box::new(b), Box::new(s));
    let other = Tm::Let(y, Box::new(b2), Box::new(t));
    lemma_alpha_any_fresh(one, other, x, s, y, t, z);
}

/// A substitution for a name that is not free in a term gives an alpha-equivalent term.
pub proof fn lemma_substitute_not_free(s: Tm, x: Name, r: Tm)
    requires
        !s.free_vars().contains(x),
    ensures
        s.subst(x, r).alpha_eq(s),
    decreases s.size(),
{
    let w = s.binder_for(x, r);
    lemma_binder_for(s, x, r);
    match s {
        Tm::Variable(_) => {},
        Tm::Abstraction(v, b) => {
            if v == x {
                lemma_alpha_reflexive(s);
            } else {
                let inner = b.rename(v, w);
                lemma_rename_size(*b, v, w);
                lemma_rename_free_vars(*b, v, w);
                lemma_substitute_not_free(inner, x, r);
                lemma_alpha_under_binder(w, inner.subst(x, r), inner);
                lemma_alpha_rename_binder(v, *b, w);
                lemma_alpha_symmetric(s, Tm::Abstraction(w, Box::new(inner)));
                lemma_alpha_transitive(s.subst(x, r), Tm::Abstraction(w, Box::new(inner)), s);
            }
        },
        Tm::Application(f, a) => {
            lemma_substitute_not_free(*f, x, r);
            lemma_substitute_not_free(*a, x, r);
        },
        Tm::Let(v, b, o) => {
            lemma_substitute_not_free(*b, x, r);
            if v == x {
                lemma_alpha_reflexive(*o);
                lemma_alpha_under_let(v, b.subst(x, r), *o, *b, *o);
            } else {
                let inner = o.rename(v, w);
                lemma_rename_size(*o, v, w);
                lemma_rename_free_vars(*o, v, w);
                lemma_substitute_not_free(inner, x, r);
                lemma_alpha_under_let(w, b.subst(x, r), inner.subst(x, r), *b, inner);
                lemma_alpha_rename_let_binder(v, *b, *o, w);
                let by_w = Tm::Let(w, Box::new(*b), Box::new(inner));
                lemma_alpha_symmetric(s, by_w);
                lemma_alpha_transitive(s.subst(x, r), by_w, s);
            }
        },
    }
}

/// Three renamings in a row, made for a substitution under a binder, are two.
proof fn lemma_binder_renames(b: Tm, v: Name, w1: Name, p: Name, q: Name, z: Name)
    requires
        !b.vars().contains(w1),
        !b.vars().contains(q),
        v != q,
        w1 != q,
    ensures
        b.rename(v, w1).rename(p, q).rename(renamed(w1, p, q), z) == b.rename(p, q).rename(
            renamed(v, p, q),
            z,
        ),
{
    let h1 = |n: Name| renamed(n, v, w1);
    let h2 = |n: Name| renamed(n, p, q);
    let h3 = |n: Name| renamed(n, renamed(w1, p, q), z);
    let g2 = |n: Name| renamed(n, renamed(v, p, q), z);
    lemma_rename_is_renamed_by(b, v, w1);
    lemma_rename_is_renamed_by(b.rename(v, w1), p, q);
    lemma_rename_is_renamed_by(b.rename(v, w1).rename(p, q), renamed(w1, p, q), z);
    lemma_rename_is_renamed_by(b, p, q);
    lemma_rename_is_renamed_by(b.rename(p, q), renamed(v, p, q), z);
    lemma_renamed_by_twice(b, h1, h2);
    lemma_renamed_by_twice(b, h2, g2);
    let h12 = |n: Name| h2(h1(n));
    lemma_renamed_by_twice(b, h12, h3);
    let left = |n: Name| h3(h12(n));
    let right = |n: Name| g2(h2(n));
    assert forall|n: Name| (#[trigger] b.vars().contains(n)) implies left(n) == right(n) by {}
    lemma_renamed_by_agree(b, left, right);
}

/// The names that the step of `lemma_substitute_rename` under a binder has to avoid: `b` is
/// the body under the binder `v`, `extra` holds the names of what stands beside the body.
pub open spec fn avoided(
    b: Tm,
    v: Name,
    x: Name,
    r: Tm,
    p: Name,
    q: Name,
    w1: Name,
    w2: Name,
    extra: Set<Name>,
) -> Set<Name> {
    let b1 = b.rename(v, w1);
    let b12 = b1.rename(p, q);
    let b2 = b.rename(p, q);
    let b22 = b2.rename(renamed(v, p, q), w2);
    b1.subst(x, r).rename(p, q).vars().union(b12.vars()).union(b12.subst(x, r).vars()).union(
        b22.vars(),
    ).union(b22.subst(x, r).vars()).union(r.vars()).union(b.vars()).union(b2.vars()).union(
        set![x, p, q, v, w1, w2],
    ).union(extra)
}

/// The names of `avoided` are finitely many, and a fresh name is none of them.
proof fn lemma_avoided(
    b: Tm,
    v: Name,
    x: Name,
    r: Tm,
    p: Name,
    q: Name,
    w1: Name,
    w2: Name,
    extra: Set<Name>,
)
    requires
        extra.finite(),
    ensures
        !avoided(b, v, x, r, p, q, w1, w2, extra).contains(
            fresh_name(avoided(b, v, x, r, p, q, w1, w2, extra)),
        ),
{
    let b1 = b.rename(v, w1);
    let b12 = b1.rename(p, q);
    let b2 = b.rename(p, q);
    let b22 = b2.rename(renamed(v, p, q), w2);
    lemma_term_vars(b1.subst(x, r).rename(p, q));
    lemma_term_vars(b12);
    lemma_term_vars(b12.subst(x, r));
    lemma_term_vars(b22);
    lemma_term_vars(b22.subst(x, r));
    lemma_term_vars(r);
    lemma_term_vars(b);
    lemma_term_vars(b2);
    lemma_fresh_name(avoided(b, v, x, r, p, q, w1, w2, extra));
}

/// A renaming may be made before a substitution or after it, up to alpha-equivalence: the
/// name that is renamed is no name of what is substituted and not the name substituted
/// for, and the new name occurs nowhere.
pub proof fn lemma_substitute_rename(s: Tm, x: Name, r: Tm, p: Name, q: Name)
    requires
        !r.vars().contains(p),
        p != x,
        !s.vars().contains(q),
        !r.vars().contains(q),
        q != x,
        !s.subst(x, r).vars().contains(q),
    ensures
        s.subst(x, r).rename(p, q).alpha_eq(s.rename(p, q).subst(x, r)),
    decreases s.size(), 1nat,
{
    match s {
        Tm::Variable(u) => {
            if u == x {
                lemma_rename_absent(r, p, q);
                lemma_alpha_reflexive(r);
            }
        },
        Tm::Application(f, a) => {
            lemma_substitute_rename(*f, x, r, p, q);
            lemma_substitute_rename(*a, x, r, p, q);
        },
        Tm::Abstraction(v, b) => {
            if v == x {
                lemma_alpha_reflexive(s.rename(p, q));
            } else {
                let w1 = s.binder_for(x, r);
                let s2 = s.rename(p, q);
                let w2 = s2.binder_for(x, r);
                let z = fresh_name(avoided(*b, v, x, r, p, q, w1, w2, Set::empty()));
                lemma_avoided(*b, v, x, r, p, q, w1, w2, Set::empty());
                lemma_binder_for(s, x, r);
                lemma_binder_for(s2, x, r);
                lemma_rename_vars(*b, p, q);
                lemma_rename_vars(*b, v, w1);
                let left = b.rename(v, w1).subst(x, r).rename(p, q);
                let right = b.rename(p, q).rename(renamed(v, p, q), w2).subst(x, r);
                lemma_substitute_rename_body(s, *b, v, x, r, p, q, w1, w2, z);
                lemma_alpha_functions(renamed(w1, p, q), left, w2, right, z);
            }
        },
        Tm::Let(v, bound, o) => {
            if v == x {
                lemma_substitute_rename(*bound, x, r, p, q);
                lemma_alpha_reflexive(o.rename(p, q));
                lemma_alpha_under_let(
                    x,
                    bound.subst(x, r).rename(p, q),
                    o.rename(p, q),
                    bound.rename(p, q).subst(x, r),
                    o.rename(p, q),
                );
            } else {
                let w1 = s.binder_for(x, r);
                let s2 = s.rename(p, q);
                let w2 = s2.binder_for(x, r);
                let one = bound.subst(x, r).rename(p, q);
                let other = bound.rename(p, q).subst(x, r);
                let extra = one.vars().union(other.vars());
                lemma_term_vars(one);
                lemma_term_vars(other);
                let z = fresh_name(avoided(*o, v, x, r, p, q, w1, w2, extra));
                lemma_avoided(*o, v, x, r, p, q, w1, w2, extra);
                lemma_binder_for(s, x, r);
                lemma_binder_for(s2, x, r);
                lemma_rename_vars(*o, p, q);
                lemma_rename_vars(*o, v, w1);
                let left = o.rename(v, w1).subst(x, r).rename(p, q);
                let right = o.rename(p, q).rename(renamed(v, p, q), w2).subst(x, r);
                lemma_substitute_rename(*bound, x, r, p, q);
                lemma_substitute_rename_body(s, *o, v, x, r, p, q, w1, w2, z);
                lemma_alpha_lets(renamed(w1, p, q), one, left, w2, other, right, z);
            }
        },
    }
}

/// The step of `lemma_substitute_rename` for the body `b` under the binder `v` of the term
/// `s`: with the binders that the two substitutions choose, `w1` and `w2`, both renamed to
/// `z`, the two bodies are alpha-equivalent.
pub proof fn lemma_substitute_rename_body(
    s: Tm,
    b: Tm,
    v: Name,
    x: Name,
    r: Tm,
    p: Name,
    q: Name,
    w1: Name,
    w2: Name,
    z: Name,
)
    requires
        b.size() < s.size(),
        v != x,
        v != q,
        !r.vars().contains(p),
        p != x,
        !b.vars().contains(q),
        !r.vars().contains(q),
        q != x,
        q != w1,
        !b.rename(v, w1).subst(x, r).vars().contains(q),
        !b.vars().contains(w1),
        !r.vars().contains(w1),
        w1 != x,
        !b.rename(p, q).vars().contains(w2),
        !r.vars().contains(w2),
        w2 != x,
        exists|extra: Set<Name>| !avoided(b, v, x, r, p, q, w1, w2, extra).contains(z),
    ensures
        b.rename(v, w1).subst(x, r).rename(p, q).rename(renamed(w1, p, q), z).alpha_eq(
            b.rename(p, q).rename(renamed(v, p, q), w2).subst(x, r).rename(w2, z),
        ),
        !b.rename(v, w1).subst(x, r).rename(p, q).vars().contains(z),
        !b.rename(p, q).rename(renamed(v, p, q), w2).subst(x, r).vars().contains(z),
        z != renamed(w1, p, q),
        z != w2,
    decreases s.size(), 0nat,
{
    let b1 = b.rename(v, w1);
    let s1 = b1.subst(x, r);
    let v2 = renamed(v, p, q);
    let b2 = b.rename(p, q);
    let b22 = b2.rename(v2, w2);
    let body2 = b22.subst(x, r);
    let b12 = b1.rename(p, q);
    lemma_rename_size(b, v, w1);
    lemma_rename_size(b, p, q);
    lemma_rename_size(b1, p, q);
    lemma_rename_size(b2, v2, w2);
    lemma_rename_vars(b, v, w1);
    lemma_rename_vars(b, p, q);
    lemma_rename_vars(b1, p, q);
    lemma_rename_vars(b2, v2, w2);
    // The left side, with its binder renamed to `z`.
    lemma_substitute_rename(b1, x, r, p, q);
    let left1 = s1.rename(p, q);
    let left2 = b12.subst(x, r);
    lemma_alpha_rename(left1, left2, renamed(w1, p, q), z);
    lemma_substitute_rename(b12, x, r, renamed(w1, p, q), z);
    lemma_binder_renames(b, v, w1, p, q, z);
    let bz = b2.rename(v2, z);
    let middle = bz.subst(x, r);
    lemma_alpha_transitive(
        left1.rename(renamed(w1, p, q), z),
        left2.rename(renamed(w1, p, q), z),
        middle,
    );
    // The right side, with its binder renamed to `z`.
    lemma_substitute_rename(b22, x, r, w2, z);
    lemma_rename_twice(b2, v2, w2, z);
    lemma_alpha_symmetric(body2.rename(w2, z), middle);
    lemma_alpha_transitive(left1.rename(renamed(w1, p, q), z), middle, body2.rename(w2, z));
}

/// Under which name a substitution goes below a binder makes no difference, up to
/// alpha-equivalence: for the body `t` under a binder of `y`, and two names `w` and `v`
/// that occur neither in the body nor in what is substituted and are neither `y` nor the
/// name substituted for, the two bodies are alpha-equivalent with both names renamed to
/// `z`.
pub proof fn lemma_substitute_binder_choice(
    y: Name,
    t: Tm,
    x: Name,
    r: Tm,
    w: Name,
    v: Name,
    z: Name,
)
    requires
        !t.vars().contains(w),
        !r.vars().contains(w),
        w != x,
        !t.vars().contains(v),
        !r.vars().contains(v),
        v != x,
        !t.vars().contains(z),
        !r.vars().contains(z),
        z != x,
        z != w,
        z != v,
        !t.rename(y, w).subst(x, r).vars().contains(z),
        !t.rename(y, v).subst(x, r).vars().contains(z),
    ensures
        t.rename(y, w).subst(x, r).rename(w, z).alpha_eq(
            t.rename(y, v).subst(x, r).rename(v, z),
        ),
{
    let tw = t.rename(y, w);
    let tv = t.rename(y, v);
    let left = tw.subst(x, r);
    let right = tv.subst(x, r);
    lemma_rename_vars(t, y, w);
    lemma_rename_vars(t, y, v);
    lemma_substitute_rename(tw, x, r, w, z);
    lemma_substitute_rename(tv, x, r, v, z);
    lemma_rename_twice(t, y, w, z);
    lemma_rename_twice(t, y, v, z);
    let middle = t.rename(y, z).subst(x, r);
    lemma_alpha_symmetric(right.rename(v, z), middle);
    lemma_alpha_transitive(left.rename(w, z), middle, right.rename(v, z));
}

/// What `lemma_substitute_respects_alpha` shows of the bodies under two binders: the bodies
/// `t` and `t2` of the alpha-equivalent terms `a` and `a2`, which bind `y` and `y2`, give
/// alpha-equivalent bodies under the binders that the two substitutions choose, with both
/// binders renamed to `z`.
pub proof fn lemma_respects_alpha_body(
    a: Tm,
    a2: Tm,
    y: Name,
    t: Tm,
    y2: Name,
    t2: Tm,
    x: Name,
    r: Tm,
    r2: Tm,
    z: Name,
)
    requires
        t.size() < a.size(),
        t.vars().insert(y).subset_of(a.vars()),
        t2.vars().insert(y2).subset_of(a2.vars()),
        y != x,
        y2 != x,
        t.rename(y, fresh_name(a.vars().union(a2.vars()))).alpha_eq(
            t2.rename(y2, fresh_name(a.vars().union(a2.vars()))),
        ),
        r.alpha_eq(r2),
        !a.vars().contains(z),
        !a2.vars().contains(z),
        !r.vars().contains(z),
        !r2.vars().contains(z),
        z != x,
        z != a.binder_for(x, r),
        z != a2.binder_for(x, r2),
        !t.rename(y, a.binder_for(x, r)).subst(x, r).vars().contains(z),
        !t2.rename(y2, a2.binder_for(x, r2)).subst(x, r2).vars().contains(z),
    ensures
        t.rename(y, a.binder_for(x, r)).subst(x, r).rename(a.binder_for(x, r), z).alpha_eq(
            t2.rename(y2, a2.binder_for(x, r2)).subst(x, r2).rename(a2.binder_for(x, r2), z),
        ),
    decreases a.size(), 0nat,
{
    let w = a.binder_for(x, r);
    let w2 = a2.binder_for(x, r2);
    let left = t.rename(y, w).subst(x, r);
    let right = t2.rename(y2, w2).subst(x, r2);
    let by_v = t.rename(y, z).subst(x, r);
    let by_v2 = t2.rename(y2, z).subst(x, r2);
    let u = a.vars().union(a2.vars()).union(r.vars()).union(r2.vars()).union(
        left.vars(),
    ).union(right.vars()).union(by_v.vars()).union(by_v2.vars()).union(set![x, y, y2, z, w, w2]);
    let k = fresh_name(u);
    assert(u.finite()) by {
        lemma_term_vars(a);
        lemma_term_vars(a2);
        lemma_term_vars(r);
        lemma_term_vars(r2);
        lemma_term_vars(left);
        lemma_term_vars(right);
        lemma_term_vars(by_v);
        lemma_term_vars(by_v2);
    }
    lemma_fresh_name(u);
    lemma_binder_for(a, x, r);
    lemma_binder_for(a2, x, r2);
    // The bodies under `z`, with the substitutions made, are alpha-equivalent.
    lemma_alpha_any_fresh(a, a2, y, t, y2, t2, z);
    lemma_rename_size(t, y, z);
    lemma_substitute_respects_alpha(t.rename(y, z), t2.rename(y2, z), x, r, r2);
    // The body under `w`, renamed to `k`, is the body under `z` renamed to `k`.
    lemma_substitute_binder_choice(y, t, x, r, w, z, k);
    lemma_substitute_binder_choice(y2, t2, x, r2, w2, z, k);
    lemma_alpha_rename(by_v, by_v2, z, k);
    lemma_alpha_transitive(left.rename(w, k), by_v.rename(z, k), by_v2.rename(z, k));
    lemma_alpha_symmetric(right.rename(w2, k), by_v2.rename(z, k));
    lemma_alpha_transitive(left.rename(w, k), by_v2.rename(z, k), right.rename(w2, k));
    // From `k` to `z`.
    lemma_rename_vars(left, w, k);
    lemma_rename_vars(right, w2, k);
    lemma_alpha_rename(left.rename(w, k), right.rename(w2, k), k, z);
    lemma_rename_twice(left, w, k, z);
    lemma_rename_twice(right, w2, k, z);
}

/// Where a name is not free in the body of a definition of another name, a substitution
/// for it changes, up to alpha-equivalence, only what the definition binds.
pub proof fn lemma_substitute_past_let(y: Name, b: Tm, t: Tm, x: Name, r: Tm)
    requires
        y != x,
        !t.free_vars().contains(x),
    ensures
        Tm::Let(y, Box::new(b), Box::new(t)).subst(x, r).alpha_eq(
            Tm::Let(y, Box::new(b.subst(x, r)), Box::new(t)),
        ),
{
    let a = Tm::Let(y, Box::new(b), Box::new(t));
    let w = a.binder_for(x, r);
    lemma_binder_for(a, x, r);
    let inner = t.rename(y, w);
    let other = b.subst(x, r);
    let changed = inner.subst(x, r);
    lemma_rename_size(t, y, w);
    lemma_rename_free_vars(t, y, w);
    lemma_substitute_not_free(inner, x, r);
    let z = fresh_between(a, other, changed, inner, t, b, set![x, y, w]);
    lemma_fresh_between(a, other, changed, inner, t, b, set![x, y, w]);
    lemma_alpha_rename(changed, inner, w, z);
    lemma_rename_twice(t, y, w, z);
    lemma_alpha_reflexive(other);
    lemma_alpha_lets(w, other, changed, y, other, t, z);
}

/// Substitution respects alpha-equivalence: alpha-equivalent terms stay alpha-equivalent
/// when alpha-equivalent terms are substituted for the name `x` in them.
pub proof fn lemma_substitute_respects_alpha(a: Tm, a2: Tm, x: Name, r: Tm, r2: Tm)
    requires
        a.alpha_eq(a2),
        r.alpha_eq(r2),
    ensures
        a.subst(x, r).alpha_eq(a2.subst(x, r2)),
    decreases a.size(), 1nat,
{
    let w = a.binder_for(x, r);
    let w2 = a2.binder_for(x, r2);
    lemma_binder_for(a, x, r);
    lemma_binder_for(a2, x, r2);
    match (a, a2) {
        (Tm::Variable(_), Tm::Variable(_)) => {},
        (Tm::Application(t1, u1), Tm::Application(t2, u2)) => {
            lemma_substitute_respects_alpha(*t1, *t2, x, r, r2);
            lemma_substitute_respects_alpha(*u1, *u2, x, r, r2);
        },
        (Tm::Abstraction(y, t), Tm::Abstraction(y2, t2)) => {
            lemma_alpha_free_vars(a, a2);
            if y == x && y2 == x {
            } else if y == x {
                lemma_substitute_not_free(a2, x, r2);
                lemma_alpha_symmetric(a2.subst(x, r2), a2);
                lemma_alpha_transitive(a, a2, a2.subst(x, r2));
            } else if y2 == x {
                lemma_substitute_not_free(a, x, r);
                lemma_alpha_transitive(a.subst(x, r), a, a2);
            } else {
                let left = t.rename(y, w).subst(x, r);
                let right = t2.rename(y2, w2).subst(x, r2);
                let z = fresh_between(a, a2, r, r2, left, right, set![x, w, w2]);
                lemma_fresh_between(a, a2, r, r2, left, right, set![x, w, w2]);
                lemma_respects_alpha_body(a, a2, y, *t, y2, *t2, x, r, r2, z);
                lemma_alpha_functions(w, left, w2, right, z);
            }
        },
        (Tm::Let(y, b, t), Tm::Let(y2, b2, t2)) => {
            lemma_substitute_respects_alpha(*b, *b2, x, r, r2);
            let one = b.subst(x, r);
            let other = b2.subst(x, r2);
            if y == x || y2 == x {
                // Where one of the two binds `x`, the name is free in neither body.
                let m = Tm::Let(y, Box::new(one), t);
                let m2 = Tm::Let(y2, Box::new(other), t2);
                let z = fresh_between(a, a2, one, other, *t, *t2, set![x, y, y2]);
                lemma_fresh_between(a, a2, one, other, *t, *t2, set![x, y, y2]);
                lemma_alpha_any_fresh(a, a2, y, *t, y2, *t2, z);
                lemma_alpha_lets(y, one, *t, y2, other, *t2, z);
                lemma_alpha_free_vars(t.rename(y, z), t2.rename(y2, z));
                lemma_rename_free_vars(*t, y, z);
                lemma_rename_free_vars(*t2, y2, z);
                if y != x {
                    assert(!t.free_vars().contains(x)) by {
                        if t.free_vars().contains(x) {
                            assert(t.rename(y, z).free_vars().contains(x));
                        }
                    }
                    lemma_substitute_past_let(y, *b, *t, x, r);
                    lemma_alpha_transitive(a.subst(x, r), m, m2);
                } else if y2 != x {
                    assert(!t2.free_vars().contains(x)) by {
                        if t2.free_vars().contains(x) {
                            assert(t2.rename(y2, z).free_vars().contains(x));
                        }
                    }
                    lemma_substitute_past_let(y2, *b2, *t2, x, r2);
                    lemma_alpha_symmetric(a2.subst(x, r2), m2);
                    lemma_alpha_transitive(m, m2, a2.subst(x, r2));
                }
            } else {
                let left = t.rename(y, w).subst(x, r);
                let right = t2.rename(y2, w2).subst(x, r2);
                lemma_term_vars(one);
                lemma_term_vars(other);
                let extra = one.vars().union(other.vars()).union(set![x, w, w2]);
                let z = fresh_between(a, a2, r, r2, left, right, extra);
                lemma_fresh_between(a, a2, r, r2, left, right, extra);
                lemma_respects_alpha_body(a, a2, y, *t, y2, *t2, x, r, r2, z);
                lemma_alpha_lets(w, one, left, w2, other, right, z);
            }
        },
        _ => {},
    }
}

/// A name that is fresh for six terms and a few names besides.
pub open spec fn fresh_between(
    a: Tm,
    b: Tm,
    c: Tm,
    d: Tm,
    e: Tm,
    f: Tm,
    others: Set<Name>,
) -> Name {
    fresh_name(
        a.vars().union(b.vars()).union(c.vars()).union(d.vars()).union(e.vars()).union(
            f.vars(),
        ).union(others),
    )
}

/// The name that is fresh for six terms and a finite set of names occurs in none of them.
pub proof fn lemma_fresh_between(a: Tm, b: Tm, c: Tm, d: Tm, e: Tm, f: Tm, others: Set<Name>)
    requires
        others.finite(),
    ensures
        ({
            let z = fresh_between(a, b, c, d, e, f, others);
            &&& !a.vars().contains(z)
            &&& !b.vars().contains(z)
            &&& !c.vars().contains(z)
            &&& !d.vars().contains(z)
            &&& !e.vars().contains(z)
            &&& !f.vars().contains(z)
            &&& !others.contains(z)
        }),
{
    lemma_term_vars(a);
    lemma_term_vars(b);
    lemma_term_vars(c);
    lemma_term_vars(d);
    lemma_term_vars(e);
    lemma_term_vars(f);
    lemma_fresh_name(
        a.vars().union(b.vars()).union(c.vars()).union(d.vars()).union(e.vars()).union(
            f.vars(),
        ).union(others),
    );
}

} // verus!
