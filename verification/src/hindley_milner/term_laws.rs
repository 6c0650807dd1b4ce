//! What holds of renaming, alpha-equivalence and substitution for every term: a term is
//! alpha-equivalent to its copy with new binders, alpha-equivalence is an equivalence
//! relation that keeps the free names, and substitution avoids capture.
use vstd::prelude::*;

use super::terms::{lemma_rename_size, lemma_term_vars, Tm};
use crate::names::{fresh_name, lemma_fresh_name, Name};

verus! {

/// The binders of `t.subst(from, to)` that have a copy of `to` in their scope.
pub open spec fn binders_over(t: Tm, from: Name, to: Tm) -> Set<Name>
    decreases t.size(),
{
    match t {
        Tm::Variable(_) => Set::empty(),
        Tm::Abstraction(v, b) => {
            let w = t.binder_for(from, to);
            proof {
                lemma_rename_size(*b, v, w);
            }
            if v != from && b.free_vars().contains(from) {
                binders_over(b.rename(v, w), from, to).insert(w)
            } else {
                Set::empty()
            }
        },
        Tm::Application(f, a) => binders_over(*f, from, to).union(binders_over(*a, from, to)),
        Tm::Let(v, b, o) => {
            let w = t.binder_for(from, to);
            proof {
                lemma_rename_size(*o, v, w);
            }
            if v != from && o.free_vars().contains(from) {
                binders_over(*b, from, to).union(binders_over(o.rename(v, w), from, to).insert(w))
            } else {
                binders_over(*b, from, to)
            }
        },
    }
}

/// The name that replaces a binder during a substitution occurs neither in the term, nor in
/// what is substituted, nor is it the name substituted for.
pub proof fn lemma_binder_for(t: Tm, from: Name, to: Tm)
    ensures
        !t.vars().contains(t.binder_for(from, to)),
        !to.vars().contains(t.binder_for(from, to)),
        t.binder_for(from, to) != from,
{
    lemma_term_vars(t);
    lemma_term_vars(to);
    lemma_fresh_name(t.vars().union(to.vars()).insert(from));
}

/// Substitution avoids capture. No binder of `t.subst(from, to)` with a copy of `to` in its
/// scope is a name of `to`, so no free variable of `to` is bound there; and where `from` is
/// free in `t`, every free variable of `to` is free in the result.
pub proof fn lemma_substitute_avoids_capture(t: Tm, from: Name, to: Tm)
    ensures
        binders_over(t, from, to).disjoint(to.vars()),
        t.free_vars().contains(from) ==> to.free_vars().subset_of(t.subst(from, to).free_vars()),
    decreases t.size(),
{
    lemma_substitute_free_vars(t, from, to);
    lemma_binder_for(t, from, to);
    let w = t.binder_for(from, to);
    match t {
        Tm::Variable(_) => {},
        Tm::Abstraction(v, b) => {
            if v != from {
                lemma_rename_size(*b, v, w);
                lemma_substitute_avoids_capture(b.rename(v, w), from, to);
            }
        },
        Tm::Application(f, a) => {
            lemma_substitute_avoids_capture(*f, from, to);
            lemma_substitute_avoids_capture(*a, from, to);
        },
        Tm::Let(v, b, o) => {
            lemma_substitute_avoids_capture(*b, from, to);
            if v != from {
                lemma_rename_size(*o, v, w);
                lemma_substitute_avoids_capture(o.rename(v, w), from, to);
            }
        },
    }
}

/// The number of binders in a term.
pub open spec fn binder_count(t: Tm) -> nat
    decreases t,
{
    match t {
        Tm::Variable(_) => 0,
        Tm::Abstraction(_, b) => 1 + binder_count(*b),
        Tm::Application(f, a) => binder_count(*f) + binder_count(*a),
        Tm::Let(_, b, o) => 1 + binder_count(*b) + binder_count(*o),
    }
}

/// The term with its binders renamed to `names`, one name for each binder from the
/// outside in and from left to right, and the occurrences that each binder binds renamed
/// with it.
pub open spec fn rebind(t: Tm, names: Seq<Name>) -> Tm
    decreases t.size(),
{
    match t {
        Tm::Variable(_) => t,
        Tm::Abstraction(x, b) => if names.len() > 0 {
            proof {
                lemma_rename_size(*b, x, names[0]);
            }
            Tm::Abstraction(names[0], Box::new(rebind(b.rename(x, names[0]), names.skip(1))))
        } else {
            t
        },
        Tm::Application(f, a) => Tm::Application(
            Box::new(rebind(*f, names.take(binder_count(*f) as int))),
            Box::new(rebind(*a, names.skip(binder_count(*f) as int))),
        ),
        Tm::Let(x, b, o) => if names.len() > 0 {
            proof {
                lemma_rename_size(*o, x, names[0]);
            }
            Tm::Let(
                names[0],
                Box::new(rebind(*b, names.subrange(1, 1 + binder_count(*b) as int))),
                Box::new(rebind(o.rename(x, names[0]), names.skip(1 + binder_count(*b) as int))),
            )
        } else {
            t
        },
    }
}

/// Renaming keeps the number of binders.
pub proof fn lemma_rename_binder_count(t: Tm, from: Name, to: Name)
    ensures
        binder_count(t.rename(from, to)) == binder_count(t),
    decreases t,
{
    match t {
        Tm::Variable(_) => {},
        Tm::Abstraction(_, b) => {
            lemma_rename_binder_count(*b, from, to);
        },
        Tm::Application(f, a) => {
            lemma_rename_binder_count(*f, from, to);
            lemma_rename_binder_count(*a, from, to);
        },
        Tm::Let(_, b, o) => {
            lemma_rename_binder_count(*b, from, to);
            lemma_rename_binder_count(*o, from, to);
        },
    }
}

/// After a renaming, a term holds the new name or names that it held before, and the old
/// name only if it is the new one.
pub proof fn lemma_rename_vars(t: Tm, from: Name, to: Name)
    ensures
        forall|n: Name|
            (#[trigger] t.rename(from, to).vars().contains(n)) ==> n == to || (t.vars().contains(
                n,
            ) && n != from),
    decreases t,
{
    match t {
        Tm::Variable(v) => {
            assert(t.rename(from, to).vars() =~= set![renamed(v, from, to)]);
        },
        Tm::Abstraction(v, b) => {
            lemma_rename_vars(*b, from, to);
            assert(t.rename(from, to).vars() =~= b.rename(from, to).vars().insert(
                renamed(v, from, to),
            ));
        },
        Tm::Application(f, a) => {
            lemma_rename_vars(*f, from, to);
            lemma_rename_vars(*a, from, to);
            assert(t.rename(from, to).vars() =~= f.rename(from, to).vars().union(
                a.rename(from, to).vars(),
            ));
        },
        Tm::Let(v, b, o) => {
            lemma_rename_vars(*b, from, to);
            lemma_rename_vars(*o, from, to);
            assert(t.rename(from, to).vars() =~= o.rename(from, to).vars().union(
                b.rename(from, to).vars(),
            ).insert(renamed(v, from, to)));
        },
    }
}

/// Renaming to a name that the term does not hold, and on from there, is one renaming.
pub proof fn lemma_rename_twice(t: Tm, x: Name, mid: Name, w: Name)
    requires
        !t.vars().contains(mid),
    ensures
        t.rename(x, mid).rename(mid, w) == t.rename(x, w),
    decreases t,
{
    match t {
        Tm::Variable(_) => {},
        Tm::Abstraction(_, b) => {
            lemma_rename_twice(*b, x, mid, w);
        },
        Tm::Application(f, a) => {
            lemma_rename_twice(*f, x, mid, w);
            lemma_rename_twice(*a, x, mid, w);
        },
        Tm::Let(_, b, o) => {
            lemma_rename_twice(*b, x, mid, w);
            lemma_rename_twice(*o, x, mid, w);
        },
    }
}

/// One name after a renaming.
pub open spec fn renamed(n: Name, from: Name, to: Name) -> Name {
    if n == from {
        to
    } else {
        n
    }
}

/// Two renamings may change places, if the second one is applied to the name that the first
/// one replaces.
pub proof fn lemma_rename_commute(t: Tm, y: Name, s: Name, a: Name, w: Name)
    requires
        !t.vars().contains(w),
        w != y,
        s != a,
    ensures
        t.rename(y, s).rename(a, w) == t.rename(a, w).rename(renamed(y, a, w), s),
    decreases t,
{
    match t {
        Tm::Variable(_) => {},
        Tm::Abstraction(_, b) => {
            lemma_rename_commute(*b, y, s, a, w);
        },
        Tm::Application(f, g) => {
            lemma_rename_commute(*f, y, s, a, w);
            lemma_rename_commute(*g, y, s, a, w);
        },
        Tm::Let(_, b, o) => {
            lemma_rename_commute(*b, y, s, a, w);
            lemma_rename_commute(*o, y, s, a, w);
        },
    }
}

/// Every new name is a name of the term with its binders renamed.
pub proof fn lemma_rebind_vars(t: Tm, names: Seq<Name>)
    requires
        names.len() == binder_count(t),
    ensures
        forall|i: int|
            0 <= i < names.len() ==> rebind(t, names).vars().contains(#[trigger] names[i]),
    decreases t.size(),
{
    match t {
        Tm::Variable(_) => {},
        Tm::Abstraction(x, b) => {
            let inner = b.rename(x, names[0]);
            lemma_rename_size(*b, x, names[0]);
            lemma_rename_binder_count(*b, x, names[0]);
            lemma_rebind_vars(inner, names.skip(1));
            assert forall|i: int| 0 <= i < names.len() implies rebind(t, names).vars().contains(
                #[trigger] names[i],
            ) by {
                if i > 0 {
                    assert(names.skip(1)[i - 1] == names[i]);
                }
            }
        },
        Tm::Application(f, a) => {
            let k = binder_count(*f) as int;
            lemma_rebind_vars(*f, names.take(k));
            lemma_rebind_vars(*a, names.skip(k));
            assert forall|i: int| 0 <= i < names.len() implies rebind(t, names).vars().contains(
                #[trigger] names[i],
            ) by {
                if i < k {
                    assert(names.take(k)[i] == names[i]);
                } else {
                    assert(names.skip(k)[i - k] == names[i]);
                }
            }
        },
        Tm::Let(x, b, o) => {
            let k = 1 + binder_count(*b) as int;
            let inner = o.rename(x, names[0]);
            lemma_rename_size(*o, x, names[0]);
            lemma_rename_binder_count(*o, x, names[0]);
            lemma_rebind_vars(*b, names.subrange(1, k));
            lemma_rebind_vars(inner, names.skip(k));
            assert forall|i: int| 0 <= i < names.len() implies rebind(t, names).vars().contains(
                #[trigger] names[i],
            ) by {
                if i == 0 {
                } else if i < k {
                    assert(names.subrange(1, k)[i - 1] == names[i]);
                } else {
                    assert(names.skip(k)[i - k] == names[i]);
                }
            }
        },
    }
}

/// Renaming a name that is none of the new binders, to a name that the term does not hold
/// and that is none of the new binders, may be done before the binders are renamed or
/// after.
pub proof fn lemma_rename_rebind(t: Tm, names: Seq<Name>, a: Name, w: Name)
    requires
        names.len() == binder_count(t),
        !names.contains(a),
        !names.contains(w),
        !t.vars().contains(w),
    ensures
        rebind(t, names).rename(a, w) == rebind(t.rename(a, w), names),
    decreases t.size(),
{
    lemma_rename_binder_count(t, a, w);
    match t {
        Tm::Variable(_) => {},
        Tm::Abstraction(y, c) => {
            let s = names[0];
            let rest = names.skip(1);
            assert(names.contains(s));
            assert forall|n: Name| rest.contains(n) implies names.contains(n) by {
                let i = choose|i: int| 0 <= i < rest.len() && rest[i] == n;
                assert(names[i + 1] == n);
            }
            let inner = c.rename(y, s);
            lemma_rename_size(*c, y, s);
            lemma_rename_binder_count(*c, y, s);
            lemma_rename_binder_count(*c, a, w);
            lemma_rename_vars(*c, y, s);
            lemma_rename_rebind(inner, rest, a, w);
            lemma_rename_commute(*c, y, s, a, w);
        },
        Tm::Application(f, g) => {
            let k = binder_count(*f) as int;
            assert forall|n: Name| names.take(k).contains(n) implies names.contains(n) by {
                let i = choose|i: int| 0 <= i < names.take(k).len() && names.take(k)[i] == n;
                assert(names[i] == n);
            }
            assert forall|n: Name| names.skip(k).contains(n) implies names.contains(n) by {
                let i = choose|i: int| 0 <= i < names.skip(k).len() && names.skip(k)[i] == n;
                assert(names[i + k] == n);
            }
            lemma_rename_binder_count(*f, a, w);
            lemma_rename_binder_count(*g, a, w);
            lemma_rename_rebind(*f, names.take(k), a, w);
            lemma_rename_rebind(*g, names.skip(k), a, w);
        },
        Tm::Let(y, b, o) => {
            let s = names[0];
            let k = 1 + binder_count(*b) as int;
            assert(names.contains(s));
            assert forall|n: Name| names.subrange(1, k).contains(n) implies names.contains(
                n,
            ) by {
                let i = choose|i: int|
                    0 <= i < names.subrange(1, k).len() && names.subrange(1, k)[i] == n;
                assert(names[i + 1] == n);
            }
            assert forall|n: Name| names.skip(k).contains(n) implies names.contains(n) by {
                let i = choose|i: int| 0 <= i < names.skip(k).len() && names.skip(k)[i] == n;
                assert(names[i + k] == n);
            }
            let inner = o.rename(y, s);
            lemma_rename_size(*o, y, s);
            lemma_rename_binder_count(*o, y, s);
            lemma_rename_binder_count(*o, a, w);
            lemma_rename_binder_count(*b, a, w);
            lemma_rename_vars(*o, y, s);
            lemma_rename_rebind(*b, names.subrange(1, k), a, w);
            lemma_rename_rebind(inner, names.skip(k), a, w);
            lemma_rename_commute(*o, y, s, a, w);
        },
    }
}

/// Every term is alpha-equivalent to itself.
pub proof fn lemma_alpha_reflexive(t: Tm)
    ensures
        t.alpha_eq(t),
    decreases t.size(),
{
    match t {
        Tm::Variable(_) => {},
        Tm::Abstraction(x, b) => {
            let w = crate::names::fresh_name(t.vars().union(t.vars()));
            lemma_rename_size(*b, x, w);
            lemma_alpha_reflexive(b.rename(x, w));
        },
        Tm::Application(f, a) => {
            lemma_alpha_reflexive(*f);
            lemma_alpha_reflexive(*a);
        },
        Tm::Let(x, b, o) => {
            let w = crate::names::fresh_name(t.vars().union(t.vars()));
            lemma_rename_size(*o, x, w);
            lemma_alpha_reflexive(*b);
            lemma_alpha_reflexive(o.rename(x, w));
        },
    }
}

/// A term is alpha-equivalent to the copy of itself in which every binder has a new name:
/// the new names differ from each other, and the term holds none of them.
pub proof fn lemma_alpha_rebind(t: Tm, names: Seq<Name>)
    requires
        names.len() == binder_count(t),
        names.no_duplicates(),
        forall|i: int| 0 <= i < names.len() ==> !t.vars().contains(#[trigger] names[i]),
    ensures
        t.alpha_eq(rebind(t, names)),
    decreases t.size(),
{
    let other = rebind(t, names);
    lemma_term_vars(t);
    lemma_term_vars(other);
    let w = crate::names::fresh_name(t.vars().union(other.vars()));
    lemma_fresh_name(t.vars().union(other.vars()));
    lemma_rebind_vars(t, names);
    match t {
        Tm::Variable(_) => {},
        Tm::Abstraction(x, b) => {
            let s = names[0];
            let rest = names.skip(1);
            let inner = b.rename(x, s);
            lemma_rename_size(*b, x, s);
            lemma_rename_size(*b, x, w);
            lemma_rename_binder_count(*b, x, s);
            lemma_rename_binder_count(*b, x, w);
            lemma_rename_vars(*b, x, s);
            lemma_rename_vars(*b, x, w);
            assert(other.vars().contains(s));
            assert forall|i: int| 0 <= i < rest.len() implies rest[i] == names[i + 1] by {}
            assert(!rest.contains(s)) by {
                if rest.contains(s) {
                    let i = choose|i: int| 0 <= i < rest.len() && rest[i] == s;
                    assert(names[i + 1] == names[0]);
                }
            }
            assert(!rest.contains(w)) by {
                if rest.contains(w) {
                    let i = choose|i: int| 0 <= i < rest.len() && rest[i] == w;
                    assert(other.vars().contains(names[i + 1]));
                }
            }
            // The other body, with its binder renamed to `w`, is the renamed body with new
            // binders.
            lemma_rename_rebind(inner, rest, s, w);
            lemma_rename_twice(*b, x, s, w);
            assert(rebind(inner, rest).rename(s, w) == rebind(b.rename(x, w), rest));
            assert(rest.no_duplicates());
            assert forall|i: int| 0 <= i < rest.len() implies !b.rename(x, w).vars().contains(
                #[trigger] rest[i],
            ) by {
                assert(rest[i] == names[i + 1]);
                assert(rest.contains(rest[i]));
            }
            lemma_alpha_rebind(b.rename(x, w), rest);
        },
        Tm::Application(f, a) => {
            let k = binder_count(*f) as int;
            assert forall|i: int| 0 <= i < names.take(k).len() implies !f.vars().contains(
                #[trigger] names.take(k)[i],
            ) by {
                assert(names.take(k)[i] == names[i]);
            }
            assert forall|i: int| 0 <= i < names.skip(k).len() implies !a.vars().contains(
                #[trigger] names.skip(k)[i],
            ) by {
                assert(names.skip(k)[i] == names[i + k]);
            }
            lemma_alpha_rebind(*f, names.take(k));
            lemma_alpha_rebind(*a, names.skip(k));
        },
        Tm::Let(x, b, o) => {
            let s = names[0];
            let k = 1 + binder_count(*b) as int;
            let front = names.subrange(1, k);
            let rest = names.skip(k);
            let inner = o.rename(x, s);
            lemma_rename_size(*o, x, s);
            lemma_rename_size(*o, x, w);
            lemma_rename_binder_count(*o, x, s);
            lemma_rename_binder_count(*o, x, w);
            lemma_rename_vars(*o, x, s);
            lemma_rename_vars(*o, x, w);
            assert(other.vars().contains(s));
            assert forall|i: int| 0 <= i < rest.len() implies rest[i] == names[i + k] by {}
            assert forall|i: int| 0 <= i < front.len() implies front[i] == names[i + 1] by {}
            assert(!rest.contains(s)) by {
                if rest.contains(s) {
                    let i = choose|i: int| 0 <= i < rest.len() && rest[i] == s;
                    assert(names[i + k] == names[0]);
                }
            }
            assert(!rest.contains(w)) by {
                if rest.contains(w) {
                    let i = choose|i: int| 0 <= i < rest.len() && rest[i] == w;
                    assert(other.vars().contains(names[i + k]));
                }
            }
            lemma_rename_rebind(inner, rest, s, w);
            lemma_rename_twice(*o, x, s, w);
            assert(rebind(inner, rest).rename(s, w) == rebind(o.rename(x, w), rest));
            assert(rest.no_duplicates());
            assert(front.no_duplicates());
            assert forall|i: int| 0 <= i < rest.len() implies !o.rename(x, w).vars().contains(
                #[trigger] rest[i],
            ) by {
                assert(rest[i] == names[i + k]);
                assert(rest.contains(rest[i]));
            }
            assert forall|i: int| 0 <= i < front.len() implies !b.vars().contains(
                #[trigger] front[i],
            ) by {
                assert(front[i] == names[i + 1]);
            }
            lemma_alpha_rebind(*b, front);
            lemma_alpha_rebind(o.rename(x, w), rest);
        },
    }
}

/// A name that is fresh for two terms and for a few names besides.
pub open spec fn fresh_for(a: Tm, b: Tm, others: Set<Name>) -> Name {
    fresh_name(a.vars().union(b.vars()).union(others))
}

/// The name that is fresh for two terms and a finite set of names occurs in none of them.
pub proof fn lemma_fresh_for(a: Tm, b: Tm, others: Set<Name>)
    requires
        others.finite(),
    ensures
        !a.vars().contains(fresh_for(a, b, others)),
        !b.vars().contains(fresh_for(a, b, others)),
        !others.contains(fresh_for(a, b, others)),
{
    lemma_term_vars(a);
    lemma_term_vars(b);
    lemma_fresh_name(a.vars().union(b.vars()).union(others));
}

/// The name that alpha-equivalence renames two binders to occurs in neither term.
pub proof fn lemma_common_fresh(a: Tm, b: Tm)
    ensures
        !a.vars().contains(fresh_name(a.vars().union(b.vars()))),
        !b.vars().contains(fresh_name(a.vars().union(b.vars()))),
{
    lemma_term_vars(a);
    lemma_term_vars(b);
    lemma_fresh_name(a.vars().union(b.vars()));
}

/// Alpha-equivalent terms stay alpha-equivalent when one name is renamed in both to a name
/// that neither of them holds.
pub proof fn lemma_alpha_rename(t: Tm, u: Tm, p: Name, q: Name)
    requires
        t.alpha_eq(u),
        !t.vars().contains(q),
        !u.vars().contains(q),
    ensures
        t.rename(p, q).alpha_eq(u.rename(p, q)),
    decreases t.size(), 1nat,
{
    match (t, u) {
        (Tm::Variable(_), Tm::Variable(_)) => {},
        (Tm::Abstraction(x, tb), Tm::Abstraction(y, ub)) => {
            lemma_alpha_rename_binders(t, u, x, *tb, y, *ub, p, q);
        },
        (Tm::Application(t1, u1), Tm::Application(t2, u2)) => {
            lemma_alpha_rename(*t1, *t2, p, q);
            lemma_alpha_rename(*u1, *u2, p, q);
        },
        (Tm::Let(x, b1, tb), Tm::Let(y, b2, ub)) => {
            lemma_alpha_rename(*b1, *b2, p, q);
            lemma_alpha_rename_binders(t, u, x, *tb, y, *ub, p, q);
        },
        _ => {},
    }
}

/// The step of `lemma_alpha_rename` for two binders: the bodies `tb` and `ub` of the terms
/// `t` and `u`, which bind `x` and `y`, stay alpha-equivalent under their binders when `p`
/// is renamed to `q` in both.
pub proof fn lemma_alpha_rename_binders(
    t: Tm,
    u: Tm,
    x: Name,
    tb: Tm,
    y: Name,
    ub: Tm,
    p: Name,
    q: Name,
)
    requires
        tb.size() < t.size(),
        tb.vars().insert(x).subset_of(t.vars()),
        ub.vars().insert(y).subset_of(u.vars()),
        tb.rename(p, q).vars().insert(renamed(x, p, q)).subset_of(t.rename(p, q).vars()),
        ub.rename(p, q).vars().insert(renamed(y, p, q)).subset_of(u.rename(p, q).vars()),
        tb.rename(x, fresh_name(t.vars().union(u.vars()))).alpha_eq(
            ub.rename(y, fresh_name(t.vars().union(u.vars()))),
        ),
        !t.vars().contains(q),
        !u.vars().contains(q),
    ensures
        ({
            let w2 = fresh_name(t.rename(p, q).vars().union(u.rename(p, q).vars()));
            tb.rename(p, q).rename(renamed(x, p, q), w2).alpha_eq(
                ub.rename(p, q).rename(renamed(y, p, q), w2),
            )
        }),
    decreases t.size(), 0nat,
{
    let w1 = fresh_name(t.vars().union(u.vars()));
    let w2 = fresh_name(t.rename(p, q).vars().union(u.rename(p, q).vars()));
    let z = fresh_for(t, u, set![p, q, w1, w2]);
    lemma_common_fresh(t, u);
    lemma_common_fresh(t.rename(p, q), u.rename(p, q));
    lemma_fresh_for(t, u, set![p, q, w1, w2]);
    // From the common name `w1` to `z`.
    let t1 = tb.rename(x, w1);
    let u1 = ub.rename(y, w1);
    lemma_rename_size(tb, x, w1);
    lemma_rename_vars(tb, x, w1);
    lemma_rename_vars(ub, y, w1);
    lemma_alpha_rename(t1, u1, w1, z);
    lemma_rename_twice(tb, x, w1, z);
    lemma_rename_twice(ub, y, w1, z);
    // The renaming of `p` to `q`, which may be done before the binders are renamed.
    let t2 = tb.rename(x, z);
    let u2 = ub.rename(y, z);
    lemma_rename_size(tb, x, z);
    lemma_rename_vars(tb, x, z);
    lemma_rename_vars(ub, y, z);
    lemma_alpha_rename(t2, u2, p, q);
    lemma_rename_commute(tb, x, z, p, q);
    lemma_rename_commute(ub, y, z, p, q);
    // From `z` to the common name `w2` of the renamed terms.
    let x2 = renamed(x, p, q);
    let y2 = renamed(y, p, q);
    let t3 = tb.rename(p, q).rename(x2, z);
    let u3 = ub.rename(p, q).rename(y2, z);
    lemma_rename_size(tb, p, q);
    lemma_rename_size(tb.rename(p, q), x2, z);
    lemma_rename_vars(tb, p, q);
    lemma_rename_vars(ub, p, q);
    lemma_rename_vars(tb.rename(p, q), x2, z);
    lemma_rename_vars(ub.rename(p, q), y2, z);
    lemma_alpha_rename(t3, u3, z, w2);
    lemma_rename_twice(tb.rename(p, q), x2, z, w2);
    lemma_rename_twice(ub.rename(p, q), y2, z, w2);
}


/// The bodies of two binders may be compared under any name that neither term holds: the
/// bodies `tb` and `ub` of the terms `t` and `u`, which bind `x` and `y`, are
/// alpha-equivalent under the name that alpha-equivalence picks just when they are under
/// `w`.
pub proof fn lemma_alpha_any_fresh(t: Tm, u: Tm, x: Name, tb: Tm, y: Name, ub: Tm, w: Name)
    requires
        tb.vars().insert(x).subset_of(t.vars()),
        ub.vars().insert(y).subset_of(u.vars()),
        !t.vars().contains(w),
        !u.vars().contains(w),
    ensures
        tb.rename(x, fresh_name(t.vars().union(u.vars()))).alpha_eq(
            ub.rename(y, fresh_name(t.vars().union(u.vars()))),
        ) == tb.rename(x, w).alpha_eq(ub.rename(y, w)),
{
    let w0 = fresh_name(t.vars().union(u.vars()));
    lemma_common_fresh(t, u);
    lemma_rename_vars(tb, x, w0);
    lemma_rename_vars(ub, y, w0);
    lemma_rename_vars(tb, x, w);
    lemma_rename_vars(ub, y, w);
    lemma_rename_twice(tb, x, w0, w);
    lemma_rename_twice(ub, y, w0, w);
    lemma_rename_twice(tb, x, w, w0);
    lemma_rename_twice(ub, y, w, w0);
    if w == w0 {
    } else {
        if tb.rename(x, w0).alpha_eq(ub.rename(y, w0)) {
            lemma_alpha_rename(tb.rename(x, w0), ub.rename(y, w0), w0, w);
        }
        if tb.rename(x, w).alpha_eq(ub.rename(y, w)) {
            lemma_alpha_rename(tb.rename(x, w), ub.rename(y, w), w, w0);
        }
    }
}

/// Alpha-equivalence is symmetric.
pub proof fn lemma_alpha_symmetric(a: Tm, b: Tm)
    requires
        a.alpha_eq(b),
    ensures
        b.alpha_eq(a),
    decreases a.size(),
{
    let w = fresh_name(a.vars().union(b.vars()));
    assert(a.vars().union(b.vars()) =~= b.vars().union(a.vars()));
    match (a, b) {
        (Tm::Variable(_), Tm::Variable(_)) => {},
        (Tm::Abstraction(x, t), Tm::Abstraction(y, u)) => {
            lemma_rename_size(*t, x, w);
            lemma_alpha_symmetric(t.rename(x, w), u.rename(y, w));
        },
        (Tm::Application(t1, u1), Tm::Application(t2, u2)) => {
            lemma_alpha_symmetric(*t1, *t2);
            lemma_alpha_symmetric(*u1, *u2);
        },
        (Tm::Let(x, b1, t), Tm::Let(y, b2, u)) => {
            lemma_rename_size(*t, x, w);
            lemma_alpha_symmetric(*b1, *b2);
            lemma_alpha_symmetric(t.rename(x, w), u.rename(y, w));
        },
        _ => {},
    }
}

/// Alpha-equivalence is transitive.
pub proof fn lemma_alpha_transitive(a: Tm, b: Tm, c: Tm)
    requires
        a.alpha_eq(b),
        b.alpha_eq(c),
    ensures
        a.alpha_eq(c),
    decreases a.size(),
{
    lemma_term_vars(c);
    let v = fresh_for(a, b, c.vars());
    lemma_fresh_for(a, b, c.vars());
    match (a, b, c) {
        (Tm::Variable(_), Tm::Variable(_), Tm::Variable(_)) => {},
        (Tm::Abstraction(x, ta), Tm::Abstraction(y, tb), Tm::Abstraction(z, tc)) => {
            lemma_alpha_any_fresh(a, b, x, *ta, y, *tb, v);
            lemma_alpha_any_fresh(b, c, y, *tb, z, *tc, v);
            lemma_alpha_any_fresh(a, c, x, *ta, z, *tc, v);
            lemma_rename_size(*ta, x, v);
            lemma_alpha_transitive(ta.rename(x, v), tb.rename(y, v), tc.rename(z, v));
        },
        (Tm::Application(t1, u1), Tm::Application(t2, u2), Tm::Application(t3, u3)) => {
            lemma_alpha_transitive(*t1, *t2, *t3);
            lemma_alpha_transitive(*u1, *u2, *u3);
        },
        (Tm::Let(x, b1, ta), Tm::Let(y, b2, tb), Tm::Let(z, b3, tc)) => {
            lemma_alpha_transitive(*b1, *b2, *b3);
            lemma_alpha_any_fresh(a, b, x, *ta, y, *tb, v);
            lemma_alpha_any_fresh(b, c, y, *tb, z, *tc, v);
            lemma_alpha_any_fresh(a, c, x, *ta, z, *tc, v);
            lemma_rename_size(*ta, x, v);
            lemma_alpha_transitive(ta.rename(x, v), tb.rename(y, v), tc.rename(z, v));
        },
        _ => {},
    }
}


/// The free names of a term after a renaming to a name that the term does not hold: the
/// old name gives way to the new one where it was free.
pub proof fn lemma_rename_free_vars(t: Tm, from: Name, to: Name)
    requires
        !t.vars().contains(to),
    ensures
        t.rename(from, to).free_vars() == if t.free_vars().contains(from) {
            t.free_vars().remove(from).insert(to)
        } else {
            t.free_vars()
        },
    decreases t,
{
    lemma_term_vars(t);
    let after = t.rename(from, to).free_vars();
    let wanted = if t.free_vars().contains(from) {
        t.free_vars().remove(from).insert(to)
    } else {
        t.free_vars()
    };
    match t {
        Tm::Variable(v) => {
            assert(after =~= wanted);
        },
        Tm::Abstraction(v, b) => {
            lemma_rename_free_vars(*b, from, to);
            lemma_term_vars(*b);
            assert(after =~= wanted);
        },
        Tm::Application(f, a) => {
            lemma_rename_free_vars(*f, from, to);
            lemma_rename_free_vars(*a, from, to);
            lemma_term_vars(*f);
            lemma_term_vars(*a);
            assert(after =~= wanted);
        },
        Tm::Let(v, b, o) => {
            lemma_rename_free_vars(*b, from, to);
            lemma_rename_free_vars(*o, from, to);
            lemma_term_vars(*b);
            lemma_term_vars(*o);
            assert(after =~= wanted);
        },
    }
}

/// Alpha-equivalence is sound for free names: alpha-equivalent terms have the same free
/// names.
pub proof fn lemma_alpha_free_vars(a: Tm, b: Tm)
    requires
        a.alpha_eq(b),
    ensures
        a.free_vars() == b.free_vars(),
    decreases a.size(),
{
    let w = fresh_name(a.vars().union(b.vars()));
    lemma_common_fresh(a, b);
    lemma_term_vars(a);
    lemma_term_vars(b);
    match (a, b) {
        (Tm::Variable(_), Tm::Variable(_)) => {},
        (Tm::Abstraction(x, t), Tm::Abstraction(y, u)) => {
            lemma_rename_size(*t, x, w);
            lemma_alpha_free_vars(t.rename(x, w), u.rename(y, w));
            lemma_rename_free_vars(*t, x, w);
            lemma_rename_free_vars(*u, y, w);
            lemma_term_vars(*t);
            lemma_term_vars(*u);
            assert(a.free_vars() =~= t.rename(x, w).free_vars().remove(w));
            assert(b.free_vars() =~= u.rename(y, w).free_vars().remove(w));
        },
        (Tm::Application(t1, u1), Tm::Application(t2, u2)) => {
            lemma_alpha_free_vars(*t1, *t2);
            lemma_alpha_free_vars(*u1, *u2);
        },
        (Tm::Let(x, b1, t), Tm::Let(y, b2, u)) => {
            lemma_rename_size(*t, x, w);
            lemma_alpha_free_vars(*b1, *b2);
            lemma_alpha_free_vars(t.rename(x, w), u.rename(y, w));
            lemma_rename_free_vars(*t, x, w);
            lemma_rename_free_vars(*u, y, w);
            lemma_term_vars(*t);
            lemma_term_vars(*u);
            assert(t.free_vars().remove(x) =~= t.rename(x, w).free_vars().remove(w));
            assert(u.free_vars().remove(y) =~= u.rename(y, w).free_vars().remove(w));
        },
        _ => {},
    }
}


/// The free names of the result of a substitution: the free names of the term without
/// `from`, and, where `from` is free in the term, the free names of what is substituted.
/// None of these is lost to a binder, and no other name becomes free.
pub proof fn lemma_substitute_free_vars(t: Tm, from: Name, to: Tm)
    ensures
        t.subst(from, to).free_vars() == t.free_vars().remove(from).union(
            if t.free_vars().contains(from) {
                to.free_vars()
            } else {
                Set::empty()
            },
        ),
    decreases t.size(),
{
    let brought = |s: Tm|
        if s.free_vars().contains(from) {
            to.free_vars()
        } else {
            Set::<Name>::empty()
        };
    let w = t.binder_for(from, to);
    lemma_binder_for(t, from, to);
    lemma_term_vars(to);
    lemma_term_vars(t);
    let after = t.subst(from, to).free_vars();
    let wanted = t.free_vars().remove(from).union(brought(t));
    match t {
        Tm::Variable(_) => {
            assert(after =~= wanted);
        },
        Tm::Abstraction(v, b) => {
            if v != from {
                let inner = b.rename(v, w);
                lemma_rename_size(*b, v, w);
                lemma_term_vars(*b);
                lemma_rename_free_vars(*b, v, w);
                lemma_substitute_free_vars(inner, from, to);
                assert(inner.free_vars().contains(from) == b.free_vars().contains(from));
                assert(after =~= wanted);
            } else {
                assert(after =~= wanted);
            }
        },
        Tm::Application(f, a) => {
            lemma_substitute_free_vars(*f, from, to);
            lemma_substitute_free_vars(*a, from, to);
            assert(after =~= wanted);
        },
        Tm::Let(v, b, o) => {
            lemma_substitute_free_vars(*b, from, to);
            if v != from {
                let inner = o.rename(v, w);
                lemma_rename_size(*o, v, w);
                lemma_term_vars(*o);
                lemma_rename_free_vars(*o, v, w);
                lemma_substitute_free_vars(inner, from, to);
                assert(inner.free_vars().contains(from) == o.free_vars().contains(from));
                assert(after =~= wanted);
            } else {
                assert(after =~= wanted);
            }
        },
    }
}

} // verus!
