//! What holds of the unifier for every list of equations: what it returns solves the
//! equations, every other solution is an instance of it, and it fails only where there is
//! no solution.
use vstd::prelude::*;

use super::types::{lemma_size_positive, Ty};
use super::unify::{
    apply_bindings, bind_all, compose, extend, lemma_apply_bindings_concat, lemma_bind_all_vars,
    lemma_bind_vars,
    problem_size, problem_vars, solve, step, unifier, Step, TyError,
};
use crate::names::Name;

verus! {

/// Whether the substitution makes both sides of every equation the same type.
pub open spec fn unifies(mapping: Map<Name, Ty>, eqs: Seq<(Ty, Ty)>) -> bool {
    forall|i: int|
        0 <= i < eqs.len() ==> (#[trigger] eqs[i]).0.subst(mapping) == eqs[i].1.subst(mapping)
}

/// Whether the bindings, applied in order, make both sides of every equation the same type.
pub open spec fn solved_by(bindings: Seq<(Name, Ty)>, eqs: Seq<(Ty, Ty)>) -> bool {
    forall|i: int|
        0 <= i < eqs.len() ==> apply_bindings((#[trigger] eqs[i]).0, bindings) == apply_bindings(
            eqs[i].1,
            bindings,
        )
}

/// Whether no name is bound twice.
pub open spec fn bound_once(bindings: Seq<(Name, Ty)>) -> bool {
    forall|i: int, j: int|
        0 <= i < j < bindings.len() ==> (#[trigger] bindings[i]).0 != (#[trigger] bindings[j]).0
}

/// Bindings go through a function type to its domain and codomain.
pub proof fn lemma_apply_fn(t: Ty, u: Ty, bindings: Seq<(Name, Ty)>)
    ensures
        apply_bindings(Ty::Fn(Box::new(t), Box::new(u)), bindings) == Ty::Fn(
            Box::new(apply_bindings(t, bindings)),
            Box::new(apply_bindings(u, bindings)),
        ),
    decreases bindings.len(),
{
    if bindings.len() > 0 {
        lemma_apply_fn(t, u, bindings.drop_last());
    }
}

/// A first binding may be applied before the others.
pub proof fn lemma_apply_first(ty: Ty, var: Name, to: Ty, rest: Seq<(Name, Ty)>)
    ensures
        apply_bindings(ty, seq![(var, to)] + rest) == apply_bindings(ty.bind(var, to), rest),
{
    let first = seq![(var, to)];
    lemma_apply_bindings_concat(ty, first, rest);
    assert(first.drop_last() =~= Seq::<(Name, Ty)>::empty());
    assert(apply_bindings(ty, first.drop_last()) == ty);
    assert(first.last() == (var, to));
    assert(apply_bindings(ty, first) == ty.bind(var, to));
}

/// The equations that are left of a problem have its meta-variables or fewer.
pub proof fn lemma_rest_vars(eqs: Seq<(Ty, Ty)>)
    requires
        eqs.len() > 0,
    ensures
        problem_vars(eqs.drop_last()).subset_of(problem_vars(eqs)),
        eqs.last().0.vars().subset_of(problem_vars(eqs)),
        eqs.last().1.vars().subset_of(problem_vars(eqs)),
{
}

/// The unifier binds meta-variables of the problem, each once.
pub proof fn lemma_solve_names(eqs: Seq<(Ty, Ty)>)
    ensures
        solve(eqs) matches Ok(bindings) ==> bound_once(bindings) && forall|k: int|
            0 <= k < bindings.len() ==> problem_vars(eqs).contains((#[trigger] bindings[k]).0),
    decreases problem_vars(eqs).len(), problem_size(eqs),
{
    if eqs.len() > 0 {
        let rest = eqs.drop_last();
        super::unify::lemma_step_decreases(eqs);
        lemma_rest_vars(eqs);
        match step(eqs.last().0, eqs.last().1) {
            Step::Discard => {
                lemma_solve_names(rest);
            },
            Step::Decompose(t1, u1, t2, u2) => {
                lemma_solve_names(rest.push((t1, t2)).push((u1, u2)));
            },
            Step::Bind(v, t) => {
                let next = bind_all(rest, v, t);
                lemma_solve_names(next);
                lemma_bind_all_vars(rest, v, t);
                match solve(next) {
                    Ok(tail) => {
                        let bindings = seq![(v, t)] + tail;
                        assert forall|k: int| 0 <= k < bindings.len() implies problem_vars(
                            eqs,
                        ).contains((#[trigger] bindings[k]).0) by {
                            if k > 0 {
                                assert(bindings[k] == tail[k - 1]);
                                assert(problem_vars(next).contains(tail[k - 1].0));
                            }
                        }
                        assert forall|i: int, j: int| 0 <= i < j < bindings.len() implies (
                        #[trigger] bindings[i]).0 != (#[trigger] bindings[j]).0 by {
                            assert(bindings[j] == tail[j - 1]);
                            assert(problem_vars(next).contains(tail[j - 1].0));
                            if i > 0 {
                                assert(bindings[i] == tail[i - 1]);
                            }
                        }
                    },
                    Err(_) => {},
                }
            },
            Step::Fail(_) => {},
        }
    }
}

/// What the unifier returns solves the equations: with the bindings applied, both sides of
/// every equation are the same type.
pub proof fn lemma_solve_sound(eqs: Seq<(Ty, Ty)>)
    ensures
        solve(eqs) matches Ok(bindings) ==> solved_by(bindings, eqs),
    decreases problem_vars(eqs).len(), problem_size(eqs),
{
    if eqs.len() > 0 {
        let rest = eqs.drop_last();
        let lhs = eqs.last().0;
        let rhs = eqs.last().1;
        super::unify::lemma_step_decreases(eqs);
        match step(lhs, rhs) {
            Step::Discard => {
                lemma_solve_sound(rest);
                match solve(rest) {
                    Ok(bindings) => {
                        assert forall|i: int| 0 <= i < eqs.len() implies apply_bindings(
                            (#[trigger] eqs[i]).0,
                            bindings,
                        ) == apply_bindings(eqs[i].1, bindings) by {
                            if i < rest.len() {
                                assert(eqs[i] == rest[i]);
                            }
                        }
                    },
                    Err(_) => {},
                }
            },
            Step::Decompose(t1, u1, t2, u2) => {
                let next = rest.push((t1, t2)).push((u1, u2));
                lemma_solve_sound(next);
                match solve(next) {
                    Ok(bindings) => {
                        assert forall|i: int| 0 <= i < eqs.len() implies apply_bindings(
                            (#[trigger] eqs[i]).0,
                            bindings,
                        ) == apply_bindings(eqs[i].1, bindings) by {
                            if i < rest.len() {
                                assert(eqs[i] == next[i]);
                            } else {
                                assert(next[rest.len() as int] == (t1, t2));
                                assert(next[rest.len() as int + 1] == (u1, u2));
                                lemma_apply_fn(t1, u1, bindings);
                                lemma_apply_fn(t2, u2, bindings);
                            }
                        }
                    },
                    Err(_) => {},
                }
            },
            Step::Bind(v, t) => {
                let next = bind_all(rest, v, t);
                lemma_solve_sound(next);
                match solve(next) {
                    Ok(tail) => {
                        let bindings = seq![(v, t)] + tail;
                        assert forall|i: int| 0 <= i < eqs.len() implies apply_bindings(
                            (#[trigger] eqs[i]).0,
                            bindings,
                        ) == apply_bindings(eqs[i].1, bindings) by {
                            lemma_apply_first(eqs[i].0, v, t, tail);
                            lemma_apply_first(eqs[i].1, v, t, tail);
                            if i < rest.len() {
                                assert(eqs[i] == rest[i]);
                                assert(next[i] == (rest[i].0.bind(v, t), rest[i].1.bind(v, t)));
                            } else {
                                lemma_bind_vars(t, v, t);
                            }
                        }
                    },
                    Err(_) => {},
                }
            },
            Step::Fail(_) => {},
        }
    }
}

/// Binding a meta-variable to a type and then applying a substitution that gives the
/// variable that same type, with itself applied, is applying the substitution alone.
pub proof fn lemma_bind_then_subst(ty: Ty, var: Name, to: Ty, mapping: Map<Name, Ty>)
    requires
        Ty::Variable(var).subst(mapping) == to.subst(mapping),
    ensures
        ty.bind(var, to).subst(mapping) == ty.subst(mapping),
    decreases ty,
{
    match ty {
        Ty::Fn(t, u) => {
            lemma_bind_then_subst(*t, var, to, mapping);
            lemma_bind_then_subst(*u, var, to, mapping);
        },
        _ => {},
    }
}

/// A substitution that solves a problem solves it with one of its bindings made first.
pub proof fn lemma_unifies_bind_all(
    mapping: Map<Name, Ty>,
    rest: Seq<(Ty, Ty)>,
    var: Name,
    to: Ty,
)
    requires
        unifies(mapping, rest),
        Ty::Variable(var).subst(mapping) == to.subst(mapping),
    ensures
        unifies(mapping, bind_all(rest, var, to)),
{
    let next = bind_all(rest, var, to);
    assert forall|i: int| 0 <= i < next.len() implies (#[trigger] next[i]).0.subst(mapping)
        == next[i].1.subst(mapping) by {
        lemma_bind_then_subst(rest[i].0, var, to, mapping);
        lemma_bind_then_subst(rest[i].1, var, to, mapping);
        assert(rest[i].0.subst(mapping) == rest[i].1.subst(mapping));
    }
}

/// What a step leaves of a problem is solved by every substitution that solves the problem.
pub proof fn lemma_unifies_step(mapping: Map<Name, Ty>, eqs: Seq<(Ty, Ty)>)
    requires
        eqs.len() > 0,
        unifies(mapping, eqs),
    ensures
        unifies(mapping, eqs.drop_last()),
        match step(eqs.last().0, eqs.last().1) {
            Step::Discard => true,
            Step::Decompose(t1, u1, t2, u2) => unifies(
                mapping,
                eqs.drop_last().push((t1, t2)).push((u1, u2)),
            ),
            Step::Bind(v, t) => Ty::Variable(v).subst(mapping) == t.subst(mapping) && unifies(
                mapping,
                bind_all(eqs.drop_last(), v, t),
            ),
            Step::Fail(_) => true,
        },
{
    let rest = eqs.drop_last();
    let lhs = eqs.last().0;
    let rhs = eqs.last().1;
    assert(eqs[eqs.len() - 1].0.subst(mapping) == eqs[eqs.len() - 1].1.subst(mapping));
    assert forall|i: int| 0 <= i < rest.len() implies (#[trigger] rest[i]).0.subst(mapping)
        == rest[i].1.subst(mapping) by {
        assert(rest[i] == eqs[i]);
    }
    match step(lhs, rhs) {
        Step::Decompose(t1, u1, t2, u2) => {
            let next = rest.push((t1, t2)).push((u1, u2));
            assert forall|i: int| 0 <= i < next.len() implies (#[trigger] next[i]).0.subst(mapping)
                == next[i].1.subst(mapping) by {
                if i < rest.len() {
                    assert(next[i] == rest[i]);
                }
            }
        },
        Step::Bind(v, t) => {
            lemma_unifies_bind_all(mapping, rest, v, t);
        },
        _ => {},
    }
}

/// What the unifier returns is a most general solution: for every substitution that solves
/// the equations, applying the bindings first makes no difference.
pub proof fn lemma_solve_most_general(eqs: Seq<(Ty, Ty)>, mapping: Map<Name, Ty>, ty: Ty)
    requires
        unifies(mapping, eqs),
    ensures
        solve(eqs) matches Ok(bindings) ==> apply_bindings(ty, bindings).subst(mapping)
            == ty.subst(mapping),
    decreases problem_vars(eqs).len(), problem_size(eqs),
{
    if eqs.len() > 0 {
        let rest = eqs.drop_last();
        super::unify::lemma_step_decreases(eqs);
        lemma_unifies_step(mapping, eqs);
        match step(eqs.last().0, eqs.last().1) {
            Step::Discard => {
                lemma_solve_most_general(rest, mapping, ty);
            },
            Step::Decompose(t1, u1, t2, u2) => {
                lemma_solve_most_general(rest.push((t1, t2)).push((u1, u2)), mapping, ty);
            },
            Step::Bind(v, t) => {
                let next = bind_all(rest, v, t);
                lemma_solve_most_general(next, mapping, ty.bind(v, t));
                match solve(next) {
                    Ok(tail) => {
                        lemma_apply_first(ty, v, t, tail);
                        lemma_bind_then_subst(ty, v, t, mapping);
                    },
                    Err(_) => {},
                }
            },
            Step::Fail(_) => {},
        }
    }
}

/// A type that holds a meta-variable is, after a substitution, at least as large as what
/// the variable becomes, and larger if it is not the variable itself.
pub proof fn lemma_subst_size(ty: Ty, var: Name, mapping: Map<Name, Ty>)
    requires
        ty.vars().contains(var),
    ensures
        ty.subst(mapping).size() >= Ty::Variable(var).subst(mapping).size(),
        ty != Ty::Variable(var) ==> ty.subst(mapping).size() > Ty::Variable(var).subst(
            mapping,
        ).size(),
    decreases ty,
{
    match ty {
        Ty::Fn(t, u) => {
            lemma_size_positive(t.subst(mapping));
            lemma_size_positive(u.subst(mapping));
            if t.vars().contains(var) {
                lemma_subst_size(*t, var, mapping);
            } else {
                lemma_subst_size(*u, var, mapping);
            }
        },
        _ => {},
    }
}

/// The unifier fails only where the equations have no solution.
pub proof fn lemma_solve_complete(eqs: Seq<(Ty, Ty)>, mapping: Map<Name, Ty>)
    requires
        solve(eqs) is Err,
    ensures
        !unifies(mapping, eqs),
    decreases problem_vars(eqs).len(), problem_size(eqs),
{
    if unifies(mapping, eqs) {
        let rest = eqs.drop_last();
        let lhs = eqs.last().0;
        let rhs = eqs.last().1;
        super::unify::lemma_step_decreases(eqs);
        lemma_unifies_step(mapping, eqs);
        assert(lhs.subst(mapping) == rhs.subst(mapping)) by {
            assert(eqs[eqs.len() - 1] == (lhs, rhs));
        }
        match step(lhs, rhs) {
            Step::Discard => {
                lemma_solve_complete(rest, mapping);
            },
            Step::Decompose(t1, u1, t2, u2) => {
                lemma_solve_complete(rest.push((t1, t2)).push((u1, u2)), mapping);
            },
            Step::Bind(v, t) => {
                lemma_solve_complete(bind_all(rest, v, t), mapping);
            },
            Step::Fail(e) => {
                match e {
                    TyError::OccursCheckFailure(v, inside) => {
                        lemma_subst_size(inside, v, mapping);
                    },
                    _ => {},
                }
            },
        }
    }
}

/// With a binding of a name that is not bound yet added to a mapping, a type becomes what
/// it becomes with the mapping, with the binding applied after it.
pub proof fn lemma_subst_extend(ty: Ty, acc: Map<Name, Ty>, var: Name, to: Ty)
    requires
        !acc.contains_key(var),
    ensures
        ty.subst(extend(acc, var, to)) == ty.subst(acc).bind(var, to),
    decreases ty,
{
    match ty {
        Ty::Fn(t, u) => {
            lemma_subst_extend(*t, acc, var, to);
            lemma_subst_extend(*u, acc, var, to);
        },
        _ => {},
    }
}

/// The mapping that the bindings compose to does to a type what the bindings do one after
/// the other, where no name is bound twice.
pub proof fn lemma_compose_applies(ty: Ty, acc: Map<Name, Ty>, bindings: Seq<(Name, Ty)>)
    requires
        bound_once(bindings),
        forall|k: int| 0 <= k < bindings.len() ==> !acc.contains_key((#[trigger] bindings[k]).0),
    ensures
        ty.subst(compose(acc, bindings)) == apply_bindings(ty.subst(acc), bindings),
    decreases bindings.len(),
{
    if bindings.len() > 0 {
        let var = bindings[0].0;
        let to = bindings[0].1;
        let rest = bindings.skip(1);
        let next = extend(acc, var, to);
        assert forall|k: int| 0 <= k < rest.len() implies !next.contains_key(
            (#[trigger] rest[k]).0,
        ) by {
            assert(rest[k] == bindings[k + 1]);
        }
        assert forall|i: int, j: int| 0 <= i < j < rest.len() implies (#[trigger] rest[i]).0 != (
        #[trigger] rest[j]).0 by {
            assert(rest[i] == bindings[i + 1]);
            assert(rest[j] == bindings[j + 1]);
        }
        lemma_compose_applies(ty, next, rest);
        lemma_subst_extend(ty, acc, var, to);
        lemma_apply_first(ty.subst(acc), var, to, rest);
        assert(seq![(var, to)] + rest =~= bindings);
    }
}

/// A type with the empty substitution applied is the type itself.
pub proof fn lemma_subst_empty(ty: Ty)
    ensures
        ty.subst(Map::empty()) == ty,
    decreases ty,
{
    match ty {
        Ty::Fn(t, u) => {
            lemma_subst_empty(*t);
            lemma_subst_empty(*u);
        },
        _ => {},
    }
}

/// The substitution that the unifier returns does to every type what its bindings do one
/// after the other.
pub proof fn lemma_unifier_applies(eqs: Seq<(Ty, Ty)>, ty: Ty)
    ensures
        solve(eqs) matches Ok(bindings) ==> unifier(eqs, Map::empty()) == Ok::<
            Map<Name, Ty>,
            TyError,
        >(compose(Map::empty(), bindings)) && ty.subst(compose(Map::empty(), bindings))
            == apply_bindings(ty, bindings),
{
    lemma_solve_names(eqs);
    match solve(eqs) {
        Ok(bindings) => {
            lemma_compose_applies(ty, Map::empty(), bindings);
            lemma_subst_empty(ty);
        },
        Err(_) => {},
    }
}

/// The unifier is sound: the substitution that it returns makes both sides of every
/// equation the same type.
pub proof fn lemma_unifier_sound(eqs: Seq<(Ty, Ty)>)
    ensures
        unifier(eqs, Map::empty()) matches Ok(mapping) ==> unifies(mapping, eqs),
{
    lemma_solve_sound(eqs);
    match solve(eqs) {
        Ok(bindings) => {
            let mapping = compose(Map::empty(), bindings);
            assert forall|i: int| 0 <= i < eqs.len() implies (#[trigger] eqs[i]).0.subst(mapping)
                == eqs[i].1.subst(mapping) by {
                lemma_unifier_applies(eqs, eqs[i].0);
                lemma_unifier_applies(eqs, eqs[i].1);
            }
        },
        Err(_) => {},
    }
}

/// The unifier returns a most general solution: every substitution that solves the
/// equations does to a type what it does after the substitution that the unifier returns.
pub proof fn lemma_unifier_most_general(eqs: Seq<(Ty, Ty)>, other: Map<Name, Ty>, ty: Ty)
    requires
        unifies(other, eqs),
    ensures
        unifier(eqs, Map::empty()) matches Ok(mapping) ==> ty.subst(mapping).subst(other)
            == ty.subst(other),
{
    lemma_solve_most_general(eqs, other, ty);
    lemma_unifier_applies(eqs, ty);
}

/// The unifier is complete: it fails only where no substitution solves the equations.
pub proof fn lemma_unifier_complete(eqs: Seq<(Ty, Ty)>, other: Map<Name, Ty>)
    requires
        unifier(eqs, Map::empty()) is Err,
    ensures
        !unifies(other, eqs),
{
    lemma_solve_complete(eqs, other);
}

/// The substitution that the unifier returns is idempotent: applied twice, it does what it
/// does applied once.
pub proof fn lemma_unifier_idempotent(eqs: Seq<(Ty, Ty)>, ty: Ty)
    ensures
        unifier(eqs, Map::empty()) matches Ok(mapping) ==> ty.subst(mapping).subst(mapping)
            == ty.subst(mapping),
{
    lemma_unifier_sound(eqs);
    match unifier(eqs, Map::empty()) {
        Ok(mapping) => {
            lemma_unifier_most_general(eqs, mapping, ty);
        },
        Err(_) => {},
    }
}


/// Whether `special` is `general` with a substitution applied.
pub open spec fn instance_of(special: Ty, general: Ty) -> bool {
    exists|mapping: Map<Name, Ty>| general.subst(mapping) == special
}

/// Whether each of the two types is an instance of the other.
pub open spec fn variants(a: Ty, b: Ty) -> bool {
    instance_of(a, b) && instance_of(b, a)
}

/// The type with each meta-variable that `names` holds renamed as `names` says.
pub open spec fn renamed_type(ty: Ty, names: Map<Name, Name>) -> Ty
    decreases ty,
{
    match ty {
        Ty::Variable(v) => if names.contains_key(v) {
            Ty::Variable(names[v])
        } else {
            ty
        },
        Ty::GenVariable(_) => ty,
        Ty::Fn(t, u) => Ty::Fn(
            Box::new(renamed_type(*t, names)),
            Box::new(renamed_type(*u, names)),
        ),
    }
}

/// Whether `b` is `a` with its meta-variables renamed, different variables to different
/// names: the two are the same type up to the names of their meta-variables.
pub open spec fn same_up_to_names(a: Ty, b: Ty) -> bool {
    exists|names: Map<Name, Name>|
        {
            &&& names.dom() == a.vars()
            &&& forall|v: Name, w: Name|
                a.vars().contains(v) && a.vars().contains(w) && #[trigger] names[v]
                    == #[trigger] names[w] ==> v == w
            &&& #[trigger] renamed_type(a, names) == b
        }
}

/// The name that a substitution gives to a meta-variable, where it gives it a name.
pub open spec fn name_under(mapping: Map<Name, Ty>, v: Name) -> Name {
    match Ty::Variable(v).subst(mapping) {
        Ty::Variable(w) => w,
        _ => v,
    }
}

/// A substitution that another one undoes on a type only renames the meta-variables of the
/// type, and the other one renames them back.
pub proof fn lemma_undone_renames(ty: Ty, there: Map<Name, Ty>, back: Map<Name, Ty>)
    requires
        ty.subst(there).subst(back) == ty,
    ensures
        forall|v: Name|
            (#[trigger] ty.vars().contains(v)) ==> Ty::Variable(v).subst(there) == Ty::Variable(
                name_under(there, v),
            ) && Ty::Variable(name_under(there, v)).subst(back) == Ty::Variable(v),
        ty.subst(there) == renamed_type(
            ty,
            Map::new(|v: Name| ty.vars().contains(v), |v: Name| name_under(there, v)),
        ),
    decreases ty,
{
    let names = Map::new(|v: Name| ty.vars().contains(v), |v: Name| name_under(there, v));
    match ty {
        Ty::Fn(t, u) => {
            lemma_undone_renames(*t, there, back);
            lemma_undone_renames(*u, there, back);
            let left = Map::new(|v: Name| t.vars().contains(v), |v: Name| name_under(there, v));
            let right = Map::new(|v: Name| u.vars().contains(v), |v: Name| name_under(there, v));
            lemma_renamed_type_agree(*t, left, names);
            lemma_renamed_type_agree(*u, right, names);
        },
        _ => {},
    }
}

/// Two renamings that say the same of the meta-variables of a type rename it alike.
pub proof fn lemma_renamed_type_agree(ty: Ty, one: Map<Name, Name>, other: Map<Name, Name>)
    requires
        forall|v: Name|
            (#[trigger] ty.vars().contains(v)) ==> one.contains_key(v) && other.contains_key(v)
                && one[v] == other[v],
    ensures
        renamed_type(ty, one) == renamed_type(ty, other),
    decreases ty,
{
    match ty {
        Ty::Variable(v) => {
            assert(ty.vars().contains(v));
        },
        Ty::GenVariable(_) => {},
        Ty::Fn(t, u) => {
            assert forall|v: Name| (#[trigger] t.vars().contains(v)) implies one.contains_key(v)
                && other.contains_key(v) && one[v] == other[v] by {
                assert(ty.vars().contains(v));
            }
            assert forall|v: Name| (#[trigger] u.vars().contains(v)) implies one.contains_key(v)
                && other.contains_key(v) && one[v] == other[v] by {
                assert(ty.vars().contains(v));
            }
            lemma_renamed_type_agree(*t, one, other);
            lemma_renamed_type_agree(*u, one, other);
        },
    }
}

/// Two types that are instances of each other are the same up to the names of their
/// meta-variables.
pub proof fn lemma_variants_renamed(a: Ty, b: Ty)
    requires
        variants(a, b),
    ensures
        same_up_to_names(a, b),
{
    let there = choose|mapping: Map<Name, Ty>| a.subst(mapping) == b;
    let back = choose|mapping: Map<Name, Ty>| b.subst(mapping) == a;
    lemma_undone_renames(a, there, back);
    let names = Map::new(|v: Name| a.vars().contains(v), |v: Name| name_under(there, v));
    assert(names.dom() =~= a.vars());
    assert(renamed_type(a, names) == b);
}

/// Whether two results of the unifier say the same of the type `ty`: both are failures, or
/// both are substitutions under which `ty` becomes the same type up to the names of its
/// meta-variables.
pub open spec fn same_solution(
    one: Result<Map<Name, Ty>, TyError>,
    other: Result<Map<Name, Ty>, TyError>,
    ty: Ty,
) -> bool {
    match (one, other) {
        (Ok(a), Ok(b)) => same_up_to_names(ty.subst(a), ty.subst(b)),
        (Err(_), Err(_)) => true,
        _ => false,
    }
}

/// The order of the equations, and how often each is given, makes no difference to the
/// unifier but for the names of meta-variables: on two lists of the same equations it
/// fails on both, or it returns two substitutions under which every type becomes the same
/// type up to the names of its meta-variables.
pub proof fn lemma_unifier_order(eqs: Seq<(Ty, Ty)>, other: Seq<(Ty, Ty)>, ty: Ty)
    requires
        eqs.to_set() == other.to_set(),
    ensures
        same_solution(unifier(eqs, Map::empty()), unifier(other, Map::empty()), ty),
{
    let one = unifier(eqs, Map::empty());
    let two = unifier(other, Map::empty());
    lemma_unifier_sound(eqs);
    lemma_unifier_sound(other);
    match (one, two) {
        (Ok(a), Ok(b)) => {
            lemma_unifies_same_equations(a, eqs, other);
            lemma_unifies_same_equations(b, other, eqs);
            lemma_unifier_most_general(eqs, b, ty);
            lemma_unifier_most_general(other, a, ty);
            assert(instance_of(ty.subst(b), ty.subst(a)));
            assert(instance_of(ty.subst(a), ty.subst(b)));
            lemma_variants_renamed(ty.subst(a), ty.subst(b));
        },
        (Ok(a), Err(_)) => {
            lemma_unifies_same_equations(a, eqs, other);
            lemma_unifier_complete(other, a);
        },
        (Err(_), Ok(b)) => {
            lemma_unifies_same_equations(b, other, eqs);
            lemma_unifier_complete(eqs, b);
        },
        (Err(_), Err(_)) => {},
    }
}

/// A substitution that solves a list of equations solves every list of the same equations.
pub proof fn lemma_unifies_same_equations(
    mapping: Map<Name, Ty>,
    eqs: Seq<(Ty, Ty)>,
    other: Seq<(Ty, Ty)>,
)
    requires
        eqs.to_set() == other.to_set(),
        unifies(mapping, eqs),
    ensures
        unifies(mapping, other),
{
    assert forall|i: int| 0 <= i < other.len() implies (#[trigger] other[i]).0.subst(mapping)
        == other[i].1.subst(mapping) by {
        assert(other.to_set().contains(other[i]));
        assert(eqs.to_set().contains(other[i]));
        let j = choose|j: int| 0 <= j < eqs.len() && eqs[j] == other[i];
        assert(eqs[j].0.subst(mapping) == eqs[j].1.subst(mapping));
    }
}

} // verus!
