//! Unification of types: a work-list of equations solved into a substitution.
use vstd::prelude::*;

use super::types::{lemma_size_positive, lemma_vars_finite, Substitution, Ty, Type};
use crate::names::Name;
use vstd::std_specs::cmp::PartialEqSpecImpl;

verus! {

/// The mathematical value of a type error.
pub enum TyError {
    /// A term variable without a binding in the environment.
    UnboundVariable(Name),
    /// Two types with different head constructors were required to be equal.
    UnificationMismatch(Ty, Ty),
    /// A meta-variable was required to equal a type that holds it.
    OccursCheckFailure(Name, Ty),
}

/// Why a term has no type.
#[derive(Debug)]
pub enum TypeError {
    /// A term variable without a binding in the environment.
    UnboundVariable(String),
    /// Two types with different head constructors were required to be equal.
    UnificationMismatch(Type, Type),
    /// A meta-variable was required to equal a type that holds it.
    OccursCheckFailure(String, Type),
}

impl View for TypeError {
    type V = TyError;

    open spec fn view(&self) -> TyError {
        match self {
            TypeError::UnboundVariable(x) => TyError::UnboundVariable(x@),
            TypeError::UnificationMismatch(t, u) => TyError::UnificationMismatch(t@, u@),
            TypeError::OccursCheckFailure(v, t) => TyError::OccursCheckFailure(v@, t@),
        }
    }
}

impl Clone for TypeError {
    fn clone(&self) -> (copy: Self)
        ensures
            copy == *self,
    {
        match self {
            TypeError::UnboundVariable(x) => TypeError::UnboundVariable(x.clone()),
            TypeError::UnificationMismatch(t, u) => TypeError::UnificationMismatch(
                t.clone(),
                u.clone(),
            ),
            TypeError::OccursCheckFailure(v, t) => TypeError::OccursCheckFailure(
                v.clone(),
                t.clone(),
            ),
        }
    }
}

impl PartialEq for TypeError {
    fn eq(&self, other: &Self) -> (equal: bool) {
        match self {
            TypeError::UnboundVariable(x) => match other {
                TypeError::UnboundVariable(y) => *x == *y,
                _ => false,
            },
            TypeError::UnificationMismatch(t1, u1) => match other {
                TypeError::UnificationMismatch(t2, u2) => *t1 == *t2 && *u1 == *u2,
                _ => false,
            },
            TypeError::OccursCheckFailure(v1, t1) => match other {
                TypeError::OccursCheckFailure(v2, t2) => *v1 == *v2 && *t1 == *t2,
                _ => false,
            },
        }
    }
}

impl PartialEqSpecImpl for TypeError {
    open spec fn obeys_eq_spec() -> bool {
        true
    }

    open spec fn eq_spec(&self, other: &Self) -> bool {
        self@ == other@
    }
}

impl Eq for TypeError {

}

/// What the unifier does with one equation.
pub enum Step {
    /// Both sides are the same type: the equation is dropped.
    Discard,
    /// Both sides are function types: their domains and their codomains are to be equal.
    Decompose(Ty, Ty, Ty, Ty),
    /// One side is a meta-variable that the other side does not hold: it is bound.
    Bind(Name, Ty),
    /// The equation has no solution.
    Fail(TyError),
}

/// The step that the equation `lhs = rhs` calls for.
pub open spec fn step(lhs: Ty, rhs: Ty) -> Step {
    if lhs == rhs {
        Step::Discard
    } else {
        match (lhs, rhs) {
            (Ty::Fn(t1, u1), Ty::Fn(t2, u2)) => Step::Decompose(*t1, *u1, *t2, *u2),
            (Ty::Variable(v), _) => if rhs.vars().contains(v) {
                Step::Fail(TyError::OccursCheckFailure(v, rhs))
            } else {
                Step::Bind(v, rhs)
            },
            (_, Ty::Variable(v)) => if lhs.vars().contains(v) {
                Step::Fail(TyError::OccursCheckFailure(v, lhs))
            } else {
                Step::Bind(v, lhs)
            },
            _ => Step::Fail(TyError::UnificationMismatch(lhs, rhs)),
        }
    }
}

/// The meta-variables of a list of equations.
pub open spec fn problem_vars(eqs: Seq<(Ty, Ty)>) -> Set<Name>
    decreases eqs.len(),
{
    if eqs.len() == 0 {
        Set::empty()
    } else {
        problem_vars(eqs.drop_last()).union(eqs.last().0.vars()).union(eqs.last().1.vars())
    }
}

/// The number of nodes in a list of equations.
pub open spec fn problem_size(eqs: Seq<(Ty, Ty)>) -> nat
    decreases eqs.len(),
{
    if eqs.len() == 0 {
        0
    } else {
        problem_size(eqs.drop_last()) + eqs.last().0.size() + eqs.last().1.size()
    }
}

/// The equations with the meta-variable `var` replaced by `ty` on both sides.
pub open spec fn bind_all(eqs: Seq<(Ty, Ty)>, var: Name, ty: Ty) -> Seq<(Ty, Ty)> {
    eqs.map_values(|e: (Ty, Ty)| (e.0.bind(var, ty), e.1.bind(var, ty)))
}

/// The bindings that solve the equations, in the order in which they are made, or the
/// reason why there is no solution. The last equation is taken first. Each binding is
/// applied to the equations that are left before the next one is taken.
pub open spec fn solve(eqs: Seq<(Ty, Ty)>) -> Result<Seq<(Name, Ty)>, TyError>
    decreases problem_vars(eqs).len(), problem_size(eqs),
{
    if eqs.len() == 0 {
        Ok(Seq::empty())
    } else {
        let rest = eqs.drop_last();
        proof {
            lemma_step_decreases(eqs);
        }
        match step(eqs.last().0, eqs.last().1) {
            Step::Discard => solve(rest),
            Step::Decompose(t1, u1, t2, u2) => solve(rest.push((t1, t2)).push((u1, u2))),
            Step::Bind(v, t) => match solve(bind_all(rest, v, t)) {
                Ok(bindings) => Ok(seq![(v, t)] + bindings),
                Err(e) => Err(e),
            },
            Step::Fail(e) => Err(e),
        }
    }
}

/// The mapping `acc` after one more binding: the binding is applied to every type that
/// `acc` holds, and then added.
pub open spec fn extend(acc: Map<Name, Ty>, var: Name, ty: Ty) -> Map<Name, Ty> {
    acc.map_values(|bound: Ty| bound.bind(var, ty)).insert(var, ty)
}

/// The mapping `acc` after the bindings, taken in order.
pub open spec fn compose(acc: Map<Name, Ty>, bindings: Seq<(Name, Ty)>) -> Map<Name, Ty>
    decreases bindings.len(),
{
    if bindings.len() == 0 {
        acc
    } else {
        compose(extend(acc, bindings[0].0, bindings[0].1), bindings.skip(1))
    }
}

/// The substitution that solves the equations on top of `acc`, or the reason why there is
/// none.
pub open spec fn unifier(eqs: Seq<(Ty, Ty)>, acc: Map<Name, Ty>) -> Result<Map<Name, Ty>, TyError> {
    match solve(eqs) {
        Ok(bindings) => Ok(compose(acc, bindings)),
        Err(e) => Err(e),
    }
}

/// A list of equations has finitely many meta-variables.
pub proof fn lemma_problem_vars_finite(eqs: Seq<(Ty, Ty)>)
    ensures
        problem_vars(eqs).finite(),
    decreases eqs.len(),
{
    if eqs.len() > 0 {
        lemma_problem_vars_finite(eqs.drop_last());
        lemma_vars_finite(eqs.last().0);
        lemma_vars_finite(eqs.last().1);
    }
}

/// Binding a meta-variable removes it, and brings in only the variables of what it is bound
/// to.
pub proof fn lemma_bind_vars(ty: Ty, var: Name, to: Ty)
    ensures
        ty.bind(var, to).vars().subset_of(ty.vars().remove(var).union(to.vars())),
        !ty.vars().contains(var) ==> ty.bind(var, to) == ty,
    decreases ty,
{
    match ty {
        Ty::Fn(t, u) => {
            lemma_bind_vars(*t, var, to);
            lemma_bind_vars(*u, var, to);
        },
        _ => {},
    }
}

/// Binding a meta-variable in every equation removes it from the problem, and brings in
/// only the variables of what it is bound to.
pub proof fn lemma_bind_all_vars(eqs: Seq<(Ty, Ty)>, var: Name, to: Ty)
    ensures
        problem_vars(bind_all(eqs, var, to)).subset_of(
            problem_vars(eqs).remove(var).union(to.vars()),
        ),
    decreases eqs.len(),
{
    if eqs.len() > 0 {
        assert(bind_all(eqs, var, to).drop_last() =~= bind_all(eqs.drop_last(), var, to));
        lemma_bind_all_vars(eqs.drop_last(), var, to);
        lemma_bind_vars(eqs.last().0, var, to);
        lemma_bind_vars(eqs.last().1, var, to);
    }
}

/// Each step of the unifier leaves a smaller problem: fewer meta-variables, or as many and
/// fewer nodes.
pub proof fn lemma_step_decreases(eqs: Seq<(Ty, Ty)>)
    requires
        eqs.len() > 0,
    ensures
        ({
            let rest = eqs.drop_last();
            match step(eqs.last().0, eqs.last().1) {
                Step::Discard => {
                    &&& problem_vars(rest).len() <= problem_vars(eqs).len()
                    &&& problem_size(rest) < problem_size(eqs)
                },
                Step::Decompose(t1, u1, t2, u2) => {
                    let next = rest.push((t1, t2)).push((u1, u2));
                    &&& problem_vars(next) == problem_vars(eqs)
                    &&& problem_size(next) < problem_size(eqs)
                },
                Step::Bind(v, t) => problem_vars(bind_all(rest, v, t)).len() < problem_vars(
                    eqs,
                ).len(),
                Step::Fail(_) => true,
            }
        }),
{
    let rest = eqs.drop_last();
    let lhs = eqs.last().0;
    let rhs = eqs.last().1;
    lemma_problem_vars_finite(eqs);
    lemma_problem_vars_finite(rest);
    lemma_size_positive(lhs);
    lemma_size_positive(rhs);
    match step(lhs, rhs) {
        Step::Discard => {
            vstd::set_lib::lemma_len_subset(problem_vars(rest), problem_vars(eqs));
        },
        Step::Decompose(t1, u1, t2, u2) => {
            let mid = rest.push((t1, t2));
            let next = mid.push((u1, u2));
            assert(next.drop_last() =~= mid);
            assert(mid.drop_last() =~= rest);
            assert(lhs == Ty::Fn(Box::new(t1), Box::new(u1)));
            assert(rhs == Ty::Fn(Box::new(t2), Box::new(u2)));
            assert(lhs.vars() == t1.vars().union(u1.vars()));
            assert(rhs.vars() == t2.vars().union(u2.vars()));
            assert(problem_vars(mid) == problem_vars(rest).union(t1.vars()).union(t2.vars()));
            assert(problem_vars(next) == problem_vars(mid).union(u1.vars()).union(u2.vars()));
            assert(problem_vars(next) =~= problem_vars(eqs));
            assert(problem_size(mid) == problem_size(rest) + t1.size() + t2.size());
            assert(problem_size(next) == problem_size(mid) + u1.size() + u2.size());
        },
        Step::Bind(v, t) => {
            let next = bind_all(rest, v, t);
            lemma_bind_all_vars(rest, v, t);
            lemma_problem_vars_finite(next);
            assert(next.len() == rest.len());
            assert(problem_vars(eqs).contains(v));
            assert(problem_vars(next).subset_of(problem_vars(eqs).remove(v)));
            vstd::set_lib::lemma_len_subset(problem_vars(next), problem_vars(eqs).remove(v));
        },
        Step::Fail(_) => {},
    }
}


/// The mathematical values of a list of equations.
pub open spec fn equations(eqs: Seq<(Type, Type)>) -> Seq<(Ty, Ty)> {
    eqs.map_values(|e: (Type, Type)| (e.0@, e.1@))
}

/// The mathematical value of what the unifier returns.
pub open spec fn unified(result: Result<Substitution, TypeError>) -> Result<
    Map<Name, Ty>,
    TyError,
> {
    match result {
        Ok(mapping) => Ok(mapping@),
        Err(e) => Err(e@),
    }
}

/// Makes one binding: applies it to the equations that are left and to the types bound so
/// far, and adds it to the mapping.
fn bind_step(
    equalities: &mut Vec<(Type, Type)>,
    mapping: &mut Substitution,
    var: String,
    ty: Type,
)
    ensures
        equations(final(equalities)@) == bind_all(equations(old(equalities)@), var@, ty@),
        final(mapping)@ == extend(old(mapping)@, var@, ty@),
{
    let mut single = Substitution::new();
    single.insert(var.clone(), ty.clone());
    let mut i: usize = 0;
    while i < equalities.len()
        invariant
            i <= equalities.len(),
            equalities.len() == old(equalities).len(),
            single@ == Map::<Name, Ty>::empty().insert(var@, ty@),
            forall|j: int|
                0 <= j < i ==> equations(equalities@)[j] == bind_all(
                    equations(old(equalities)@),
                    var@,
                    ty@,
                )[j],
            forall|j: int| i <= j < equalities.len() ==> equalities@[j] == old(equalities)@[j],
        decreases equalities.len() - i,
    {
        let ghost before = equalities@;
        let lhs = equalities[i].0.substitute(&single);
        let rhs = equalities[i].1.substitute(&single);
        equalities.set(i, (lhs, rhs));
        proof {
            assert(before[i as int] == old(equalities)@[i as int]);
            assert forall|j: int| 0 <= j < i + 1 implies equations(equalities@)[j] == bind_all(
                equations(old(equalities)@),
                var@,
                ty@,
            )[j] by {
                if j < i {
                    assert(equalities@[j] == before[j]);
                    assert(equations(before)[j] == bind_all(
                        equations(old(equalities)@),
                        var@,
                        ty@,
                    )[j]);
                }
            }
        }
        i = i + 1;
    }
    assert(equations(equalities@) =~= bind_all(equations(old(equalities)@), var@, ty@));
    mapping.bind_values(var.as_str(), &ty);
    mapping.insert(var, ty);
}

/// Solves the equations on top of the bindings of `mapping`. The last equation is taken
/// first; equal sides are dropped, two function types give two equations, and a
/// meta-variable is bound to the other side unless it occurs there. Each new binding is
/// applied at once to the equations that are left and to the types already bound.
pub fn unify_with(equalities: Vec<(Type, Type)>, mapping: Substitution) -> (result: Result<
    Substitution,
    TypeError,
>)
    ensures
        unified(result) == unifier(equations(equalities@), mapping@),
{
    let mut pending = equalities;
    let mut solved = mapping;
    loop
        invariant
            unifier(equations(pending@), solved@) == unifier(equations(equalities@), mapping@),
        decreases problem_vars(equations(pending@)).len(), problem_size(equations(pending@)),
    {
        let ghost eqs = equations(pending@);
        let ghost acc = solved@;
        match pending.pop() {
            None => {
                return Ok(solved);
            },
            Some(equality) => {
                let ghost rest = equations(pending@);
                proof {
                    assert(rest =~= eqs.drop_last());
                    assert(eqs.last() == (equality.0@, equality.1@));
                    lemma_step_decreases(eqs);
                }
                let (lhs, rhs) = equality;
                if lhs == rhs {
                    continue ;
                }
                match lhs {
                    Type::Variable(v) => {
                        if rhs.contains_var(v.as_str()) {
                            return Err(TypeError::OccursCheckFailure(v, rhs));
                        }
                        bind_step(&mut pending, &mut solved, v, rhs);
                    },
                    Type::Fn(t1, u1) => match rhs {
                        Type::Fn(t2, u2) => {
                            pending.push((*t1, *t2));
                            pending.push((*u1, *u2));
                            assert(equations(pending@) =~= rest.push((t1@, t2@)).push(
                                (u1@, u2@),
                            ));
                        },
                        Type::Variable(v) => {
                            let lhs = Type::Fn(t1, u1);
                            if lhs.contains_var(v.as_str()) {
                                return Err(TypeError::OccursCheckFailure(v, lhs));
                            }
                            bind_step(&mut pending, &mut solved, v, lhs);
                        },
                        Type::GenVariable(g) => {
                            return Err(
                                TypeError::UnificationMismatch(
                                    Type::Fn(t1, u1),
                                    Type::GenVariable(g),
                                ),
                            );
                        },
                    },
                    Type::GenVariable(g) => match rhs {
                        Type::Variable(v) => {
                            bind_step(&mut pending, &mut solved, v, Type::GenVariable(g));
                        },
                        other => {
                            return Err(
                                TypeError::UnificationMismatch(Type::GenVariable(g), other),
                            );
                        },
                    },
                }
                proof {
                    match step(eqs.last().0, eqs.last().1) {
                        Step::Bind(v, t) => {
                            let next = bind_all(rest, v, t);
                            match solve(next) {
                                Ok(bindings) => {
                                    assert((seq![(v, t)] + bindings).skip(1) =~= bindings);
                                },
                                Err(_) => {},
                            }
                        },
                        _ => {},
                    }
                }
            },
        }
    }
}

/// Solves the equations into a substitution, or says why they have no solution.
pub fn unify(equalities: Vec<(Type, Type)>) -> (result: Result<Substitution, TypeError>)
    ensures
        unified(result) == unifier(equations(equalities@), Map::<Name, Ty>::empty()),
{
    unify_with(equalities, Substitution::new())
}


/// The type after the bindings, applied one after the other.
pub open spec fn apply_bindings(ty: Ty, bindings: Seq<(Name, Ty)>) -> Ty
    decreases bindings.len(),
{
    if bindings.len() == 0 {
        ty
    } else {
        apply_bindings(ty, bindings.drop_last()).bind(bindings.last().0, bindings.last().1)
    }
}

/// Applying two lists of bindings one after the other is applying the one list made of
/// both.
pub proof fn lemma_apply_bindings_concat(ty: Ty, first: Seq<(Name, Ty)>, second: Seq<(Name, Ty)>)
    ensures
        apply_bindings(ty, first + second) == apply_bindings(apply_bindings(ty, first), second),
    decreases second.len(),
{
    if second.len() == 0 {
        assert(first + second =~= first);
    } else {
        assert((first + second).drop_last() =~= first + second.drop_last());
        lemma_apply_bindings_concat(ty, first, second.drop_last());
    }
}

/// Two function types in place of which their domains and their codomains are to be equal:
/// the problem has the same meta-variables and fewer nodes.
pub proof fn lemma_decompose_decreases(rest: Seq<(Ty, Ty)>, t1: Ty, u1: Ty, t2: Ty, u2: Ty)
    ensures
        ({
            let whole = rest.push(
                (Ty::Fn(Box::new(t1), Box::new(u1)), Ty::Fn(Box::new(t2), Box::new(u2))),
            );
            let parts = rest.push((t1, t2)).push((u1, u2));
            &&& problem_vars(parts) == problem_vars(whole)
            &&& problem_size(parts) < problem_size(whole)
        }),
{
    let lhs = Ty::Fn(Box::new(t1), Box::new(u1));
    let rhs = Ty::Fn(Box::new(t2), Box::new(u2));
    let whole = rest.push((lhs, rhs));
    let mid = rest.push((t1, t2));
    let parts = mid.push((u1, u2));
    assert(whole.drop_last() =~= rest);
    assert(parts.drop_last() =~= mid);
    assert(mid.drop_last() =~= rest);
    assert(lhs.vars() == t1.vars().union(u1.vars()));
    assert(rhs.vars() == t2.vars().union(u2.vars()));
    assert(problem_vars(mid) == problem_vars(rest).union(t1.vars()).union(t2.vars()));
    assert(problem_vars(parts) == problem_vars(mid).union(u1.vars()).union(u2.vars()));
    assert(problem_vars(whole) == problem_vars(rest).union(lhs.vars()).union(rhs.vars()));
    assert(problem_vars(parts) =~= problem_vars(whole));
    assert(problem_size(mid) == problem_size(rest) + t1.size() + t2.size());
    assert(problem_size(parts) == problem_size(mid) + u1.size() + u2.size());
    assert(problem_size(whole) == problem_size(rest) + lhs.size() + rhs.size());
}

/// Two equal function types may be dropped, or their domains and their codomains may be
/// required to be equal: the solution is the same.
pub proof fn lemma_decompose_equal(rest: Seq<(Ty, Ty)>, t: Ty, u: Ty)
    ensures
        solve(rest.push((t, t)).push((u, u))) == solve(rest),
{
    let mid = rest.push((t, t));
    let parts = mid.push((u, u));
    assert(parts.drop_last() =~= mid);
    assert(mid.drop_last() =~= rest);
    assert(solve(parts) == solve(mid));
    assert(solve(mid) == solve(rest));
}

} // verus!
