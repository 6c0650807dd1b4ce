//! Type inference by constraints: one pass over the term collects equations between types,
//! and the unifier solves them at the end.
use vstd::prelude::*;

use super::terms::{Term, Tm};
use super::types::{Ty, Type};
use super::unify::{equations, unifier, unify, TyError, TypeError};
use crate::names::{Name, NameSet, NameSupply};

verus! {

/// The types of the names in scope, the most recent binding last.
pub type TypeEnvironment = Vec<(String, Type)>;

/// The mathematical value of a type environment.
pub open spec fn environment(env: Seq<(String, Type)>) -> Seq<(Name, Ty)> {
    env.map_values(|b: (String, Type)| (b.0@, b.1@))
}

/// The type of the most recent binding of `x`, if there is one.
pub open spec fn lookup(env: Seq<(Name, Ty)>, x: Name) -> Option<Ty>
    decreases env.len(),
{
    if env.len() == 0 {
        None
    } else if env.last().0 == x {
        Some(env.last().1)
    } else {
        lookup(env.drop_last(), x)
    }
}

/// The meta-variables of the types in the environment.
pub open spec fn env_vars(env: Seq<(Name, Ty)>) -> Set<Name>
    decreases env.len(),
{
    if env.len() == 0 {
        Set::empty()
    } else {
        env_vars(env.drop_last()).union(env.last().1.vars())
    }
}

/// What the pass over a term leaves: the type of the term or the reason why it has none,
/// the equations collected so far, and the number of meta-variables handed out.
pub struct Collected {
    pub ty: Result<Ty, TyError>,
    pub constraints: Seq<(Ty, Ty)>,
    pub next: nat,
}

/// The pass over the term `t` in the environment `env`, from the equations `constraints`
/// and with `next` meta-variables handed out before.
///
/// A variable takes a fresh instance of the scheme of its most recent binding. A function
/// binds its parameter to a fresh meta-variable. An application requires the type of the
/// function to be a function type from the type of the argument to a fresh meta-variable,
/// which is its type. A `let` binds its name to the type of what is bound, generalised over
/// the meta-variables that the environment does not hold. The first failure ends the pass.
pub open spec fn collect(
    t: Tm,
    env: Seq<(Name, Ty)>,
    constraints: Seq<(Ty, Ty)>,
    next: nat,
) -> Collected
    decreases t,
{
    match t {
        Tm::Variable(x) => match lookup(env, x) {
            None => Collected { ty: Err(TyError::UnboundVariable(x)), constraints, next },
            Some(scheme) => Collected {
                ty: Ok(scheme.instantiate(next)),
                constraints,
                next: next + scheme.gen_var_order().len(),
            },
        },
        Tm::Abstraction(x, body) => {
            let a = Ty::Variable(NameSupply::name(next));
            let inner = collect(*body, env.push((x, a)), constraints, next + 1);
            match inner.ty {
                Ok(b) => Collected {
                    ty: Ok(Ty::Fn(Box::new(a), Box::new(b))),
                    constraints: inner.constraints,
                    next: inner.next,
                },
                Err(_) => inner,
            }
        },
        Tm::Application(f, arg) => {
            let fun = collect(*f, env, constraints, next);
            match fun.ty {
                Err(_) => fun,
                Ok(tf) => {
                    let a = collect(*arg, env, fun.constraints, fun.next);
                    match a.ty {
                        Err(_) => a,
                        Ok(ta) => {
                            let b = Ty::Variable(NameSupply::name(a.next));
                            Collected {
                                ty: Ok(b),
                                constraints: a.constraints.push(
                                    (tf, Ty::Fn(Box::new(ta), Box::new(b))),
                                ),
                                next: a.next + 1,
                            }
                        },
                    }
                },
            }
        },
        Tm::Let(x, bound, body) => {
            let b = collect(*bound, env, constraints, next);
            match b.ty {
                Err(_) => b,
                Ok(tb) => collect(
                    *body,
                    env.push((x, tb.generalise(env_vars(env)))),
                    b.constraints,
                    b.next,
                ),
            }
        },
    }
}

/// The most general type of `t` in `env`: the type that the pass gives, with the solution
/// of the collected equations applied; or the first failure, of the pass or of the unifier.
pub open spec fn infer(t: Tm, env: Seq<(Name, Ty)>) -> Result<Ty, TyError> {
    let collected = collect(t, env, Seq::empty(), 0);
    match collected.ty {
        Err(e) => Err(e),
        Ok(ty) => match unifier(collected.constraints, Map::empty()) {
            Err(e) => Err(e),
            Ok(solution) => Ok(ty.subst(solution)),
        },
    }
}

/// The mathematical value of the result of an inference.
pub open spec fn typed(result: Result<Type, TypeError>) -> Result<Ty, TyError> {
    match result {
        Ok(ty) => Ok(ty@),
        Err(e) => Err(e@),
    }
}

/// The meta-variables of the types in the environment.
pub fn free_vars(type_env: &TypeEnvironment) -> (names: NameSet)
    ensures
        names@ == env_vars(environment(type_env@)),
{
    let mut names = NameSet::new();
    let mut i: usize = 0;
    while i < type_env.len()
        invariant
            i <= type_env.len(),
            names@ == env_vars(environment(type_env@).take(i as int)),
        decreases type_env.len() - i,
    {
        type_env[i].1.collect_vars(&mut names);
        proof {
            let env = environment(type_env@);
            assert(env.take(i + 1).drop_last() =~= env.take(i as int));
        }
        i = i + 1;
    }
    assert(environment(type_env@).take(type_env@.len() as int) =~= environment(type_env@));
    names
}

/// The type of the most recent binding of `x` in the environment, if there is one.
pub fn find_binding<'a>(type_env: &'a TypeEnvironment, x: &String) -> (found: Option<&'a Type>)
    ensures
        match found {
            Some(ty) => lookup(environment(type_env@), x@) == Some(ty@),
            None => lookup(environment(type_env@), x@) is None,
        },
{
    let ghost env = environment(type_env@);
    let mut i: usize = type_env.len();
    assert(env.take(i as int) =~= env);
    while i > 0
        invariant
            i <= type_env.len(),
            env == environment(type_env@),
            lookup(env, x@) == lookup(env.take(i as int), x@),
        decreases i,
    {
        i = i - 1;
        assert(env.take(i + 1).drop_last() =~= env.take(i as int));
        if type_env[i].0 == *x {
            return Some(&type_env[i].1);
        }
    }
    None
}

/// A copy of the environment with one more binding at its end.
pub fn extended(type_env: &TypeEnvironment, x: String, ty: Type) -> (inner: TypeEnvironment)
    ensures
        environment(inner@) == environment(type_env@).push((x@, ty@)),
{
    let mut inner: TypeEnvironment = Vec::new();
    let mut i: usize = 0;
    while i < type_env.len()
        invariant
            i <= type_env.len(),
            inner@ == type_env@.take(i as int),
        decreases type_env.len() - i,
    {
        inner.push((type_env[i].0.clone(), type_env[i].1.clone()));
        assert(inner@ =~= type_env@.take(i + 1));
        i = i + 1;
    }
    assert(type_env@.take(type_env@.len() as int) =~= type_env@);
    inner.push((x, ty));
    assert(environment(inner@) =~= environment(type_env@).push((x@, ty@)));
    inner
}

impl Term {
    /// One pass over the term: its type in terms of fresh meta-variables, with the equations
    /// that must hold between them added to `constraints`.
    pub fn type_constraints(
        &self,
        type_env: &TypeEnvironment,
        constraints: &mut Vec<(Type, Type)>,
        supply: &mut NameSupply,
    ) -> (result: Result<Type, TypeError>)
        ensures
            ({
                let collected = collect(
                    self@,
                    environment(type_env@),
                    equations(old(constraints)@),
                    old(supply).count(),
                );
                &&& typed(result) == collected.ty
                &&& equations(final(constraints)@) == collected.constraints
                &&& final(supply).count() == collected.next
            }),
        decreases self,
    {
        match self {
            Term::Variable(x) => match find_binding(type_env, x) {
                None => Err(TypeError::UnboundVariable(x.clone())),
                Some(scheme) => Ok(scheme.instantiate(supply)),
            },
            Term::Abstraction(x, t) => {
                let a = Type::Variable(supply.fresh());
                let inner_env = extended(type_env, x.clone(), a.clone());
                match t.type_constraints(&inner_env, constraints, supply) {
                    Ok(b) => Ok(Type::Fn(Box::new(a), Box::new(b))),
                    Err(e) => Err(e),
                }
            },
            Term::Application(t, u) => {
                let f = match t.type_constraints(type_env, constraints, supply) {
                    Ok(f) => f,
                    Err(e) => {
                        return Err(e);
                    },
                };
                let a = match u.type_constraints(type_env, constraints, supply) {
                    Ok(a) => a,
                    Err(e) => {
                        return Err(e);
                    },
                };
                let b = Type::Variable(supply.fresh());
                let ghost before = equations(constraints@);
                constraints.push((f, Type::Fn(Box::new(a), Box::new(b.clone()))));
                assert(equations(constraints@) =~= before.push(
                    (f@, Ty::Fn(Box::new(a@), Box::new(b@))),
                ));
                Ok(b)
            },
            Term::Let(x, b, o) => {
                let bt = match b.type_constraints(type_env, constraints, supply) {
                    Ok(bt) => bt,
                    Err(e) => {
                        return Err(e);
                    },
                };
                let scheme = bt.generalise(&free_vars(type_env));
                let inner_env = extended(type_env, x.clone(), scheme);
                o.type_constraints(&inner_env, constraints, supply)
            },
        }
    }

    /// Infers the most general type of the term in the given type environment, or says why
    /// the term has none.
    pub fn type_in(&self, type_env: &TypeEnvironment) -> (result: Result<Type, TypeError>)
        ensures
            typed(result) == infer(self@, environment(type_env@)),
    {
        let mut constraints: Vec<(Type, Type)> = Vec::new();
        let mut supply = NameSupply::new();
        assert(equations(constraints@) =~= Seq::<(Ty, Ty)>::empty());
        let ty = match self.type_constraints(type_env, &mut constraints, &mut supply) {
            Ok(ty) => ty,
            Err(e) => {
                return Err(e);
            },
        };
        match unify(constraints) {
            Ok(solution) => Ok(ty.substitute(&solution)),
            Err(e) => Err(e),
        }
    }

    /// The type of the term in the empty type environment, or why it has none.
    pub fn type_closed(&self) -> (result: Result<Type, TypeError>)
        ensures
            typed(result) == infer(self@, Seq::empty()),
    {
        let type_env: TypeEnvironment = Vec::new();
        assert(environment(type_env@) =~= Seq::<(Name, Ty)>::empty());
        self.type_in(&type_env)
    }
}

} // verus!
