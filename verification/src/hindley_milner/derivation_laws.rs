//! What holds of every derivation that is built in an environment without meta-variables:
//! it shows resolved types everywhere.
use vstd::prelude::*;

use super::agreement::{
    below, binding_names, fresh_from, lemma_apply_vars, lemma_below, lemma_fresh_from,
    lemma_generalise_vars, lemma_instantiate, lemma_lookup_in_env, lemma_problem_vars_single,
    lemma_solve_binding_names,
};
use super::derivation::{
    concluded, derive_with, env_subst, lemma_derive_env_len, Derived, JudgementModel, ProofModel,
};
use super::infer::{env_vars, lookup};
use super::terms::Tm;
use super::types::Ty;
use super::unify::{
    apply_bindings, bind_all, compose, lemma_bind_all_vars, lemma_bind_vars,
    lemma_step_decreases, problem_size, problem_vars, solve, step, unifier, Step,
};
use super::unify_laws::{lemma_apply_first, lemma_compose_applies, lemma_solve_names};
use crate::names::{Name, NameSupply};

verus! {

/// Whether the type holds no meta-variable that the substitution binds.
pub open spec fn resolved(ty: Ty, mapping: Map<Name, Ty>) -> bool {
    forall|v: Name|
        #![trigger ty.vars().contains(v)]
        ty.vars().contains(v) ==> !mapping.contains_key(v)
}

/// Whether no type in the environment holds a meta-variable that the substitution binds.
pub open spec fn resolved_env(env: Seq<(Name, Ty)>, mapping: Map<Name, Ty>) -> bool {
    forall|i: int| 0 <= i < env.len() ==> resolved((#[trigger] env[i]).1, mapping)
}

/// Whether no type in the judgement holds a meta-variable that the substitution binds.
pub open spec fn resolved_judgement(j: JudgementModel, mapping: Map<Name, Ty>) -> bool {
    resolved_env(j.lhs, mapping) && resolved(j.ty, mapping)
}

/// Whether no judgement of the derivation holds a meta-variable that the substitution
/// binds: every type is shown as the substitution resolves it.
pub open spec fn resolved_proof(p: ProofModel, mapping: Map<Name, Ty>) -> bool
    decreases p,
{
    &&& resolved_judgement(p.conclusion, mapping)
    &&& forall|i: int|
        0 <= i < p.premises.len() ==> resolved_proof(#[trigger] p.premises[i], mapping)
}

/// Whether no type that the substitution binds to holds a meta-variable that it binds.
pub open spec fn proper(mapping: Map<Name, Ty>) -> bool {
    forall|v: Name| #[trigger] mapping.contains_key(v) ==> resolved(mapping[v], mapping)
}

/// Every name in the substitution: the names that are bound and the meta-variables of the
/// types that they are bound to.
pub open spec fn mapping_names(mapping: Map<Name, Ty>) -> Set<Name> {
    Set::new(
        |x: Name|
            mapping.contains_key(x) || exists|v: Name|
                mapping.contains_key(v) && (#[trigger] mapping[v].vars().contains(x)),
    )
}

/// Whether the substitution brings the name `x` into the type: it binds a meta-variable of
/// the type to a type that holds `x`.
pub open spec fn brings(ty: Ty, mapping: Map<Name, Ty>, x: Name) -> bool {
    exists|v: Name|
        ty.vars().contains(v) && mapping.contains_key(v) && (#[trigger] mapping[v].vars().contains(
            x,
        ))
}

/// A substitution leaves a type that holds none of the names that it binds as it is.
pub proof fn lemma_resolved_identity(ty: Ty, mapping: Map<Name, Ty>)
    requires
        resolved(ty, mapping),
    ensures
        ty.subst(mapping) == ty,
    decreases ty,
{
    match ty {
        Ty::Variable(v) => {
            assert(ty.vars().contains(v));
        },
        Ty::GenVariable(_) => {},
        Ty::Fn(t, u) => {
            assert forall|v: Name|
                #![trigger t.vars().contains(v)]
                t.vars().contains(v) implies !mapping.contains_key(v) by {
                assert(ty.vars().contains(v));
            }
            assert forall|v: Name|
                #![trigger u.vars().contains(v)]
                u.vars().contains(v) implies !mapping.contains_key(v) by {
                assert(ty.vars().contains(v));
            }
            lemma_resolved_identity(*t, mapping);
            lemma_resolved_identity(*u, mapping);
        },
    }
}

/// The meta-variables of a type after a substitution are those of the type that are not
/// bound, and those that the substitution brings.
pub proof fn lemma_subst_vars(ty: Ty, mapping: Map<Name, Ty>)
    ensures
        forall|x: Name|
            #![trigger ty.subst(mapping).vars().contains(x)]
            ty.subst(mapping).vars().contains(x) ==> (ty.vars().contains(x)
                && !mapping.contains_key(x)) || brings(ty, mapping, x),
    decreases ty,
{
    let after = ty.subst(mapping);
    match ty {
        Ty::Variable(v) => {
            assert forall|x: Name| #![trigger after.vars().contains(x)] after.vars().contains(x)
                && !(ty.vars().contains(x) && !mapping.contains_key(x)) implies brings(
                ty,
                mapping,
                x,
            ) by {
                assert(ty.vars().contains(v) && mapping.contains_key(v));
                assert(mapping[v].vars().contains(x));
            }
        },
        Ty::GenVariable(_) => {},
        Ty::Fn(t, u) => {
            lemma_subst_vars(*t, mapping);
            lemma_subst_vars(*u, mapping);
            assert forall|x: Name| #![trigger after.vars().contains(x)] after.vars().contains(x)
                && !(ty.vars().contains(x) && !mapping.contains_key(x)) implies brings(
                ty,
                mapping,
                x,
            ) by {
                let part = if t.subst(mapping).vars().contains(x) {
                    *t
                } else {
                    *u
                };
                assert(part.subst(mapping).vars().contains(x));
                assert(brings(part, mapping, x));
                let v = choose|v: Name|
                    part.vars().contains(v) && mapping.contains_key(v) && (
                    #[trigger] mapping[v].vars().contains(x));
                assert(ty.vars().contains(v) && mapping.contains_key(v));
                assert(mapping[v].vars().contains(x));
            }
        },
    }
}

/// After a substitution that binds to no type with a name that it binds, a type holds none
/// of the names that it binds; its meta-variables are among its own and the names of the
/// substitution.
pub proof fn lemma_subst_resolved(ty: Ty, mapping: Map<Name, Ty>)
    requires
        proper(mapping),
    ensures
        resolved(ty.subst(mapping), mapping),
        ty.subst(mapping).vars().subset_of(ty.vars().union(mapping_names(mapping))),
{
    let after = ty.subst(mapping);
    lemma_subst_vars(ty, mapping);
    assert forall|x: Name| #![trigger after.vars().contains(x)] after.vars().contains(
        x,
    ) implies !mapping.contains_key(x) && ty.vars().union(mapping_names(mapping)).contains(x) by {
        if !(ty.vars().contains(x) && !mapping.contains_key(x)) {
            assert(brings(ty, mapping, x));
            let v = choose|v: Name|
                ty.vars().contains(v) && mapping.contains_key(v) && (
                #[trigger] mapping[v].vars().contains(x));
            assert(resolved(mapping[v], mapping));
            assert(mapping_names(mapping).contains(x));
        }
    }
}

/// After such a substitution, no type in the environment holds a name that it binds.
pub proof fn lemma_env_subst_resolved(env: Seq<(Name, Ty)>, mapping: Map<Name, Ty>)
    requires
        proper(mapping),
    ensures
        resolved_env(env_subst(env, mapping), mapping),
        env_vars(env_subst(env, mapping)).subset_of(env_vars(env).union(mapping_names(mapping))),
    decreases env.len(),
{
    let after = env_subst(env, mapping);
    assert forall|i: int| 0 <= i < after.len() implies resolved(
        (#[trigger] after[i]).1,
        mapping,
    ) by {
        lemma_subst_resolved(env[i].1, mapping);
    }
    if env.len() > 0 {
        assert(after.drop_last() =~= env_subst(env.drop_last(), mapping));
        lemma_env_subst_resolved(env.drop_last(), mapping);
        lemma_subst_resolved(env.last().1, mapping);
    }
}

/// After such a substitution, no judgement of a derivation holds a name that it binds.
pub proof fn lemma_proof_subst_resolved(p: ProofModel, mapping: Map<Name, Ty>)
    requires
        proper(mapping),
    ensures
        resolved_proof(p.subst(mapping), mapping),
    decreases p,
{
    let after = p.subst(mapping);
    lemma_subst_resolved(p.conclusion.ty, mapping);
    assert(resolved_env(after.conclusion.lhs, mapping)) by {
        assert forall|i: int| 0 <= i < after.conclusion.lhs.len() implies resolved(
            (#[trigger] after.conclusion.lhs[i]).1,
            mapping,
        ) by {
            lemma_subst_resolved(p.conclusion.lhs[i].1, mapping);
        }
    }
    assert forall|i: int| 0 <= i < after.premises.len() implies resolved_proof(
        #[trigger] after.premises[i],
        mapping,
    ) by {
        lemma_proof_subst_resolved(p.premises[i], mapping);
    }
}

/// A substitution leaves a derivation without the names that it binds as it is.
pub proof fn lemma_resolved_proof_identity(p: ProofModel, mapping: Map<Name, Ty>)
    requires
        resolved_proof(p, mapping),
    ensures
        p.subst(mapping) == p,
    decreases p,
{
    let after = p.subst(mapping);
    lemma_resolved_identity(p.conclusion.ty, mapping);
    assert(after.conclusion.lhs =~= p.conclusion.lhs) by {
        assert forall|i: int| 0 <= i < p.conclusion.lhs.len() implies after.conclusion.lhs[i]
            == p.conclusion.lhs[i] by {
            assert(resolved(p.conclusion.lhs[i].1, mapping));
            lemma_resolved_identity(p.conclusion.lhs[i].1, mapping);
        }
    }
    assert(after.premises =~= p.premises) by {
        assert forall|i: int| 0 <= i < p.premises.len() implies after.premises[i]
            == p.premises[i] by {
            assert(resolved_proof(p.premises[i], mapping));
            lemma_resolved_proof_identity(p.premises[i], mapping);
        }
    }
}


/// The names that the bindings bind.
pub open spec fn bound_names(bindings: Seq<(Name, Ty)>) -> Set<Name> {
    Set::new(|x: Name| exists|k: int| 0 <= k < bindings.len() && (#[trigger] bindings[k]).0 == x)
}

/// A name that the bindings bind is one of their names.
pub proof fn lemma_bound_names(bindings: Seq<(Name, Ty)>)
    ensures
        bound_names(bindings).subset_of(binding_names(bindings)),
    decreases bindings.len(),
{
    if bindings.len() > 0 {
        let front = bindings.drop_last();
        lemma_bound_names(front);
        assert forall|x: Name| bound_names(bindings).contains(x) implies binding_names(
            bindings,
        ).contains(x) by {
            let k = choose|k: int| 0 <= k < bindings.len() && (#[trigger] bindings[k]).0 == x;
            if k < front.len() {
                assert(front[k].0 == x);
                assert(bound_names(front).contains(x));
            }
        }
    }
}

/// What the unifier binds is gone: after the bindings that it returns, no type holds a
/// name that they bind.
pub proof fn lemma_solve_eliminates(eqs: Seq<(Ty, Ty)>, ty: Ty)
    ensures
        solve(eqs) matches Ok(bindings) ==> apply_bindings(ty, bindings).vars().disjoint(
            bound_names(bindings),
        ),
    decreases problem_vars(eqs).len(), problem_size(eqs),
{
    if eqs.len() > 0 {
        let rest = eqs.drop_last();
        lemma_step_decreases(eqs);
        match step(eqs.last().0, eqs.last().1) {
            Step::Discard => {
                lemma_solve_eliminates(rest, ty);
            },
            Step::Decompose(t1, u1, t2, u2) => {
                lemma_solve_eliminates(rest.push((t1, t2)).push((u1, u2)), ty);
            },
            Step::Bind(v, t) => {
                let next = bind_all(rest, v, t);
                lemma_solve_eliminates(next, ty.bind(v, t));
                match solve(next) {
                    Ok(tail) => {
                        let bindings = seq![(v, t)] + tail;
                        let after = apply_bindings(ty, bindings);
                        lemma_apply_first(ty, v, t, tail);
                        lemma_bind_vars(ty, v, t);
                        lemma_bind_all_vars(rest, v, t);
                        lemma_solve_binding_names(next);
                        lemma_apply_vars(ty.bind(v, t), tail);
                        assert forall|x: Name|
                            !(after.vars().contains(x) && bound_names(bindings).contains(x)) by {
                            if after.vars().contains(x) && bound_names(bindings).contains(x) {
                                let k = choose|k: int|
                                    0 <= k < bindings.len() && (#[trigger] bindings[k]).0 == x;
                                if k > 0 {
                                    assert(tail[k - 1].0 == x);
                                    assert(bound_names(tail).contains(x));
                                } else {
                                    assert(x == v);
                                    assert(!problem_vars(next).contains(v));
                                }
                            }
                        }
                    },
                    Err(_) => {},
                }
            },
            Step::Fail(_) => {},
        }
    } else {
        assert(bound_names(Seq::<(Name, Ty)>::empty()) =~= Set::<Name>::empty());
    }
}

/// The mapping that bindings compose to binds what was bound before and what the bindings
/// bind.
pub proof fn lemma_compose_dom(acc: Map<Name, Ty>, bindings: Seq<(Name, Ty)>)
    ensures
        compose(acc, bindings).dom() == acc.dom().union(bound_names(bindings)),
    decreases bindings.len(),
{
    if bindings.len() == 0 {
        assert(bound_names(bindings) =~= Set::<Name>::empty());
        assert(compose(acc, bindings).dom() =~= acc.dom().union(bound_names(bindings)));
    } else {
        let rest = bindings.skip(1);
        let next = super::unify::extend(acc, bindings[0].0, bindings[0].1);
        lemma_compose_dom(next, rest);
        assert(next.dom() =~= acc.dom().insert(bindings[0].0));
        assert forall|x: Name| bound_names(bindings).contains(x) <==> (x == bindings[0].0
            || bound_names(rest).contains(x)) by {
            if bound_names(bindings).contains(x) {
                let k = choose|k: int| 0 <= k < bindings.len() && (#[trigger] bindings[k]).0 == x;
                if k > 0 {
                    assert(rest[k - 1].0 == x);
                }
            }
            if bound_names(rest).contains(x) {
                let k = choose|k: int| 0 <= k < rest.len() && (#[trigger] rest[k]).0 == x;
                assert(bindings[k + 1].0 == x);
            }
            if x == bindings[0].0 {
                assert(bindings[0].0 == x);
            }
        }
        assert(compose(acc, bindings).dom() =~= acc.dom().union(bound_names(bindings)));
    }
}

/// The unifier, run on a problem that holds no name bound before, extends a substitution
/// that binds to no type with a name that it binds to another such substitution; the new
/// names are meta-variables of the problem.
pub proof fn lemma_unifier_proper(eqs: Seq<(Ty, Ty)>, acc: Map<Name, Ty>)
    requires
        proper(acc),
        problem_vars(eqs).disjoint(acc.dom()),
    ensures
        unifier(eqs, acc) matches Ok(mapping) ==> proper(mapping) && mapping_names(
            mapping,
        ).subset_of(mapping_names(acc).union(problem_vars(eqs))),
{
    match solve(eqs) {
        Ok(bindings) => {
            let mapping = compose(acc, bindings);
            lemma_solve_names(eqs);
            lemma_solve_binding_names(eqs);
            lemma_bound_names(bindings);
            lemma_compose_dom(acc, bindings);
            assert forall|k: int| 0 <= k < bindings.len() implies !acc.contains_key(
                (#[trigger] bindings[k]).0,
            ) by {
                assert(problem_vars(eqs).contains(bindings[k].0));
            }
            assert forall|v: Name, x: Name|
                mapping.contains_key(v) && (#[trigger] mapping[v].vars().contains(x))
                    implies !mapping.contains_key(x) && mapping_names(acc).union(
                    problem_vars(eqs),
                ).contains(x) by {
                let before = Ty::Variable(v).subst(acc);
                lemma_compose_applies(Ty::Variable(v), acc, bindings);
                assert(mapping[v] == apply_bindings(before, bindings));
                lemma_solve_eliminates(eqs, before);
                lemma_apply_vars(before, bindings);
                assert(!bound_names(bindings).contains(x));
                if before.vars().contains(x) {
                    if acc.contains_key(v) {
                        assert(resolved(acc[v], acc));
                        assert(mapping_names(acc).contains(x));
                    } else {
                        assert(x == v);
                        assert(bound_names(bindings).contains(v));
                    }
                } else {
                    assert(binding_names(bindings).contains(x));
                }
            }
            assert forall|v: Name| #[trigger] mapping.contains_key(v) implies resolved(
                mapping[v],
                mapping,
            ) by {
                assert forall|x: Name| #![trigger mapping[v].vars().contains(x)]
                    mapping[v].vars().contains(x) implies !mapping.contains_key(x) by {}
            }
            assert forall|x: Name| mapping_names(mapping).contains(x) implies mapping_names(
                acc,
            ).union(problem_vars(eqs)).contains(x) by {
                if mapping.contains_key(x) {
                    if acc.contains_key(x) {
                        assert(mapping_names(acc).contains(x));
                    } else {
                        assert(bound_names(bindings).contains(x));
                    }
                } else {
                    let v = choose|v: Name|
                        mapping.contains_key(v) && (#[trigger] mapping[v].vars().contains(x));
                }
            }
        },
        Err(_) => {},
    }
}


/// What the derivation takes for granted of an environment and of the bindings made so
/// far, when `n` meta-variables are handed out: the substitution binds to no type with a
/// name that it binds, the environment holds none of these names, and every meta-variable
/// is a name of the supply that is handed out.
pub open spec fn steady(env: Seq<(Name, Ty)>, subs: Map<Name, Ty>, n: nat) -> bool {
    &&& proper(subs)
    &&& resolved_env(env, subs)
    &&& mapping_names(subs).subset_of(below(n))
    &&& env_vars(env).subset_of(below(n))
}

/// What a derivation leaves where it succeeds: the environment and the bindings are steady,
/// no judgement holds a name that is bound, and the type of the term holds only names that
/// are handed out.
pub open spec fn settled_derivation(d: Derived, n: nat) -> bool {
    &&& n <= d.next
    &&& steady(d.env, d.subs, d.next)
    &&& resolved_proof(d.proof, d.subs)
    &&& d.proof.conclusion.ty.vars().subset_of(below(d.next))
}

/// The type of a name in an environment holds no name that is bound, if no type of the
/// environment does.
pub proof fn lemma_lookup_resolved(env: Seq<(Name, Ty)>, x: Name, subs: Map<Name, Ty>)
    requires
        resolved_env(env, subs),
    ensures
        lookup(env, x) matches Some(ty) ==> resolved(ty, subs),
    decreases env.len(),
{
    if env.len() > 0 {
        assert(resolved(env[env.len() - 1].1, subs));
        assert forall|i: int| 0 <= i < env.drop_last().len() implies resolved(
            (#[trigger] env.drop_last()[i]).1,
            subs,
        ) by {
            assert(env.drop_last()[i] == env[i]);
        }
        lemma_lookup_resolved(env.drop_last(), x, subs);
    }
}

/// An environment without its last binding holds no name that the whole one does not hold.
pub proof fn lemma_drop_last_steady(env: Seq<(Name, Ty)>, subs: Map<Name, Ty>, n: nat)
    requires
        env.len() > 0,
        steady(env, subs, n),
    ensures
        steady(env.drop_last(), subs, n),
{
    let outer = env.drop_last();
    assert forall|i: int| 0 <= i < outer.len() implies resolved((#[trigger] outer[i]).1, subs) by {
        assert(outer[i] == env[i]);
    }
}

/// An environment with one more binding is steady if the type of the binding holds only
/// names that are handed out and not bound.
pub proof fn lemma_push_steady(
    env: Seq<(Name, Ty)>,
    subs: Map<Name, Ty>,
    n: nat,
    x: Name,
    ty: Ty,
)
    requires
        steady(env, subs, n),
        resolved(ty, subs),
        ty.vars().subset_of(below(n)),
    ensures
        steady(env.push((x, ty)), subs, n),
{
    let inner = env.push((x, ty));
    assert(inner.drop_last() =~= env);
    assert forall|i: int| 0 <= i < inner.len() implies resolved((#[trigger] inner[i]).1, subs) by {
        if i < env.len() {
            assert(inner[i] == env[i]);
        }
    }
}

/// With more meta-variables handed out, an environment and its bindings stay steady.
pub proof fn lemma_steady_later(env: Seq<(Name, Ty)>, subs: Map<Name, Ty>, n: nat, m: nat)
    requires
        steady(env, subs, n),
        n <= m,
    ensures
        steady(env, subs, m),
{
    lemma_below(n, m);
}

/// A fresh meta-variable is not bound, and it is handed out with the next number.
pub proof fn lemma_fresh_resolved(subs: Map<Name, Ty>, n: nat)
    requires
        mapping_names(subs).subset_of(below(n)),
    ensures
        resolved(Ty::Variable(NameSupply::name(n)), subs),
        Ty::Variable(NameSupply::name(n)).vars().subset_of(below(n + 1)),
{
    lemma_below(n, n);
    let a = Ty::Variable(NameSupply::name(n));
    assert forall|v: Name|
        #![trigger a.vars().contains(v)]
        a.vars().contains(v) implies !subs.contains_key(v) by {
        if subs.contains_key(v) {
            assert(mapping_names(subs).contains(v));
        }
    }
    assert(below(n + 1).contains(NameSupply::name(n)));
}

/// A variable is derived with resolved types.
proof fn lemma_resolved_variable(
    t: Tm,
    x: Name,
    env: Seq<(Name, Ty)>,
    subs: Map<Name, Ty>,
    n: nat,
)
    requires
        t == Tm::Variable(x),
        steady(env, subs, n),
    ensures
        derive_with(t, env, subs, n) matches Ok(d) ==> settled_derivation(d, n),
{
    lemma_lookup_resolved(env, x, subs);
    lemma_lookup_in_env(env, x);
    match lookup(env, x) {
        Some(ty) => {
            let d = derive_with(t, env, subs, n)->Ok_0;
            let k = ty.gen_var_order().len();
            let inst = ty.instantiate(n);
            lemma_instantiate(ty, n);
            lemma_below(n, n + k);
            lemma_fresh_from(n, n);
            assert forall|v: Name|
                #![trigger inst.vars().contains(v)]
                inst.vars().contains(v) implies !subs.contains_key(v) by {
                if subs.contains_key(v) {
                    assert(mapping_names(subs).contains(v));
                    assert(below(n).contains(v));
                    assert(!fresh_from(n).contains(v));
                    assert(ty.vars().contains(v));
                }
            }
            let var_p = concluded(Seq::empty(), "Var"@, env, t, ty);
            assert(resolved_proof(var_p, subs));
            if inst != ty {
                let inst_p = concluded(seq![var_p], "Inst"@, env, t, inst);
                assert(resolved_proof(inst_p, subs)) by {
                    assert forall|i: int| 0 <= i < inst_p.premises.len() implies resolved_proof(
                        #[trigger] inst_p.premises[i],
                        subs,
                    ) by {
                        assert(inst_p.premises[i] == var_p);
                    }
                }
            }
            lemma_steady_later(env, subs, n, n + k);
        },
        None => {},
    }
}

/// A function is derived with resolved types if its body is.
proof fn lemma_resolved_abstraction(
    t: Tm,
    x: Name,
    body: Tm,
    env: Seq<(Name, Ty)>,
    subs: Map<Name, Ty>,
    n: nat,
)
    requires
        t == Tm::Abstraction(x, Box::new(body)),
        steady(env, subs, n),
        derive_with(body, env.push((x, Ty::Variable(NameSupply::name(n)))), subs, n + 1) matches Ok(
            inner,
        ) ==> settled_derivation(inner, n + 1),
    ensures
        derive_with(t, env, subs, n) matches Ok(d) ==> settled_derivation(d, n),
{
    let a = Ty::Variable(NameSupply::name(n));
    match derive_with(body, env.push((x, a)), subs, n + 1) {
        Ok(inner) => {
            let d = derive_with(t, env, subs, n)->Ok_0;
            lemma_derive_env_len(body, env.push((x, a)), subs, n + 1);
            lemma_drop_last_steady(inner.env, inner.subs, inner.next);
            lemma_subst_resolved(a, inner.subs);
            lemma_below(n + 1, inner.next);
            let shown = a.subst(inner.subs);
            let ty = Ty::Fn(Box::new(shown), Box::new(inner.proof.conclusion.ty));
            assert(below(n + 1).contains(NameSupply::name(n))) by {
                lemma_below(n, n);
            }
            assert(ty.vars() == shown.vars().union(inner.proof.conclusion.ty.vars()));
            assert(resolved(ty, inner.subs));
            assert(ty.vars().subset_of(below(inner.next)));
            assert(resolved_proof(d.proof, d.subs)) by {
                assert forall|i: int| 0 <= i < d.proof.premises.len() implies resolved_proof(
                    #[trigger] d.proof.premises[i],
                    d.subs,
                ) by {
                    assert(d.proof.premises[i] == inner.proof);
                }
            }
        },
        Err(_) => {},
    }
}

/// An application is derived with resolved types if the function and the argument are.
proof fn lemma_resolved_application(
    t: Tm,
    l: Tm,
    r: Tm,
    env: Seq<(Name, Ty)>,
    subs: Map<Name, Ty>,
    n: nat,
)
    requires
        t == Tm::Application(Box::new(l), Box::new(r)),
        steady(env, subs, n),
        derive_with(l, env, subs, n) matches Ok(f) ==> settled_derivation(f, n) && (derive_with(
            r,
            f.env,
            f.subs,
            f.next,
        ) matches Ok(a) ==> settled_derivation(a, f.next)),
    ensures
        derive_with(t, env, subs, n) matches Ok(d) ==> settled_derivation(d, n),
{
    if derive_with(t, env, subs, n) is Ok {
        let d = derive_with(t, env, subs, n)->Ok_0;
        let f = derive_with(l, env, subs, n)->Ok_0;
        let a = derive_with(r, f.env, f.subs, f.next)->Ok_0;
        let fp = f.proof.subst(a.subs);
        let b = Ty::Variable(NameSupply::name(a.next));
        let lhs = fp.conclusion.ty;
        let rhs = Ty::Fn(Box::new(a.proof.conclusion.ty), Box::new(b));
        let problem = seq![(lhs, rhs)];
        let solved = unifier(problem, a.subs)->Ok_0;
        lemma_subst_resolved(f.proof.conclusion.ty, a.subs);
        lemma_below(f.next, a.next);
        lemma_below(a.next, a.next + 1);
        lemma_fresh_resolved(a.subs, a.next);
        lemma_problem_vars_single(lhs, rhs);
        assert(rhs.vars() == a.proof.conclusion.ty.vars().union(b.vars()));
        assert(problem_vars(problem).subset_of(below(a.next + 1)));
        assert(problem_vars(problem).disjoint(a.subs.dom())) by {
            assert forall|x: Name|
                !(problem_vars(problem).contains(x) && a.subs.dom().contains(x)) by {
                if problem_vars(problem).contains(x) && a.subs.contains_key(x) {
                    if lhs.vars().contains(x) {
                    } else if a.proof.conclusion.ty.vars().contains(x) {
                    } else {
                        assert(b.vars().contains(x));
                    }
                }
            }
        }
        lemma_unifier_proper(problem, a.subs);
        lemma_env_subst_resolved(a.env, solved);
        lemma_proof_subst_resolved(fp, solved);
        lemma_proof_subst_resolved(a.proof, solved);
        lemma_subst_resolved(b, solved);
        assert(resolved_proof(d.proof, d.subs)) by {
            assert forall|i: int| 0 <= i < d.proof.premises.len() implies resolved_proof(
                #[trigger] d.proof.premises[i],
                d.subs,
            ) by {
                if i == 0 {
                    assert(d.proof.premises[i] == fp.subst(solved));
                } else {
                    assert(d.proof.premises[i] == a.proof.subst(solved));
                }
            }
        }
    }
}

/// A `let` is derived with resolved types if its two parts are.
proof fn lemma_resolved_let(
    t: Tm,
    x: Name,
    bound: Tm,
    body: Tm,
    env: Seq<(Name, Ty)>,
    subs: Map<Name, Ty>,
    n: nat,
)
    requires
        t == Tm::Let(x, Box::new(bound), Box::new(body)),
        steady(env, subs, n),
        derive_with(bound, env, subs, n) matches Ok(b) ==> settled_derivation(b, n) && (
        derive_with(
            body,
            b.env.push((x, b.proof.conclusion.ty.generalise(env_vars(b.env)))),
            b.subs,
            b.next,
        ) matches Ok(o) ==> settled_derivation(o, b.next)),
    ensures
        derive_with(t, env, subs, n) matches Ok(d) ==> settled_derivation(d, n),
{
    if derive_with(t, env, subs, n) is Ok {
        let d = derive_with(t, env, subs, n)->Ok_0;
        let b = derive_with(bound, env, subs, n)->Ok_0;
        let scheme = b.proof.conclusion.ty.generalise(env_vars(b.env));
        let inner = b.env.push((x, scheme));
        let o = derive_with(body, inner, b.subs, b.next)->Ok_0;
        let outer = o.env.drop_last();
        let bp = b.proof.subst(o.subs);
        let shown = scheme.subst(o.subs);
        lemma_derive_env_len(body, inner, b.subs, b.next);
        lemma_drop_last_steady(o.env, o.subs, o.next);
        lemma_proof_subst_resolved(b.proof, o.subs);
        lemma_subst_resolved(scheme, o.subs);
        let first = if shown != bp.conclusion.ty {
            concluded(seq![bp], "Gen"@, outer, bound, shown)
        } else {
            bp
        };
        assert(resolved_proof(first, o.subs)) by {
            if shown != bp.conclusion.ty {
                assert forall|i: int| 0 <= i < first.premises.len() implies resolved_proof(
                    #[trigger] first.premises[i],
                    o.subs,
                ) by {
                    assert(first.premises[i] == bp);
                }
            }
        }
        assert(resolved_proof(d.proof, d.subs)) by {
            assert forall|i: int| 0 <= i < d.proof.premises.len() implies resolved_proof(
                #[trigger] d.proof.premises[i],
                d.subs,
            ) by {
                if i == 0 {
                    assert(d.proof.premises[i] == first);
                } else {
                    assert(d.proof.premises[i] == o.proof);
                }
            }
        }
    }
}

/// In a steady environment, a derivation that succeeds leaves a steady environment and
/// shows resolved types everywhere.
pub proof fn lemma_derive_resolved(t: Tm, env: Seq<(Name, Ty)>, subs: Map<Name, Ty>, n: nat)
    requires
        steady(env, subs, n),
    ensures
        derive_with(t, env, subs, n) matches Ok(d) ==> settled_derivation(d, n),
    decreases t,
{
    match t {
        Tm::Variable(x) => {
            lemma_resolved_variable(t, x, env, subs, n);
        },
        Tm::Abstraction(x, body) => {
            let a = Ty::Variable(NameSupply::name(n));
            lemma_fresh_resolved(subs, n);
            lemma_steady_later(env, subs, n, n + 1);
            lemma_push_steady(env, subs, n + 1, x, a);
            lemma_derive_resolved(*body, env.push((x, a)), subs, n + 1);
            lemma_resolved_abstraction(t, x, *body, env, subs, n);
        },
        Tm::Application(l, r) => {
            lemma_derive_resolved(*l, env, subs, n);
            match derive_with(*l, env, subs, n) {
                Ok(f) => {
                    lemma_derive_resolved(*r, f.env, f.subs, f.next);
                },
                Err(_) => {},
            }
            lemma_resolved_application(t, *l, *r, env, subs, n);
        },
        Tm::Let(x, bound, body) => {
            lemma_derive_resolved(*bound, env, subs, n);
            match derive_with(*bound, env, subs, n) {
                Ok(b) => {
                    let scheme = b.proof.conclusion.ty.generalise(env_vars(b.env));
                    lemma_generalise_vars(b.proof.conclusion.ty, env_vars(b.env));
                    assert(resolved(scheme, b.subs)) by {
                        assert forall|v: Name|
                            #![trigger scheme.vars().contains(v)]
                            scheme.vars().contains(v) implies !b.subs.contains_key(v) by {
                            assert(b.proof.conclusion.ty.vars().contains(v));
                        }
                    }
                    lemma_push_steady(b.env, b.subs, b.next, x, scheme);
                    lemma_derive_resolved(*body, b.env.push((x, scheme)), b.subs, b.next);
                },
                Err(_) => {},
            }
            lemma_resolved_let(t, x, *bound, *body, env, subs, n);
        },
    }
}

/// A derivation that is built in an environment without meta-variables shows resolved
/// types everywhere: no judgement holds a meta-variable that the inference has bound, and
/// the bindings, applied once more, change nothing.
pub proof fn lemma_derivation_resolved(t: Tm, env: Seq<(Name, Ty)>)
    requires
        env_vars(env) == Set::<Name>::empty(),
    ensures
        derive_with(t, env, Map::empty(), 0) matches Ok(d) ==> resolved_proof(d.proof, d.subs)
            && d.proof.subst(d.subs) == d.proof,
{
    let nothing = Map::<Name, Ty>::empty();
    assert(mapping_names(nothing) =~= Set::<Name>::empty());
    assert(steady(env, nothing, 0));
    lemma_derive_resolved(t, env, nothing, 0);
    match derive_with(t, env, nothing, 0) {
        Ok(d) => {
            lemma_resolved_proof_identity(d.proof, d.subs);
        },
        Err(_) => {},
    }
}

} // verus!
