//! Derivations: the natural-deduction proof of a typing, and its layout as text.
use vstd::prelude::*;

use super::infer::{env_vars, environment, find_binding, free_vars, lookup, TypeEnvironment};
use super::terms::{Term, Tm};
use super::types::{Substitution, Ty, Type};
use super::unify::{equations, unifier, unify_with, TyError, TypeError};
use crate::names::{Name, NameSupply};
use vstd::std_specs::cmp::PartialEqSpecImpl;

verus! {

/// The mathematical value of a judgement.
pub struct JudgementModel {
    pub lhs: Seq<(Name, Ty)>,
    pub term: Tm,
    pub ty: Ty,
}

/// The mathematical value of a derivation.
pub struct ProofModel {
    pub premises: Seq<ProofModel>,
    pub rule: Seq<char>,
    pub conclusion: JudgementModel,
}

impl JudgementModel {
    /// The judgement with the substitution applied to every type in it.
    pub open spec fn subst(self, mapping: Map<Name, Ty>) -> JudgementModel {
        JudgementModel {
            lhs: self.lhs.map_values(|b: (Name, Ty)| (b.0, b.1.subst(mapping))),
            term: self.term,
            ty: self.ty.subst(mapping),
        }
    }
}

impl ProofModel {
    /// The derivation with the substitution applied to every judgement in it.
    pub open spec fn subst(self, mapping: Map<Name, Ty>) -> ProofModel
        decreases self,
    {
        ProofModel {
            premises: Seq::new(
                self.premises.len(),
                |i: int|
                    if 0 <= i < self.premises.len() {
                        self.premises[i].subst(mapping)
                    } else {
                        self
                    },
            ),
            rule: self.rule,
            conclusion: self.conclusion.subst(mapping),
        }
    }
}

/// A typing judgement: in the environment `lhs`, the term of `rhs` has the type of `rhs`.
#[derive(Debug)]
pub struct Judgement {
    pub lhs: Vec<(String, Type)>,
    pub rhs: (Term, Type),
}

impl View for Judgement {
    type V = JudgementModel;

    open spec fn view(&self) -> JudgementModel {
        JudgementModel { lhs: environment(self.lhs@), term: self.rhs.0@, ty: self.rhs.1@ }
    }
}

/// A derivation: the judgement that it concludes, the rule that concludes it, and the
/// derivations of the premises of that rule.
#[derive(Debug)]
pub struct Proof {
    pub premises: Vec<Proof>,
    pub rule: &'static str,
    pub conclusion: Judgement,
}

impl Proof {
    /// The mathematical value of the derivation.
    pub open spec fn model(&self) -> ProofModel
        decreases self,
    {
        ProofModel {
            premises: Seq::new(
                self.premises@.len(),
                |i: int|
                    if 0 <= i < self.premises@.len() {
                        self.premises@[i].model()
                    } else {
                        arbitrary()
                    },
            ),
            rule: self.rule@,
            conclusion: self.conclusion@,
        }
    }
}

impl View for Proof {
    type V = ProofModel;

    open spec fn view(&self) -> ProofModel {
        self.model()
    }
}

/// Whether two judgements say the same: the same environment, terms that are equal up to
/// the names of their binders, and the same type.
pub open spec fn judgement_eq(a: JudgementModel, b: JudgementModel) -> bool {
    a.lhs == b.lhs && a.term.alpha_eq(b.term) && a.ty == b.ty
}

/// Whether two derivations are the same: the same rule, a conclusion that says the same,
/// and premises that are the same, one by one.
pub open spec fn proof_eq(a: ProofModel, b: ProofModel) -> bool
    decreases a,
{
    &&& a.rule == b.rule
    &&& judgement_eq(a.conclusion, b.conclusion)
    &&& a.premises.len() == b.premises.len()
    &&& forall|i: int|
        0 <= i < a.premises.len() ==> proof_eq(#[trigger] a.premises[i], b.premises[i])
}

/// Whether two environments bind the same names to the same types, in the same order.
fn same_bindings(a: &Vec<(String, Type)>, b: &Vec<(String, Type)>) -> (same: bool)
    ensures
        same == (environment(a@) == environment(b@)),
{
    if a.len() != b.len() {
        return false;
    }
    let mut i: usize = 0;
    while i < a.len()
        invariant
            i <= a.len(),
            a.len() == b.len(),
            forall|j: int| 0 <= j < i ==> environment(a@)[j] == environment(b@)[j],
        decreases a.len() - i,
    {
        if !(a[i].0 == b[i].0 && a[i].1 == b[i].1) {
            assert(environment(a@)[i as int] != environment(b@)[i as int]);
            return false;
        }
        i = i + 1;
    }
    assert(environment(a@) =~= environment(b@));
    true
}

impl Clone for Judgement {
    fn clone(&self) -> (copy: Self)
        ensures
            copy@ == self@,
    {
        Judgement { lhs: copied(&self.lhs), rhs: (self.rhs.0.clone(), self.rhs.1.clone()) }
    }
}

impl PartialEq for Judgement {
    fn eq(&self, other: &Self) -> (equal: bool) {
        same_bindings(&self.lhs, &other.lhs) && self.rhs.0 == other.rhs.0 && self.rhs.1
            == other.rhs.1
    }
}

impl PartialEqSpecImpl for Judgement {
    open spec fn obeys_eq_spec() -> bool {
        true
    }

    open spec fn eq_spec(&self, other: &Self) -> bool {
        judgement_eq(self@, other@)
    }
}

impl Eq for Judgement {

}

impl Clone for Proof {
    fn clone(&self) -> (copy: Self)
        ensures
            copy@ == self@,
        decreases self,
    {
        let mut premises: Vec<Proof> = Vec::new();
        let mut i: usize = 0;
        while i < self.premises.len()
            invariant
                i <= self.premises.len(),
                premises@.len() == i,
                forall|j: int|
                    0 <= j < i ==> (#[trigger] premises@[j]).model() == self.premises@[j].model(),
            decreases self.premises.len() - i,
        {
            premises.push(self.premises[i].clone());
            i = i + 1;
        }
        let copy = Proof { premises, rule: self.rule, conclusion: self.conclusion.clone() };
        assert(copy@.premises =~= self@.premises);
        copy
    }
}

impl PartialEq for Proof {
    fn eq(&self, other: &Self) -> (equal: bool)
        decreases self,
    {
        if !(String::from_str(self.rule) == String::from_str(other.rule)) {
            return false;
        }
        if !(self.conclusion == other.conclusion) {
            return false;
        }
        if self.premises.len() != other.premises.len() {
            return false;
        }
        let mut i: usize = 0;
        while i < self.premises.len()
            invariant
                i <= self.premises.len(),
                self.premises.len() == other.premises.len(),
                forall|j: int|
                    0 <= j < i ==> proof_eq(
                        (#[trigger] self.premises@[j]).model(),
                        other.premises@[j].model(),
                    ),
            decreases self.premises.len() - i,
        {
            if !self.premises[i].eq(&other.premises[i]) {
                assert(self@.premises[i as int] == self.premises@[i as int].model());
                assert(other@.premises[i as int] == other.premises@[i as int].model());
                return false;
            }
            i = i + 1;
        }
        assert forall|j: int| 0 <= j < self@.premises.len() implies proof_eq(
            #[trigger] self@.premises[j],
            other@.premises[j],
        ) by {
            assert(proof_eq(self.premises@[j].model(), other.premises@[j].model()));
        }
        true
    }
}

impl PartialEqSpecImpl for Proof {
    open spec fn obeys_eq_spec() -> bool {
        true
    }

    open spec fn eq_spec(&self, other: &Self) -> bool {
        proof_eq(self@, other@)
    }
}

impl Eq for Proof {

}

impl Judgement {
    /// The judgement with the substitution applied to every type in it.
    pub fn substitute(&self, mapping: &Substitution) -> (result: Self)
        ensures
            result@ == self@.subst(mapping@),
    {
        let mut lhs: Vec<(String, Type)> = Vec::new();
        let mut i: usize = 0;
        while i < self.lhs.len()
            invariant
                i <= self.lhs.len(),
                lhs@.len() == i,
                forall|j: int|
                    0 <= j < i ==> (#[trigger] lhs@[j]).0@ == self.lhs@[j].0@ && lhs@[j].1@
                        == self.lhs@[j].1@.subst(mapping@),
            decreases self.lhs.len() - i,
        {
            lhs.push((self.lhs[i].0.clone(), self.lhs[i].1.substitute(mapping)));
            i = i + 1;
        }
        let result = Judgement {
            lhs,
            rhs: (self.rhs.0.clone(), self.rhs.1.substitute(mapping)),
        };
        assert(result@.lhs =~= self@.subst(mapping@).lhs);
        result
    }
}

impl Proof {
    /// The derivation with the substitution applied to every judgement in it.
    pub fn substitute(&self, mapping: &Substitution) -> (result: Self)
        ensures
            result@ == self@.subst(mapping@),
        decreases self,
    {
        let mut premises: Vec<Proof> = Vec::new();
        let mut i: usize = 0;
        while i < self.premises.len()
            invariant
                i <= self.premises.len(),
                premises@.len() == i,
                forall|j: int|
                    0 <= j < i ==> (#[trigger] premises@[j]).model()
                        == self.premises@[j].model().subst(mapping@),
            decreases self.premises.len() - i,
        {
            premises.push(self.premises[i].substitute(mapping));
            i = i + 1;
        }
        let result = Proof {
            premises,
            rule: self.rule,
            conclusion: self.conclusion.substitute(mapping),
        };
        assert(result@.premises =~= self@.subst(mapping@).premises);
        result
    }

    /// The type that the derivation gives to its term.
    pub fn ty(&self) -> (ty: &Type)
        ensures
            ty@ == self@.conclusion.ty,
    {
        &self.conclusion.rhs.1
    }
}


/// The environment with the substitution applied to every type in it.
pub open spec fn env_subst(env: Seq<(Name, Ty)>, mapping: Map<Name, Ty>) -> Seq<(Name, Ty)> {
    env.map_values(|b: (Name, Ty)| (b.0, b.1.subst(mapping)))
}

/// A derivation that ends with the rule `rule` from `premises`.
pub open spec fn concluded(
    premises: Seq<ProofModel>,
    rule: Seq<char>,
    lhs: Seq<(Name, Ty)>,
    term: Tm,
    ty: Ty,
) -> ProofModel {
    ProofModel { premises, rule, conclusion: JudgementModel { lhs, term, ty } }
}

/// What the derivation of a term leaves: the derivation, the environment with every binding
/// made so far applied, the bindings, and the number of meta-variables handed out.
pub struct Derived {
    pub proof: ProofModel,
    pub env: Seq<(Name, Ty)>,
    pub subs: Map<Name, Ty>,
    pub next: nat,
}

/// The derivation of the term `t` in the environment `env`, on top of the bindings `subs`
/// and with `next` meta-variables handed out before.
///
/// A variable has the scheme of its most recent binding by `Var`, and below that a fresh
/// instance by `Inst` if the scheme has variables to instantiate. A function is typed by
/// `Abs` from its body. An application is typed by `App`: the type of the function is
/// unified at once with a function type from the type of the argument to a fresh
/// meta-variable, and the bindings found are applied to the environment and to both
/// premises. A `let` is typed by `Let` with the type of its body; its first premise types
/// what is bound, generalised by `Gen` if that changes the type. The first failure ends the
/// derivation.
pub open spec fn derive_with(t: Tm, env: Seq<(Name, Ty)>, subs: Map<Name, Ty>, next: nat) -> Result<
    Derived,
    TyError,
>
    decreases t,
{
    match t {
        Tm::Variable(x) => match lookup(env, x) {
            None => Err(TyError::UnboundVariable(x)),
            Some(ty) => {
                let var_p = concluded(Seq::empty(), "Var"@, env, t, ty);
                let inst = ty.instantiate(next);
                Ok(
                    Derived {
                        proof: if inst != ty {
                            concluded(seq![var_p], "Inst"@, env, t, inst)
                        } else {
                            var_p
                        },
                        env,
                        subs,
                        next: next + ty.gen_var_order().len(),
                    },
                )
            },
        },
        Tm::Abstraction(x, body) => {
            let a = Ty::Variable(NameSupply::name(next));
            match derive_with(*body, env.push((x, a)), subs, next + 1) {
                Err(e) => Err(e),
                Ok(inner) => {
                    let outer = inner.env.drop_last();
                    let ty = Ty::Fn(
                        Box::new(a.subst(inner.subs)),
                        Box::new(inner.proof.conclusion.ty),
                    );
                    Ok(
                        Derived {
                            proof: concluded(seq![inner.proof], "Abs"@, outer, t, ty),
                            env: outer,
                            subs: inner.subs,
                            next: inner.next,
                        },
                    )
                },
            }
        },
        Tm::Application(l, r) => match derive_with(*l, env, subs, next) {
            Err(e) => Err(e),
            Ok(f) => match derive_with(*r, f.env, f.subs, f.next) {
                Err(e) => Err(e),
                Ok(a) => {
                    let fp = f.proof.subst(a.subs);
                    let b = Ty::Variable(NameSupply::name(a.next));
                    let rhs = Ty::Fn(Box::new(a.proof.conclusion.ty), Box::new(b));
                    match unifier(seq![(fp.conclusion.ty, rhs)], a.subs) {
                        Err(e) => Err(e),
                        Ok(solved) => {
                            let env2 = env_subst(a.env, solved);
                            Ok(
                                Derived {
                                    proof: concluded(
                                        seq![fp.subst(solved), a.proof.subst(solved)],
                                        "App"@,
                                        env2,
                                        t,
                                        b.subst(solved),
                                    ),
                                    env: env2,
                                    subs: solved,
                                    next: a.next + 1,
                                },
                            )
                        },
                    }
                },
            },
        },
        Tm::Let(x, bound, body) => match derive_with(*bound, env, subs, next) {
            Err(e) => Err(e),
            Ok(b) => {
                let scheme = b.proof.conclusion.ty.generalise(env_vars(b.env));
                match derive_with(*body, b.env.push((x, scheme)), b.subs, b.next) {
                    Err(e) => Err(e),
                    Ok(o) => {
                        let outer = o.env.drop_last();
                        let bp = b.proof.subst(o.subs);
                        let shown = scheme.subst(o.subs);
                        let first = if shown != bp.conclusion.ty {
                            concluded(seq![bp], "Gen"@, outer, *bound, shown)
                        } else {
                            bp
                        };
                        Ok(
                            Derived {
                                proof: concluded(
                                    seq![first, o.proof],
                                    "Let"@,
                                    outer,
                                    t,
                                    o.proof.conclusion.ty,
                                ),
                                env: outer,
                                subs: o.subs,
                                next: o.next,
                            },
                        )
                    },
                }
            },
        },
    }
}

/// A derivation leaves as many bindings in the environment as it found.
pub proof fn lemma_derive_env_len(t: Tm, env: Seq<(Name, Ty)>, subs: Map<Name, Ty>, next: nat)
    ensures
        derive_with(t, env, subs, next) matches Ok(d) ==> d.env.len() == env.len(),
    decreases t,
{
    match t {
        Tm::Variable(_) => {},
        Tm::Abstraction(x, body) => {
            let a = Ty::Variable(NameSupply::name(next));
            lemma_derive_env_len(*body, env.push((x, a)), subs, next + 1);
        },
        Tm::Application(l, r) => {
            lemma_derive_env_len(*l, env, subs, next);
            match derive_with(*l, env, subs, next) {
                Ok(f) => {
                    lemma_derive_env_len(*r, f.env, f.subs, f.next);
                },
                Err(_) => {},
            }
        },
        Tm::Let(x, bound, body) => {
            lemma_derive_env_len(*bound, env, subs, next);
            match derive_with(*bound, env, subs, next) {
                Ok(b) => {
                    let scheme = b.proof.conclusion.ty.generalise(env_vars(b.env));
                    lemma_derive_env_len(*body, b.env.push((x, scheme)), b.subs, b.next);
                },
                Err(_) => {},
            }
        },
    }
}

/// The derivation of `t` in `env` from nothing, or why `t` has no type.
pub open spec fn derivation(t: Tm, env: Seq<(Name, Ty)>) -> Result<ProofModel, TyError> {
    match derive_with(t, env, Map::empty(), 0) {
        Ok(d) => Ok(d.proof),
        Err(e) => Err(e),
    }
}

/// The mathematical value of what a derivation attempt returns.
pub open spec fn derived(result: Result<Proof, TypeError>) -> Result<ProofModel, TyError> {
    match result {
        Ok(p) => Ok(p@),
        Err(e) => Err(e@),
    }
}

/// A copy of the environment.
fn copied(type_env: &TypeEnvironment) -> (copy: TypeEnvironment)
    ensures
        environment(copy@) == environment(type_env@),
{
    let mut copy: TypeEnvironment = Vec::new();
    let mut i: usize = 0;
    while i < type_env.len()
        invariant
            i <= type_env.len(),
            copy@ == type_env@.take(i as int),
        decreases type_env.len() - i,
    {
        copy.push((type_env[i].0.clone(), type_env[i].1.clone()));
        assert(copy@ =~= type_env@.take(i + 1));
        i = i + 1;
    }
    assert(type_env@.take(type_env@.len() as int) =~= type_env@);
    copy
}

/// Applies the substitution to every type in the environment, in place.
fn apply_to_env(type_env: &mut TypeEnvironment, mapping: &Substitution)
    ensures
        environment(final(type_env)@) == env_subst(environment(old(type_env)@), mapping@),
{
    let mut i: usize = 0;
    while i < type_env.len()
        invariant
            i <= type_env.len(),
            type_env.len() == old(type_env).len(),
            forall|j: int|
                0 <= j < i ==> (#[trigger] type_env@[j]).0@ == old(type_env)@[j].0@
                    && type_env@[j].1@ == old(type_env)@[j].1@.subst(mapping@),
            forall|j: int| i <= j < type_env.len() ==> type_env@[j] == old(type_env)@[j],
        decreases type_env.len() - i,
    {
        let name = type_env[i].0.clone();
        let ty = type_env[i].1.substitute(mapping);
        type_env.set(i, (name, ty));
        i = i + 1;
    }
    assert(environment(type_env@) =~= env_subst(environment(old(type_env)@), mapping@));
}

/// The derivation that concludes the typing of `term` by `rule` from `premises`.
fn conclude(
    premises: Vec<Proof>,
    rule: &'static str,
    type_env: &TypeEnvironment,
    term: &Term,
    ty: Type,
) -> (proof: Proof)
    ensures
        proof@ == concluded(
            Seq::new(premises@.len(), |i: int| premises@[i].model()),
            rule@,
            environment(type_env@),
            term@,
            ty@,
        ),
{
    let proof = Proof {
        premises,
        rule,
        conclusion: Judgement { lhs: copied(type_env), rhs: (term.clone(), ty) },
    };
    assert(proof@.premises =~= Seq::new(premises@.len(), |i: int| premises@[i].model()));
    proof
}

/// What a derivation attempt has to return and leave for the inputs it was given.
pub open spec fn derives(
    result: Result<Proof, TypeError>,
    t: Tm,
    env: Seq<(Name, Ty)>,
    subs: Map<Name, Ty>,
    next: nat,
    env_after: Seq<(Name, Ty)>,
    subs_after: Map<Name, Ty>,
    next_after: nat,
) -> bool {
    match result {
        Ok(proof) => derive_with(t, env, subs, next) == Ok::<Derived, TyError>(
            Derived { proof: proof@, env: env_after, subs: subs_after, next: next_after },
        ),
        Err(e) => derive_with(t, env, subs, next) == Err::<Derived, TyError>(e@),
    }
}

/// The rules `Var` and `Inst`: a variable has the scheme of its most recent binding, and
/// below that a fresh instance of it.
fn derive_variable(
    t: &Term,
    x: &String,
    type_env: &TypeEnvironment,
    subs: &Substitution,
    supply: &mut NameSupply,
) -> (result: Result<Proof, TypeError>)
    requires
        t@ == Tm::Variable(x@),
    ensures
        derives(
            result,
            t@,
            environment(type_env@),
            subs@,
            old(supply).count(),
            environment(type_env@),
            subs@,
            final(supply).count(),
        ),
{
    let ty = match find_binding(type_env, x) {
        None => {
            return Err(TypeError::UnboundVariable(x.clone()));
        },
        Some(ty) => ty.clone(),
    };
    let var_p = conclude(Vec::new(), "Var", type_env, t, ty.clone());
    assert(var_p@.premises =~= Seq::<ProofModel>::empty());
    let inst_ty = ty.instantiate(supply);
    if !(inst_ty == ty) {
        let ghost premise = var_p@;
        let inst_p = conclude(vec![var_p], "Inst", type_env, t, inst_ty);
        assert(inst_p@.premises =~= seq![premise]);
        Ok(inst_p)
    } else {
        Ok(var_p)
    }
}

/// The rule `Abs`: a function is typed from its body, with its parameter bound to a fresh
/// meta-variable.
fn derive_abstraction(
    t: &Term,
    x: &String,
    body: &Term,
    type_env: &mut TypeEnvironment,
    subs: &mut Substitution,
    supply: &mut NameSupply,
) -> (result: Result<Proof, TypeError>)
    requires
        t@ == Tm::Abstraction(x@, Box::new(body@)),
    ensures
        derives(
            result,
            t@,
            environment(old(type_env)@),
            old(subs)@,
            old(supply).count(),
            environment(final(type_env)@),
            final(subs)@,
            final(supply).count(),
        ),
    decreases body, 2nat,
{
    let a = Type::Variable(supply.fresh());
    let ghost before = environment(type_env@);
    type_env.push((x.clone(), a.clone()));
    assert(environment(type_env@) =~= before.push((x@, a@)));
    proof {
        lemma_derive_env_len(body@, environment(type_env@), subs@, supply.count());
    }
    let b = type_deriv_impl(body, type_env, subs, supply);
    let ghost inner = environment(type_env@);
    type_env.pop();
    let b = match b {
        Ok(b) => b,
        Err(e) => {
            return Err(e);
        },
    };
    assert(environment(type_env@) =~= inner.drop_last());
    let a = a.substitute(subs);
    let ty = Type::Fn(Box::new(a), Box::new(b.ty().clone()));
    let ghost premise = b@;
    let proof = conclude(vec![b], "Abs", type_env, t, ty);
    assert(proof@.premises =~= seq![premise]);
    Ok(proof)
}

/// The rule `App`: the type of the function is unified with a function type from the type
/// of the argument, and what is found is applied to the environment and to both premises.
fn derive_application(
    t: &Term,
    l: &Term,
    r: &Term,
    type_env: &mut TypeEnvironment,
    subs: &mut Substitution,
    supply: &mut NameSupply,
) -> (result: Result<Proof, TypeError>)
    requires
        *t == Term::Application(Box::new(*l), Box::new(*r)),
    ensures
        derives(
            result,
            t@,
            environment(old(type_env)@),
            old(subs)@,
            old(supply).count(),
            environment(final(type_env)@),
            final(subs)@,
            final(supply).count(),
        ),
    decreases t, 0nat,
{
    let f = match type_deriv_impl(l, type_env, subs, supply) {
        Ok(f) => f,
        Err(e) => {
            return Err(e);
        },
    };
    let a = match type_deriv_impl(r, type_env, subs, supply) {
        Ok(a) => a,
        Err(e) => {
            return Err(e);
        },
    };
    let f = f.substitute(subs);
    let b = Type::Variable(supply.fresh());
    let rhs = Type::Fn(Box::new(a.ty().clone()), Box::new(b.clone()));
    let equalities = vec![(f.ty().clone(), rhs)];
    assert(equations(equalities@) =~= seq![(f@.conclusion.ty, rhs@)]);
    let ghost known = subs@;
    let mut taken = Substitution::new();
    std::mem::swap(&mut taken, subs);
    match unify_with(equalities, taken) {
        Ok(solved) => {
            *subs = solved;
        },
        Err(e) => {
            proof {
                // The attempt failed in the unifier, not in a premise.
                let first = derive_with(
                    l@,
                    environment(old(type_env)@),
                    old(subs)@,
                    old(supply).count(),
                )->Ok_0;
                let second = derive_with(r@, first.env, first.subs, first.next)->Ok_0;
                assert(known == second.subs);
                assert(f@ == first.proof.subst(second.subs));
                assert(b@ == Ty::Variable(NameSupply::name(second.next)));
                assert(rhs@ == Ty::Fn(Box::new(second.proof.conclusion.ty), Box::new(b@)));
                assert(unifier(seq![(f@.conclusion.ty, rhs@)], known) == Err::<
                    Map<Name, Ty>,
                    TyError,
                >(e@));
                assert(t@ == Tm::Application(Box::new(l@), Box::new(r@)));
            }
            return Err(e);
        },
    }
    apply_to_env(type_env, subs);
    let f = f.substitute(subs);
    let a = a.substitute(subs);
    let b = b.substitute(subs);
    let ghost first = f@;
    let ghost second = a@;
    let proof = conclude(vec![f, a], "App", type_env, t, b);
    assert(proof@.premises =~= seq![first, second]);
    Ok(proof)
}

/// The rules `Let` and `Gen`: what is bound is typed and generalised, and the body is typed
/// with the name bound to the scheme.
fn derive_let(
    t: &Term,
    x: &String,
    b: &Term,
    o: &Term,
    type_env: &mut TypeEnvironment,
    subs: &mut Substitution,
    supply: &mut NameSupply,
) -> (result: Result<Proof, TypeError>)
    requires
        *t == Term::Let(*x, Box::new(*b), Box::new(*o)),
    ensures
        derives(
            result,
            t@,
            environment(old(type_env)@),
            old(subs)@,
            old(supply).count(),
            environment(final(type_env)@),
            final(subs)@,
            final(supply).count(),
        ),
    decreases t, 0nat,
{
    let bp = match type_deriv_impl(b, type_env, subs, supply) {
        Ok(bp) => bp,
        Err(e) => {
            return Err(e);
        },
    };
    let fv = free_vars(type_env);
    let gen_t = bp.ty().generalise(&fv);
    let ghost before = environment(type_env@);
    type_env.push((x.clone(), gen_t.clone()));
    assert(environment(type_env@) =~= before.push((x@, gen_t@)));
    proof {
        lemma_derive_env_len(o@, environment(type_env@), subs@, supply.count());
    }
    let op = type_deriv_impl(o, type_env, subs, supply);
    let ghost inner = environment(type_env@);
    type_env.pop();
    let op = match op {
        Ok(op) => op,
        Err(e) => {
            return Err(e);
        },
    };
    assert(environment(type_env@) =~= inner.drop_last());
    let bp = bp.substitute(subs);
    let shown = gen_t.substitute(subs);
    let first = if !(shown == *bp.ty()) {
        let ghost premise = bp@;
        let gen_p = conclude(vec![bp], "Gen", type_env, b, shown);
        assert(gen_p@.premises =~= seq![premise]);
        gen_p
    } else {
        bp
    };
    let ty = op.ty().clone();
    let ghost one = first@;
    let ghost two = op@;
    let proof = conclude(vec![first, op], "Let", type_env, t, ty);
    assert(proof@.premises =~= seq![one, two]);
    Ok(proof)
}

/// The derivation of `t` on top of the bindings made so far, by the rule for its form.
fn type_deriv_impl(
    t: &Term,
    type_env: &mut TypeEnvironment,
    subs: &mut Substitution,
    supply: &mut NameSupply,
) -> (result: Result<Proof, TypeError>)
    ensures
        derives(
            result,
            t@,
            environment(old(type_env)@),
            old(subs)@,
            old(supply).count(),
            environment(final(type_env)@),
            final(subs)@,
            final(supply).count(),
        ),
    decreases t, 1nat,
{
    match t {
        Term::Variable(x) => derive_variable(t, x, type_env, subs, supply),
        Term::Abstraction(x, body) => derive_abstraction(t, x, body, type_env, subs, supply),
        Term::Application(l, r) => derive_application(t, l, r, type_env, subs, supply),
        Term::Let(x, b, o) => derive_let(t, x, b, o, type_env, subs, supply),
    }
}

/// Builds the derivation of the typing of `t` in the environment `type_env`, with every
/// binding that the inference finds applied to every judgement, or says why `t` has no type.
pub fn type_deriv(t: &Term, type_env: &TypeEnvironment) -> (result: Result<Proof, TypeError>)
    ensures
        derived(result) == derivation(t@, environment(type_env@)),
{
    let mut env = copied(type_env);
    let mut subs = Substitution::new();
    let mut supply = NameSupply::new();
    type_deriv_impl(t, &mut env, &mut subs, &mut supply)
}

} // verus!
