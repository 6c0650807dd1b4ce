//! The two inference strategies compared: the inference by constraints, which solves all
//! equations at the end, and the inference that unifies as it goes.
use vstd::prelude::*;

use super::infer::{collect, env_vars, infer, lookup, Collected};
use super::rec_scheme::calc::{env_apply, infer_online, online, Online};
use super::terms::Tm;
use super::types::Ty;
use super::unify::{
    apply_bindings, bind_all, lemma_apply_bindings_concat, lemma_bind_all_vars, lemma_bind_vars,
    lemma_step_decreases,
    problem_size, problem_vars, solve, step, unifier, Step, TyError,
};
use super::unify_laws::{
    instance_of, lemma_apply_fn, lemma_solve_complete, lemma_solve_most_general,
    lemma_solve_sound, lemma_unifier_complete, lemma_unifier_most_general, lemma_unifier_sound,
    lemma_variants_renamed, same_up_to_names, unifies,
};
use crate::names::{lemma_numbered_injective, Name, NameSupply};

verus! {

/// Whether the type has no schema-bound variable.
pub open spec fn plain(ty: Ty) -> bool
    decreases ty,
{
    match ty {
        Ty::Variable(_) => true,
        Ty::GenVariable(_) => false,
        Ty::Fn(t, u) => plain(*t) && plain(*u),
    }
}

/// Whether no binding binds to a type with a schema-bound variable.
pub open spec fn plain_bindings(bindings: Seq<(Name, Ty)>) -> bool {
    forall|i: int| 0 <= i < bindings.len() ==> plain((#[trigger] bindings[i]).1)
}

/// Whether no side of an equation has a schema-bound variable.
pub open spec fn plain_problem(eqs: Seq<(Ty, Ty)>) -> bool {
    forall|i: int| 0 <= i < eqs.len() ==> plain((#[trigger] eqs[i]).0) && plain(eqs[i].1)
}

/// The names of the supply with a number below `n`.
pub open spec fn below(n: nat) -> Set<Name> {
    Set::new(|x: Name| exists|k: nat| k < n && x == #[trigger] NameSupply::name(k))
}

/// Every name in the bindings: the names that are bound and the meta-variables of the types
/// that they are bound to.
pub open spec fn binding_names(bindings: Seq<(Name, Ty)>) -> Set<Name>
    decreases bindings.len(),
{
    if bindings.len() == 0 {
        Set::empty()
    } else {
        binding_names(bindings.drop_last()).insert(bindings.last().0).union(
            bindings.last().1.vars(),
        )
    }
}

/// The equations with the bindings applied to both sides.
pub open spec fn applied(eqs: Seq<(Ty, Ty)>, bindings: Seq<(Name, Ty)>) -> Seq<(Ty, Ty)> {
    eqs.map_values(|e: (Ty, Ty)| (apply_bindings(e.0, bindings), apply_bindings(e.1, bindings)))
}

/// The equations that the pass over `t` collects.
pub open spec fn constraints_of(t: Tm, env: Seq<(Name, Ty)>, n: nat) -> Seq<(Ty, Ty)> {
    collect(t, env, Seq::empty(), n).constraints
}

/// The pass over a term adds its equations to those it was given, and nothing else of what
/// it returns depends on them.
pub proof fn lemma_collect_append(t: Tm, env: Seq<(Name, Ty)>, cs: Seq<(Ty, Ty)>, n: nat)
    ensures
        collect(t, env, cs, n).ty == collect(t, env, Seq::empty(), n).ty,
        collect(t, env, cs, n).next == collect(t, env, Seq::empty(), n).next,
        collect(t, env, cs, n).constraints == cs + constraints_of(t, env, n),
    decreases t,
{
    let none = Seq::<(Ty, Ty)>::empty();
    match t {
        Tm::Variable(x) => {
            assert(cs + none =~= cs);
        },
        Tm::Abstraction(x, body) => {
            let a = Ty::Variable(NameSupply::name(n));
            lemma_collect_append(*body, env.push((x, a)), cs, n + 1);
        },
        Tm::Application(f, arg) => {
            lemma_collect_append(*f, env, cs, n);
            let fun = collect(*f, env, cs, n);
            let fun0 = collect(*f, env, none, n);
            match fun.ty {
                Err(_) => {},
                Ok(tf) => {
                    lemma_collect_append(*arg, env, fun.constraints, fun.next);
                    lemma_collect_append(*arg, env, fun0.constraints, fun0.next);
                    let a = collect(*arg, env, fun.constraints, fun.next);
                    let a0 = collect(*arg, env, fun0.constraints, fun0.next);
                    let ca = constraints_of(*arg, env, fun.next);
                    assert(a.constraints =~= cs + a0.constraints);
                    match a.ty {
                        Err(_) => {},
                        Ok(ta) => {
                            let b = Ty::Variable(NameSupply::name(a.next));
                            let last = (tf, Ty::Fn(Box::new(ta), Box::new(b)));
                            assert(a.constraints.push(last) =~= cs + a0.constraints.push(last));
                        },
                    }
                },
            }
        },
        Tm::Let(x, bound, body) => {
            lemma_collect_append(*bound, env, cs, n);
            let b = collect(*bound, env, cs, n);
            let b0 = collect(*bound, env, none, n);
            match b.ty {
                Err(_) => {},
                Ok(tb) => {
                    let inner = env.push((x, tb.generalise(env_vars(env))));
                    lemma_collect_append(*body, inner, b.constraints, b.next);
                    lemma_collect_append(*body, inner, b0.constraints, b0.next);
                    let o = collect(*body, inner, b.constraints, b.next);
                    let o0 = collect(*body, inner, b0.constraints, b0.next);
                    assert(o.constraints =~= cs + o0.constraints);
                },
            }
        },
    }
}

/// The pass over a term takes no meta-variable back.
pub proof fn lemma_collect_next(t: Tm, env: Seq<(Name, Ty)>, cs: Seq<(Ty, Ty)>, n: nat)
    ensures
        n <= collect(t, env, cs, n).next,
    decreases t,
{
    match t {
        Tm::Variable(x) => {},
        Tm::Abstraction(x, body) => {
            let a = Ty::Variable(NameSupply::name(n));
            lemma_collect_next(*body, env.push((x, a)), cs, n + 1);
        },
        Tm::Application(f, arg) => {
            lemma_collect_next(*f, env, cs, n);
            let fun = collect(*f, env, cs, n);
            lemma_collect_next(*arg, env, fun.constraints, fun.next);
        },
        Tm::Let(x, bound, body) => {
            lemma_collect_next(*bound, env, cs, n);
            let b = collect(*bound, env, cs, n);
            match b.ty {
                Err(_) => {},
                Ok(tb) => {
                    let inner = env.push((x, tb.generalise(env_vars(env))));
                    lemma_collect_next(*body, inner, b.constraints, b.next);
                },
            }
        },
    }
}

/// A type without schema-bound variables adds none to those seen.
proof fn lemma_plain_gen_vars_after(ty: Ty, seen: Seq<Name>)
    requires
        plain(ty),
    ensures
        ty.gen_vars_after(seen) == seen,
    decreases ty,
{
    match ty {
        Ty::Fn(t, u) => {
            lemma_plain_gen_vars_after(*t, seen);
            lemma_plain_gen_vars_after(*u, seen);
        },
        _ => {},
    }
}

/// Replacing schema-bound variables changes nothing of a type without any.
proof fn lemma_plain_gen_subst(ty: Ty, mapping: Map<Name, Ty>)
    requires
        plain(ty),
    ensures
        ty.gen_subst(mapping) == ty,
    decreases ty,
{
    match ty {
        Ty::Fn(t, u) => {
            lemma_plain_gen_subst(*t, mapping);
            lemma_plain_gen_subst(*u, mapping);
        },
        _ => {},
    }
}

/// Binding a meta-variable to a type without schema-bound variables brings in none.
pub proof fn lemma_bind_plain(ty: Ty, var: Name, to: Ty)
    requires
        plain(ty),
        plain(to),
    ensures
        plain(ty.bind(var, to)),
    decreases ty,
{
    match ty {
        Ty::Fn(t, u) => {
            lemma_bind_plain(*t, var, to);
            lemma_bind_plain(*u, var, to);
        },
        _ => {},
    }
}

/// Bindings to types without schema-bound variables bring in none.
pub proof fn lemma_apply_plain(ty: Ty, bindings: Seq<(Name, Ty)>)
    requires
        plain(ty),
        plain_bindings(bindings),
    ensures
        plain(apply_bindings(ty, bindings)),
    decreases bindings.len(),
{
    if bindings.len() > 0 {
        let front = bindings.drop_last();
        assert forall|i: int| 0 <= i < front.len() implies plain((#[trigger] front[i]).1) by {
            assert(front[i] == bindings[i]);
        }
        lemma_apply_plain(ty, front);
        assert(plain(bindings[bindings.len() - 1].1));
        lemma_bind_plain(apply_bindings(ty, front), bindings.last().0, bindings.last().1);
    }
}

/// The unifier binds to types without schema-bound variables where the equations have none.
pub proof fn lemma_solve_plain(eqs: Seq<(Ty, Ty)>)
    requires
        plain_problem(eqs),
    ensures
        solve(eqs) matches Ok(bindings) ==> plain_bindings(bindings),
    decreases problem_vars(eqs).len(), problem_size(eqs),
{
    if eqs.len() > 0 {
        let rest = eqs.drop_last();
        lemma_step_decreases(eqs);
        assert(plain(eqs[eqs.len() - 1].0) && plain(eqs[eqs.len() - 1].1));
        assert forall|i: int| 0 <= i < rest.len() implies plain((#[trigger] rest[i]).0) && plain(
            rest[i].1,
        ) by {
            assert(rest[i] == eqs[i]);
        }
        match step(eqs.last().0, eqs.last().1) {
            Step::Discard => {
                lemma_solve_plain(rest);
            },
            Step::Decompose(t1, u1, t2, u2) => {
                let next = rest.push((t1, t2)).push((u1, u2));
                assert forall|i: int| 0 <= i < next.len() implies plain((#[trigger] next[i]).0)
                    && plain(next[i].1) by {
                    if i < rest.len() {
                        assert(next[i] == rest[i]);
                    }
                }
                lemma_solve_plain(next);
            },
            Step::Bind(v, t) => {
                let next = bind_all(rest, v, t);
                assert forall|i: int| 0 <= i < next.len() implies plain((#[trigger] next[i]).0)
                    && plain(next[i].1) by {
                    lemma_bind_plain(rest[i].0, v, t);
                    lemma_bind_plain(rest[i].1, v, t);
                }
                lemma_solve_plain(next);
                match solve(next) {
                    Ok(tail) => {
                        let bindings = seq![(v, t)] + tail;
                        assert forall|i: int| 0 <= i < bindings.len() implies plain(
                            (#[trigger] bindings[i]).1,
                        ) by {
                            if i > 0 {
                                assert(bindings[i] == tail[i - 1]);
                            }
                        }
                    },
                    Err(_) => {},
                }
            },
            Step::Fail(_) => {},
        }
    }
}

/// The names of two lists of bindings together are the names of the one list made of both.
pub proof fn lemma_binding_names_concat(first: Seq<(Name, Ty)>, second: Seq<(Name, Ty)>)
    ensures
        binding_names(first + second) == binding_names(first).union(binding_names(second)),
    decreases second.len(),
{
    if second.len() == 0 {
        assert(first + second =~= first);
        assert(binding_names(first + second) =~= binding_names(first).union(
            binding_names(second),
        ));
    } else {
        assert((first + second).drop_last() =~= first + second.drop_last());
        lemma_binding_names_concat(first, second.drop_last());
        assert(binding_names(first + second) =~= binding_names(first).union(
            binding_names(second),
        ));
    }
}

/// Every name in the bindings that the unifier returns is a meta-variable of the problem.
pub proof fn lemma_solve_binding_names(eqs: Seq<(Ty, Ty)>)
    ensures
        solve(eqs) matches Ok(bindings) ==> binding_names(bindings).subset_of(problem_vars(eqs)),
    decreases problem_vars(eqs).len(), problem_size(eqs),
{
    if eqs.len() > 0 {
        let rest = eqs.drop_last();
        lemma_step_decreases(eqs);
        match step(eqs.last().0, eqs.last().1) {
            Step::Discard => {
                lemma_solve_binding_names(rest);
            },
            Step::Decompose(t1, u1, t2, u2) => {
                lemma_solve_binding_names(rest.push((t1, t2)).push((u1, u2)));
            },
            Step::Bind(v, t) => {
                let next = bind_all(rest, v, t);
                lemma_solve_binding_names(next);
                lemma_bind_all_vars(rest, v, t);
                match solve(next) {
                    Ok(tail) => {
                        let first = seq![(v, t)];
                        lemma_binding_names_concat(first, tail);
                        assert(first.drop_last() =~= Seq::<(Name, Ty)>::empty());
                        assert(binding_names(first.drop_last()) =~= Set::<Name>::empty());
                        assert(binding_names(first) =~= t.vars().insert(v));
                    },
                    Err(_) => {},
                }
            },
            Step::Fail(_) => {},
        }
    }
}

/// Bindings bring in no meta-variable but their own.
pub proof fn lemma_apply_vars(ty: Ty, bindings: Seq<(Name, Ty)>)
    ensures
        apply_bindings(ty, bindings).vars().subset_of(ty.vars().union(binding_names(bindings))),
    decreases bindings.len(),
{
    if bindings.len() > 0 {
        lemma_apply_vars(ty, bindings.drop_last());
        lemma_bind_vars(
            apply_bindings(ty, bindings.drop_last()),
            bindings.last().0,
            bindings.last().1,
        );
    }
}

/// Bindings leave a meta-variable that is none of their names as it is.
pub proof fn lemma_apply_unbound(var: Name, bindings: Seq<(Name, Ty)>)
    requires
        !binding_names(bindings).contains(var),
    ensures
        apply_bindings(Ty::Variable(var), bindings) == Ty::Variable(var),
    decreases bindings.len(),
{
    if bindings.len() > 0 {
        lemma_apply_unbound(var, bindings.drop_last());
    }
}

/// The type of a name in an environment after bindings is its type with the bindings
/// applied.
pub proof fn lemma_lookup_apply(env: Seq<(Name, Ty)>, x: Name, bindings: Seq<(Name, Ty)>)
    ensures
        lookup(env_apply(env, bindings), x) == match lookup(env, x) {
            Some(ty) => Some(apply_bindings(ty, bindings)),
            None => None,
        },
    decreases env.len(),
{
    if env.len() > 0 {
        assert(env_apply(env, bindings).drop_last() =~= env_apply(env.drop_last(), bindings));
        lemma_lookup_apply(env.drop_last(), x, bindings);
    }
}

/// The type of a name in an environment is a type of the environment.
pub proof fn lemma_lookup_in_env(env: Seq<(Name, Ty)>, x: Name)
    ensures
        lookup(env, x) matches Some(ty) ==> ty.vars().subset_of(env_vars(env)),
    decreases env.len(),
{
    if env.len() > 0 {
        lemma_lookup_in_env(env.drop_last(), x);
    }
}

/// The supply hands out the names in the order of their numbers: a later name is none of
/// the earlier ones.
pub proof fn lemma_below(n: nat, m: nat)
    requires
        n <= m,
    ensures
        below(n).subset_of(below(m)),
        !below(n).contains(NameSupply::name(m)),
        below(m + 1) == below(m).insert(NameSupply::name(m)),
{
    assert forall|x: Name| below(n).contains(x) implies below(m).contains(x) by {
        let k = choose|k: nat| k < n && x == #[trigger] NameSupply::name(k);
        assert(k < m && x == NameSupply::name(k));
    }
    if below(n).contains(NameSupply::name(m)) {
        let k = choose|k: nat| k < n && NameSupply::name(m) == #[trigger] NameSupply::name(k);
        lemma_numbered_injective('t', m, k);
    }
    assert forall|x: Name| below(m + 1).contains(x) <==> below(m).insert(
        NameSupply::name(m),
    ).contains(x) by {
        if below(m + 1).contains(x) {
            let k = choose|k: nat| k < m + 1 && x == #[trigger] NameSupply::name(k);
            if k < m {
                assert(below(m).contains(x));
            }
        }
        if below(m).contains(x) {
            let k = choose|k: nat| k < m && x == #[trigger] NameSupply::name(k);
            assert(k < m + 1 && x == NameSupply::name(k));
        }
        if x == NameSupply::name(m) {
            assert(m < m + 1 && x == NameSupply::name(m));
        }
    }
    assert(below(m + 1) =~= below(m).insert(NameSupply::name(m)));
}

/// Bindings after bindings, applied to an environment, are the bindings of both.
pub proof fn lemma_env_apply_concat(
    env: Seq<(Name, Ty)>,
    first: Seq<(Name, Ty)>,
    second: Seq<(Name, Ty)>,
)
    ensures
        env_apply(env_apply(env, first), second) == env_apply(env, first + second),
{
    assert forall|i: int| 0 <= i < env.len() implies env_apply(env_apply(env, first), second)[i]
        == env_apply(env, first + second)[i] by {
        lemma_apply_bindings_concat(env[i].1, first, second);
    }
    assert(env_apply(env_apply(env, first), second) =~= env_apply(env, first + second));
}

/// The meta-variables of an environment after bindings are among its own and the names of
/// the bindings.
pub proof fn lemma_env_apply_vars(env: Seq<(Name, Ty)>, bindings: Seq<(Name, Ty)>)
    ensures
        env_vars(env_apply(env, bindings)).subset_of(env_vars(env).union(binding_names(bindings))),
    decreases env.len(),
{
    if env.len() > 0 {
        assert(env_apply(env, bindings).drop_last() =~= env_apply(env.drop_last(), bindings));
        lemma_env_apply_vars(env.drop_last(), bindings);
        lemma_apply_vars(env.last().1, bindings);
    }
}


/// The names of the supply with the number `n` or a later one.
pub open spec fn fresh_from(n: nat) -> Set<Name> {
    Set::new(|x: Name| exists|k: nat| k >= n && x == #[trigger] NameSupply::name(k))
}

/// A name that is handed out later is none of those handed out before.
pub proof fn lemma_fresh_from(n: nat, m: nat)
    requires
        n <= m,
    ensures
        fresh_from(m).subset_of(fresh_from(n)),
        fresh_from(n).disjoint(below(n)),
        fresh_from(n).contains(NameSupply::name(m)),
{
    assert forall|x: Name| fresh_from(m).contains(x) implies fresh_from(n).contains(x) by {
        let k = choose|k: nat| k >= m && x == #[trigger] NameSupply::name(k);
        assert(k >= n && x == NameSupply::name(k));
    }
    assert forall|x: Name| !(fresh_from(n).contains(x) && below(n).contains(x)) by {
        if fresh_from(n).contains(x) && below(n).contains(x) {
            let k = choose|k: nat| k >= n && x == #[trigger] NameSupply::name(k);
            let j = choose|j: nat| j < n && x == #[trigger] NameSupply::name(j);
            lemma_numbered_injective('t', k, j);
        }
    }
    assert(m >= n && NameSupply::name(m) == NameSupply::name(m));
}

/// A substitution for all schema-bound variables of a type, by types without such
/// variables, leaves none; the meta-variables of the result are those of the type and
/// those that the substitution brings.
pub proof fn lemma_gen_subst_plain(ty: Ty, mapping: Map<Name, Ty>, brought: Set<Name>)
    requires
        forall|g: Name| (#[trigger] ty.gen_vars().contains(g)) ==> mapping.contains_key(g),
        forall|g: Name|
            (#[trigger] mapping.contains_key(g)) ==> plain(mapping[g]) && mapping[g].vars().subset_of(
                brought,
            ),
    ensures
        plain(ty.gen_subst(mapping)),
        ty.gen_subst(mapping).vars().subset_of(ty.vars().union(brought)),
    decreases ty,
{
    match ty {
        Ty::Variable(_) => {},
        Ty::GenVariable(g) => {
            assert(ty.gen_vars().contains(g));
        },
        Ty::Fn(t, u) => {
            assert forall|g: Name| (#[trigger] t.gen_vars().contains(g)) implies mapping.contains_key(
                g,
            ) by {
                assert(ty.gen_vars().contains(g));
            }
            assert forall|g: Name| (#[trigger] u.gen_vars().contains(g)) implies mapping.contains_key(
                g,
            ) by {
                assert(ty.gen_vars().contains(g));
            }
            lemma_gen_subst_plain(*t, mapping, brought);
            lemma_gen_subst_plain(*u, mapping, brought);
        },
    }
}

/// An instance of a scheme has no schema-bound variable; its meta-variables are those of
/// the scheme and the names that the supply hands out for it.
pub proof fn lemma_instantiate(ty: Ty, n: nat)
    ensures
        plain(ty.instantiate(n)),
        ty.instantiate(n).vars().subset_of(
            ty.vars().union(fresh_from(n).intersect(below(n + ty.gen_var_order().len()))),
        ),
{
    let order = ty.gen_var_order();
    let mapping = Ty::fresh_mapping(order, n);
    let brought = fresh_from(n).intersect(below(n + order.len()));
    super::types::lemma_gen_vars_after(ty, Seq::empty());
    assert forall|g: Name| (#[trigger] ty.gen_vars().contains(g)) implies mapping.contains_key(
        g,
    ) by {
        assert(order.to_set().contains(g));
    }
    assert forall|g: Name| (#[trigger] mapping.contains_key(g)) implies plain(mapping[g])
        && mapping[g].vars().subset_of(brought) by {
        let k = n + order.index_of(g) as nat;
        assert(k >= n && NameSupply::name(k) == NameSupply::name(k));
        assert(k < n + order.len() && NameSupply::name(k) == NameSupply::name(k));
    }
    lemma_gen_subst_plain(ty, mapping, brought);
}

/// Binding a meta-variable to a type without schema-bound variables changes nothing of
/// the schema-bound variables of a type or of their order.
pub proof fn lemma_bind_gen_vars(ty: Ty, var: Name, to: Ty, seen: Seq<Name>)
    requires
        plain(to),
    ensures
        ty.bind(var, to).gen_vars_after(seen) == ty.gen_vars_after(seen),
    decreases ty,
{
    match ty {
        Ty::Variable(v) => {
            if v == var {
                lemma_plain_gen_vars_after(to, seen);
            }
        },
        Ty::GenVariable(_) => {},
        Ty::Fn(t, u) => {
            lemma_bind_gen_vars(*t, var, to, seen);
            lemma_bind_gen_vars(*u, var, to, t.gen_vars_after(seen));
        },
    }
}

/// A binding may be made before or after schema-bound variables are replaced by
/// meta-variables other than the one that is bound, if it binds to a type without
/// schema-bound variables.
pub proof fn lemma_bind_gen_subst(ty: Ty, var: Name, to: Ty, mapping: Map<Name, Ty>)
    requires
        plain(to),
        forall|g: Name|
            (#[trigger] mapping.contains_key(g)) ==> mapping[g] is Variable && mapping[g]
                != Ty::Variable(var),
    ensures
        ty.gen_subst(mapping).bind(var, to) == ty.bind(var, to).gen_subst(mapping),
    decreases ty,
{
    match ty {
        Ty::Variable(v) => {
            if v == var {
                lemma_plain_gen_subst(to, mapping);
            }
        },
        Ty::GenVariable(g) => {
            if mapping.contains_key(g) {
                assert(mapping[g] is Variable);
            }
        },
        Ty::Fn(t, u) => {
            lemma_bind_gen_subst(*t, var, to, mapping);
            lemma_bind_gen_subst(*u, var, to, mapping);
        },
    }
}

/// Bindings made before a scheme is instantiated give what they give made after, if they
/// bind to types without schema-bound variables and bind none of the names that the
/// instantiation takes from the supply.
pub proof fn lemma_apply_instantiate(ty: Ty, bindings: Seq<(Name, Ty)>, n: nat)
    requires
        plain_bindings(bindings),
        binding_names(bindings).subset_of(below(n)),
    ensures
        apply_bindings(ty, bindings).gen_var_order() == ty.gen_var_order(),
        apply_bindings(ty, bindings).instantiate(n) == apply_bindings(ty.instantiate(n), bindings),
    decreases bindings.len(),
{
    if bindings.len() > 0 {
        let front = bindings.drop_last();
        let var = bindings.last().0;
        let to = bindings.last().1;
        assert(plain(bindings[bindings.len() - 1].1));
        assert forall|i: int| 0 <= i < front.len() implies plain((#[trigger] front[i]).1) by {
            assert(front[i] == bindings[i]);
        }
        lemma_apply_instantiate(ty, front, n);
        let before = apply_bindings(ty, front);
        lemma_bind_gen_vars(before, var, to, Seq::empty());
        let mapping = Ty::fresh_mapping(ty.gen_var_order(), n);
        assert forall|g: Name| (#[trigger] mapping.contains_key(g)) implies mapping[g] is Variable
            && mapping[g] != Ty::Variable(var) by {
            let k = n + ty.gen_var_order().index_of(g) as nat;
            lemma_fresh_from(n, k);
            assert(below(n).contains(var));
        }
        lemma_bind_gen_subst(before, var, to, mapping);
    }
}

/// Generalising a type leaves it as it is where the environment holds all its
/// meta-variables.
pub proof fn lemma_generalise_identity(ty: Ty, free: Set<Name>)
    requires
        ty.vars().subset_of(free),
    ensures
        ty.generalise(free) == ty,
    decreases ty,
{
    match ty {
        Ty::Variable(v) => {
            assert(ty.vars().contains(v));
        },
        Ty::GenVariable(_) => {},
        Ty::Fn(t, u) => {
            assert(t.vars().subset_of(ty.vars()));
            assert(u.vars().subset_of(ty.vars()));
            lemma_generalise_identity(*t, free);
            lemma_generalise_identity(*u, free);
        },
    }
}

/// A generalised type keeps the meta-variables that the environment holds, and no others.
pub proof fn lemma_generalise_vars(ty: Ty, free: Set<Name>)
    ensures
        ty.generalise(free).vars() == ty.vars().intersect(free),
    decreases ty,
{
    match ty {
        Ty::Variable(v) => {
            assert(ty.generalise(free).vars() =~= ty.vars().intersect(free));
        },
        Ty::GenVariable(_) => {
            assert(ty.generalise(free).vars() =~= ty.vars().intersect(free));
        },
        Ty::Fn(t, u) => {
            lemma_generalise_vars(*t, free);
            lemma_generalise_vars(*u, free);
            assert(ty.generalise(free).vars() =~= ty.vars().intersect(free));
        },
    }
}

/// What a meta-variable of a type becomes under bindings has its meta-variables among
/// those of what the type becomes.
pub proof fn lemma_apply_var_in(ty: Ty, var: Name, bindings: Seq<(Name, Ty)>)
    requires
        ty.vars().contains(var),
    ensures
        apply_bindings(Ty::Variable(var), bindings).vars().subset_of(
            apply_bindings(ty, bindings).vars(),
        ),
    decreases ty,
{
    match ty {
        Ty::Fn(t, u) => {
            lemma_apply_fn(*t, *u, bindings);
            if t.vars().contains(var) {
                lemma_apply_var_in(*t, var, bindings);
            } else {
                lemma_apply_var_in(*u, var, bindings);
            }
        },
        _ => {},
    }
}

/// What a meta-variable of an environment becomes under bindings has its meta-variables
/// among those of what the environment becomes.
pub proof fn lemma_env_apply_var_in(env: Seq<(Name, Ty)>, var: Name, bindings: Seq<(Name, Ty)>)
    requires
        env_vars(env).contains(var),
    ensures
        apply_bindings(Ty::Variable(var), bindings).vars().subset_of(
            env_vars(env_apply(env, bindings)),
        ),
    decreases env.len(),
{
    if env.len() > 0 {
        assert(env_apply(env, bindings).drop_last() =~= env_apply(env.drop_last(), bindings));
        if env.last().1.vars().contains(var) {
            lemma_apply_var_in(env.last().1, var, bindings);
        } else {
            lemma_env_apply_var_in(env.drop_last(), var, bindings);
        }
    }
}

/// Bindings leave a schema-bound variable as it is.
pub proof fn lemma_apply_gen_variable(g: Name, bindings: Seq<(Name, Ty)>)
    ensures
        apply_bindings(Ty::GenVariable(g), bindings) == Ty::GenVariable(g),
    decreases bindings.len(),
{
    if bindings.len() > 0 {
        lemma_apply_gen_variable(g, bindings.drop_last());
    }
}

/// Bindings may be made before a type is generalised or after, where they bind to types
/// without schema-bound variables and bind no meta-variable that is generalised: the
/// environment that the type is generalised against has the same bindings applied.
pub proof fn lemma_apply_generalise(
    ty: Ty,
    env: Seq<(Name, Ty)>,
    bindings: Seq<(Name, Ty)>,
)
    requires
        plain(ty),
        plain_bindings(bindings),
        forall|v: Name|
            (#[trigger] ty.vars().contains(v)) && !env_vars(env).contains(v)
                ==> !binding_names(bindings).contains(v),
    ensures
        apply_bindings(ty, bindings).generalise(env_vars(env_apply(env, bindings)))
            == apply_bindings(ty.generalise(env_vars(env)), bindings),
    decreases ty,
{
    let free = env_vars(env);
    let free_after = env_vars(env_apply(env, bindings));
    match ty {
        Ty::Variable(v) => {
            assert(ty.vars().contains(v));
            if free.contains(v) {
                lemma_env_apply_var_in(env, v, bindings);
                lemma_generalise_identity(apply_bindings(ty, bindings), free_after);
            } else {
                lemma_apply_unbound(v, bindings);
                lemma_env_apply_vars(env, bindings);
                lemma_apply_gen_variable(v, bindings);
            }
        },
        Ty::GenVariable(_) => {},
        Ty::Fn(t, u) => {
            assert forall|v: Name| (#[trigger] t.vars().contains(v)) && !env_vars(env).contains(
                v,
            ) implies !binding_names(bindings).contains(v) by {
                assert(ty.vars().contains(v));
            }
            assert forall|v: Name| (#[trigger] u.vars().contains(v)) && !env_vars(env).contains(
                v,
            ) implies !binding_names(bindings).contains(v) by {
                assert(ty.vars().contains(v));
            }
            lemma_apply_generalise(*t, env, bindings);
            lemma_apply_generalise(*u, env, bindings);
            lemma_apply_fn(*t, *u, bindings);
            lemma_apply_fn(t.generalise(free), u.generalise(free), bindings);
        },
    }
}

/// The type that the pass over a term gives has no schema-bound variable, and its
/// meta-variables are those of the environment and names that the supply hands out for the
/// term.
pub proof fn lemma_collect_type(t: Tm, env: Seq<(Name, Ty)>, cs: Seq<(Ty, Ty)>, n: nat)
    ensures
        collect(t, env, cs, n).ty matches Ok(ty) ==> plain(ty) && ty.vars().subset_of(
            env_vars(env).union(fresh_from(n)),
        ),
    decreases t,
{
    let allowed = env_vars(env).union(fresh_from(n));
    match t {
        Tm::Variable(x) => {
            lemma_lookup_in_env(env, x);
            match lookup(env, x) {
                Some(s) => {
                    lemma_instantiate(s, n);
                    assert(s.instantiate(n).vars().subset_of(allowed));
                },
                None => {},
            }
        },
        Tm::Abstraction(x, body) => {
            let a = Ty::Variable(NameSupply::name(n));
            let inner = env.push((x, a));
            lemma_collect_type(*body, inner, cs, n + 1);
            lemma_fresh_from(n, n);
            lemma_fresh_from(n, n + 1);
            assert(inner.drop_last() =~= env);
            assert(env_vars(inner) == env_vars(env).union(a.vars()));
            match collect(*body, inner, cs, n + 1).ty {
                Ok(b) => {
                    assert(b.vars().subset_of(allowed));
                    assert(a.vars().subset_of(allowed));
                    let ty = Ty::Fn(Box::new(a), Box::new(b));
                    assert(collect(t, env, cs, n).ty == Ok::<Ty, TyError>(ty));
                    assert(ty.vars() == a.vars().union(b.vars()));
                    assert(plain(a));
                    assert(plain(ty));
                },
                Err(_) => {},
            }
        },
        Tm::Application(f, arg) => {
            let fun = collect(*f, env, cs, n);
            lemma_collect_next(*f, env, cs, n);
            lemma_collect_next(*arg, env, fun.constraints, fun.next);
            let a = collect(*arg, env, fun.constraints, fun.next);
            lemma_fresh_from(n, a.next);
            match collect(t, env, cs, n).ty {
                Ok(ty) => {
                    assert(ty == Ty::Variable(NameSupply::name(a.next)));
                    assert(ty.vars() =~= set![NameSupply::name(a.next)]);
                },
                Err(_) => {},
            }
        },
        Tm::Let(x, bound, body) => {
            lemma_collect_type(*bound, env, cs, n);
            let b = collect(*bound, env, cs, n);
            lemma_collect_next(*bound, env, cs, n);
            match b.ty {
                Err(_) => {},
                Ok(tb) => {
                    let scheme = tb.generalise(env_vars(env));
                    let inner = env.push((x, scheme));
                    lemma_collect_type(*body, inner, b.constraints, b.next);
                    lemma_generalise_vars(tb, env_vars(env));
                    lemma_fresh_from(n, b.next);
                    assert(inner.drop_last() =~= env);
                    assert(env_vars(inner) == env_vars(env).union(scheme.vars()));
                    assert(env_vars(inner).subset_of(env_vars(env)));
                    match collect(*body, inner, b.constraints, b.next).ty {
                        Ok(ty) => {
                            assert(ty.vars().subset_of(allowed));
                        },
                        Err(_) => {},
                    }
                },
            }
        },
    }
}

/// Whether the term has no application.
pub open spec fn application_free(t: Tm) -> bool
    decreases t,
{
    match t {
        Tm::Variable(_) => true,
        Tm::Abstraction(_, b) => application_free(*b),
        Tm::Application(_, _) => false,
        Tm::Let(_, b, o) => application_free(*b) && application_free(*o),
    }
}

/// Whether every `let` of the term binds a term without applications, or a name that its
/// body does not use: when the type of what is bound is generalised, no equation about it
/// is still open, or the generalised type is never looked at.
pub open spec fn simple_lets(t: Tm) -> bool
    decreases t,
{
    match t {
        Tm::Variable(_) => true,
        Tm::Abstraction(_, b) => simple_lets(*b),
        Tm::Application(f, a) => simple_lets(*f) && simple_lets(*a),
        Tm::Let(x, b, o) => simple_lets(*o) && (application_free(*b) || (simple_lets(*b)
            && !o.free_vars().contains(x))),
    }
}

/// In a term without applications every `let` is simple.
pub proof fn lemma_application_free_simple(t: Tm)
    requires
        application_free(t),
    ensures
        simple_lets(t),
    decreases t,
{
    match t {
        Tm::Abstraction(_, b) => {
            lemma_application_free_simple(*b);
        },
        Tm::Let(_, b, o) => {
            lemma_application_free_simple(*o);
        },
        _ => {},
    }
}

/// The pass over a term without applications collects no equation.
pub proof fn lemma_application_free_collects(t: Tm, env: Seq<(Name, Ty)>, n: nat)
    requires
        application_free(t),
    ensures
        constraints_of(t, env, n) == Seq::<(Ty, Ty)>::empty(),
    decreases t,
{
    let none = Seq::<(Ty, Ty)>::empty();
    match t {
        Tm::Variable(_) => {},
        Tm::Abstraction(x, body) => {
            let a = Ty::Variable(NameSupply::name(n));
            lemma_application_free_collects(*body, env.push((x, a)), n + 1);
        },
        Tm::Application(_, _) => {},
        Tm::Let(x, bound, body) => {
            lemma_application_free_collects(*bound, env, n);
            let b = collect(*bound, env, none, n);
            match b.ty {
                Ok(tb) => {
                    let inner = env.push((x, tb.generalise(env_vars(env))));
                    lemma_application_free_collects(*body, inner, b.next);
                    lemma_collect_append(*body, inner, b.constraints, b.next);
                    assert(none + none =~= none);
                },
                Err(_) => {},
            }
        },
    }
}

/// The inference that unifies as it goes makes no binding for a term without applications.
pub proof fn lemma_application_free_binds(t: Tm, env: Seq<(Name, Ty)>, n: nat)
    requires
        application_free(t),
    ensures
        online(t, env, n) matches Ok(r) ==> r.bindings == Seq::<(Name, Ty)>::empty(),
    decreases t,
{
    let nothing = Seq::<(Name, Ty)>::empty();
    match t {
        Tm::Variable(_) => {},
        Tm::Abstraction(x, body) => {
            let a = Ty::Variable(NameSupply::name(n));
            lemma_application_free_binds(*body, env.push((x, a)), n + 1);
        },
        Tm::Application(_, _) => {},
        Tm::Let(x, bound, body) => {
            lemma_application_free_binds(*bound, env, n);
            match online(*bound, env, n) {
                Ok(e1) => {
                    let env1 = env_apply(env, e1.bindings);
                    let inner = env1.push((x, e1.ty.generalise(env_vars(env1))));
                    lemma_application_free_binds(*body, inner, e1.next);
                    assert(nothing + nothing =~= nothing);
                },
                Err(_) => {},
            }
        },
    }
}

/// Whether two environments are the same to an inference on `t`: they hold the same
/// meta-variables, and they give each free name of `t` the same type.
pub open spec fn alike(a: Seq<(Name, Ty)>, b: Seq<(Name, Ty)>, t: Tm) -> bool {
    &&& env_vars(a) == env_vars(b)
    &&& forall|x: Name| #[trigger] t.free_vars().contains(x) ==> lookup(a, x) == lookup(b, x)
}

/// Environments that differ only on a name stay alike for a term under a new binding of
/// that name.
pub proof fn lemma_alike_push(a: Seq<(Name, Ty)>, b: Seq<(Name, Ty)>, x: Name, ty: Ty, body: Tm)
    requires
        env_vars(a) == env_vars(b),
        forall|y: Name| #[trigger] body.free_vars().contains(y) && y != x ==> lookup(a, y) == lookup(b, y),
    ensures
        alike(a.push((x, ty)), b.push((x, ty)), body),
{
    assert(a.push((x, ty)).drop_last() =~= a);
    assert(b.push((x, ty)).drop_last() =~= b);
}

/// What a meta-variable of a type after bindings comes from: a meta-variable of the type.
pub proof fn lemma_apply_var_from(ty: Ty, w: Name, bindings: Seq<(Name, Ty)>)
    requires
        apply_bindings(ty, bindings).vars().contains(w),
    ensures
        exists|v: Name| #[trigger] ty.vars().contains(v) && apply_bindings(Ty::Variable(v), bindings).vars().contains(w),
    decreases ty,
{
    match ty {
        Ty::Variable(v) => {
            assert(ty.vars().contains(v));
        },
        Ty::GenVariable(g) => {
            lemma_apply_gen_variable(g, bindings);
        },
        Ty::Fn(t, u) => {
            lemma_apply_fn(*t, *u, bindings);
            if apply_bindings(*t, bindings).vars().contains(w) {
                lemma_apply_var_from(*t, w, bindings);
                let v = choose|v: Name| #[trigger] t.vars().contains(v) && apply_bindings(Ty::Variable(v), bindings).vars().contains(w);
                assert(ty.vars().contains(v));
            } else {
                lemma_apply_var_from(*u, w, bindings);
                let v = choose|v: Name| #[trigger] u.vars().contains(v) && apply_bindings(Ty::Variable(v), bindings).vars().contains(w);
                assert(ty.vars().contains(v));
            }
        },
    }
}

/// What a meta-variable of an environment after bindings comes from: a meta-variable of
/// the environment.
pub proof fn lemma_env_apply_var_from(env: Seq<(Name, Ty)>, w: Name, bindings: Seq<(Name, Ty)>)
    requires
        env_vars(env_apply(env, bindings)).contains(w),
    ensures
        exists|v: Name| #[trigger] env_vars(env).contains(v) && apply_bindings(Ty::Variable(v), bindings).vars().contains(w),
    decreases env.len(),
{
    if env.len() > 0 {
        assert(env_apply(env, bindings).drop_last() =~= env_apply(env.drop_last(), bindings));
        if apply_bindings(env.last().1, bindings).vars().contains(w) {
            lemma_apply_var_from(env.last().1, w, bindings);
            let v = choose|v: Name| #[trigger] env.last().1.vars().contains(v) && apply_bindings(Ty::Variable(v), bindings).vars().contains(w);
            assert(env_vars(env).contains(v));
        } else {
            lemma_env_apply_var_from(env.drop_last(), w, bindings);
            let v = choose|v: Name| #[trigger] env_vars(env.drop_last()).contains(v) && apply_bindings(Ty::Variable(v), bindings).vars().contains(w);
            assert(env_vars(env).contains(v));
        }
    }
}

/// Environments that are alike stay alike when the same bindings are applied to both.
pub proof fn lemma_alike_apply(a: Seq<(Name, Ty)>, b: Seq<(Name, Ty)>, t: Tm, bindings: Seq<(Name, Ty)>)
    requires
        alike(a, b, t),
    ensures
        alike(env_apply(a, bindings), env_apply(b, bindings), t),
{
    assert forall|w: Name| env_vars(env_apply(a, bindings)).contains(w) == env_vars(
        env_apply(b, bindings),
    ).contains(w) by {
        if env_vars(env_apply(a, bindings)).contains(w) {
            lemma_env_apply_var_from(a, w, bindings);
            let v = choose|v: Name| #[trigger] env_vars(a).contains(v) && apply_bindings(Ty::Variable(v), bindings).vars().contains(w);
            lemma_env_apply_var_in(b, v, bindings);
        }
        if env_vars(env_apply(b, bindings)).contains(w) {
            lemma_env_apply_var_from(b, w, bindings);
            let v = choose|v: Name| #[trigger] env_vars(b).contains(v) && apply_bindings(Ty::Variable(v), bindings).vars().contains(w);
            lemma_env_apply_var_in(a, v, bindings);
        }
    }
    assert(env_vars(env_apply(a, bindings)) =~= env_vars(env_apply(b, bindings)));
    assert forall|x: Name| #[trigger] t.free_vars().contains(x) implies lookup(env_apply(a, bindings), x)
        == lookup(env_apply(b, bindings), x) by {
        lemma_lookup_apply(a, x, bindings);
        lemma_lookup_apply(b, x, bindings);
    }
}

/// The pass over a term is the same in environments that are alike for it.
pub proof fn lemma_collect_alike(t: Tm, a: Seq<(Name, Ty)>, b: Seq<(Name, Ty)>, cs: Seq<(Ty, Ty)>, n: nat)
    requires
        alike(a, b, t),
    ensures
        collect(t, a, cs, n) == collect(t, b, cs, n),
    decreases t,
{
    match t {
        Tm::Variable(x) => {
            assert(t.free_vars().contains(x));
        },
        Tm::Abstraction(x, body) => {
            let v = Ty::Variable(NameSupply::name(n));
            assert forall|y: Name| #[trigger] body.free_vars().contains(y) && y != x implies lookup(a, y)
                == lookup(b, y) by {
                assert(t.free_vars().contains(y));
            }
            lemma_alike_push(a, b, x, v, *body);
            lemma_collect_alike(*body, a.push((x, v)), b.push((x, v)), cs, n + 1);
        },
        Tm::Application(f, arg) => {
            assert forall|y: Name| #[trigger] f.free_vars().contains(y) implies lookup(a, y) == lookup(b, y) by {
                assert(t.free_vars().contains(y));
            }
            assert forall|y: Name| #[trigger] arg.free_vars().contains(y) implies lookup(a, y) == lookup(b, y) by {
                assert(t.free_vars().contains(y));
            }
            lemma_collect_alike(*f, a, b, cs, n);
            let fun = collect(*f, a, cs, n);
            lemma_collect_alike(*arg, a, b, fun.constraints, fun.next);
        },
        Tm::Let(x, bound, body) => {
            assert forall|y: Name| #[trigger] bound.free_vars().contains(y) implies lookup(a, y) == lookup(b, y) by {
                assert(t.free_vars().contains(y));
            }
            lemma_collect_alike(*bound, a, b, cs, n);
            let first = collect(*bound, a, cs, n);
            if let Ok(tb) = first.ty {
                let scheme = tb.generalise(env_vars(a));
                assert forall|y: Name| #[trigger] body.free_vars().contains(y) && y != x implies lookup(a, y)
                    == lookup(b, y) by {
                    assert(t.free_vars().contains(y));
                }
                lemma_alike_push(a, b, x, scheme, *body);
                lemma_collect_alike(*body, a.push((x, scheme)), b.push((x, scheme)), first.constraints, first.next);
            }
        },
    }
}

/// The inference that unifies as it goes is the same in environments that are alike for
/// the term.
pub proof fn lemma_online_alike(t: Tm, a: Seq<(Name, Ty)>, b: Seq<(Name, Ty)>, n: nat)
    requires
        alike(a, b, t),
    ensures
        online(t, a, n) == online(t, b, n),
    decreases t,
{
    match t {
        Tm::Variable(x) => {
            assert(t.free_vars().contains(x));
        },
        Tm::Abstraction(x, body) => {
            let v = Ty::Variable(NameSupply::name(n));
            assert forall|y: Name| #[trigger] body.free_vars().contains(y) && y != x implies lookup(a, y)
                == lookup(b, y) by {
                assert(t.free_vars().contains(y));
            }
            lemma_alike_push(a, b, x, v, *body);
            lemma_online_alike(*body, a.push((x, v)), b.push((x, v)), n + 1);
        },
        Tm::Application(f, arg) => {
            assert forall|y: Name| #[trigger] f.free_vars().contains(y) implies lookup(a, y) == lookup(b, y) by {
                assert(t.free_vars().contains(y));
            }
            assert forall|y: Name| #[trigger] arg.free_vars().contains(y) implies lookup(a, y) == lookup(b, y) by {
                assert(t.free_vars().contains(y));
            }
            lemma_online_alike(*f, a, b, n);
            if let Ok(fun) = online(*f, a, n) {
                assert(alike(a, b, *arg));
                lemma_alike_apply(a, b, *arg, fun.bindings);
                lemma_online_alike(*arg, env_apply(a, fun.bindings), env_apply(b, fun.bindings), fun.next);
            }
        },
        Tm::Let(x, bound, body) => {
            assert forall|y: Name| #[trigger] bound.free_vars().contains(y) implies lookup(a, y) == lookup(b, y) by {
                assert(t.free_vars().contains(y));
            }
            lemma_online_alike(*bound, a, b, n);
            if let Ok(e1) = online(*bound, a, n) {
                lemma_alike_apply(a, b, t, e1.bindings);
                let a1 = env_apply(a, e1.bindings);
                let b1 = env_apply(b, e1.bindings);
                let scheme = e1.ty.generalise(env_vars(a1));
                assert forall|y: Name| #[trigger] body.free_vars().contains(y) && y != x implies lookup(a1, y)
                    == lookup(b1, y) by {
                    assert(t.free_vars().contains(y));
                }
                lemma_alike_push(a1, b1, x, scheme, *body);
                lemma_online_alike(*body, a1.push((x, scheme)), b1.push((x, scheme)), e1.next);
            }
        },
    }
}

/// Two lists of bindings to types without schema-bound variables make one such list.
pub proof fn lemma_plain_bindings_concat(first: Seq<(Name, Ty)>, second: Seq<(Name, Ty)>)
    requires
        plain_bindings(first),
        plain_bindings(second),
    ensures
        plain_bindings(first + second),
{
    assert forall|i: int| 0 <= i < (first + second).len() implies plain(
        (#[trigger] (first + second)[i]).1,
    ) by {
        if i < first.len() {
            assert((first + second)[i] == first[i]);
        } else {
            assert((first + second)[i] == second[i - first.len()]);
        }
    }
}

/// What the comparison of the two strategies takes for granted of an environment and of
/// the bindings made so far, when `n` meta-variables are handed out: every meta-variable
/// is a name of the supply that is handed out, and no binding binds to a type with a
/// schema-bound variable.
pub open spec fn settled(env: Seq<(Name, Ty)>, prior: Seq<(Name, Ty)>, n: nat) -> bool {
    &&& env_vars(env).subset_of(below(n))
    &&& plain_bindings(prior)
    &&& binding_names(prior).subset_of(below(n))
}

/// The equation that an application adds, as the inference that unifies as it goes sees it.
pub open spec fn application_problem(fun: Online, arg: Online) -> Seq<(Ty, Ty)> {
    seq![
        (
            apply_bindings(fun.ty, arg.bindings),
            Ty::Fn(Box::new(arg.ty), Box::new(Ty::Variable(NameSupply::name(arg.next)))),
        ),
    ]
}

/// The meta-variables of a problem of one equation are those of its two sides.
pub proof fn lemma_problem_vars_single(lhs: Ty, rhs: Ty)
    ensures
        problem_vars(seq![(lhs, rhs)]) == lhs.vars().union(rhs.vars()),
{
    let eqs = seq![(lhs, rhs)];
    assert(eqs.drop_last() =~= Seq::<(Ty, Ty)>::empty());
    assert(problem_vars(eqs.drop_last()) =~= Set::<Name>::empty());
    assert(problem_vars(eqs) =~= lhs.vars().union(rhs.vars()));
}

/// With a parameter bound to a fresh meta-variable, the environment is settled for one
/// more meta-variable, and the bindings made so far leave the new binding as it is.
pub proof fn lemma_settled_push(env: Seq<(Name, Ty)>, prior: Seq<(Name, Ty)>, n: nat, x: Name)
    requires
        settled(env, prior, n),
    ensures
        settled(env.push((x, Ty::Variable(NameSupply::name(n)))), prior, n + 1),
        env_apply(env.push((x, Ty::Variable(NameSupply::name(n)))), prior) == env_apply(
            env,
            prior,
        ).push((x, Ty::Variable(NameSupply::name(n)))),
{
    let a = Ty::Variable(NameSupply::name(n));
    let inner = env.push((x, a));
    lemma_below(n, n);
    assert(inner.drop_last() =~= env);
    lemma_apply_unbound(NameSupply::name(n), prior);
    assert(env_apply(inner, prior) =~= env_apply(env, prior).push((x, a)));
}

/// With more bindings made and more meta-variables handed out, the environment stays
/// settled.
pub proof fn lemma_settled_more(
    env: Seq<(Name, Ty)>,
    prior: Seq<(Name, Ty)>,
    n: nat,
    more: Seq<(Name, Ty)>,
    m: nat,
)
    requires
        settled(env, prior, n),
        n <= m,
        plain_bindings(more),
        binding_names(more).subset_of(below(m)),
    ensures
        settled(env, prior + more, m),
{
    lemma_below(n, m);
    lemma_plain_bindings_concat(prior, more);
    lemma_binding_names_concat(prior, more);
}

/// How the two strategies go together on a term. Where the pass over the term fails, the
/// inference that unifies as it goes fails too. Where both succeed, they have handed out
/// the same meta-variables, and the type that the second one gives is the type that the
/// pass gives with all bindings applied: those made before, and those made for the term.
pub open spec fn shaped(
    c: Collected,
    o: Result<Online, TyError>,
    prior: Seq<(Name, Ty)>,
    n: nat,
) -> bool {
    &&& c.ty is Err ==> o is Err
    &&& c.ty is Ok && o is Ok ==> {
        let r = o->Ok_0;
        &&& r.next == c.next
        &&& r.ty == apply_bindings(c.ty->Ok_0, prior + r.bindings)
        &&& plain(r.ty)
        &&& plain_bindings(r.bindings)
        &&& r.ty.vars().subset_of(below(c.next))
        &&& binding_names(r.bindings).subset_of(below(c.next))
    }
}

/// The two strategies go together on a variable.
proof fn lemma_shape_variable(x: Name, env: Seq<(Name, Ty)>, prior: Seq<(Name, Ty)>, n: nat)
    requires
        settled(env, prior, n),
    ensures
        shaped(
            collect(Tm::Variable(x), env, Seq::empty(), n),
            online(Tm::Variable(x), env_apply(env, prior), n),
            prior,
            n,
        ),
{
    let o = online(Tm::Variable(x), env_apply(env, prior), n);
    lemma_lookup_apply(env, x, prior);
    lemma_lookup_in_env(env, x);
    match lookup(env, x) {
        Some(s) => {
            let after = apply_bindings(s, prior);
            lemma_apply_instantiate(s, prior, n);
            lemma_instantiate(after, n);
            lemma_apply_vars(s, prior);
            lemma_below(n, n + s.gen_var_order().len());
            let r = o->Ok_0;
            assert(prior + r.bindings =~= prior);
            assert(binding_names(r.bindings) =~= Set::<Name>::empty());
        },
        None => {},
    }
}

/// The two strategies go together on a function if they do on its body.
proof fn lemma_shape_abstraction(
    x: Name,
    body: Tm,
    env: Seq<(Name, Ty)>,
    prior: Seq<(Name, Ty)>,
    n: nat,
)
    requires
        settled(env, prior, n),
        shaped(
            collect(body, env.push((x, Ty::Variable(NameSupply::name(n)))), Seq::empty(), n + 1),
            online(
                body,
                env_apply(env.push((x, Ty::Variable(NameSupply::name(n)))), prior),
                n + 1,
            ),
            prior,
            n + 1,
        ),
    ensures
        shaped(
            collect(Tm::Abstraction(x, Box::new(body)), env, Seq::empty(), n),
            online(Tm::Abstraction(x, Box::new(body)), env_apply(env, prior), n),
            prior,
            n,
        ),
{
    let none = Seq::<(Ty, Ty)>::empty();
    let a = Ty::Variable(NameSupply::name(n));
    lemma_settled_push(env, prior, n, x);
    let cb = collect(body, env.push((x, a)), none, n + 1);
    let ob = online(body, env_apply(env, prior).push((x, a)), n + 1);
    if cb.ty is Ok && ob is Ok {
        let rb = ob->Ok_0;
        let b = cb.ty->Ok_0;
        lemma_collect_next(body, env.push((x, a)), none, n + 1);
        lemma_below(n, n);
        lemma_below(n + 1, cb.next);
        lemma_apply_fn(a, b, prior + rb.bindings);
        lemma_apply_bindings_concat(a, prior, rb.bindings);
        lemma_apply_unbound(NameSupply::name(n), prior);
        lemma_apply_plain(a, rb.bindings);
        lemma_apply_vars(a, rb.bindings);
        assert(below(n + 1).contains(NameSupply::name(n)));
    }
}

/// The two strategies go together on an application if they do on the function and on the
/// argument.
proof fn lemma_shape_application(
    f: Tm,
    arg: Tm,
    env: Seq<(Name, Ty)>,
    prior: Seq<(Name, Ty)>,
    n: nat,
)
    requires
        settled(env, prior, n),
        shaped(collect(f, env, Seq::empty(), n), online(f, env_apply(env, prior), n), prior, n),
        ({
            let cf = collect(f, env, Seq::empty(), n);
            let of = online(f, env_apply(env, prior), n);
            cf.ty is Ok && of is Ok ==> shaped(
                collect(arg, env, Seq::empty(), cf.next),
                online(arg, env_apply(env, prior + of->Ok_0.bindings), cf.next),
                prior + of->Ok_0.bindings,
                cf.next,
            )
        }),
    ensures
        shaped(
            collect(Tm::Application(Box::new(f), Box::new(arg)), env, Seq::empty(), n),
            online(Tm::Application(Box::new(f), Box::new(arg)), env_apply(env, prior), n),
            prior,
            n,
        ),
{
    let none = Seq::<(Ty, Ty)>::empty();
    let t = Tm::Application(Box::new(f), Box::new(arg));
    let o = online(t, env_apply(env, prior), n);
    let cf = collect(f, env, none, n);
    let of = online(f, env_apply(env, prior), n);
    if cf.ty is Ok {
        lemma_collect_append(arg, env, cf.constraints, cf.next);
        let ca = collect(arg, env, none, cf.next);
        if of is Ok {
            let rf = of->Ok_0;
            lemma_env_apply_concat(env, prior, rf.bindings);
            let oa = online(arg, env_apply(env, prior + rf.bindings), cf.next);
            if ca.ty is Ok && oa is Ok {
                let ra = oa->Ok_0;
                let b = Ty::Variable(NameSupply::name(ra.next));
                let problem = application_problem(rf, ra);
                let lhs = apply_bindings(rf.ty, ra.bindings);
                let rhs = Ty::Fn(Box::new(ra.ty), Box::new(b));
                lemma_collect_next(f, env, none, n);
                lemma_collect_next(arg, env, none, cf.next);
                lemma_below(n, cf.next);
                lemma_below(cf.next, ca.next);
                lemma_below(ca.next, ca.next);
                lemma_apply_plain(rf.ty, ra.bindings);
                lemma_apply_vars(rf.ty, ra.bindings);
                lemma_problem_vars_single(lhs, rhs);
                assert(problem[0] == (lhs, rhs));
                assert(plain(lhs));
                assert(shaped(ca, oa, prior + rf.bindings, cf.next));
                assert(plain(ra.ty));
                assert(plain(b));
                assert(plain(rhs));
                assert(plain_problem(problem));
                lemma_solve_plain(problem);
                lemma_solve_binding_names(problem);
                if solve(problem) is Ok {
                    let found = solve(problem)->Ok_0;
                    let r = o->Ok_0;
                    let before = prior + rf.bindings + ra.bindings;
                    assert(r.bindings == rf.bindings + ra.bindings + found);
                    assert(prior + r.bindings =~= before + found);
                    lemma_apply_bindings_concat(b, before, found);
                    lemma_binding_names_concat(prior, rf.bindings);
                    lemma_binding_names_concat(prior + rf.bindings, ra.bindings);
                    lemma_apply_unbound(NameSupply::name(ra.next), before);
                    lemma_apply_plain(b, found);
                    lemma_apply_vars(b, found);
                    lemma_plain_bindings_concat(rf.bindings, ra.bindings);
                    lemma_plain_bindings_concat(rf.bindings + ra.bindings, found);
                    lemma_binding_names_concat(rf.bindings, ra.bindings);
                    lemma_binding_names_concat(rf.bindings + ra.bindings, found);
                    assert(below(ca.next + 1).contains(NameSupply::name(ca.next)));
                    let c = collect(t, env, none, n);
                    assert(c.ty == Ok::<Ty, TyError>(b));
                    assert(c.next == ca.next + 1);
                    assert(r.next == c.next);
                    assert(r.ty == apply_bindings(b, found));
                    assert(r.ty == apply_bindings(c.ty->Ok_0, prior + r.bindings));
                    assert(plain(r.ty));
                    assert(plain_bindings(r.bindings));
                    assert(binding_names(found).subset_of(below(c.next)));
                    assert(r.ty.vars().subset_of(below(c.next)));
                    assert(binding_names(r.bindings).subset_of(below(c.next)));
                }
            }
        }
    }
}

/// With a name bound to a generalised type, the environment stays settled, and the
/// bindings made so far may be applied before the type is generalised or after.
pub proof fn lemma_settled_let(
    env: Seq<(Name, Ty)>,
    prior: Seq<(Name, Ty)>,
    n: nat,
    x: Name,
    bound: Tm,
)
    requires
        settled(env, prior, n),
        collect(bound, env, Seq::empty(), n).ty is Ok,
    ensures
        ({
            let cb = collect(bound, env, Seq::empty(), n);
            let tb = cb.ty->Ok_0;
            let scheme = tb.generalise(env_vars(env));
            &&& n <= cb.next
            &&& settled(env.push((x, scheme)), prior, cb.next)
            &&& apply_bindings(tb, prior).generalise(env_vars(env_apply(env, prior)))
                == apply_bindings(scheme, prior)
            &&& env_apply(env.push((x, scheme)), prior) == env_apply(env, prior).push(
                (x, apply_bindings(scheme, prior)),
            )
        }),
{
    let none = Seq::<(Ty, Ty)>::empty();
    let cb = collect(bound, env, none, n);
    let tb = cb.ty->Ok_0;
    let scheme = tb.generalise(env_vars(env));
    let inner = env.push((x, scheme));
    lemma_collect_next(bound, env, none, n);
    lemma_collect_type(bound, env, none, n);
    lemma_generalise_vars(tb, env_vars(env));
    lemma_below(n, cb.next);
    lemma_fresh_from(n, n);
    assert(inner.drop_last() =~= env);
    assert(env_vars(inner) == env_vars(env).union(scheme.vars()));
    assert forall|v: Name| (#[trigger] tb.vars().contains(v)) && !env_vars(env).contains(
        v,
    ) implies !binding_names(prior).contains(v) by {
        assert(fresh_from(n).contains(v));
        assert(!below(n).contains(v));
    }
    lemma_apply_generalise(tb, env, prior);
    assert(env_apply(inner, prior) =~= env_apply(env, prior).push(
        (x, apply_bindings(scheme, prior)),
    ));
}

/// The two strategies go together on a `let` that binds a term without applications if
/// they do on its two parts.
proof fn lemma_shape_let(
    x: Name,
    bound: Tm,
    body: Tm,
    env: Seq<(Name, Ty)>,
    prior: Seq<(Name, Ty)>,
    n: nat,
)
    requires
        settled(env, prior, n),
        application_free(bound),
        shaped(
            collect(bound, env, Seq::empty(), n),
            online(bound, env_apply(env, prior), n),
            prior,
            n,
        ),
        ({
            let cb = collect(bound, env, Seq::empty(), n);
            let inner = env.push((x, cb.ty->Ok_0.generalise(env_vars(env))));
            cb.ty is Ok ==> shaped(
                collect(body, inner, Seq::empty(), cb.next),
                online(body, env_apply(inner, prior), cb.next),
                prior,
                cb.next,
            )
        }),
    ensures
        shaped(
            collect(Tm::Let(x, Box::new(bound), Box::new(body)), env, Seq::empty(), n),
            online(Tm::Let(x, Box::new(bound), Box::new(body)), env_apply(env, prior), n),
            prior,
            n,
        ),
{
    let none = Seq::<(Ty, Ty)>::empty();
    let nothing = Seq::<(Name, Ty)>::empty();
    let cb = collect(bound, env, none, n);
    let ob = online(bound, env_apply(env, prior), n);
    if cb.ty is Ok && ob is Ok {
        let e1 = ob->Ok_0;
        let tb = cb.ty->Ok_0;
        let scheme = tb.generalise(env_vars(env));
        let inner = env.push((x, scheme));
        lemma_application_free_binds(bound, env_apply(env, prior), n);
        assert(prior + nothing =~= prior);
        assert(env_apply(env_apply(env, prior), nothing) =~= env_apply(env, prior));
        lemma_settled_let(env, prior, n, x, bound);
        lemma_collect_append(body, inner, cb.constraints, cb.next);
        let o_body = online(body, env_apply(inner, prior), cb.next);
        if o_body is Ok {
            assert(nothing + o_body->Ok_0.bindings =~= o_body->Ok_0.bindings);
        }
    }
}

/// The type that stands for the type of a name that is not used: it holds no meta-variable.
pub open spec fn unused() -> Ty {
    Ty::GenVariable(Seq::empty())
}

/// Where the body of a `let` does not use the name, each strategy goes over the body as it
/// would with the name bound to a type without meta-variables, and the bindings made for
/// what the `let` binds count as made before.
pub proof fn lemma_unused_let(
    x: Name,
    bound: Tm,
    body: Tm,
    env: Seq<(Name, Ty)>,
    prior: Seq<(Name, Ty)>,
    n: nat,
)
    requires
        settled(env, prior, n),
        !body.free_vars().contains(x),
        collect(bound, env, Seq::empty(), n).ty is Ok,
        online(bound, env_apply(env, prior), n) is Ok,
        shaped(
            collect(bound, env, Seq::empty(), n),
            online(bound, env_apply(env, prior), n),
            prior,
            n,
        ),
    ensures
        ({
            let cb = collect(bound, env, Seq::empty(), n);
            let e1 = online(bound, env_apply(env, prior), n)->Ok_0;
            let env0 = env.push((x, unused()));
            let prior1 = prior + e1.bindings;
            let env1 = env_apply(env_apply(env, prior), e1.bindings);
            &&& n <= cb.next
            &&& e1.next == cb.next
            &&& settled(env0, prior1, cb.next)
            &&& collect(
                body,
                env.push((x, cb.ty->Ok_0.generalise(env_vars(env)))),
                Seq::empty(),
                cb.next,
            ) == collect(body, env0, Seq::empty(), cb.next)
            &&& online(body, env1.push((x, e1.ty.generalise(env_vars(env1)))), cb.next) == online(
                body,
                env_apply(env0, prior1),
                cb.next,
            )
        }),
{
    let none = Seq::<(Ty, Ty)>::empty();
    let cb = collect(bound, env, none, n);
    let tb = cb.ty->Ok_0;
    let e1 = online(bound, env_apply(env, prior), n)->Ok_0;
    let env0 = env.push((x, unused()));
    let prior1 = prior + e1.bindings;
    let env1 = env_apply(env_apply(env, prior), e1.bindings);
    lemma_collect_next(bound, env, none, n);
    lemma_settled_more(env, prior, n, e1.bindings, cb.next);
    assert(env0.drop_last() =~= env);
    assert(env_vars(env0) =~= env_vars(env));
    // The pass over the body.
    let scheme = tb.generalise(env_vars(env));
    let inner = env.push((x, scheme));
    lemma_generalise_vars(tb, env_vars(env));
    assert(inner.drop_last() =~= env);
    assert(env_vars(inner) =~= env_vars(env));
    assert(alike(inner, env0, body));
    lemma_collect_alike(body, inner, env0, none, cb.next);
    // The inference that unifies as it goes.
    lemma_env_apply_concat(env, prior, e1.bindings);
    lemma_apply_gen_variable(Seq::empty(), prior1);
    assert(env_apply(env0, prior1) =~= env1.push((x, unused())));
    let found = e1.ty.generalise(env_vars(env1));
    lemma_generalise_vars(e1.ty, env_vars(env1));
    assert(env1.push((x, found)).drop_last() =~= env1);
    assert(env1.push((x, unused())).drop_last() =~= env1);
    assert(env_vars(env1.push((x, found))) =~= env_vars(env1));
    assert(env_vars(env1.push((x, unused()))) =~= env_vars(env1));
    assert(alike(env1.push((x, found)), env1.push((x, unused())), body));
    lemma_online_alike(body, env1.push((x, found)), env1.push((x, unused())), cb.next);
}

/// The two strategies go together on a `let` whose body does not use the name if they do
/// on its two parts.
proof fn lemma_shape_unused_let(
    x: Name,
    bound: Tm,
    body: Tm,
    env: Seq<(Name, Ty)>,
    prior: Seq<(Name, Ty)>,
    n: nat,
)
    requires
        settled(env, prior, n),
        !body.free_vars().contains(x),
        shaped(
            collect(bound, env, Seq::empty(), n),
            online(bound, env_apply(env, prior), n),
            prior,
            n,
        ),
        ({
            let cb = collect(bound, env, Seq::empty(), n);
            let ob = online(bound, env_apply(env, prior), n);
            let env0 = env.push((x, unused()));
            cb.ty is Ok && ob is Ok ==> shaped(
                collect(body, env0, Seq::empty(), cb.next),
                online(body, env_apply(env0, prior + ob->Ok_0.bindings), cb.next),
                prior + ob->Ok_0.bindings,
                cb.next,
            )
        }),
    ensures
        shaped(
            collect(Tm::Let(x, Box::new(bound), Box::new(body)), env, Seq::empty(), n),
            online(Tm::Let(x, Box::new(bound), Box::new(body)), env_apply(env, prior), n),
            prior,
            n,
        ),
{
    let none = Seq::<(Ty, Ty)>::empty();
    let cb = collect(bound, env, none, n);
    let ob = online(bound, env_apply(env, prior), n);
    if cb.ty is Ok && ob is Ok {
        let e1 = ob->Ok_0;
        let tb = cb.ty->Ok_0;
        let inner = env.push((x, tb.generalise(env_vars(env))));
        let env0 = env.push((x, unused()));
        lemma_unused_let(x, bound, body, env, prior, n);
        lemma_collect_append(body, inner, cb.constraints, cb.next);
        let c0 = collect(body, env0, none, cb.next);
        let o0 = online(body, env_apply(env0, prior + e1.bindings), cb.next);
        if c0.ty is Ok && o0 is Ok {
            let r0 = o0->Ok_0;
            assert(prior + (e1.bindings + r0.bindings) =~= (prior + e1.bindings) + r0.bindings);
            lemma_plain_bindings_concat(e1.bindings, r0.bindings);
            lemma_binding_names_concat(e1.bindings, r0.bindings);
            lemma_collect_next(body, env0, none, cb.next);
            lemma_below(cb.next, c0.next);
        }
    }
}

/// The two strategies go together on every term with simple `let`s, in a settled
/// environment.
pub proof fn lemma_online_shape(t: Tm, env: Seq<(Name, Ty)>, prior: Seq<(Name, Ty)>, n: nat)
    requires
        simple_lets(t),
        settled(env, prior, n),
    ensures
        shaped(collect(t, env, Seq::empty(), n), online(t, env_apply(env, prior), n), prior, n),
    decreases t,
{
    let none = Seq::<(Ty, Ty)>::empty();
    match t {
        Tm::Variable(x) => {
            lemma_shape_variable(x, env, prior, n);
        },
        Tm::Abstraction(x, body) => {
            let a = Ty::Variable(NameSupply::name(n));
            lemma_settled_push(env, prior, n, x);
            lemma_online_shape(*body, env.push((x, a)), prior, n + 1);
            lemma_shape_abstraction(x, *body, env, prior, n);
        },
        Tm::Application(f, arg) => {
            lemma_online_shape(*f, env, prior, n);
            let cf = collect(*f, env, none, n);
            let of = online(*f, env_apply(env, prior), n);
            if cf.ty is Ok && of is Ok {
                let rf = of->Ok_0;
                lemma_collect_next(*f, env, none, n);
                lemma_settled_more(env, prior, n, rf.bindings, cf.next);
                lemma_online_shape(*arg, env, prior + rf.bindings, cf.next);
            }
            lemma_shape_application(*f, *arg, env, prior, n);
        },
        Tm::Let(x, bound, body) => {
            let cb = collect(*bound, env, none, n);
            if application_free(*bound) {
                lemma_application_free_simple(*bound);
                lemma_online_shape(*bound, env, prior, n);
                if cb.ty is Ok {
                    lemma_settled_let(env, prior, n, x, *bound);
                    let inner = env.push((x, cb.ty->Ok_0.generalise(env_vars(env))));
                    lemma_online_shape(*body, inner, prior, cb.next);
                }
                lemma_shape_let(x, *bound, *body, env, prior, n);
            } else {
                lemma_online_shape(*bound, env, prior, n);
                let ob = online(*bound, env_apply(env, prior), n);
                if cb.ty is Ok && ob is Ok {
                    lemma_unused_let(x, *bound, *body, env, prior, n);
                    lemma_online_shape(
                        *body,
                        env.push((x, unused())),
                        prior + ob->Ok_0.bindings,
                        cb.next,
                    );
                }
                lemma_shape_unused_let(x, *bound, *body, env, prior, n);
            }
        },
    }
}

/// The equations of an application: those of the function, those of the argument, and the
/// one that the application adds.
pub proof fn lemma_application_constraints(f: Tm, arg: Tm, env: Seq<(Name, Ty)>, n: nat)
    requires
        collect(Tm::Application(Box::new(f), Box::new(arg)), env, Seq::empty(), n).ty is Ok,
    ensures
        ({
            let cf = collect(f, env, Seq::empty(), n);
            let ca = collect(arg, env, Seq::empty(), cf.next);
            let b = Ty::Variable(NameSupply::name(ca.next));
            &&& cf.ty is Ok
            &&& ca.ty is Ok
            &&& constraints_of(Tm::Application(Box::new(f), Box::new(arg)), env, n) == (
            cf.constraints + ca.constraints).push(
                (cf.ty->Ok_0, Ty::Fn(Box::new(ca.ty->Ok_0), Box::new(b))),
            )
        }),
{
    let cf = collect(f, env, Seq::empty(), n);
    lemma_collect_append(arg, env, cf.constraints, cf.next);
}

/// After the inference that unifies as it goes, every equation that the pass collected for
/// the term holds: with the bindings made before and those made for the term applied, both
/// sides are the same type.
pub proof fn lemma_online_solves(
    t: Tm,
    env: Seq<(Name, Ty)>,
    prior: Seq<(Name, Ty)>,
    n: nat,
    i: int,
)
    requires
        simple_lets(t),
        settled(env, prior, n),
        collect(t, env, Seq::empty(), n).ty is Ok,
        online(t, env_apply(env, prior), n) is Ok,
        0 <= i < constraints_of(t, env, n).len(),
    ensures
        ({
            let all = prior + online(t, env_apply(env, prior), n)->Ok_0.bindings;
            apply_bindings(constraints_of(t, env, n)[i].0, all) == apply_bindings(
                constraints_of(t, env, n)[i].1,
                all,
            )
        }),
    decreases t, 1nat,
{
    let none = Seq::<(Ty, Ty)>::empty();
    match t {
        Tm::Variable(x) => {},
        Tm::Abstraction(x, body) => {
            let a = Ty::Variable(NameSupply::name(n));
            lemma_settled_push(env, prior, n, x);
            lemma_online_solves(*body, env.push((x, a)), prior, n + 1, i);
        },
        Tm::Application(f, arg) => {
            lemma_application_constraints(*f, *arg, env, n);
            let cf = collect(*f, env, none, n);
            let ca = collect(*arg, env, none, cf.next);
            let rf = online(*f, env_apply(env, prior), n)->Ok_0;
            lemma_online_shape(*f, env, prior, n);
            lemma_collect_next(*f, env, none, n);
            lemma_settled_more(env, prior, n, rf.bindings, cf.next);
            lemma_env_apply_concat(env, prior, rf.bindings);
            lemma_online_shape(*arg, env, prior + rf.bindings, cf.next);
            let ra = online(*arg, env_apply(env, prior + rf.bindings), cf.next)->Ok_0;
            let problem = application_problem(rf, ra);
            let found = solve(problem)->Ok_0;
            let r = online(t, env_apply(env, prior), n)->Ok_0;
            assert(r.bindings == rf.bindings + ra.bindings + found);
            let all = prior + r.bindings;
            let cs = constraints_of(t, env, n);
            let before = prior + rf.bindings + ra.bindings;
            assert(all =~= before + found);
            if i < cf.constraints.len() {
                lemma_online_solves(*f, env, prior, n, i);
                assert(cs[i] == cf.constraints[i]);
                assert(all =~= (prior + rf.bindings) + (ra.bindings + found));
                lemma_apply_bindings_concat(cs[i].0, prior + rf.bindings, ra.bindings + found);
                lemma_apply_bindings_concat(cs[i].1, prior + rf.bindings, ra.bindings + found);
            } else if i < cf.constraints.len() + ca.constraints.len() {
                let j = i - cf.constraints.len();
                lemma_online_solves(*arg, env, prior + rf.bindings, cf.next, j);
                assert(cs[i] == ca.constraints[j]);
                lemma_apply_bindings_concat(cs[i].0, before, found);
                lemma_apply_bindings_concat(cs[i].1, before, found);
            } else {
                let tf = cf.ty->Ok_0;
                let ta = ca.ty->Ok_0;
                let b = Ty::Variable(NameSupply::name(ca.next));
                assert(cs[i] == (tf, Ty::Fn(Box::new(ta), Box::new(b))));
                lemma_collect_next(*arg, env, none, cf.next);
                lemma_below(ca.next, ca.next);
                lemma_binding_names_concat(prior, rf.bindings);
                lemma_binding_names_concat(prior + rf.bindings, ra.bindings);
                lemma_below(cf.next, ca.next);
                lemma_apply_unbound(NameSupply::name(ca.next), before);
                lemma_apply_fn(ta, b, before);
                lemma_apply_bindings_concat(tf, prior + rf.bindings, ra.bindings);
                lemma_apply_bindings_concat(cs[i].0, before, found);
                lemma_apply_bindings_concat(cs[i].1, before, found);
                lemma_solve_sound(problem);
                assert(problem[0].0 == apply_bindings(tf, before));
                assert(problem[0].1 == apply_bindings(cs[i].1, before));
            }
        },
        Tm::Let(x, bound, body) => {
            let nothing = Seq::<(Name, Ty)>::empty();
            let cb = collect(*bound, env, none, n);
            let inner = env.push((x, cb.ty->Ok_0.generalise(env_vars(env))));
            lemma_collect_append(*body, inner, cb.constraints, cb.next);
            if application_free(*bound) {
                lemma_application_free_simple(*bound);
                lemma_online_shape(*bound, env, prior, n);
                lemma_application_free_collects(*bound, env, n);
                lemma_application_free_binds(*bound, env_apply(env, prior), n);
                lemma_settled_let(env, prior, n, x, *bound);
                assert(none + constraints_of(*body, inner, cb.next) =~= constraints_of(
                    *body,
                    inner,
                    cb.next,
                ));
                assert(prior + nothing =~= prior);
                assert(env_apply(env_apply(env, prior), nothing) =~= env_apply(env, prior));
                let rb = online(*body, env_apply(inner, prior), cb.next)->Ok_0;
                assert(nothing + rb.bindings =~= rb.bindings);
                lemma_online_solves(*body, inner, prior, cb.next, i);
            } else {
                lemma_solves_unused_let(x, *bound, *body, env, prior, n, i);
            }
        },
    }
}

/// The step of `lemma_online_solves` for a `let` whose body does not use the name.
proof fn lemma_solves_unused_let(
    x: Name,
    bound: Tm,
    body: Tm,
    env: Seq<(Name, Ty)>,
    prior: Seq<(Name, Ty)>,
    n: nat,
    i: int,
)
    requires
        simple_lets(bound),
        simple_lets(body),
        !body.free_vars().contains(x),
        settled(env, prior, n),
        collect(Tm::Let(x, Box::new(bound), Box::new(body)), env, Seq::empty(), n).ty is Ok,
        online(Tm::Let(x, Box::new(bound), Box::new(body)), env_apply(env, prior), n) is Ok,
        0 <= i < constraints_of(Tm::Let(x, Box::new(bound), Box::new(body)), env, n).len(),
    ensures
        ({
            let t = Tm::Let(x, Box::new(bound), Box::new(body));
            let all = prior + online(t, env_apply(env, prior), n)->Ok_0.bindings;
            apply_bindings(constraints_of(t, env, n)[i].0, all) == apply_bindings(
                constraints_of(t, env, n)[i].1,
                all,
            )
        }),
    decreases Tm::Let(x, Box::new(bound), Box::new(body)), 0nat,
{
    let t = Tm::Let(x, Box::new(bound), Box::new(body));
    let none = Seq::<(Ty, Ty)>::empty();
    let cb = collect(bound, env, none, n);
    let inner = env.push((x, cb.ty->Ok_0.generalise(env_vars(env))));
    lemma_collect_append(body, inner, cb.constraints, cb.next);
    lemma_online_shape(bound, env, prior, n);
    let e1 = online(bound, env_apply(env, prior), n)->Ok_0;
    let env0 = env.push((x, unused()));
    let prior1 = prior + e1.bindings;
    lemma_unused_let(x, bound, body, env, prior, n);
    let r0 = online(body, env_apply(env0, prior1), cb.next)->Ok_0;
    let r = online(t, env_apply(env, prior), n)->Ok_0;
    assert(r.bindings == e1.bindings + r0.bindings);
    assert(prior + r.bindings =~= prior1 + r0.bindings);
    let cs = constraints_of(t, env, n);
    assert(cs == cb.constraints + constraints_of(body, env0, cb.next));
    if i < cb.constraints.len() {
        lemma_online_solves(bound, env, prior, n, i);
        assert(cs[i] == cb.constraints[i]);
        lemma_apply_bindings_concat(cs[i].0, prior1, r0.bindings);
        lemma_apply_bindings_concat(cs[i].1, prior1, r0.bindings);
    } else {
        let j = i - cb.constraints.len();
        lemma_online_solves(body, env0, prior1, cb.next, j);
        assert(cs[i] == constraints_of(body, env0, cb.next)[j]);
    }
}

/// Whether applying the bindings before the substitution makes no difference to any type.
pub open spec fn absorbed(bindings: Seq<(Name, Ty)>, mapping: Map<Name, Ty>) -> bool {
    forall|ty: Ty| (#[trigger] apply_bindings(ty, bindings)).subst(mapping) == ty.subst(mapping)
}

/// A substitution that absorbs two lists of bindings absorbs the one list made of both.
proof fn lemma_absorbed_concat(
    first: Seq<(Name, Ty)>,
    second: Seq<(Name, Ty)>,
    mapping: Map<Name, Ty>,
)
    requires
        absorbed(first, mapping),
        absorbed(second, mapping),
    ensures
        absorbed(first + second, mapping),
{
    assert forall|ty: Ty| (#[trigger] apply_bindings(ty, first + second)).subst(mapping)
        == ty.subst(mapping) by {
        lemma_apply_bindings_concat(ty, first, second);
        assert(apply_bindings(apply_bindings(ty, first), second).subst(mapping)
            == apply_bindings(ty, first).subst(mapping));
    }
}

/// Where a substitution solves the equations of an application and absorbs the bindings
/// made for the function and for the argument, the equation of the application can be
/// solved, and the substitution absorbs all bindings made.
proof fn lemma_general_application(
    f: Tm,
    arg: Tm,
    env: Seq<(Name, Ty)>,
    prior: Seq<(Name, Ty)>,
    n: nat,
    mapping: Map<Name, Ty>,
)
    requires
        simple_lets(f),
        simple_lets(arg),
        settled(env, prior, n),
        collect(Tm::Application(Box::new(f), Box::new(arg)), env, Seq::empty(), n).ty is Ok,
        unifies(
            mapping,
            applied(constraints_of(Tm::Application(Box::new(f), Box::new(arg)), env, n), prior),
        ),
        online(f, env_apply(env, prior), n) is Ok,
        absorbed(online(f, env_apply(env, prior), n)->Ok_0.bindings, mapping),
        ({
            let cf = collect(f, env, Seq::empty(), n);
            let rf = online(f, env_apply(env, prior), n)->Ok_0;
            let oa = online(arg, env_apply(env, prior + rf.bindings), cf.next);
            oa is Ok && absorbed(oa->Ok_0.bindings, mapping)
        }),
    ensures
        online(Tm::Application(Box::new(f), Box::new(arg)), env_apply(env, prior), n) is Ok,
        absorbed(
            online(
                Tm::Application(Box::new(f), Box::new(arg)),
                env_apply(env, prior),
                n,
            )->Ok_0.bindings,
            mapping,
        ),
{
    let none = Seq::<(Ty, Ty)>::empty();
    let t = Tm::Application(Box::new(f), Box::new(arg));
    lemma_application_constraints(f, arg, env, n);
    let cf = collect(f, env, none, n);
    let ca = collect(arg, env, none, cf.next);
    let tf = cf.ty->Ok_0;
    let ta = ca.ty->Ok_0;
    let b = Ty::Variable(NameSupply::name(ca.next));
    let rf = online(f, env_apply(env, prior), n)->Ok_0;
    lemma_online_shape(f, env, prior, n);
    lemma_collect_next(f, env, none, n);
    lemma_settled_more(env, prior, n, rf.bindings, cf.next);
    lemma_env_apply_concat(env, prior, rf.bindings);
    lemma_online_shape(arg, env, prior + rf.bindings, cf.next);
    let ra = online(arg, env_apply(env, prior + rf.bindings), cf.next)->Ok_0;
    let problem = application_problem(rf, ra);
    let cs = constraints_of(t, env, n);
    let last = cs.len() - 1;
    let before = prior + rf.bindings + ra.bindings;
    // The substitution solves the equation of the application as the inference sees it.
    assert(unifies(mapping, problem)) by {
        assert(cs[last] == (tf, Ty::Fn(Box::new(ta), Box::new(b))));
        let seen = applied(cs, prior)[last];
        assert(seen.0.subst(mapping) == seen.1.subst(mapping));
        assert(seen.0 == apply_bindings(tf, prior));
        assert(seen.1 == apply_bindings(Ty::Fn(Box::new(ta), Box::new(b)), prior));
        lemma_collect_next(arg, env, none, cf.next);
        lemma_below(ca.next, ca.next);
        lemma_below(n, ca.next);
        lemma_apply_unbound(NameSupply::name(ca.next), prior);
        lemma_apply_fn(ta, b, prior);
        // The left side.
        lemma_apply_bindings_concat(tf, prior, rf.bindings);
        let lhs = apply_bindings(rf.ty, ra.bindings);
        assert(lhs.subst(mapping) == rf.ty.subst(mapping));
        assert(rf.ty == apply_bindings(apply_bindings(tf, prior), rf.bindings));
        assert(rf.ty.subst(mapping) == apply_bindings(tf, prior).subst(mapping));
        // The right side.
        lemma_apply_bindings_concat(ta, prior + rf.bindings, ra.bindings);
        lemma_apply_bindings_concat(ta, prior, rf.bindings);
        let mid = apply_bindings(apply_bindings(ta, prior), rf.bindings);
        assert(ra.ty == apply_bindings(mid, ra.bindings));
        assert(ra.ty.subst(mapping) == mid.subst(mapping));
        assert(mid.subst(mapping) == apply_bindings(ta, prior).subst(mapping));
        let rhs = Ty::Fn(Box::new(ra.ty), Box::new(b));
        assert(problem[0] == (lhs, rhs));
        assert(rhs.subst(mapping) == seen.1.subst(mapping));
    }
    if solve(problem) is Err {
        lemma_solve_complete(problem, mapping);
    }
    let found = solve(problem)->Ok_0;
    assert(absorbed(found, mapping)) by {
        assert forall|ty: Ty| (#[trigger] apply_bindings(ty, found)).subst(mapping) == ty.subst(
            mapping,
        ) by {
            lemma_solve_most_general(problem, mapping, ty);
        }
    }
    lemma_absorbed_concat(rf.bindings, ra.bindings, mapping);
    lemma_absorbed_concat(rf.bindings + ra.bindings, found, mapping);
}

/// Where a substitution solves the equations that the pass collected for the term, with
/// the bindings made before applied, the inference that unifies as it goes succeeds, and
/// the substitution absorbs the bindings that it makes: what it finds is most general.
pub proof fn lemma_online_general(
    t: Tm,
    env: Seq<(Name, Ty)>,
    prior: Seq<(Name, Ty)>,
    n: nat,
    mapping: Map<Name, Ty>,
)
    requires
        simple_lets(t),
        settled(env, prior, n),
        collect(t, env, Seq::empty(), n).ty is Ok,
        unifies(mapping, applied(constraints_of(t, env, n), prior)),
    ensures
        online(t, env_apply(env, prior), n) is Ok,
        absorbed(online(t, env_apply(env, prior), n)->Ok_0.bindings, mapping),
    decreases t, 1nat,
{
    let none = Seq::<(Ty, Ty)>::empty();
    match t {
        Tm::Variable(x) => {
            lemma_lookup_apply(env, x, prior);
        },
        Tm::Abstraction(x, body) => {
            let a = Ty::Variable(NameSupply::name(n));
            lemma_settled_push(env, prior, n, x);
            lemma_online_general(*body, env.push((x, a)), prior, n + 1, mapping);
        },
        Tm::Application(f, arg) => {
            lemma_application_constraints(*f, *arg, env, n);
            let cf = collect(*f, env, none, n);
            let ca = collect(*arg, env, none, cf.next);
            let cs = constraints_of(t, env, n);
            // The equations of the function are among those of the application.
            assert(unifies(mapping, applied(cf.constraints, prior))) by {
                let part = applied(cf.constraints, prior);
                assert forall|i: int| 0 <= i < part.len() implies (#[trigger] part[i]).0.subst(
                    mapping,
                ) == part[i].1.subst(mapping) by {
                    assert(cs[i] == cf.constraints[i]);
                    assert(applied(cs, prior)[i] == part[i]);
                }
            }
            lemma_online_general(*f, env, prior, n, mapping);
            let rf = online(*f, env_apply(env, prior), n)->Ok_0;
            lemma_online_shape(*f, env, prior, n);
            lemma_collect_next(*f, env, none, n);
            lemma_settled_more(env, prior, n, rf.bindings, cf.next);
            // So are those of the argument, and the bindings made for the function make no
            // difference to the substitution.
            assert(unifies(mapping, applied(ca.constraints, prior + rf.bindings))) by {
                let part = applied(ca.constraints, prior + rf.bindings);
                assert forall|j: int| 0 <= j < part.len() implies (#[trigger] part[j]).0.subst(
                    mapping,
                ) == part[j].1.subst(mapping) by {
                    let i = cf.constraints.len() + j;
                    assert(cs[i] == ca.constraints[j]);
                    let seen = applied(cs, prior)[i];
                    assert(seen.0.subst(mapping) == seen.1.subst(mapping));
                    lemma_apply_bindings_concat(ca.constraints[j].0, prior, rf.bindings);
                    lemma_apply_bindings_concat(ca.constraints[j].1, prior, rf.bindings);
                    assert(apply_bindings(seen.0, rf.bindings).subst(mapping) == seen.0.subst(
                        mapping,
                    ));
                    assert(apply_bindings(seen.1, rf.bindings).subst(mapping) == seen.1.subst(
                        mapping,
                    ));
                }
            }
            lemma_env_apply_concat(env, prior, rf.bindings);
            lemma_online_general(*arg, env, prior + rf.bindings, cf.next, mapping);
            lemma_general_application(*f, *arg, env, prior, n, mapping);
        },
        Tm::Let(x, bound, body) => {
            let nothing = Seq::<(Name, Ty)>::empty();
            let cb = collect(*bound, env, none, n);
            let inner = env.push((x, cb.ty->Ok_0.generalise(env_vars(env))));
            lemma_collect_append(*body, inner, cb.constraints, cb.next);
            if application_free(*bound) {
                lemma_application_free_simple(*bound);
                lemma_application_free_collects(*bound, env, n);
                lemma_application_free_binds(*bound, env_apply(env, prior), n);
                assert(applied(none, prior) =~= none);
                lemma_online_general(*bound, env, prior, n, mapping);
                lemma_online_shape(*bound, env, prior, n);
                lemma_settled_let(env, prior, n, x, *bound);
                assert(none + constraints_of(*body, inner, cb.next) =~= constraints_of(
                    *body,
                    inner,
                    cb.next,
                ));
                assert(prior + nothing =~= prior);
                assert(env_apply(env_apply(env, prior), nothing) =~= env_apply(env, prior));
                lemma_online_general(*body, inner, prior, cb.next, mapping);
                let rb = online(*body, env_apply(inner, prior), cb.next)->Ok_0;
                assert(nothing + rb.bindings =~= rb.bindings);
            } else {
                lemma_general_unused_let(x, *bound, *body, env, prior, n, mapping);
            }
        },
    }
}

/// The step of `lemma_online_general` for a `let` whose body does not use the name.
proof fn lemma_general_unused_let(
    x: Name,
    bound: Tm,
    body: Tm,
    env: Seq<(Name, Ty)>,
    prior: Seq<(Name, Ty)>,
    n: nat,
    mapping: Map<Name, Ty>,
)
    requires
        simple_lets(bound),
        simple_lets(body),
        !body.free_vars().contains(x),
        settled(env, prior, n),
        collect(Tm::Let(x, Box::new(bound), Box::new(body)), env, Seq::empty(), n).ty is Ok,
        unifies(
            mapping,
            applied(constraints_of(Tm::Let(x, Box::new(bound), Box::new(body)), env, n), prior),
        ),
    ensures
        online(Tm::Let(x, Box::new(bound), Box::new(body)), env_apply(env, prior), n) is Ok,
        absorbed(
            online(Tm::Let(x, Box::new(bound), Box::new(body)), env_apply(env, prior), n)->Ok_0.bindings,
            mapping,
        ),
    decreases Tm::Let(x, Box::new(bound), Box::new(body)), 0nat,
{
    let t = Tm::Let(x, Box::new(bound), Box::new(body));
    let none = Seq::<(Ty, Ty)>::empty();
    let cb = collect(bound, env, none, n);
    let inner = env.push((x, cb.ty->Ok_0.generalise(env_vars(env))));
    lemma_collect_append(body, inner, cb.constraints, cb.next);
    let cs = constraints_of(t, env, n);
    let env0 = env.push((x, unused()));
    // The equations of what is bound are among those of the `let`.
    assert(unifies(mapping, applied(cb.constraints, prior))) by {
        let part = applied(cb.constraints, prior);
        assert forall|i: int| 0 <= i < part.len() implies (#[trigger] part[i]).0.subst(mapping)
            == part[i].1.subst(mapping) by {
            assert(cs[i] == cb.constraints[i]);
            assert(applied(cs, prior)[i] == part[i]);
        }
    }
    lemma_online_general(bound, env, prior, n, mapping);
    let e1 = online(bound, env_apply(env, prior), n)->Ok_0;
    let prior1 = prior + e1.bindings;
    lemma_online_shape(bound, env, prior, n);
    lemma_unused_let(x, bound, body, env, prior, n);
    // So are those of the body, and the bindings made for what is bound make no difference
    // to the substitution.
    let of_body = constraints_of(body, env0, cb.next);
    assert(unifies(mapping, applied(of_body, prior1))) by {
        let part = applied(of_body, prior1);
        assert forall|j: int| 0 <= j < part.len() implies (#[trigger] part[j]).0.subst(mapping)
            == part[j].1.subst(mapping) by {
            let i = cb.constraints.len() + j;
            assert(cs[i] == of_body[j]);
            let seen = applied(cs, prior)[i];
            assert(seen.0.subst(mapping) == seen.1.subst(mapping));
            lemma_apply_bindings_concat(of_body[j].0, prior, e1.bindings);
            lemma_apply_bindings_concat(of_body[j].1, prior, e1.bindings);
            assert(apply_bindings(seen.0, e1.bindings).subst(mapping) == seen.0.subst(mapping));
            assert(apply_bindings(seen.1, e1.bindings).subst(mapping) == seen.1.subst(mapping));
        }
    }
    lemma_online_general(body, env0, prior1, cb.next, mapping);
    let r0 = online(body, env_apply(env0, prior1), cb.next)->Ok_0;
    lemma_absorbed_concat(e1.bindings, r0.bindings, mapping);
}

/// The substitution that does to a type what the bindings do one after the other.
pub open spec fn bindings_map(bindings: Seq<(Name, Ty)>) -> Map<Name, Ty>
    decreases bindings.len(),
{
    if bindings.len() == 0 {
        Map::empty()
    } else {
        followed_by(bindings_map(bindings.drop_last()), bindings.last().0, bindings.last().1)
    }
}

/// The substitution `mapping` followed by the binding of `var` to `to`.
pub open spec fn followed_by(mapping: Map<Name, Ty>, var: Name, to: Ty) -> Map<Name, Ty> {
    let moved = mapping.map_values(|bound: Ty| bound.bind(var, to));
    if mapping.contains_key(var) {
        moved
    } else {
        moved.insert(var, to)
    }
}

/// A substitution followed by a binding does what the two do one after the other.
proof fn lemma_followed_by(ty: Ty, mapping: Map<Name, Ty>, var: Name, to: Ty)
    ensures
        ty.subst(followed_by(mapping, var, to)) == ty.subst(mapping).bind(var, to),
    decreases ty,
{
    match ty {
        Ty::Fn(t, u) => {
            lemma_followed_by(*t, mapping, var, to);
            lemma_followed_by(*u, mapping, var, to);
        },
        _ => {},
    }
}

/// The substitution of a list of bindings does what the bindings do.
pub proof fn lemma_bindings_map(ty: Ty, bindings: Seq<(Name, Ty)>)
    ensures
        ty.subst(bindings_map(bindings)) == apply_bindings(ty, bindings),
    decreases bindings.len(),
{
    if bindings.len() == 0 {
        super::unify_laws::lemma_subst_empty(ty);
    } else {
        lemma_bindings_map(ty, bindings.drop_last());
        lemma_followed_by(
            ty,
            bindings_map(bindings.drop_last()),
            bindings.last().0,
            bindings.last().1,
        );
    }
}

/// Whether two results say the same: both are failures, or both are types that are the
/// same up to the names of their meta-variables.
pub open spec fn agree(a: Result<Ty, TyError>, b: Result<Ty, TyError>) -> bool {
    match (a, b) {
        (Ok(x), Ok(y)) => same_up_to_names(x, y),
        (Err(_), Err(_)) => true,
        _ => false,
    }
}

/// In the empty environment, the inference by constraints and the inference that unifies
/// as it goes agree on every term whose `let`s each bind a term without applications or a
/// name that the body does not use: both fail, or both give a type, and the two types are
/// the same up to the names of their meta-variables.
pub proof fn lemma_strategies_agree(t: Tm)
    requires
        simple_lets(t),
    ensures
        agree(infer(t, Seq::empty()), infer_online(t, Seq::empty())),
{
    let env = Seq::<(Name, Ty)>::empty();
    let prior = Seq::<(Name, Ty)>::empty();
    assert(env_apply(env, prior) =~= env);
    assert(env_vars(env) =~= Set::<Name>::empty());
    assert(binding_names(prior) =~= Set::<Name>::empty());
    assert(settled(env, prior, 0));
    lemma_online_shape(t, env, prior, 0);
    let c = collect(t, env, Seq::empty(), 0);
    let o = online(t, env, 0);
    if c.ty is Ok {
        let ty = c.ty->Ok_0;
        let cs = c.constraints;
        assert(applied(cs, prior) =~= cs) by {
            assert forall|i: int| 0 <= i < cs.len() implies applied(cs, prior)[i] == cs[i] by {
                assert(apply_bindings(cs[i].0, prior) == cs[i].0);
                assert(apply_bindings(cs[i].1, prior) == cs[i].1);
            }
        }
        match unifier(cs, Map::empty()) {
            Ok(batch) => {
                lemma_unifier_sound(cs);
                lemma_online_general(t, env, prior, 0, batch);
                let r = o->Ok_0;
                let step_by_step = bindings_map(r.bindings);
                assert(prior + r.bindings =~= r.bindings);
                // The type of the second strategy becomes that of the first.
                assert(r.ty.subst(batch) == ty.subst(batch));
                // The bindings of the second strategy solve the equations, so the type of
                // the first strategy becomes that of the second.
                assert(unifies(step_by_step, cs)) by {
                    assert forall|i: int| 0 <= i < cs.len() implies (#[trigger] cs[i]).0.subst(
                        step_by_step,
                    ) == cs[i].1.subst(step_by_step) by {
                        lemma_online_solves(t, env, prior, 0, i);
                        lemma_bindings_map(cs[i].0, r.bindings);
                        lemma_bindings_map(cs[i].1, r.bindings);
                    }
                }
                lemma_unifier_most_general(cs, step_by_step, ty);
                lemma_bindings_map(ty, r.bindings);
                assert(ty.subst(batch).subst(step_by_step) == r.ty);
                assert(instance_of(ty.subst(batch), r.ty));
                assert(instance_of(r.ty, ty.subst(batch)));
                lemma_variants_renamed(ty.subst(batch), r.ty);
            },
            Err(_) => {
                if o is Ok {
                    let r = o->Ok_0;
                    let step_by_step = bindings_map(r.bindings);
                    assert(prior + r.bindings =~= r.bindings);
                    assert(unifies(step_by_step, cs)) by {
                        assert forall|i: int| 0 <= i < cs.len() implies (
                        #[trigger] cs[i]).0.subst(step_by_step) == cs[i].1.subst(step_by_step) by {
                            lemma_online_solves(t, env, prior, 0, i);
                            lemma_bindings_map(cs[i].0, r.bindings);
                            lemma_bindings_map(cs[i].1, r.bindings);
                        }
                    }
                    lemma_unifier_complete(cs, step_by_step);
                }
            },
        }
    }
}

} // verus!
