//! Type inference on the flat representation: every type lives in one arena, and a binding
//! found by unification is written into the arena in place.
use vstd::prelude::*;

use super::super::types::{lemma_size_positive, Ty, Type as TypeTree};
use super::super::unify::{
    apply_bindings, lemma_bind_vars, lemma_decompose_decreases, lemma_decompose_equal,
    lemma_step_decreases, problem_size, problem_vars, solve, step, Step, TyError, TypeError,
};
use super::super::infer::{env_vars, lookup};
use super::super::terms::Tm;
use super::super::unify::lemma_apply_bindings_concat;
use super::flat_type::{copy_node, FlatType, FlatTypeRef, Type};
use super::{term_at, FlatTerm, FlatTermRef, Term};
use crate::names::{Name, NameSet, NameSupply};

verus! {

/// Whether the node stands for `ty`, where `meaning` says what each place stands for.
pub open spec fn node_means(node: Type<FlatTypeRef>, meaning: Seq<Ty>, ty: Ty) -> bool {
    match node {
        Type::Var(v) => ty == Ty::Variable(v@),
        Type::GenVar(v) => ty == Ty::GenVariable(v@),
        Type::Fn { lhs, rhs } => lhs.idx < meaning.len() && rhs.idx < meaning.len() && ty == Ty::Fn(
            Box::new(meaning[lhs.idx as int]),
            Box::new(meaning[rhs.idx as int]),
        ),
    }
}

/// The type that the node stands for, where `meaning` says what each place stands for.
pub open spec fn node_type(node: Type<FlatTypeRef>, meaning: Seq<Ty>) -> Ty {
    match node {
        Type::Var(v) => Ty::Variable(v@),
        Type::GenVar(v) => Ty::GenVariable(v@),
        Type::Fn { lhs, rhs } => Ty::Fn(
            Box::new(meaning[lhs.idx as int]),
            Box::new(meaning[rhs.idx as int]),
        ),
    }
}

/// Whether `meaning` says of each place what its node stands for.
pub open spec fn consistent(types: Seq<Type<FlatTypeRef>>, meaning: Seq<Ty>) -> bool {
    &&& meaning.len() == types.len()
    &&& forall|i: int| 0 <= i < types.len() ==> node_means(#[trigger] types[i], meaning, meaning[i])
}

/// The types of the names in scope, read from the arena.
pub open spec fn bound_types(binds: Seq<(String, FlatTypeRef)>, meaning: Seq<Ty>) -> Seq<
    (Name, Ty),
> {
    binds.map_values(|b: (String, FlatTypeRef)| (b.0@, meaning[b.1.idx as int]))
}

/// An arena of types with the bindings of the names in scope and a supply of fresh
/// meta-variables. A child may have any place: a type is found by following the places, and
/// no place leads back to itself.
pub struct FlatTypeEnvironment {
    types: Vec<Type<FlatTypeRef>>,
    binds: Vec<(String, FlatTypeRef)>,
    supply: NameSupply,
    meaning: Ghost<Seq<Ty>>,
}

impl Default for FlatTypeEnvironment {
    fn default() -> (env: Self)
        ensures
            env.wf(),
            env.size() == 0,
            env.places() == Seq::<(String, FlatTypeRef)>::empty(),
            env.count() == 0,
    {
        FlatTypeEnvironment::new()
    }
}

impl FlatTypeEnvironment {
    /// Whether the arena is well formed: every place stands for a type, and every binding
    /// names a place.
    pub closed spec fn wf(&self) -> bool {
        &&& consistent(self.types@, self.meaning@)
        &&& forall|k: int| 0 <= k < self.binds@.len() ==> (#[trigger] self.binds@[k]).1.idx
            < self.types@.len()
    }

    /// The number of places.
    pub closed spec fn size(&self) -> nat {
        self.types@.len()
    }

    /// What each place stands for.
    pub closed spec fn types(&self) -> Seq<Ty> {
        self.meaning@
    }

    /// The type that a place stands for.
    pub open spec fn type_at(&self, place: FlatTypeRef) -> Ty {
        self.types()[place.idx as int]
    }

    /// The places of the bindings in scope, the most recent last.
    pub closed spec fn places(&self) -> Seq<(String, FlatTypeRef)> {
        self.binds@
    }

    /// The types of the names in scope, the most recent binding last.
    pub open spec fn bindings(&self) -> Seq<(Name, Ty)> {
        bound_types(self.places(), self.types())
    }

    /// The number of meta-variables handed out.
    pub closed spec fn count(&self) -> nat {
        self.supply.count()
    }

    /// A well-formed arena says of as many places what they stand for as it has.
    pub proof fn lemma_wf(&self)
        requires
            self.wf(),
        ensures
            self.types().len() == self.size(),
            forall|k: int| 0 <= k < self.places().len() ==> (#[trigger] self.places()[k]).1.idx
                < self.size(),
    {
    }

    /// An empty arena without bindings.
    pub fn new() -> (env: Self)
        ensures
            env.wf(),
            env.size() == 0,
            env.places() == Seq::<(String, FlatTypeRef)>::empty(),
            env.count() == 0,
    {
        FlatTypeEnvironment {
            types: Vec::new(),
            binds: Vec::new(),
            supply: NameSupply::new(),
            meaning: Ghost(Seq::empty()),
        }
    }

    /// Whether the later arena has the earlier one as its beginning: the same places stand
    /// for the same types, and the bindings are the same.
    pub open spec fn extends(&self, earlier: &Self) -> bool {
        &&& earlier.size() <= self.size()
        &&& earlier.types().len() <= self.types().len()
        &&& forall|i: int|
            0 <= i < earlier.types().len() ==> #[trigger] self.types()[i] == earlier.types()[i]
        &&& self.places() == earlier.places()
    }

    /// Adds a node at a new place.
    pub fn insert_type(&mut self, node: Type<FlatTypeRef>) -> (place: FlatTypeRef)
        requires
            old(self).wf(),
            node matches Type::Fn { lhs, rhs } ==> lhs.idx < old(self).size()
                && rhs.idx < old(self).size(),
        ensures
            final(self).wf(),
            final(self).extends(old(self)),
            final(self).size() == old(self).size() + 1,
            final(self).count() == old(self).count(),
            place.idx == old(self).size(),
            node_means(node, old(self).types(), final(self).type_at(place)),
    {
        let ghost ty = node_type(node, self.meaning@);
        let idx = self.types.len();
        self.types.push(node);
        self.meaning = Ghost(self.meaning@.push(ty));
        proof {
            assert forall|i: int| 0 <= i < self.types@.len() implies node_means(
                #[trigger] self.types@[i],
                self.meaning@,
                self.meaning@[i],
            ) by {
                if i < idx {
                    assert(self.types@[i] == old(self).types@[i]);
                    assert(node_means(
                        old(self).types@[i],
                        old(self).meaning@,
                        old(self).meaning@[i],
                    ));
                }
            }
        }
        FlatTypeRef { idx }
    }

    /// Adds a fresh meta-variable.
    pub fn new_var(&mut self) -> (place: FlatTypeRef)
        requires
            old(self).wf(),
        ensures
            final(self).wf(),
            final(self).extends(old(self)),
            final(self).size() == old(self).size() + 1,
            final(self).count() == old(self).count() + 1,
            place.idx == old(self).size(),
            final(self).type_at(place) == Ty::Variable(NameSupply::name(old(self).count())),
    {
        let name = self.supply.fresh();
        self.insert_type(Type::Var(name))
    }

    /// Brings a name into scope.
    pub fn push_binding(&mut self, var: String, place: FlatTypeRef)
        requires
            old(self).wf(),
            place.idx < old(self).size(),
        ensures
            final(self).wf(),
            final(self).size() == old(self).size(),
            final(self).types() == old(self).types(),
            final(self).count() == old(self).count(),
            final(self).places() == old(self).places().push((var, place)),
    {
        self.binds.push((var, place));
    }

    /// Takes the most recent binding out of scope.
    pub fn pop_binding(&mut self) -> (place: Option<FlatTypeRef>)
        requires
            old(self).wf(),
        ensures
            final(self).wf(),
            final(self).size() == old(self).size(),
            final(self).types() == old(self).types(),
            final(self).count() == old(self).count(),
            old(self).places().len() == 0 ==> place is None
                && final(self).places() == old(self).places(),
            old(self).places().len() > 0 ==> place == Some(old(self).places().last().1)
                && final(self).places() == old(self).places().drop_last(),
    {
        match self.binds.pop() {
            Some(binding) => Some(binding.1),
            None => None,
        }
    }

    /// The type at a place as a tree.
    pub fn tree_of(&self, place: FlatTypeRef) -> (tree: TypeTree)
        requires
            self.wf(),
            place.idx < self.size(),
        ensures
            tree@ == self.type_at(place),
        decreases self.type_at(place).size(),
    {
        match &self.types[place.idx] {
            Type::Var(v) => TypeTree::Variable(v.clone()),
            Type::GenVar(v) => TypeTree::GenVariable(v.clone()),
            Type::Fn { lhs, rhs } => {
                proof {
                    lemma_size_positive(self.type_at(*lhs));
                    lemma_size_positive(self.type_at(*rhs));
                }
                TypeTree::Fn(Box::new(self.tree_of(*lhs)), Box::new(self.tree_of(*rhs)))
            },
        }
    }

    /// Adds the meta-variables of the type at a place to `names`.
    fn collect_vars(&self, place: FlatTypeRef, names: &mut NameSet)
        requires
            self.wf(),
            place.idx < self.size(),
        ensures
            final(names)@ == old(names)@.union(self.type_at(place).vars()),
        decreases self.type_at(place).size(),
    {
        match &self.types[place.idx] {
            Type::Var(v) => {
                names.insert(v.clone());
            },
            Type::GenVar(_) => {},
            Type::Fn { lhs, rhs } => {
                proof {
                    lemma_size_positive(self.type_at(*lhs));
                    lemma_size_positive(self.type_at(*rhs));
                }
                self.collect_vars(*lhs, names);
                self.collect_vars(*rhs, names);
            },
        }
        assert(names@ =~= old(names)@.union(self.type_at(place).vars()));
    }

    /// The meta-variables of the type at a place.
    pub fn vars(&self, place: FlatTypeRef) -> (names: NameSet)
        requires
            self.wf(),
            place.idx < self.size(),
        ensures
            names@ == self.type_at(place).vars(),
    {
        let mut names = NameSet::new();
        self.collect_vars(place, &mut names);
        assert(names@ =~= self.type_at(place).vars());
        names
    }

    /// Adds the schema-bound variables of the type at a place to `names`, in the order of
    /// their first occurrence.
    fn collect_gen_vars(&self, place: FlatTypeRef, names: &mut NameSet)
        requires
            self.wf(),
            place.idx < self.size(),
        ensures
            final(names).order() == self.type_at(place).gen_vars_after(old(names).order()),
        decreases self.type_at(place).size(),
    {
        proof {
            names.lemma_order();
        }
        match &self.types[place.idx] {
            Type::GenVar(v) => {
                names.insert(v.clone());
            },
            Type::Var(_) => {},
            Type::Fn { lhs, rhs } => {
                proof {
                    lemma_size_positive(self.type_at(*lhs));
                    lemma_size_positive(self.type_at(*rhs));
                }
                self.collect_gen_vars(*lhs, names);
                self.collect_gen_vars(*rhs, names);
            },
        }
    }

    /// The schema-bound variables of the type at a place, in the order of their first
    /// occurrence.
    pub fn gen_vars(&self, place: FlatTypeRef) -> (names: NameSet)
        requires
            self.wf(),
            place.idx < self.size(),
        ensures
            names.order() == self.type_at(place).gen_var_order(),
    {
        let mut names = NameSet::new();
        self.collect_gen_vars(place, &mut names);
        names
    }

    /// The meta-variables of the types of the names in scope.
    pub fn free_vars(&self) -> (names: NameSet)
        requires
            self.wf(),
        ensures
            names@ == super::super::infer::env_vars(self.bindings()),
    {
        let ghost env = self.bindings();
        let mut names = NameSet::new();
        let mut i: usize = 0;
        while i < self.binds.len()
            invariant
                i <= self.binds.len(),
                self.wf(),
                env == self.bindings(),
                names@ == super::super::infer::env_vars(env.take(i as int)),
            decreases self.binds.len() - i,
        {
            self.collect_vars(self.binds[i].1, &mut names);
            proof {
                assert(env.take(i + 1).drop_last() =~= env.take(i as int));
            }
            i = i + 1;
        }
        assert(env.take(env.len() as int) =~= env);
        names
    }

    /// The place of the most recent binding of `x`, if it has one.
    pub fn find_binding(&self, x: &String) -> (found: Option<FlatTypeRef>)
        requires
            self.wf(),
        ensures
            match found {
                Some(place) => place.idx < self.size() && super::super::infer::lookup(
                    self.bindings(),
                    x@,
                ) == Some(self.type_at(place)),
                None => super::super::infer::lookup(self.bindings(), x@) is None,
            },
    {
        let ghost env = self.bindings();
        let mut i: usize = self.binds.len();
        assert(env.take(i as int) =~= env);
        while i > 0
            invariant
                i <= self.binds.len(),
                self.wf(),
                env == self.bindings(),
                super::super::infer::lookup(env, x@) == super::super::infer::lookup(
                    env.take(i as int),
                    x@,
                ),
            decreases i,
        {
            i = i - 1;
            assert(env.take(i + 1).drop_last() =~= env.take(i as int));
            if self.binds[i].0 == *x {
                return Some(self.binds[i].1);
            }
        }
        None
    }
}


/// The place that the first entry for `name` gives, if there is an entry for it.
pub open spec fn table_get(table: Seq<(String, FlatTypeRef)>, name: Name) -> Option<FlatTypeRef>
    decreases table.len(),
{
    if table.len() == 0 {
        None
    } else if table[0].0@ == name {
        Some(table[0].1)
    } else {
        table_get(table.skip(1), name)
    }
}

/// What `table_get` finds is an entry of the table, and it finds nothing only where no
/// entry has the name.
pub proof fn lemma_table_get(table: Seq<(String, FlatTypeRef)>, name: Name)
    ensures
        match table_get(table, name) {
            Some(place) => exists|k: int|
                0 <= k < table.len() && (#[trigger] table[k]).0@ == name && table[k].1 == place,
            None => forall|k: int| 0 <= k < table.len() ==> (#[trigger] table[k]).0@ != name,
        },
    decreases table.len(),
{
    if table.len() > 0 {
        if table[0].0@ == name {
            assert(table[0].0@ == name && table[0].1 == table_get(table, name)->Some_0);
        } else {
            let rest = table.skip(1);
            lemma_table_get(rest, name);
            match table_get(rest, name) {
                Some(place) => {
                    let k = choose|k: int|
                        0 <= k < rest.len() && (#[trigger] rest[k]).0@ == name && rest[k].1
                            == place;
                    assert(table[k + 1].0@ == name && table[k + 1].1 == place);
                },
                None => {
                    assert forall|k: int| 0 <= k < table.len() implies (#[trigger] table[k]).0@
                        != name by {
                        if k > 0 {
                            assert(rest[k - 1].0@ != name);
                        }
                    }
                },
            }
        }
    }
}

/// The place that the first entry for `name` gives, if there is an entry for it.
fn find(table: &Vec<(String, FlatTypeRef)>, name: &String) -> (found: Option<FlatTypeRef>)
    ensures
        found == table_get(table@, name@),
{
    let mut i: usize = 0;
    assert(table@.skip(0) =~= table@);
    while i < table.len()
        invariant
            i <= table.len(),
            table_get(table@, name@) == table_get(table@.skip(i as int), name@),
        decreases table.len() - i,
    {
        if table[i].0 == *name {
            return Some(table[i].1);
        }
        assert(table@.skip(i as int).skip(1) =~= table@.skip(i + 1));
        i = i + 1;
    }
    None
}

impl FlatTypeEnvironment {
    /// An arena that extends an extension of a third extends the third.
    pub proof fn lemma_extends(&self, mid: &Self, earlier: &Self)
        requires
            self.extends(mid),
            mid.extends(earlier),
        ensures
            self.extends(earlier),
    {
    }

    /// In an extension, a place of the earlier arena stands for the same type.
    pub proof fn lemma_extends_type_at(&self, earlier: &Self, place: FlatTypeRef)
        requires
            self.extends(earlier),
            earlier.wf(),
            place.idx < earlier.size(),
        ensures
            self.type_at(place) == earlier.type_at(place),
    {
    }

    /// Whether the table stands for `mapping`: it has an entry for exactly the names that
    /// `mapping` binds, and the place of the entry stands for the type that is bound.
    pub open spec fn table_means(
        &self,
        table: Seq<(String, FlatTypeRef)>,
        mapping: Map<Name, Ty>,
    ) -> bool {
        forall|v: Name|
            match #[trigger] table_get(table, v) {
                Some(place) => place.idx < self.size() && mapping.contains_key(v) && mapping[v]
                    == self.type_at(place),
                None => !mapping.contains_key(v),
            }
    }

    /// Writes the type at `place` with its schema-bound variables replaced as the table
    /// says. Parts without such variables are kept, not copied.
    fn inst_gv(
        &mut self,
        table: &Vec<(String, FlatTypeRef)>,
        Ghost(mapping): Ghost<Map<Name, Ty>>,
        place: FlatTypeRef,
    ) -> (result: FlatTypeRef)
        requires
            old(self).wf(),
            place.idx < old(self).size(),
            old(self).table_means(table@, mapping),
        ensures
            final(self).wf(),
            final(self).extends(old(self)),
            final(self).count() == old(self).count(),
            result.idx < final(self).size(),
            final(self).type_at(result) == old(self).type_at(place).gen_subst(mapping),
        decreases old(self).type_at(place).size(),
    {
        let (lhs, rhs) = match &self.types[place.idx] {
            Type::GenVar(v) => {
                let found = find(table, v);
                assert(found == table_get(table@, v@));
                return match found {
                    Some(bound) => bound,
                    None => place,
                };
            },
            Type::Var(_) => {
                return place;
            },
            Type::Fn { lhs, rhs } => (*lhs, *rhs),
        };
        proof {
            lemma_size_positive(self.type_at(lhs));
            lemma_size_positive(self.type_at(rhs));
        }
        let new_lhs = self.inst_gv(table, Ghost(mapping), lhs);
        let ghost mid = *self;
        proof {
            mid.lemma_extends_type_at(old(self), rhs);
            assert forall|v: Name|
                match #[trigger] table_get(table@, v) {
                    Some(p) => p.idx < mid.size() && mapping.contains_key(v) && mapping[v]
                        == mid.type_at(p),
                    None => !mapping.contains_key(v),
                } by {
                match table_get(table@, v) {
                    Some(p) => {
                        mid.lemma_extends_type_at(old(self), p);
                    },
                    None => {},
                }
            }
        }
        let new_rhs = self.inst_gv(table, Ghost(mapping), rhs);
        proof {
            self.lemma_extends(&mid, old(self));
            self.lemma_extends_type_at(&mid, new_lhs);
            self.lemma_extends_type_at(old(self), place);
            self.lemma_extends_type_at(old(self), lhs);
            self.lemma_extends_type_at(old(self), rhs);
        }
        if !new_lhs.ref_eq(lhs) || !new_rhs.ref_eq(rhs) {
            let ghost before = *self;
            let result = self.insert_type(Type::Fn { lhs: new_lhs, rhs: new_rhs });
            proof {
                self.lemma_extends(&before, old(self));
            }
            result
        } else {
            place
        }
    }

    /// Whether the table generalises the variables of `ty` that `free` does not hold: it
    /// has an entry for exactly those, and the place of the entry stands for the
    /// schema-bound variable of the same name.
    pub open spec fn table_generalises(
        &self,
        table: Seq<(String, FlatTypeRef)>,
        ty: Ty,
        free: Set<Name>,
    ) -> bool {
        forall|v: Name|
            ty.vars().contains(v) ==> match #[trigger] table_get(table, v) {
                Some(place) => place.idx < self.size() && !free.contains(v) && self.type_at(place)
                    == Ty::GenVariable(v),
                None => free.contains(v),
            }
    }

    /// Writes the type at `place` with its meta-variables replaced as the table says. Parts
    /// without such variables are kept, not copied.
    fn gen_v(
        &mut self,
        table: &Vec<(String, FlatTypeRef)>,
        Ghost(free): Ghost<Set<Name>>,
        place: FlatTypeRef,
    ) -> (result: FlatTypeRef)
        requires
            old(self).wf(),
            place.idx < old(self).size(),
            old(self).table_generalises(table@, old(self).type_at(place), free),
        ensures
            final(self).wf(),
            final(self).extends(old(self)),
            final(self).count() == old(self).count(),
            result.idx < final(self).size(),
            final(self).type_at(result) == old(self).type_at(place).generalise(free),
        decreases old(self).type_at(place).size(),
    {
        let (lhs, rhs) = match &self.types[place.idx] {
            Type::Var(v) => {
                let found = find(table, v);
                assert(found == table_get(table@, v@));
                assert(self.type_at(place).vars().contains(v@));
                return match found {
                    Some(bound) => bound,
                    None => place,
                };
            },
            Type::GenVar(_) => {
                return place;
            },
            Type::Fn { lhs, rhs } => (*lhs, *rhs),
        };
        let ghost whole = self.type_at(place);
        proof {
            lemma_size_positive(self.type_at(lhs));
            lemma_size_positive(self.type_at(rhs));
            assert(whole.vars() == self.type_at(lhs).vars().union(self.type_at(rhs).vars()));
            assert forall|v: Name| self.type_at(lhs).vars().contains(v) implies match #[trigger] table_get(
                table@,
                v,
            ) {
                Some(p) => p.idx < self.size() && !free.contains(v) && self.type_at(p)
                    == Ty::GenVariable(v),
                None => free.contains(v),
            } by {
                assert(whole.vars().contains(v));
            }
        }
        let new_lhs = self.gen_v(table, Ghost(free), lhs);
        let ghost mid = *self;
        proof {
            mid.lemma_extends_type_at(old(self), rhs);
            assert forall|v: Name| mid.type_at(rhs).vars().contains(v) implies match #[trigger] table_get(
                table@,
                v,
            ) {
                Some(p) => p.idx < mid.size() && !free.contains(v) && mid.type_at(p)
                    == Ty::GenVariable(v),
                None => free.contains(v),
            } by {
                assert(whole.vars().contains(v));
                match table_get(table@, v) {
                    Some(p) => {
                        mid.lemma_extends_type_at(old(self), p);
                    },
                    None => {},
                }
            }
        }
        let new_rhs = self.gen_v(table, Ghost(free), rhs);
        proof {
            self.lemma_extends(&mid, old(self));
            self.lemma_extends_type_at(&mid, new_lhs);
            self.lemma_extends_type_at(old(self), place);
            self.lemma_extends_type_at(old(self), lhs);
            self.lemma_extends_type_at(old(self), rhs);
        }
        if !new_lhs.ref_eq(lhs) || !new_rhs.ref_eq(rhs) {
            let ghost before = *self;
            let result = self.insert_type(Type::Fn { lhs: new_lhs, rhs: new_rhs });
            proof {
                self.lemma_extends(&before, old(self));
            }
            result
        } else {
            place
        }
    }
}


impl FlatTypeEnvironment {
    /// A fresh instance of the scheme at `place`: each schema-bound variable is replaced by
    /// a new meta-variable, in the order in which the schema-bound variables first occur.
    pub fn instantiate_at(&mut self, place: FlatTypeRef) -> (result: FlatTypeRef)
        requires
            old(self).wf(),
            place.idx < old(self).size(),
        ensures
            final(self).wf(),
            final(self).extends(old(self)),
            result.idx < final(self).size(),
            final(self).type_at(result) == old(self).type_at(place).instantiate(old(self).count()),
            final(self).count() == old(self).count() + old(self).type_at(
                place,
            ).gen_var_order().len(),
    {
        let generic = self.gen_vars(place);
        let ghost order = self.type_at(place).gen_var_order();
        let ghost first = self.count();
        let ghost mapping = Ty::fresh_mapping(order, first);
        proof {
            super::super::types::lemma_gen_vars_after(self.type_at(place), Seq::empty());
        }
        let n = generic.len();
        let mut table: Vec<(String, FlatTypeRef)> = Vec::new();
        let mut i: usize = 0;
        while i < n
            invariant
                i <= n,
                n == order.len(),
                order == generic.order(),
                order.no_duplicates(),
                self.wf(),
                self.extends(old(self)),
                self.count() == first + i,
                table@.len() == i,
                forall|k: int|
                    0 <= k < i ==> (#[trigger] table@[k]).0@ == order[k] && table@[k].1.idx
                        < self.size() && self.type_at(table@[k].1) == Ty::Variable(
                        NameSupply::name(first + k as nat),
                    ),
            decreases n - i,
        {
            let ghost before = *self;
            let fresh = self.new_var();
            table.push((generic.get(i).clone(), fresh));
            proof {
                self.lemma_extends(&before, old(self));
                assert forall|k: int| 0 <= k < i + 1 implies (#[trigger] table@[k]).0@ == order[k]
                    && table@[k].1.idx < self.size() && self.type_at(table@[k].1) == Ty::Variable(
                    NameSupply::name(first + k as nat),
                ) by {
                    if k < i {
                        self.lemma_extends_type_at(&before, table@[k].1);
                    }
                }
            }
            i = i + 1;
        }
        proof {
            self.lemma_extends_type_at(old(self), place);
            assert forall|v: Name|
                match #[trigger] table_get(table@, v) {
                    Some(p) => p.idx < self.size() && mapping.contains_key(v) && mapping[v]
                        == self.type_at(p),
                    None => !mapping.contains_key(v),
                } by {
                lemma_table_get(table@, v);
                match table_get(table@, v) {
                    Some(p) => {
                        let k = choose|k: int|
                            0 <= k < table@.len() && (#[trigger] table@[k]).0@ == v && table@[k].1
                                == p;
                        assert(order[k] == v);
                        assert(order.contains(v));
                        assert(order.index_of(v) == k);
                    },
                    None => {
                        if order.contains(v) {
                            let k = order.index_of(v);
                            assert(table@[k].0@ == v);
                        }
                    },
                }
            }
        }
        let ghost before = *self;
        let result = self.inst_gv(&table, Ghost(mapping), place);
        proof {
            self.lemma_extends(&before, old(self));
        }
        result
    }

    /// A fresh instance of the scheme of the most recent binding of `x`, or nothing if `x`
    /// has no binding.
    pub fn instantiate(&mut self, x: &String) -> (result: Option<FlatTypeRef>)
        requires
            old(self).wf(),
        ensures
            final(self).wf(),
            final(self).extends(old(self)),
            match super::super::infer::lookup(old(self).bindings(), x@) {
                Some(scheme) => result matches Some(place) && place.idx < final(self).size()
                    && final(self).type_at(place) == scheme.instantiate(old(self).count())
                    && final(self).count() == old(self).count() + scheme.gen_var_order().len(),
                None => result is None && final(self).count() == old(self).count(),
            },
    {
        match self.find_binding(x) {
            Some(place) => Some(self.instantiate_at(place)),
            None => None,
        }
    }

    /// The type at `place` with every meta-variable that no type in scope holds turned into
    /// a schema-bound variable.
    pub fn generalise(&mut self, place: FlatTypeRef) -> (result: FlatTypeRef)
        requires
            old(self).wf(),
            place.idx < old(self).size(),
        ensures
            final(self).wf(),
            final(self).extends(old(self)),
            final(self).count() == old(self).count(),
            result.idx < final(self).size(),
            final(self).type_at(result) == old(self).type_at(place).generalise(
                super::super::infer::env_vars(old(self).bindings()),
            ),
    {
        let names = self.vars(place);
        let fv = self.free_vars();
        let ghost free = fv@;
        let ghost ty = self.type_at(place);
        let ghost order = names.order();
        proof {
            names.lemma_order();
        }
        let n = names.len();
        let mut table: Vec<(String, FlatTypeRef)> = Vec::new();
        let mut i: usize = 0;
        while i < n
            invariant
                i <= n,
                n == order.len(),
                order == names.order(),
                order.to_set() == ty.vars(),
                fv@ == free,
                self.wf(),
                self.extends(old(self)),
                self.count() == old(self).count(),
                forall|k: int|
                    0 <= k < table@.len() ==> !free.contains((#[trigger] table@[k]).0@)
                        && table@[k].1.idx < self.size() && self.type_at(table@[k].1)
                        == Ty::GenVariable(table@[k].0@),
                forall|j: int|
                    0 <= j < i ==> free.contains(#[trigger] order[j]) || exists|k: int|
                        0 <= k < table@.len() && (#[trigger] table@[k]).0@ == order[j],
            decreases n - i,
        {
            let name = names.get(i);
            if !fv.contains(name.as_str()) {
                let ghost before = *self;
                let ghost entries = table@;
                let generic = self.insert_type(Type::GenVar(name.clone()));
                table.push((name.clone(), generic));
                proof {
                    self.lemma_extends(&before, old(self));
                    assert forall|k: int| 0 <= k < table@.len() implies !free.contains(
                        (#[trigger] table@[k]).0@,
                    ) && table@[k].1.idx < self.size() && self.type_at(table@[k].1)
                        == Ty::GenVariable(table@[k].0@) by {
                        if k < entries.len() {
                            assert(table@[k] == entries[k]);
                            self.lemma_extends_type_at(&before, table@[k].1);
                        }
                    }
                    assert forall|j: int| 0 <= j < i + 1 implies free.contains(#[trigger] order[j])
                        || exists|k: int|
                        0 <= k < table@.len() && (#[trigger] table@[k]).0@ == order[j] by {
                        if j < i {
                            if !free.contains(order[j]) {
                                let k = choose|k: int|
                                    0 <= k < entries.len() && (#[trigger] entries[k]).0@
                                        == order[j];
                                assert(table@[k].0@ == order[j]);
                            }
                        } else {
                            assert(table@[entries.len() as int].0@ == order[j]);
                        }
                    }
                }
            }
            i = i + 1;
        }
        proof {
            self.lemma_extends_type_at(old(self), place);
            assert forall|v: Name| ty.vars().contains(v) implies match #[trigger] table_get(
                table@,
                v,
            ) {
                Some(p) => p.idx < self.size() && !free.contains(v) && self.type_at(p)
                    == Ty::GenVariable(v),
                None => free.contains(v),
            } by {
                lemma_table_get(table@, v);
                assert(order.to_set().contains(v));
                let j = choose|j: int| 0 <= j < order.len() && order[j] == v;
                match table_get(table@, v) {
                    Some(p) => {
                        let k = choose|k: int|
                            0 <= k < table@.len() && (#[trigger] table@[k]).0@ == v && table@[k].1
                                == p;
                    },
                    None => {
                        if !free.contains(order[j]) {
                            let k = choose|k: int|
                                0 <= k < table@.len() && (#[trigger] table@[k]).0@ == order[j];
                        }
                    },
                }
            }
        }
        let ghost before = *self;
        let result = self.gen_v(&table, Ghost(free), place);
        proof {
            self.lemma_extends(&before, old(self));
        }
        result
    }
}


/// The types after the bindings.
pub open spec fn apply_all(types: Seq<Ty>, bindings: Seq<(Name, Ty)>) -> Seq<Ty> {
    types.map_values(|ty: Ty| apply_bindings(ty, bindings))
}

/// The equations that a work-list of pairs of places stands for.
pub open spec fn pairs(worklist: Seq<(FlatTypeRef, FlatTypeRef)>, types: Seq<Ty>) -> Seq<(Ty, Ty)> {
    worklist.map_values(
        |p: (FlatTypeRef, FlatTypeRef)| (types[p.0.idx as int], types[p.1.idx as int]),
    )
}

impl FlatTypeEnvironment {
    /// Writes the node at `from` over every node that is the meta-variable `var`: one pass
    /// over the arena binds the variable in every type at once.
    pub fn substitute(&mut self, var: &String, from: FlatTypeRef)
        requires
            old(self).wf(),
            from.idx < old(self).size(),
            !old(self).type_at(from).vars().contains(var@),
        ensures
            final(self).wf(),
            final(self).size() == old(self).size(),
            final(self).count() == old(self).count(),
            final(self).places() == old(self).places(),
            final(self).types() == old(self).types().map_values(
                |ty: Ty| ty.bind(var@, old(self).type_at(from)),
            ),
    {
        let ghost to = self.type_at(from);
        let ghost before = self.meaning@;
        let node = copy_node(&self.types[from.idx]);
        let mut i: usize = 0;
        while i < self.types.len()
            invariant
                i <= self.types.len(),
                self.types@.len() == old(self).types@.len(),
                self.binds@ == old(self).binds@,
                self.supply == old(self).supply,
                self.meaning@ == before,
                node == old(self).types@[from.idx as int],
                forall|j: int|
                    0 <= j < i ==> #[trigger] self.types@[j] == if old(self).types@[j] matches Type::Var(
                        x,
                    ) && x@ == var@ {
                        node
                    } else {
                        old(self).types@[j]
                    },
                forall|j: int| i <= j < self.types@.len() ==> self.types@[j] == old(self).types@[j],
            decreases self.types.len() - i,
        {
            let replace = match &self.types[i] {
                Type::Var(x) => *x == *var,
                _ => false,
            };
            if replace {
                self.types.set(i, copy_node(&node));
            }
            i = i + 1;
        }
        let ghost after = before.map_values(|ty: Ty| ty.bind(var@, to));
        self.meaning = Ghost(after);
        proof {
            assert(consistent(old(self).types@, before));
            assert(node_means(node, before, to));
            assert forall|j: int| 0 <= j < self.types@.len() implies node_means(
                #[trigger] self.types@[j],
                after,
                after[j],
            ) by {
                let was = old(self).types@[j];
                assert(node_means(was, before, before[j]));
                if was matches Type::Var(x) && x@ == var@ {
                    assert(self.types@[j] == node);
                    assert(after[j] == to);
                    match node {
                        Type::Fn { lhs, rhs } => {
                            lemma_bind_vars(before[lhs.idx as int], var@, to);
                            lemma_bind_vars(before[rhs.idx as int], var@, to);
                        },
                        _ => {},
                    }
                } else {
                    assert(self.types@[j] == was);
                }
            }
        }
    }

    /// Makes the types at the two places equal, if that can be done: a meta-variable that is
    /// to equal a type that does not hold it is bound to that type in the whole arena at
    /// once.
    pub fn unify(&mut self, a: FlatTypeRef, b: FlatTypeRef) -> (result: Result<(), TypeError>)
        requires
            old(self).wf(),
            a.idx < old(self).size(),
            b.idx < old(self).size(),
        ensures
            final(self).wf(),
            final(self).size() == old(self).size(),
            final(self).count() == old(self).count(),
            final(self).places() == old(self).places(),
            match solve(seq![(old(self).type_at(a), old(self).type_at(b))]) {
                Ok(bindings) => result is Ok && final(self).types() == apply_all(
                    old(self).types(),
                    bindings,
                ),
                Err(e) => result matches Err(x) && x@ == e,
            },
    {
        let ghost goal = solve(seq![(self.type_at(a), self.type_at(b))]);
        let ghost start = self.types();
        let ghost mut done: Seq<(Name, Ty)> = Seq::empty();
        let mut equalities: Vec<(FlatTypeRef, FlatTypeRef)> = Vec::new();
        equalities.push((a, b));
        proof {
            assert(pairs(equalities@, self.types()) =~= seq![(self.type_at(a), self.type_at(b))]);
            assert(self.types() =~= apply_all(start, done));
            match goal {
                Ok(rest) => {
                    assert(done + rest =~= rest);
                },
                Err(_) => {},
            }
        }
        loop
            invariant
                self.wf(),
                self.size() == old(self).size(),
                self.count() == old(self).count(),
                self.places() == old(self).places(),
                start == old(self).types(),
                goal == solve(seq![(old(self).type_at(a), old(self).type_at(b))]),
                forall|k: int|
                    0 <= k < equalities@.len() ==> (#[trigger] equalities@[k]).0.idx < self.size()
                        && equalities@[k].1.idx < self.size(),
                self.types() == apply_all(start, done),
                match solve(pairs(equalities@, self.types())) {
                    Ok(rest) => goal == Ok::<Seq<(Name, Ty)>, TyError>(done + rest),
                    Err(e) => goal == Err::<Seq<(Name, Ty)>, TyError>(e),
                },
            decreases
                problem_vars(pairs(equalities@, self.types())).len(),
                problem_size(pairs(equalities@, self.types())),
        {
            let ghost eqs = pairs(equalities@, self.types());
            let (l, r) = match equalities.pop() {
                None => {
                    proof {
                        assert(done + Seq::<(Name, Ty)>::empty() =~= done);
                    }
                    return Ok(());
                },
                Some(pair) => pair,
            };
            let ghost rest = pairs(equalities@, self.types());
            let ghost lhs = self.type_at(l);
            let ghost rhs = self.type_at(r);
            proof {
                assert(rest =~= eqs.drop_last());
                assert(eqs.last() == (lhs, rhs));
                assert(eqs =~= rest.push((lhs, rhs)));
                lemma_step_decreases(eqs);
                assert(node_means(self.types@[l.idx as int], self.meaning@, lhs));
                assert(node_means(self.types@[r.idx as int], self.meaning@, rhs));
            }
            if l.idx == r.idx {
                continue ;
            }
            let action = self.classify(l, r);
            match action {
                Action::Discard => {},
                Action::Decompose(t1, u1, t2, u2) => {
                    equalities.push((t1, t2));
                    equalities.push((u1, u2));
                    proof {
                        let next = pairs(equalities@, self.types());
                        let (a1, b1, a2, b2) = (
                            self.type_at(t1),
                            self.type_at(u1),
                            self.type_at(t2),
                            self.type_at(u2),
                        );
                        assert(next =~= rest.push((a1, a2)).push((b1, b2)));
                        lemma_decompose_decreases(rest, a1, b1, a2, b2);
                        if lhs == rhs {
                            lemma_decompose_equal(rest, a1, b1);
                        }
                    }
                },
                Action::Bind(name, to) => {
                    let ghost bound = self.type_at(to);
                    self.substitute(&name, to);
                    proof {
                        let next = pairs(equalities@, self.types());
                        assert(next =~= super::super::unify::bind_all(rest, name@, bound));
                        let longer = done.push((name@, bound));
                        assert(longer.drop_last() =~= done);
                        assert(self.types() =~= apply_all(start, longer));
                        match solve(next) {
                            Ok(tail) => {
                                assert(longer + tail =~= done + (seq![(name@, bound)] + tail));
                            },
                            Err(_) => {},
                        }
                        done = longer;
                    }
                },
                Action::Occurs(name, inside) => {
                    return Err(TypeError::OccursCheckFailure(name, self.tree_of(inside)));
                },
                Action::Mismatch => {
                    return Err(TypeError::UnificationMismatch(self.tree_of(l), self.tree_of(r)));
                },
            }
        }
    }

    /// What the unifier has to do with the pair of places.
    fn classify(&self, l: FlatTypeRef, r: FlatTypeRef) -> (action: Action)
        requires
            self.wf(),
            l.idx < self.size(),
            r.idx < self.size(),
        ensures
            match action {
                Action::Discard => self.type_at(l) == self.type_at(r),
                Action::Decompose(t1, u1, t2, u2) => {
                    &&& t1.idx < self.size()
                    &&& u1.idx < self.size()
                    &&& t2.idx < self.size()
                    &&& u2.idx < self.size()
                    &&& self.type_at(l) == Ty::Fn(
                        Box::new(self.type_at(t1)),
                        Box::new(self.type_at(u1)),
                    )
                    &&& self.type_at(r) == Ty::Fn(
                        Box::new(self.type_at(t2)),
                        Box::new(self.type_at(u2)),
                    )
                },
                Action::Bind(name, to) => {
                    &&& to.idx < self.size()
                    &&& step(self.type_at(l), self.type_at(r)) == Step::Bind(
                        name@,
                        self.type_at(to),
                    )
                },
                Action::Occurs(name, inside) => {
                    &&& inside.idx < self.size()
                    &&& step(self.type_at(l), self.type_at(r)) == Step::Fail(
                        TyError::OccursCheckFailure(name@, self.type_at(inside)),
                    )
                },
                Action::Mismatch => step(self.type_at(l), self.type_at(r)) == Step::Fail(
                    TyError::UnificationMismatch(self.type_at(l), self.type_at(r)),
                ),
            },
    {
        proof {
            assert(node_means(self.types@[l.idx as int], self.meaning@, self.type_at(l)));
            assert(node_means(self.types@[r.idx as int], self.meaning@, self.type_at(r)));
        }
        match &self.types[l.idx] {
            Type::Var(x) => {
                let same = match &self.types[r.idx] {
                    Type::Var(y) => *x == *y,
                    _ => false,
                };
                if same {
                    Action::Discard
                } else if self.vars(r).contains(x.as_str()) {
                    Action::Occurs(x.clone(), r)
                } else {
                    Action::Bind(x.clone(), r)
                }
            },
            Type::Fn { lhs: t1, rhs: u1 } => match &self.types[r.idx] {
                Type::Fn { lhs: t2, rhs: u2 } => Action::Decompose(*t1, *u1, *t2, *u2),
                Type::Var(y) => {
                    if self.vars(l).contains(y.as_str()) {
                        Action::Occurs(y.clone(), l)
                    } else {
                        Action::Bind(y.clone(), l)
                    }
                },
                Type::GenVar(_) => Action::Mismatch,
            },
            Type::GenVar(x) => match &self.types[r.idx] {
                Type::GenVar(y) => if *x == *y {
                    Action::Discard
                } else {
                    Action::Mismatch
                },
                Type::Var(y) => Action::Bind(y.clone(), l),
                Type::Fn { .. } => Action::Mismatch,
            },
        }
    }
}

/// What the unifier does with a pair of places.
enum Action {
    Discard,
    Decompose(FlatTypeRef, FlatTypeRef, FlatTypeRef, FlatTypeRef),
    Bind(String, FlatTypeRef),
    Occurs(String, FlatTypeRef),
    Mismatch,
}


/// What the inference of a term leaves: the type of the term, the bindings that were made
/// on the way, in their order, and the number of meta-variables handed out.
pub struct Online {
    pub ty: Ty,
    pub bindings: Seq<(Name, Ty)>,
    pub next: nat,
}

/// The environment after the bindings.
pub open spec fn env_apply(env: Seq<(Name, Ty)>, bindings: Seq<(Name, Ty)>) -> Seq<(Name, Ty)> {
    env.map_values(|b: (Name, Ty)| (b.0, apply_bindings(b.1, bindings)))
}

/// The inference that unifies as it goes: the type of `t` in the environment `env`, with
/// `next` meta-variables handed out before.
///
/// The rules are those of the inference by constraints, but the equation of an application
/// is solved at once, and the bindings found are applied to the environment and to every
/// type found so far before the inference goes on. So a `let` generalises the type of what
/// it binds with every binding made so far applied, over the meta-variables that the
/// environment, with the same bindings applied, does not hold.
pub open spec fn online(t: Tm, env: Seq<(Name, Ty)>, next: nat) -> Result<Online, TyError>
    decreases t,
{
    match t {
        Tm::Variable(x) => match lookup(env, x) {
            None => Err(TyError::UnboundVariable(x)),
            Some(scheme) => Ok(
                Online {
                    ty: scheme.instantiate(next),
                    bindings: Seq::empty(),
                    next: next + scheme.gen_var_order().len(),
                },
            ),
        },
        Tm::Abstraction(x, body) => {
            let a = Ty::Variable(NameSupply::name(next));
            match online(*body, env.push((x, a)), next + 1) {
                Err(e) => Err(e),
                Ok(b) => Ok(
                    Online {
                        ty: Ty::Fn(Box::new(apply_bindings(a, b.bindings)), Box::new(b.ty)),
                        bindings: b.bindings,
                        next: b.next,
                    },
                ),
            }
        },
        Tm::Application(f, arg) => match online(*f, env, next) {
            Err(e) => Err(e),
            Ok(fun) => match online(*arg, env_apply(env, fun.bindings), fun.next) {
                Err(e) => Err(e),
                Ok(a) => {
                    let b = Ty::Variable(NameSupply::name(a.next));
                    match solve(
                        seq![
                            (
                                apply_bindings(fun.ty, a.bindings),
                                Ty::Fn(Box::new(a.ty), Box::new(b)),
                            ),
                        ],
                    ) {
                        Err(e) => Err(e),
                        Ok(found) => Ok(
                            Online {
                                ty: apply_bindings(b, found),
                                bindings: fun.bindings + a.bindings + found,
                                next: a.next + 1,
                            },
                        ),
                    }
                },
            },
        },
        Tm::Let(x, bound, body) => match online(*bound, env, next) {
            Err(e) => Err(e),
            Ok(e1) => {
                let env1 = env_apply(env, e1.bindings);
                match online(*body, env1.push((x, e1.ty.generalise(env_vars(env1)))), e1.next) {
                    Err(e) => Err(e),
                    Ok(b) => Ok(
                        Online { ty: b.ty, bindings: e1.bindings + b.bindings, next: b.next },
                    ),
                }
            },
        },
    }
}

/// The inference hands out meta-variables and takes none back.
pub proof fn lemma_online_next(t: Tm, env: Seq<(Name, Ty)>, next: nat)
    ensures
        online(t, env, next) matches Ok(o) ==> next <= o.next,
    decreases t,
{
    match t {
        Tm::Variable(_) => {},
        Tm::Abstraction(x, body) => {
            lemma_online_next(*body, env.push((x, Ty::Variable(NameSupply::name(next)))), next + 1);
        },
        Tm::Application(f, arg) => {
            lemma_online_next(*f, env, next);
            if let Ok(fun) = online(*f, env, next) {
                lemma_online_next(*arg, env_apply(env, fun.bindings), fun.next);
            }
        },
        Tm::Let(x, bound, body) => {
            lemma_online_next(*bound, env, next);
            if let Ok(e1) = online(*bound, env, next) {
                let env1 = env_apply(env, e1.bindings);
                lemma_online_next(
                    *body,
                    env1.push((x, e1.ty.generalise(env_vars(env1)))),
                    e1.next,
                );
            }
        },
    }
}

/// The type that the inference that unifies as it goes gives to `t` in `env`, or why `t`
/// has none.
pub open spec fn infer_online(t: Tm, env: Seq<(Name, Ty)>) -> Result<Ty, TyError> {
    match online(t, env, 0) {
        Ok(o) => Ok(o.ty),
        Err(e) => Err(e),
    }
}

impl FlatTypeEnvironment {
    /// Whether the arena came from `earlier` by the bindings: every place of `earlier`
    /// stands for its type with the bindings applied, and the same names are in scope.
    pub open spec fn evolves(&self, earlier: &Self, bindings: Seq<(Name, Ty)>) -> bool {
        &&& earlier.size() <= self.size()
        &&& earlier.types().len() <= self.types().len()
        &&& forall|i: int|
            0 <= i < earlier.types().len() ==> #[trigger] self.types()[i] == apply_bindings(
                earlier.types()[i],
                bindings,
            )
        &&& self.places() == earlier.places()
    }

    /// Bindings after bindings are the bindings of both.
    pub proof fn lemma_evolves(
        &self,
        mid: &Self,
        earlier: &Self,
        first: Seq<(Name, Ty)>,
        second: Seq<(Name, Ty)>,
    )
        requires
            mid.evolves(earlier, first),
            self.evolves(mid, second),
        ensures
            self.evolves(earlier, first + second),
    {
        assert forall|i: int| 0 <= i < earlier.types().len() implies #[trigger] self.types()[i]
            == apply_bindings(earlier.types()[i], first + second) by {
            lemma_apply_bindings_concat(earlier.types()[i], first, second);
            assert(mid.types()[i] == apply_bindings(earlier.types()[i], first));
        }
    }

    /// An arena that only grew has evolved by no bindings.
    pub proof fn lemma_extends_evolves(&self, earlier: &Self)
        requires
            self.extends(earlier),
        ensures
            self.evolves(earlier, Seq::empty()),
    {
    }

    /// After bindings, the names in scope have their types with the bindings applied.
    pub proof fn lemma_evolves_bindings(&self, earlier: &Self, bindings: Seq<(Name, Ty)>)
        requires
            earlier.wf(),
            self.evolves(earlier, bindings),
        ensures
            self.bindings() == env_apply(earlier.bindings(), bindings),
    {
        earlier.lemma_wf();
        assert(self.bindings() =~= env_apply(earlier.bindings(), bindings));
    }

    /// The type at a place as a flat type of its own.
    pub fn get_flat_ty(&self, place: FlatTypeRef) -> (flat: FlatType)
        requires
            self.wf(),
            place.idx < self.size(),
        ensures
            flat@ == self.type_at(place),
    {
        FlatType::from_tree(self.tree_of(place))
    }
}

/// What an inference on the arena has to return and leave for the term `t`. Whether it
/// succeeds or fails, the bindings in scope are those from before, no place is lost and no
/// meta-variable is handed out again.
pub open spec fn inferred(
    result: Result<FlatTypeRef, TypeError>,
    t: Tm,
    before: &FlatTypeEnvironment,
    after: &FlatTypeEnvironment,
) -> bool {
    &&& after.wf()
    &&& match online(t, before.bindings(), before.count()) {
        Ok(o) => {
            &&& result matches Ok(place)
            &&& place.idx < after.size()
            &&& after.type_at(place) == o.ty
            &&& after.count() == o.next
            &&& after.evolves(before, o.bindings)
        },
        Err(e) => {
            &&& result matches Err(x) && x@ == e
            &&& after.places() == before.places()
            &&& before.size() <= after.size()
            &&& before.count() <= after.count()
        },
    }
}

impl FlatTerm {
    /// The type of a function: from a fresh meta-variable for its parameter to the type of
    /// its body.
    fn type_of_abstraction(
        &self,
        node: FlatTermRef,
        var: &String,
        body: FlatTermRef,
        type_env: &mut FlatTypeEnvironment,
    ) -> (result: Result<FlatTypeRef, TypeError>)
        requires
            node.idx < self.layers().len(),
            self.layers()[node.idx as int] == (Term::<FlatTermRef>::Abs { var: *var, body }),
            body.idx < node.idx,
            old(type_env).wf(),
        ensures
            inferred(
                result,
                term_at(self.layers(), node.idx as int),
                old(type_env),
                final(type_env),
            ),
        decreases node.idx, 0nat,
    {
        let ghost whole = term_at(self.layers(), node.idx as int);
        let ghost start = *type_env;
        let t = type_env.new_var();
        let ghost varied = *type_env;
        type_env.push_binding(var.clone(), t);
        let ghost pushed = *type_env;
        proof {
            let a = Ty::Variable(NameSupply::name(start.count()));
            assert(pushed.bindings() =~= start.bindings().push((var@, a))) by {
                start.lemma_wf();
            }
        }
        let b = self.type_in(body, type_env);
        let ghost inner = *type_env;
        type_env.pop_binding();
        let b = match b {
            Ok(b) => b,
            Err(e) => {
                assert(pushed.places().drop_last() =~= start.places());
                return Err(e);
            },
        };
        let ghost popped = *type_env;
        let result = type_env.insert_type(Type::Fn { lhs: t, rhs: b });
        proof {
            let o = online(
                term_at(self.layers(), body.idx as int),
                pushed.bindings(),
                pushed.count(),
            )->Ok_0;
            assert(pushed.places().drop_last() =~= start.places());
            assert(type_env.evolves(&start, o.bindings)) by {
                assert forall|i: int| 0 <= i < start.types().len() implies #[trigger] type_env.types()[i]
                    == apply_bindings(start.types()[i], o.bindings) by {
                    assert(popped.types()[i] == inner.types()[i]);
                    assert(inner.types()[i] == apply_bindings(pushed.types()[i], o.bindings));
                    assert(pushed.types()[i] == varied.types()[i]);
                    assert(varied.types()[i] == start.types()[i]);
                }
            }
            assert(inner.types()[t.idx as int] == apply_bindings(
                pushed.types()[t.idx as int],
                o.bindings,
            ));
        }
        Ok(result)
    }

    /// The type of an application: a fresh meta-variable, after the type of the function is
    /// unified with a function type from the type of the argument to it.
    fn type_of_application(
        &self,
        node: FlatTermRef,
        lhs: FlatTermRef,
        rhs: FlatTermRef,
        type_env: &mut FlatTypeEnvironment,
    ) -> (result: Result<FlatTypeRef, TypeError>)
        requires
            node.idx < self.layers().len(),
            self.layers()[node.idx as int] == (Term::<FlatTermRef>::App { lhs, rhs }),
            lhs.idx < node.idx,
            rhs.idx < node.idx,
            old(type_env).wf(),
        ensures
            inferred(
                result,
                term_at(self.layers(), node.idx as int),
                old(type_env),
                final(type_env),
            ),
        decreases node.idx, 0nat,
    {
        let ghost start = *type_env;
        let f = match self.type_in(lhs, type_env) {
            Ok(f) => f,
            Err(e) => {
                return Err(e);
            },
        };
        let ghost first = *type_env;
        let ghost fun = online(
            term_at(self.layers(), lhs.idx as int),
            start.bindings(),
            start.count(),
        )->Ok_0;
        proof {
            first.lemma_evolves_bindings(&start, fun.bindings);
        }
        proof {
            lemma_online_next(term_at(self.layers(), lhs.idx as int), start.bindings(), start.count());
        }
        let a = match self.type_in(rhs, type_env) {
            Ok(a) => a,
            Err(e) => {
                return Err(e);
            },
        };
        let ghost second = *type_env;
        let ghost arg = online(
            term_at(self.layers(), rhs.idx as int),
            first.bindings(),
            first.count(),
        )->Ok_0;
        proof {
            first.lemma_wf();
            second.lemma_evolves(&first, &start, fun.bindings, arg.bindings);
            assert(second.type_at(f) == apply_bindings(fun.ty, arg.bindings));
        }
        proof {
            lemma_online_next(term_at(self.layers(), rhs.idx as int), first.bindings(), first.count());
        }
        let b = type_env.new_var();
        let ghost third = *type_env;
        let f_ = type_env.insert_type(Type::Fn { lhs: a, rhs: b });
        let ghost fourth = *type_env;
        proof {
            third.lemma_extends(&third, &second);
            fourth.lemma_extends(&third, &second);
            fourth.lemma_extends_evolves(&second);
            fourth.lemma_evolves(&second, &start, fun.bindings + arg.bindings, Seq::empty());
            assert(fun.bindings + arg.bindings + Seq::<(Name, Ty)>::empty() =~= fun.bindings
                + arg.bindings);
            second.lemma_wf();
            assert(fourth.type_at(f) == second.type_at(f));
            assert(fourth.type_at(a) == second.type_at(a));
            assert(fourth.type_at(b) == Ty::Variable(NameSupply::name(arg.next)));
        }
        match type_env.unify(f, f_) {
            Ok(()) => {},
            Err(e) => {
                return Err(e);
            },
        }
        proof {
            let found = solve(seq![(fourth.type_at(f), fourth.type_at(f_))])->Ok_0;
            assert(type_env.evolves(&fourth, found)) by {
                fourth.lemma_wf();
            }
            type_env.lemma_evolves(&fourth, &start, fun.bindings + arg.bindings, found);
            fourth.lemma_wf();
            assert(type_env.type_at(b) == apply_bindings(fourth.type_at(b), found));
        }
        Ok(b)
    }

    /// The type of a `let`: that of its body, with the name bound to the generalised type
    /// of what it binds.
    fn type_of_let(
        &self,
        node: FlatTermRef,
        var: &String,
        expr: FlatTermRef,
        body: FlatTermRef,
        type_env: &mut FlatTypeEnvironment,
    ) -> (result: Result<FlatTypeRef, TypeError>)
        requires
            node.idx < self.layers().len(),
            self.layers()[node.idx as int] == (Term::<FlatTermRef>::Let { var: *var, expr, body }),
            expr.idx < node.idx,
            body.idx < node.idx,
            old(type_env).wf(),
        ensures
            inferred(
                result,
                term_at(self.layers(), node.idx as int),
                old(type_env),
                final(type_env),
            ),
        decreases node.idx, 0nat,
    {
        let ghost start = *type_env;
        let ex_ty = match self.type_in(expr, type_env) {
            Ok(ty) => ty,
            Err(e) => {
                return Err(e);
            },
        };
        let ghost first = *type_env;
        let ghost e1 = online(
            term_at(self.layers(), expr.idx as int),
            start.bindings(),
            start.count(),
        )->Ok_0;
        proof {
            first.lemma_evolves_bindings(&start, e1.bindings);
            lemma_online_next(
                term_at(self.layers(), expr.idx as int),
                start.bindings(),
                start.count(),
            );
        }
        let scheme = type_env.generalise(ex_ty);
        let ghost second = *type_env;
        type_env.push_binding(var.clone(), scheme);
        let ghost pushed = *type_env;
        proof {
            first.lemma_wf();
            second.lemma_wf();
            assert(second.bindings() =~= first.bindings()) by {
                assert forall|k: int| 0 <= k < first.places().len() implies second.type_at(
                    first.places()[k].1,
                ) == first.type_at(first.places()[k].1) by {
                    second.lemma_extends_type_at(&first, first.places()[k].1);
                }
            }
            assert(pushed.bindings() =~= first.bindings().push((var@, second.type_at(scheme))));
        }
        let body_ty = self.type_in(body, type_env);
        let ghost inner = *type_env;
        type_env.pop_binding();
        proof {
            assert(pushed.places().drop_last() =~= start.places());
            if body_ty is Ok {
                let o = online(
                    term_at(self.layers(), body.idx as int),
                    pushed.bindings(),
                    pushed.count(),
                )->Ok_0;
                assert(pushed.places().drop_last() =~= start.places());
                second.lemma_extends_evolves(&first);
                second.lemma_evolves(&first, &start, e1.bindings, Seq::empty());
                assert(e1.bindings + Seq::<(Name, Ty)>::empty() =~= e1.bindings);
                assert(type_env.evolves(&second, o.bindings)) by {
                    assert forall|i: int|
                        0 <= i < second.types().len() implies #[trigger] type_env.types()[i]
                        == apply_bindings(second.types()[i], o.bindings) by {
                        assert(inner.types()[i] == apply_bindings(pushed.types()[i], o.bindings));
                    }
                }
                type_env.lemma_evolves(&second, &start, e1.bindings, o.bindings);
            }
        }
        body_ty
    }

    /// Infers the type of the term at `node` in the environment, unifying as it goes: the
    /// place of the type in the arena, or why the term has none.
    pub fn type_in(&self, node: FlatTermRef, type_env: &mut FlatTypeEnvironment) -> (result: Result<
        FlatTypeRef,
        TypeError,
    >)
        requires
            node.idx < self.layers().len(),
            old(type_env).wf(),
        ensures
            inferred(
                result,
                term_at(self.layers(), node.idx as int),
                old(type_env),
                final(type_env),
            ),
        decreases node.idx, 1nat,
    {
        match self.node(node) {
            Term::Var(x) => {
                let ghost start = *type_env;
                match type_env.instantiate(x) {
                    Some(place) => {
                        proof {
                            type_env.lemma_extends_evolves(&start);
                        }
                        Ok(place)
                    },
                    None => Err(TypeError::UnboundVariable(x.clone())),
                }
            },
            Term::Abs { var, body } => self.type_of_abstraction(node, var, *body, type_env),
            Term::App { lhs, rhs } => self.type_of_application(node, *lhs, *rhs, type_env),
            Term::Let { var, expr, body } => self.type_of_let(node, var, *expr, *body, type_env),
        }
    }

    /// The type of the term in the empty environment as a flat type, or why the term has
    /// none.
    pub fn type_closed(&self) -> (result: Result<FlatType, TypeError>)
        ensures
            match infer_online(self@, Seq::empty()) {
                Ok(ty) => result matches Ok(flat) && flat@ == ty,
                Err(e) => result matches Err(x) && x@ == e,
            },
    {
        let mut env = FlatTypeEnvironment::new();
        assert(env.bindings() =~= Seq::<(Name, Ty)>::empty());
        let root = self.root();
        match self.type_in(root, &mut env) {
            Ok(place) => Ok(env.get_flat_ty(place)),
            Err(e) => Err(e),
        }
    }
}

} // verus!
