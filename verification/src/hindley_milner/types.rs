//! Types of the Hindley-Milner system and the operations that rewrite them.
use vstd::prelude::*;

use crate::names::{Name, NameSet, NameSupply};
use vstd::std_specs::cmp::PartialEqSpecImpl;

verus! {

/// The mathematical value of a type.
pub enum Ty {
    /// A meta-variable, which unification may solve.
    Variable(Name),
    /// A variable bound by the implicit quantifier of a type scheme.
    GenVariable(Name),
    /// A function type: domain and codomain.
    Fn(Box<Ty>, Box<Ty>),
}

impl Ty {
    /// The number of nodes.
    pub open spec fn size(self) -> nat
        decreases self,
    {
        match self {
            Ty::Variable(_) => 1,
            Ty::GenVariable(_) => 1,
            Ty::Fn(t, u) => 1 + t.size() + u.size(),
        }
    }

    /// The names of the meta-variables.
    pub open spec fn vars(self) -> Set<Name>
        decreases self,
    {
        match self {
            Ty::Variable(v) => set![v],
            Ty::GenVariable(_) => Set::empty(),
            Ty::Fn(t, u) => t.vars().union(u.vars()),
        }
    }

    /// The names of the schema-bound variables.
    pub open spec fn gen_vars(self) -> Set<Name>
        decreases self,
    {
        match self {
            Ty::Variable(_) => Set::empty(),
            Ty::GenVariable(v) => set![v],
            Ty::Fn(t, u) => t.gen_vars().union(u.gen_vars()),
        }
    }

    /// `seen` followed by the schema-bound variables that are not in it, each once, in the
    /// order of their first occurrence from left to right.
    pub open spec fn gen_vars_after(self, seen: Seq<Name>) -> Seq<Name>
        decreases self,
    {
        match self {
            Ty::Variable(_) => seen,
            Ty::GenVariable(v) => if seen.contains(v) {
                seen
            } else {
                seen.push(v)
            },
            Ty::Fn(t, u) => u.gen_vars_after(t.gen_vars_after(seen)),
        }
    }

    /// The schema-bound variables, each once, in the order of their first occurrence.
    pub open spec fn gen_var_order(self) -> Seq<Name> {
        self.gen_vars_after(Seq::empty())
    }

    /// Replaces every meta-variable that `mapping` binds; schema-bound variables stay.
    pub open spec fn subst(self, mapping: Map<Name, Ty>) -> Ty
        decreases self,
    {
        match self {
            Ty::Variable(v) => if mapping.contains_key(v) {
                mapping[v]
            } else {
                self
            },
            Ty::GenVariable(_) => self,
            Ty::Fn(t, u) => Ty::Fn(Box::new(t.subst(mapping)), Box::new(u.subst(mapping))),
        }
    }

    /// Replaces the one meta-variable `var` by `ty`.
    pub open spec fn bind(self, var: Name, ty: Ty) -> Ty {
        self.subst(Map::<Name, Ty>::empty().insert(var, ty))
    }

    /// Replaces every schema-bound variable that `mapping` binds; meta-variables stay.
    pub open spec fn gen_subst(self, mapping: Map<Name, Ty>) -> Ty
        decreases self,
    {
        match self {
            Ty::Variable(_) => self,
            Ty::GenVariable(v) => if mapping.contains_key(v) {
                mapping[v]
            } else {
                self
            },
            Ty::Fn(t, u) => Ty::Fn(Box::new(t.gen_subst(mapping)), Box::new(u.gen_subst(mapping))),
        }
    }

    /// Turns every meta-variable that is not in `free` into a schema-bound variable.
    pub open spec fn generalise(self, free: Set<Name>) -> Ty
        decreases self,
    {
        match self {
            Ty::Variable(v) => if free.contains(v) {
                self
            } else {
                Ty::GenVariable(v)
            },
            Ty::GenVariable(_) => self,
            Ty::Fn(t, u) => Ty::Fn(Box::new(t.generalise(free)), Box::new(u.generalise(free))),
        }
    }

    /// The mapping that sends the `i`-th name of `order` to the meta-variable
    /// with number `first + i` of the name supply.
    pub open spec fn fresh_mapping(order: Seq<Name>, first: nat) -> Map<Name, Ty> {
        Map::new(
            |v: Name| order.contains(v),
            |v: Name| Ty::Variable(NameSupply::name(first + order.index_of(v) as nat)),
        )
    }

    /// The scheme with each schema-bound variable replaced by a meta-variable of
    /// its own, numbered from `first` on.
    pub open spec fn instantiate(self, first: nat) -> Ty {
        self.gen_subst(Self::fresh_mapping(self.gen_var_order(), first))
    }
}

/// A type lies strictly inside a function type that holds it.
pub proof fn lemma_size_positive(ty: Ty)
    ensures
        ty.size() >= 1,
    decreases ty,
{
    match ty {
        Ty::Fn(t, u) => {
            lemma_size_positive(*t);
            lemma_size_positive(*u);
        },
        _ => {},
    }
}

/// A type has finitely many variables of either kind.
pub proof fn lemma_vars_finite(ty: Ty)
    ensures
        ty.vars().finite(),
        ty.gen_vars().finite(),
    decreases ty,
{
    match ty {
        Ty::Fn(t, u) => {
            lemma_vars_finite(*t);
            lemma_vars_finite(*u);
        },
        _ => {},
    }
}

/// The ordered schema-bound variables are `seen` and the schema-bound variables, without
/// repetition if `seen` has none.
pub proof fn lemma_gen_vars_after(ty: Ty, seen: Seq<Name>)
    ensures
        ty.gen_vars_after(seen).to_set() == seen.to_set().union(ty.gen_vars()),
        seen.no_duplicates() ==> ty.gen_vars_after(seen).no_duplicates(),
        seen.len() <= ty.gen_vars_after(seen).len(),
        ty.gen_vars_after(seen).take(seen.len() as int) == seen,
    decreases ty,
{
    let after = ty.gen_vars_after(seen);
    match ty {
        Ty::Variable(_) => {
            assert(after.to_set() =~= seen.to_set().union(ty.gen_vars()));
            assert(after.take(seen.len() as int) =~= seen);
        },
        Ty::GenVariable(v) => {
            if seen.contains(v) {
                assert(after.to_set() =~= seen.to_set().union(ty.gen_vars()));
                assert(after.take(seen.len() as int) =~= seen);
            } else {
                assert(after =~= seen.push(v));
                assert(after.to_set() =~= seen.to_set().union(ty.gen_vars())) by {
                    assert forall|n: Name| after.to_set().contains(n) <==> seen.to_set().union(
                        ty.gen_vars(),
                    ).contains(n) by {
                        if after.to_set().contains(n) {
                            let k = choose|k: int| 0 <= k < after.len() && after[k] == n;
                            if k < seen.len() {
                                assert(seen[k] == n);
                            }
                        }
                        if seen.to_set().contains(n) {
                            let k = choose|k: int| 0 <= k < seen.len() && seen[k] == n;
                            assert(after[k] == n);
                        }
                        if n == v {
                            assert(after[seen.len() as int] == n);
                        }
                    }
                }
                assert(after.take(seen.len() as int) =~= seen);
            }
        },
        Ty::Fn(t, u) => {
            let mid = t.gen_vars_after(seen);
            lemma_gen_vars_after(*t, seen);
            lemma_gen_vars_after(*u, mid);
            assert(after.to_set() =~= seen.to_set().union(ty.gen_vars()));
            assert(after.take(seen.len() as int) =~= after.take(mid.len() as int).take(
                seen.len() as int,
            ));
        },
    }
}

/// A type of the Hindley-Milner system.
#[derive(Debug)]
pub enum Type {
    /// A meta-variable, which unification may solve.
    Variable(String),
    /// A variable bound by the implicit quantifier of a type scheme.
    GenVariable(String),
    /// A function type: domain and codomain.
    Fn(Box<Type>, Box<Type>),
}

impl Type {
    /// The mathematical value of the type.
    pub open spec fn model(&self) -> Ty
        decreases self,
    {
        match self {
            Type::Variable(v) => Ty::Variable(v@),
            Type::GenVariable(v) => Ty::GenVariable(v@),
            Type::Fn(t, u) => Ty::Fn(Box::new(t.model()), Box::new(u.model())),
        }
    }
}

impl View for Type {
    type V = Ty;

    open spec fn view(&self) -> Ty {
        self.model()
    }
}

impl Clone for Type {
    fn clone(&self) -> (copy: Self)
        ensures
            copy == *self,
        decreases self,
    {
        match self {
            Type::Variable(v) => Type::Variable(v.clone()),
            Type::GenVariable(v) => Type::GenVariable(v.clone()),
            Type::Fn(t, u) => Type::Fn(Box::new((**t).clone()), Box::new((**u).clone())),
        }
    }
}

impl PartialEq for Type {
    fn eq(&self, other: &Self) -> (equal: bool)
        decreases self,
    {
        match self {
            Type::Variable(a) => match other {
                Type::Variable(b) => *a == *b,
                _ => false,
            },
            Type::GenVariable(a) => match other {
                Type::GenVariable(b) => *a == *b,
                _ => false,
            },
            Type::Fn(t1, u1) => match other {
                Type::Fn(t2, u2) => {
                    let left = (**t1).eq(&**t2);
                    let right = (**u1).eq(&**u2);
                    assert(left == (t1.model() == t2.model()));
                    assert(right == (u1.model() == u2.model()));
                    left && right
                },
                _ => false,
            },
        }
    }
}

impl PartialEqSpecImpl for Type {
    open spec fn obeys_eq_spec() -> bool {
        true
    }

    open spec fn eq_spec(&self, other: &Self) -> bool {
        self@ == other@
    }
}

impl Eq for Type {

}


/// The mapping that a sequence of bindings denotes: a later binding of a name replaces an
/// earlier one.
pub open spec fn entries_map(entries: Seq<(String, Type)>) -> Map<Name, Ty>
    decreases entries.len(),
{
    if entries.len() == 0 {
        Map::empty()
    } else {
        entries_map(entries.drop_last()).insert(entries.last().0@, entries.last().1@)
    }
}

/// A finite mapping from the names of meta-variables to types.
#[derive(Debug)]
pub struct Substitution {
    entries: Vec<(String, Type)>,
}

impl View for Substitution {
    type V = Map<Name, Ty>;

    closed spec fn view(&self) -> Map<Name, Ty> {
        entries_map(self.entries@)
    }
}

impl Substitution {
    /// The substitution that binds nothing.
    pub fn new() -> (s: Self)
        ensures
            s@ == Map::<Name, Ty>::empty(),
    {
        Substitution { entries: Vec::new() }
    }

    /// Whether nothing is bound.
    pub fn is_empty(&self) -> (b: bool)
        ensures
            b == (self@ == Map::<Name, Ty>::empty()),
    {
        proof {
            if self.entries@.len() > 0 {
                assert(self@.contains_key(self.entries@.last().0@));
            }
        }
        self.entries.len() == 0
    }

    /// Binds `var` to `ty`, in place of what it was bound to.
    pub fn insert(&mut self, var: String, ty: Type)
        ensures
            final(self)@ == old(self)@.insert(var@, ty@),
    {
        let ghost before = self.entries@;
        self.entries.push((var, ty));
        assert(self.entries@.drop_last() =~= before);
    }

    /// What `var` is bound to: the latest binding of the name, if there is one.
    fn lookup(&self, var: &String) -> (found: Option<&Type>)
        ensures
            match found {
                Some(ty) => self@.contains_key(var@) && ty@ == self@[var@],
                None => !self@.contains_key(var@),
            },
    {
        let mut i: usize = self.entries.len();
        assert(self.entries@.take(i as int) =~= self.entries@);
        while i > 0
            invariant
                i <= self.entries.len(),
                self@.contains_key(var@) == entries_map(self.entries@.take(i as int)).contains_key(
                    var@,
                ),
                self@.contains_key(var@) ==> self@[var@] == entries_map(
                    self.entries@.take(i as int),
                )[var@],
            decreases i,
        {
            i = i - 1;
            assert(self.entries@.take(i + 1).drop_last() =~= self.entries@.take(i as int));
            if self.entries[i].0 == *var {
                return Some(&self.entries[i].1);
            }
        }
        None
    }

    /// What `var` is bound to, if it is bound.
    pub fn get(&self, var: &str) -> (found: Option<&Type>)
        ensures
            match found {
                Some(ty) => self@.contains_key(var@) && ty@ == self@[var@],
                None => !self@.contains_key(var@),
            },
    {
        let wanted = String::from_str(var);
        self.lookup(&wanted)
    }

    /// Whether `var` is bound.
    pub fn contains_key(&self, var: &str) -> (found: bool)
        ensures
            found == self@.contains_key(var@),
    {
        self.get(var).is_some()
    }

    /// The names that are bound.
    pub fn keys(&self) -> (names: NameSet)
        ensures
            names@ == self@.dom(),
    {
        let mut names = NameSet::new();
        let mut i: usize = 0;
        while i < self.entries.len()
            invariant
                i <= self.entries.len(),
                names@ == entries_map(self.entries@.take(i as int)).dom(),
            decreases self.entries.len() - i,
        {
            names.insert(self.entries[i].0.clone());
            proof {
                assert(self.entries@.take(i + 1).drop_last() =~= self.entries@.take(i as int));
                assert(names@ =~= entries_map(self.entries@.take(i + 1)).dom());
            }
            i = i + 1;
        }
        assert(self.entries@.take(self.entries@.len() as int) =~= self.entries@);
        names
    }

    /// Replaces the meta-variable `var` by `ty` in every type that is bound to a name.
    pub fn bind_values(&mut self, var: &str, ty: &Type)
        ensures
            final(self)@ == old(self)@.map_values(|bound: Ty| bound.bind(var@, ty@)),
    {
        let mut single = Substitution::new();
        single.insert(String::from_str(var), ty.clone());
        let ghost f = |bound: Ty| bound.bind(var@, ty@);
        let mut entries: Vec<(String, Type)> = Vec::new();
        let mut i: usize = 0;
        while i < self.entries.len()
            invariant
                i <= self.entries.len(),
                single@ == Map::<Name, Ty>::empty().insert(var@, ty@),
                f == |bound: Ty| bound.bind(var@, ty@),
                entries@.len() == i,
                entries_map(entries@) == entries_map(self.entries@.take(i as int)).map_values(f),
            decreases self.entries.len() - i,
        {
            let ghost before = entries@;
            let bound = self.entries[i].1.substitute(&single);
            entries.push((self.entries[i].0.clone(), bound));
            proof {
                assert(entries@.drop_last() =~= before);
                assert(self.entries@.take(i + 1).drop_last() =~= self.entries@.take(i as int));
                let m = entries_map(self.entries@.take(i as int));
                let k = self.entries@[i as int].0@;
                let v = self.entries@[i as int].1@;
                assert(m.insert(k, v).map_values(f) =~= m.map_values(f).insert(k, f(v)));
            }
            i = i + 1;
        }
        assert(self.entries@.take(self.entries@.len() as int) =~= self.entries@);
        self.entries = entries;
    }
}


impl Clone for Substitution {
    /// A substitution with the same bindings.
    fn clone(&self) -> (copy: Self)
        ensures
            copy@ == self@,
    {
        let mut entries: Vec<(String, Type)> = Vec::new();
        let mut i: usize = 0;
        while i < self.entries.len()
            invariant
                i <= self.entries.len(),
                entries@ == self.entries@.take(i as int),
            decreases self.entries.len() - i,
        {
            entries.push((self.entries[i].0.clone(), self.entries[i].1.clone()));
            assert(entries@ =~= self.entries@.take(i + 1));
            i = i + 1;
        }
        assert(self.entries@.take(self.entries@.len() as int) =~= self.entries@);
        Substitution { entries }
    }
}

impl Type {
    /// Replaces every meta-variable that `mapping` binds by what it is bound to.
    pub fn substitute(&self, mapping: &Substitution) -> (result: Self)
        ensures
            result@ == self@.subst(mapping@),
        decreases self,
    {
        match self {
            Type::Variable(v) => match mapping.lookup(v) {
                Some(t) => t.clone(),
                None => self.clone(),
            },
            Type::GenVariable(_) => self.clone(),
            Type::Fn(t, u) => Type::Fn(
                Box::new(t.substitute(mapping)),
                Box::new(u.substitute(mapping)),
            ),
        }
    }

    /// Replaces every schema-bound variable that `mapping` binds by what it is bound to.
    pub fn gen_substitute(&self, mapping: &Substitution) -> (result: Self)
        ensures
            result@ == self@.gen_subst(mapping@),
        decreases self,
    {
        match self {
            Type::GenVariable(v) => match mapping.lookup(v) {
                Some(t) => t.clone(),
                None => self.clone(),
            },
            Type::Variable(_) => self.clone(),
            Type::Fn(t, u) => Type::Fn(
                Box::new(t.gen_substitute(mapping)),
                Box::new(u.gen_substitute(mapping)),
            ),
        }
    }

    /// Adds the meta-variables of the type to `names`.
    pub fn collect_vars(&self, names: &mut NameSet)
        ensures
            final(names)@ == old(names)@.union(self@.vars()),
        decreases self,
    {
        match self {
            Type::Variable(v) => {
                names.insert(v.clone());
                assert(names@ =~= old(names)@.union(self@.vars()));
            },
            Type::GenVariable(_) => {
                assert(names@ =~= old(names)@.union(self@.vars()));
            },
            Type::Fn(t, u) => {
                t.collect_vars(names);
                u.collect_vars(names);
                assert(names@ =~= old(names)@.union(self@.vars()));
            },
        }
    }

    /// The names of the meta-variables of the type.
    pub fn vars(&self) -> (names: NameSet)
        ensures
            names@ == self@.vars(),
    {
        let mut names = NameSet::new();
        self.collect_vars(&mut names);
        assert(names@ =~= self@.vars());
        names
    }

    /// Adds the schema-bound variables of the type to `names`, in the order of their first
    /// occurrence.
    pub fn collect_gen_vars(&self, names: &mut NameSet)
        ensures
            final(names).order() == self@.gen_vars_after(old(names).order()),
            final(names)@ == old(names)@.union(self@.gen_vars()),
        decreases self,
    {
        proof {
            names.lemma_order();
            lemma_gen_vars_after(self@, names.order());
        }
        match self {
            Type::GenVariable(v) => {
                names.insert(v.clone());
                proof {
                    names.lemma_order();
                }
            },
            Type::Variable(_) => {},
            Type::Fn(t, u) => {
                t.collect_gen_vars(names);
                u.collect_gen_vars(names);
                proof {
                    names.lemma_order();
                }
            },
        }
    }

    /// The names of the schema-bound variables of the type, in the order of their first
    /// occurrence.
    pub fn gen_vars(&self) -> (names: NameSet)
        ensures
            names@ == self@.gen_vars(),
            names.order() == self@.gen_var_order(),
    {
        let mut names = NameSet::new();
        self.collect_gen_vars(&mut names);
        assert(names@ =~= self@.gen_vars());
        names
    }

    /// Whether the meta-variable `var` occurs in the type.
    pub fn contains_var(&self, var: &str) -> (found: bool)
        ensures
            found == self@.vars().contains(var@),
    {
        let wanted = String::from_str(var);
        self.holds_var(&wanted)
    }

    /// Whether the meta-variable `var` occurs in the type.
    fn holds_var(&self, var: &String) -> (found: bool)
        ensures
            found == self@.vars().contains(var@),
        decreases self,
    {
        match self {
            Type::Variable(v) => *v == *var,
            Type::GenVariable(_) => false,
            Type::Fn(t, u) => t.holds_var(var) || u.holds_var(var),
        }
    }

    /// Replaces each schema-bound variable by a meta-variable of its own, taken from `supply`
    /// in the order in which the schema-bound variables first occur.
    pub fn instantiate(&self, supply: &mut NameSupply) -> (result: Self)
        ensures
            result@ == self@.instantiate(old(supply).count()),
            final(supply).count() == old(supply).count() + self@.gen_var_order().len(),
    {
        let generic = self.gen_vars();
        let ghost order = self@.gen_var_order();
        let ghost first = supply.count();
        let mut mapping = Substitution::new();
        let n = generic.len();
        let mut i: usize = 0;
        proof {
            lemma_gen_vars_after(self@, Seq::empty());
            assert(order.take(0) =~= Seq::<Name>::empty());
            assert(mapping@ =~= Ty::fresh_mapping(order.take(0), first));
        }
        while i < n
            invariant
                i <= n,
                n == order.len(),
                order == generic.order(),
                order.no_duplicates(),
                supply.count() == first + i,
                mapping@ == Ty::fresh_mapping(order.take(i as int), first),
            decreases n - i,
        {
            let fresh = Type::Variable(supply.fresh());
            mapping.insert(generic.get(i).clone(), fresh);
            proof {
                let head = order.take(i as int);
                let next = order.take(i + 1);
                assert(next =~= head.push(order[i as int]));
                assert(next.index_of(order[i as int]) == i as int) by {
                    assert(next[i as int] == order[i as int]);
                    assert(next.no_duplicates());
                    let k = next.index_of(order[i as int]);
                    assert(next.contains(order[i as int]));
                }
                assert forall|v: Name| head.contains(v) implies next.index_of(v) == head.index_of(
                    v,
                ) by {
                    let a = head.index_of(v);
                    assert(next[a] == v);
                    assert(next.contains(v));
                    let b = next.index_of(v);
                    assert(next.no_duplicates());
                }
                assert(mapping@ =~= Ty::fresh_mapping(next, first)) by {
                    assert forall|v: Name| next.contains(v) <==> (head.contains(v) || v
                        == order[i as int]) by {
                        if next.contains(v) {
                            let k = choose|k: int| 0 <= k < next.len() && next[k] == v;
                            if k < i {
                                assert(head[k] == v);
                            }
                        }
                        if head.contains(v) {
                            let k = choose|k: int| 0 <= k < head.len() && head[k] == v;
                            assert(next[k] == v);
                        }
                        if v == order[i as int] {
                            assert(next[i as int] == v);
                        }
                    }
                }
            }
            i = i + 1;
        }
        assert(order.take(order.len() as int) =~= order);
        self.gen_substitute(&mapping)
    }

    /// Turns every meta-variable that is not in `free_vars` into a schema-bound variable.
    pub fn generalise(&self, free_vars: &NameSet) -> (result: Self)
        ensures
            result@ == self@.generalise(free_vars@),
        decreases self,
    {
        match self {
            Type::Variable(v) => if free_vars.contains(v.as_str()) {
                self.clone()
            } else {
                Type::GenVariable(v.clone())
            },
            Type::Fn(t, u) => Type::Fn(
                Box::new(t.generalise(free_vars)),
                Box::new(u.generalise(free_vars)),
            ),
            Type::GenVariable(_) => self.clone(),
        }
    }
}

} // verus!
