//! Terms of the lambda calculus with `let`, renaming, alpha-equivalence and substitution.
use vstd::prelude::*;

use crate::fresh_var;
use crate::names::{fresh_name, names_after, names_without, Name, NameSet};
use vstd::std_specs::cmp::PartialEqSpecImpl;

verus! {

/// The mathematical value of a term.
pub enum Tm {
    /// An occurrence of a name.
    Variable(Name),
    /// A function: the bound name and the body.
    Abstraction(Name, Box<Tm>),
    /// A function applied to an argument.
    Application(Box<Tm>, Box<Tm>),
    /// A local definition: the bound name, what it is bound to, and the body.
    Let(Name, Box<Tm>, Box<Tm>),
}

impl Tm {
    /// The number of nodes.
    pub open spec fn size(self) -> nat
        decreases self,
    {
        match self {
            Tm::Variable(_) => 1,
            Tm::Abstraction(_, t) => 1 + t.size(),
            Tm::Application(t, u) => 1 + t.size() + u.size(),
            Tm::Let(_, b, t) => 1 + b.size() + t.size(),
        }
    }

    /// Every name in the term, bound or free, binders included.
    pub open spec fn vars(self) -> Set<Name>
        decreases self,
    {
        match self {
            Tm::Variable(v) => set![v],
            Tm::Abstraction(v, t) => t.vars().insert(v),
            Tm::Application(t, u) => t.vars().union(u.vars()),
            Tm::Let(v, b, t) => t.vars().union(b.vars()).insert(v),
        }
    }

    /// The names that occur free.
    pub open spec fn free_vars(self) -> Set<Name>
        decreases self,
    {
        match self {
            Tm::Variable(v) => set![v],
            Tm::Abstraction(v, t) => t.free_vars().remove(v),
            Tm::Application(t, u) => t.free_vars().union(u.free_vars()),
            Tm::Let(v, b, t) => t.free_vars().remove(v).union(b.free_vars()),
        }
    }

    /// The names that occur free, each once, in the order in which a walk over the term
    /// finds them: the body of a binder before what a `let` binds, a function before its
    /// argument.
    pub open spec fn free_order(self) -> Seq<Name>
        decreases self,
    {
        match self {
            Tm::Variable(v) => seq![v],
            Tm::Abstraction(v, t) => names_without(t.free_order(), v),
            Tm::Application(t, u) => names_after(t.free_order(), u.free_order()),
            Tm::Let(v, b, t) => names_after(names_without(t.free_order(), v), b.free_order()),
        }
    }

    /// The names that a binder of the term binds.
    pub open spec fn bound_vars(self) -> Set<Name>
        decreases self,
    {
        match self {
            Tm::Variable(_) => Set::empty(),
            Tm::Abstraction(v, t) => t.bound_vars().insert(v),
            Tm::Application(t, u) => t.bound_vars().union(u.bound_vars()),
            Tm::Let(v, b, t) => t.bound_vars().union(b.bound_vars()).insert(v),
        }
    }

    /// Writes `to` for the name `from` wherever it stands, binders included.
    pub open spec fn rename(self, from: Name, to: Name) -> Tm
        decreases self,
    {
        match self {
            Tm::Variable(v) => Tm::Variable(
                if v == from {
                    to
                } else {
                    v
                },
            ),
            Tm::Abstraction(v, t) => Tm::Abstraction(
                if v == from {
                    to
                } else {
                    v
                },
                Box::new(t.rename(from, to)),
            ),
            Tm::Application(t, u) => Tm::Application(
                Box::new(t.rename(from, to)),
                Box::new(u.rename(from, to)),
            ),
            Tm::Let(v, b, t) => Tm::Let(
                if v == from {
                    to
                } else {
                    v
                },
                Box::new(b.rename(from, to)),
                Box::new(t.rename(from, to)),
            ),
        }
    }

    /// Equality up to the names of the binders: both bound names are replaced by one name
    /// that neither term holds before the bodies are compared.
    pub open spec fn alpha_eq(self, other: Tm) -> bool
        decreases self.size(),
    {
        match (self, other) {
            (Tm::Variable(x), Tm::Variable(y)) => x == y,
            (Tm::Abstraction(x, t), Tm::Abstraction(y, u)) => {
                let w = fresh_name(self.vars().union(other.vars()));
                proof {
                    lemma_rename_size(*t, x, w);
                }
                t.rename(x, w).alpha_eq(u.rename(y, w))
            },
            (Tm::Application(t1, u1), Tm::Application(t2, u2)) => t1.alpha_eq(*t2) && u1.alpha_eq(
                *u2,
            ),
            (Tm::Let(x, b1, t), Tm::Let(y, b2, u)) => {
                let w = fresh_name(self.vars().union(other.vars()));
                proof {
                    lemma_rename_size(*t, x, w);
                }
                b1.alpha_eq(*b2) && t.rename(x, w).alpha_eq(u.rename(y, w))
            },
            _ => false,
        }
    }

    /// The name that replaces a binder of `self` when `to` is substituted for `from`.
    pub open spec fn binder_for(self, from: Name, to: Tm) -> Name {
        fresh_name(self.vars().union(to.vars()).insert(from))
    }

    /// The term with `to` in place of every free occurrence of `from`. A binder of `from`
    /// ends the replacement in its scope, which for a `let` is the body and not what it
    /// binds; every other binder on the way is first renamed to a name that occurs nowhere
    /// in the term, in `to` or as `from`.
    pub open spec fn subst(self, from: Name, to: Tm) -> Tm
        decreases self.size(),
    {
        match self {
            Tm::Variable(v) => if v == from {
                to
            } else {
                self
            },
            Tm::Abstraction(v, t) => if v == from {
                self
            } else {
                let w = self.binder_for(from, to);
                proof {
                    lemma_rename_size(*t, v, w);
                }
                Tm::Abstraction(w, Box::new(t.rename(v, w).subst(from, to)))
            },
            Tm::Application(t, u) => Tm::Application(
                Box::new(t.subst(from, to)),
                Box::new(u.subst(from, to)),
            ),
            Tm::Let(v, b, t) => if v == from {
                Tm::Let(v, Box::new(b.subst(from, to)), t)
            } else {
                let w = self.binder_for(from, to);
                proof {
                    lemma_rename_size(*t, v, w);
                }
                Tm::Let(w, Box::new(b.subst(from, to)), Box::new(t.rename(v, w).subst(from, to)))
            },
        }
    }
}

/// Renaming keeps the shape of a term.
pub proof fn lemma_rename_size(t: Tm, from: Name, to: Name)
    ensures
        t.rename(from, to).size() == t.size(),
    decreases t,
{
    match t {
        Tm::Variable(_) => {},
        Tm::Abstraction(_, b) => {
            lemma_rename_size(*b, from, to);
        },
        Tm::Application(f, a) => {
            lemma_rename_size(*f, from, to);
            lemma_rename_size(*a, from, to);
        },
        Tm::Let(_, b, o) => {
            lemma_rename_size(*b, from, to);
            lemma_rename_size(*o, from, to);
        },
    }
}

/// A term holds finitely many names, and its free and bound names are among them.
pub proof fn lemma_term_vars(t: Tm)
    ensures
        t.vars().finite(),
        t.free_vars().subset_of(t.vars()),
        t.bound_vars().subset_of(t.vars()),
    decreases t,
{
    match t {
        Tm::Variable(_) => {},
        Tm::Abstraction(_, b) => {
            lemma_term_vars(*b);
        },
        Tm::Application(f, a) => {
            lemma_term_vars(*f);
            lemma_term_vars(*a);
        },
        Tm::Let(_, b, o) => {
            lemma_term_vars(*b);
            lemma_term_vars(*o);
        },
    }
}


/// A term of the lambda calculus with `let`.
#[derive(Debug)]
pub enum Term {
    /// An occurrence of a name.
    Variable(String),
    /// A function: the bound name and the body.
    Abstraction(String, Box<Term>),
    /// A function applied to an argument.
    Application(Box<Term>, Box<Term>),
    /// A local definition: the bound name, what it is bound to, and the body.
    Let(String, Box<Term>, Box<Term>),
}

impl View for Term {
    type V = Tm;

    open spec fn view(&self) -> Tm {
        self.model()
    }
}

impl Clone for Term {
    fn clone(&self) -> (copy: Self)
        ensures
            copy == *self,
        decreases self,
    {
        match self {
            Term::Variable(v) => Term::Variable(v.clone()),
            Term::Abstraction(v, t) => Term::Abstraction(v.clone(), Box::new((**t).clone())),
            Term::Application(t, u) => Term::Application(
                Box::new((**t).clone()),
                Box::new((**u).clone()),
            ),
            Term::Let(v, b, t) => Term::Let(
                v.clone(),
                Box::new((**b).clone()),
                Box::new((**t).clone()),
            ),
        }
    }
}

impl PartialEq for Term {
    /// Terms are equal when they are alpha-equivalent.
    fn eq(&self, other: &Self) -> (equal: bool) {
        self.alpha_equivalent(other)
    }
}

impl PartialEqSpecImpl for Term {
    open spec fn obeys_eq_spec() -> bool {
        true
    }

    open spec fn eq_spec(&self, other: &Self) -> bool {
        self@.alpha_eq(other@)
    }
}

impl Eq for Term {

}

impl Term {
    /// The mathematical value of the term.
    pub open spec fn model(&self) -> Tm
        decreases self,
    {
        match self {
            Term::Variable(v) => Tm::Variable(v@),
            Term::Abstraction(v, t) => Tm::Abstraction(v@, Box::new(t.model())),
            Term::Application(t, u) => Tm::Application(Box::new(t.model()), Box::new(u.model())),
            Term::Let(v, b, t) => Tm::Let(v@, Box::new(b.model()), Box::new(t.model())),
        }
    }

    /// Adds every name of the term to `names`.
    pub fn collect_vars(&self, names: &mut NameSet)
        ensures
            final(names)@ == old(names)@.union(self@.vars()),
        decreases self,
    {
        match self {
            Term::Variable(v) => {
                names.insert(v.clone());
            },
            Term::Abstraction(v, t) => {
                t.collect_vars(names);
                names.insert(v.clone());
            },
            Term::Application(t, u) => {
                t.collect_vars(names);
                u.collect_vars(names);
            },
            Term::Let(v, b, t) => {
                t.collect_vars(names);
                b.collect_vars(names);
                names.insert(v.clone());
            },
        }
        assert(names@ =~= old(names)@.union(self@.vars()));
    }

    /// Every name in the term, bound or free, binders included.
    pub fn vars(&self) -> (names: NameSet)
        ensures
            names@ == self@.vars(),
    {
        let mut names = NameSet::new();
        self.collect_vars(&mut names);
        assert(names@ =~= self@.vars());
        names
    }

    /// The names that occur free.
    pub fn free_vars(&self) -> (names: NameSet)
        ensures
            names@ == self@.free_vars(),
            names.order() == self@.free_order(),
        decreases self,
    {
        match self {
            Term::Variable(v) => {
                let mut names = NameSet::new();
                names.insert(v.clone());
                assert(names@ =~= self@.free_vars());
                assert(names.order() =~= self@.free_order());
                names
            },
            Term::Abstraction(v, t) => {
                let mut names = t.free_vars();
                names.remove(v.as_str());
                names
            },
            Term::Application(t, u) => {
                let mut names = t.free_vars();
                names.extend(&u.free_vars());
                names
            },
            Term::Let(v, b, t) => {
                let mut names = t.free_vars();
                names.remove(v.as_str());
                names.extend(&b.free_vars());
                names
            },
        }
    }

    /// Writes `to` for the name `from` wherever it stands, binders included.
    pub fn rename(&self, from: &str, to: &str) -> (result: Self)
        ensures
            result@ == self@.rename(from@, to@),
    {
        let from = String::from_str(from);
        let to = String::from_str(to);
        self.renamed(&from, &to)
    }

    /// Writes `to` for the name `from` wherever it stands, binders included.
    fn renamed(&self, from: &String, to: &String) -> (result: Self)
        ensures
            result@ == self@.rename(from@, to@),
        decreases self,
    {
        match self {
            Term::Variable(v) => Term::Variable(
                if *v == *from {
                    to.clone()
                } else {
                    v.clone()
                },
            ),
            Term::Abstraction(v, t) => Term::Abstraction(
                if *v == *from {
                    to.clone()
                } else {
                    v.clone()
                },
                Box::new(t.renamed(from, to)),
            ),
            Term::Application(t, u) => Term::Application(
                Box::new(t.renamed(from, to)),
                Box::new(u.renamed(from, to)),
            ),
            Term::Let(v, b, t) => Term::Let(
                if *v == *from {
                    to.clone()
                } else {
                    v.clone()
                },
                Box::new(b.renamed(from, to)),
                Box::new(t.renamed(from, to)),
            ),
        }
    }

    /// The fresh name for comparing the bodies of two binders.
    fn common_fresh(&self, other: &Self) -> (name: String)
        ensures
            name@ == fresh_name(self@.vars().union(other@.vars())),
    {
        let mut names = self.vars();
        names.extend(&other.vars());
        fresh_var(&names)
    }

    /// Whether the two terms are equal up to the names of their binders.
    pub fn alpha_equivalent(&self, other: &Self) -> (equal: bool)
        ensures
            equal == self@.alpha_eq(other@),
        decreases self@.size(),
    {
        match self {
            Term::Variable(x) => match other {
                Term::Variable(y) => *x == *y,
                _ => false,
            },
            Term::Abstraction(x, t) => match other {
                Term::Abstraction(y, u) => {
                    let w = self.common_fresh(other);
                    proof {
                        lemma_rename_size(t@, x@, w@);
                    }
                    t.renamed(x, &w).alpha_equivalent(&u.renamed(y, &w))
                },
                _ => false,
            },
            Term::Application(t1, u1) => match other {
                Term::Application(t2, u2) => t1.alpha_equivalent(t2) && u1.alpha_equivalent(u2),
                _ => false,
            },
            Term::Let(x, b1, t) => match other {
                Term::Let(y, b2, u) => {
                    let w = self.common_fresh(other);
                    proof {
                        lemma_rename_size(t@, x@, w@);
                    }
                    b1.alpha_equivalent(b2) && t.renamed(x, &w).alpha_equivalent(
                        &u.renamed(y, &w),
                    )
                },
                _ => false,
            },
        }
    }

    /// The name that replaces a binder of the term during a substitution.
    fn binder_for(&self, from: &String, to: &Term) -> (name: String)
        ensures
            name@ == self@.binder_for(from@, to@),
    {
        let mut names = self.vars();
        names.extend(&to.vars());
        names.insert(from.clone());
        fresh_var(&names)
    }

    /// Substitutes `to` for the free occurrences of `from`, avoiding capture.
    pub fn substitute(&self, from: &str, to: &Term) -> (result: Self)
        ensures
            result@ == self@.subst(from@, to@),
    {
        let from = String::from_str(from);
        self.substituted(&from, to)
    }

    /// Substitutes `to` for the free occurrences of `from`, avoiding capture.
    fn substituted(&self, from: &String, to: &Term) -> (result: Self)
        ensures
            result@ == self@.subst(from@, to@),
        decreases self@.size(),
    {
        match self {
            Term::Variable(v) => if *v == *from {
                to.clone()
            } else {
                self.clone()
            },
            Term::Abstraction(v, t) => if *v == *from {
                self.clone()
            } else {
                let w = self.binder_for(from, to);
                proof {
                    lemma_rename_size(t@, v@, w@);
                }
                let body = t.renamed(v, &w).substituted(from, to);
                Term::Abstraction(w, Box::new(body))
            },
            Term::Application(t, u) => Term::Application(
                Box::new(t.substituted(from, to)),
                Box::new(u.substituted(from, to)),
            ),
            Term::Let(v, b, t) => if *v == *from {
                Term::Let(v.clone(), Box::new(b.substituted(from, to)), t.clone())
            } else {
                let w = self.binder_for(from, to);
                proof {
                    lemma_rename_size(t@, v@, w@);
                }
                let body = t.renamed(v, &w).substituted(from, to);
                Term::Let(w, Box::new(b.substituted(from, to)), Box::new(body))
            },
        }
    }
}

} // verus!
