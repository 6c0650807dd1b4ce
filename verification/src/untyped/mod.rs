//! The untyped lambda calculus: the terms of the Hindley-Milner system without `let`.
use vstd::prelude::*;

use crate::hindley_milner::reduce::{beta_step, eta_step, or_same, parallel_step};
use crate::hindley_milner::render::term_text;
use crate::hindley_milner::terms::{lemma_rename_size, Term as Typed, Tm};
use crate::names::{Name, NameSet};
use vstd::std_specs::cmp::PartialEqSpecImpl;
use vstd::std_specs::convert::FromSpecImpl;

pub mod compile;
pub mod continuation;

verus! {

/// A term of the untyped lambda calculus.
#[derive(Debug)]
pub enum Term {
    /// An occurrence of a name.
    Variable(String),
    /// A function: the bound name and the body.
    Abstraction(String, Box<Term>),
    /// A function applied to an argument.
    Application(Box<Term>, Box<Term>),
}

/// Whether the term has no `let`.
pub open spec fn let_free(t: Tm) -> bool
    decreases t,
{
    match t {
        Tm::Variable(_) => true,
        Tm::Abstraction(_, b) => let_free(*b),
        Tm::Application(f, a) => let_free(*f) && let_free(*a),
        Tm::Let(_, _, _) => false,
    }
}

/// The term with every `let` written as the application of a function of the bound name
/// to what is bound.
pub open spec fn erase_let(t: Tm) -> Tm
    decreases t,
{
    match t {
        Tm::Variable(_) => t,
        Tm::Abstraction(x, b) => Tm::Abstraction(x, Box::new(erase_let(*b))),
        Tm::Application(f, a) => Tm::Application(
            Box::new(erase_let(*f)),
            Box::new(erase_let(*a)),
        ),
        Tm::Let(x, b, o) => Tm::Application(
            Box::new(Tm::Abstraction(x, Box::new(erase_let(*o)))),
            Box::new(erase_let(*b)),
        ),
    }
}

/// A term without `let` has nothing to erase, and erasing leaves no `let`.
pub proof fn lemma_erase_let(t: Tm)
    ensures
        let_free(erase_let(t)),
        let_free(t) ==> erase_let(t) == t,
    decreases t,
{
    match t {
        Tm::Variable(_) => {},
        Tm::Abstraction(_, b) => {
            lemma_erase_let(*b);
        },
        Tm::Application(f, a) => {
            lemma_erase_let(*f);
            lemma_erase_let(*a);
        },
        Tm::Let(x, b, o) => {
            lemma_erase_let(*b);
            lemma_erase_let(*o);
            assert(let_free(Tm::Abstraction(x, Box::new(erase_let(*o)))));
        },
    }
}

/// Renaming brings no `let` into a term.
pub proof fn lemma_rename_let_free(t: Tm, from: Name, to: Name)
    requires
        let_free(t),
    ensures
        let_free(t.rename(from, to)),
    decreases t,
{
    match t {
        Tm::Variable(_) => {},
        Tm::Abstraction(_, b) => {
            lemma_rename_let_free(*b, from, to);
        },
        Tm::Application(f, a) => {
            lemma_rename_let_free(*f, from, to);
            lemma_rename_let_free(*a, from, to);
        },
        Tm::Let(_, _, _) => {},
    }
}

/// Substitution of a term without `let` into one brings no `let`.
pub proof fn lemma_subst_let_free(t: Tm, from: Name, to: Tm)
    requires
        let_free(t),
        let_free(to),
    ensures
        let_free(t.subst(from, to)),
    decreases t.size(),
{
    match t {
        Tm::Variable(_) => {},
        Tm::Abstraction(v, b) => {
            if v != from {
                let w = t.binder_for(from, to);
                lemma_rename_size(*b, v, w);
                lemma_rename_let_free(*b, v, w);
                lemma_subst_let_free(b.rename(v, w), from, to);
            }
        },
        Tm::Application(f, a) => {
            lemma_subst_let_free(*f, from, to);
            lemma_subst_let_free(*a, from, to);
        },
        Tm::Let(_, _, _) => {},
    }
}

/// A reduction step brings no `let` into a term.
pub proof fn lemma_steps_let_free(t: Tm)
    requires
        let_free(t),
    ensures
        beta_step(t) matches Some(r) ==> let_free(r),
        parallel_step(t) matches Some(r) ==> let_free(r),
        eta_step(t) matches Some(r) ==> let_free(r),
    decreases t,
{
    match t {
        Tm::Variable(_) => {},
        Tm::Abstraction(_, b) => {
            lemma_steps_let_free(*b);
            match *b {
                Tm::Application(f, _) => {
                    assert(let_free(*b));
                    assert(let_free(*f));
                },
                _ => {},
            }
        },
        Tm::Application(f, u) => {
            lemma_steps_let_free(*f);
            lemma_steps_let_free(*u);
            match *f {
                Tm::Abstraction(x, b) => {
                    assert(let_free(*f));
                    assert(let_free(*b));
                    lemma_steps_let_free(*b);
                    lemma_subst_let_free(*b, x, *u);
                    lemma_subst_let_free(
                        or_same(parallel_step(*b), *b),
                        x,
                        or_same(parallel_step(*u), *u),
                    );
                },
                _ => {},
            }
        },
        Tm::Let(_, _, _) => {},
    }
}

impl Term {
    /// The mathematical value of the term.
    pub open spec fn model(&self) -> Tm
        decreases self,
    {
        match self {
            Term::Variable(v) => Tm::Variable(v@),
            Term::Abstraction(v, t) => Tm::Abstraction(v@, Box::new(t.model())),
            Term::Application(t, u) => Tm::Application(Box::new(t.model()), Box::new(u.model())),
        }
    }

    /// The term as a term of the Hindley-Milner system.
    pub open spec fn embedded(self) -> Typed
        decreases self,
    {
        match self {
            Term::Variable(v) => Typed::Variable(v),
            Term::Abstraction(v, t) => Typed::Abstraction(v, Box::new(t.embedded())),
            Term::Application(t, u) => Typed::Application(
                Box::new(t.embedded()),
                Box::new(u.embedded()),
            ),
        }
    }

    /// The term of the Hindley-Milner system with every `let` written as an application.
    pub open spec fn erased(t: Typed) -> Term
        decreases t,
    {
        match t {
            Typed::Variable(v) => Term::Variable(v),
            Typed::Abstraction(v, b) => Term::Abstraction(v, Box::new(Term::erased(*b))),
            Typed::Application(f, a) => Term::Application(
                Box::new(Term::erased(*f)),
                Box::new(Term::erased(*a)),
            ),
            Typed::Let(v, b, o) => Term::Application(
                Box::new(Term::Abstraction(v, Box::new(Term::erased(*o)))),
                Box::new(Term::erased(*b)),
            ),
        }
    }

    /// An untyped term has no `let`, and as a term of the Hindley-Milner system it is the
    /// same term.
    pub proof fn lemma_model(self)
        ensures
            let_free(self@),
            self.embedded()@ == self@,
        decreases self,
    {
        match self {
            Term::Variable(_) => {},
            Term::Abstraction(_, t) => {
                t.lemma_model();
            },
            Term::Application(t, u) => {
                t.lemma_model();
                u.lemma_model();
            },
        }
    }

    /// Erasing the `let`s of a term of the Hindley-Milner system erases them in its value.
    pub proof fn lemma_erased(t: Typed)
        ensures
            Term::erased(t)@ == erase_let(t@),
        decreases t,
    {
        match t {
            Typed::Variable(_) => {},
            Typed::Abstraction(_, b) => {
                Term::lemma_erased(*b);
            },
            Typed::Application(f, a) => {
                Term::lemma_erased(*f);
                Term::lemma_erased(*a);
            },
            Typed::Let(v, b, o) => {
                Term::lemma_erased(*b);
                Term::lemma_erased(*o);
                let function = Term::Abstraction(v, Box::new(Term::erased(*o)));
                assert(function.model() == Tm::Abstraction(v@, Box::new(erase_let(o.model()))));
            },
        }
    }
}

impl View for Term {
    type V = Tm;

    open spec fn view(&self) -> Tm {
        self.model()
    }
}

impl Clone for Term {
    fn clone(&self) -> (copy: Self)
        ensures
            copy == *self,
        decreases self,
    {
        match self {
            Term::Variable(v) => Term::Variable(v.clone()),
            Term::Abstraction(v, t) => Term::Abstraction(v.clone(), Box::new((**t).clone())),
            Term::Application(t, u) => Term::Application(
                Box::new((**t).clone()),
                Box::new((**u).clone()),
            ),
        }
    }
}

impl From<Term> for Typed {
    fn from(val: Term) -> (typed: Typed)
        decreases val,
    {
        match val {
            Term::Variable(x) => Typed::Variable(x),
            Term::Abstraction(x, t) => Typed::Abstraction(x, Box::new(Typed::from(*t))),
            Term::Application(t, u) => Typed::Application(
                Box::new(Typed::from(*t)),
                Box::new(Typed::from(*u)),
            ),
        }
    }
}

impl FromSpecImpl<Term> for Typed {
    open spec fn obeys_from_spec() -> bool {
        true
    }

    open spec fn from_spec(val: Term) -> Typed {
        val.embedded()
    }
}

impl From<Typed> for Term {
    fn from(val: Typed) -> (term: Term)
        decreases val,
    {
        match val {
            Typed::Variable(x) => Term::Variable(x),
            Typed::Abstraction(x, t) => Term::Abstraction(x, Box::new(Term::from(*t))),
            Typed::Application(t, u) => Term::Application(
                Box::new(Term::from(*t)),
                Box::new(Term::from(*u)),
            ),
            Typed::Let(x, b, t) => Term::Application(
                Box::new(Term::Abstraction(x, Box::new(Term::from(*t)))),
                Box::new(Term::from(*b)),
            ),
        }
    }
}

impl FromSpecImpl<Typed> for Term {
    open spec fn obeys_from_spec() -> bool {
        true
    }

    open spec fn from_spec(val: Typed) -> Term {
        Term::erased(val)
    }
}

impl PartialEq for Term {
    /// Terms are equal when they are alpha-equivalent.
    fn eq(&self, other: &Self) -> (equal: bool) {
        self.alpha_equivalent(other)
    }
}

impl PartialEqSpecImpl for Term {
    open spec fn obeys_eq_spec() -> bool {
        true
    }

    open spec fn eq_spec(&self, other: &Self) -> bool {
        self@.alpha_eq(other@)
    }
}

impl Eq for Term {

}

/// The mathematical value of the result of a reduction step.
pub open spec fn stepped(result: Option<Term>) -> Option<Tm> {
    match result {
        Some(t) => Some(t@),
        None => None,
    }
}

impl Term {
    /// The term as a term of the Hindley-Milner system.
    pub fn typed(&self) -> (typed: Typed)
        ensures
            typed@ == self@,
    {
        proof {
            self.lemma_model();
        }
        Typed::from(self.clone())
    }

    /// The term that a term of the Hindley-Milner system without `let` is.
    fn untyped(typed: Typed) -> (term: Term)
        requires
            let_free(typed@),
        ensures
            term@ == typed@,
    {
        proof {
            Term::lemma_erased(typed);
            lemma_erase_let(typed@);
        }
        Term::from(typed)
    }

    /// Every name in the term, bound or free, binders included.
    pub fn vars(&self) -> (names: NameSet)
        ensures
            names@ == self@.vars(),
    {
        self.typed().vars()
    }

    /// The names that occur free.
    pub fn free_vars(&self) -> (names: NameSet)
        ensures
            names@ == self@.free_vars(),
            names.order() == self@.free_order(),
    {
        self.typed().free_vars()
    }

    /// Writes `to` for the name `from` wherever it stands, binders included.
    pub fn rename(&self, from: &str, to: &str) -> (result: Self)
        ensures
            result@ == self@.rename(from@, to@),
    {
        proof {
            self.lemma_model();
            lemma_rename_let_free(self@, from@, to@);
        }
        Term::untyped(self.typed().rename(from, to))
    }

    /// Whether the two terms are equal up to the names of their binders.
    pub fn alpha_equivalent(&self, other: &Self) -> (equal: bool)
        ensures
            equal == self@.alpha_eq(other@),
    {
        self.typed().alpha_equivalent(&other.typed())
    }

    /// Substitutes `to` for the free occurrences of `from`, avoiding capture.
    pub fn substitute(&self, from: &str, to: &Term) -> (result: Self)
        ensures
            result@ == self@.subst(from@, to@),
    {
        proof {
            self.lemma_model();
            to.lemma_model();
            lemma_subst_let_free(self@, from@, to@);
        }
        Term::untyped(self.typed().substitute(from, &to.typed()))
    }

    /// Beta-reduces the left-outermost redex, if there is one.
    pub fn beta_reduce_lazy(&self) -> (result: Option<Self>)
        ensures
            stepped(result) == beta_step(self@),
    {
        proof {
            self.lemma_model();
            lemma_steps_let_free(self@);
        }
        match self.typed().beta_reduce_lazy() {
            Some(reduct) => Some(Term::untyped(reduct)),
            None => None,
        }
    }

    /// Beta-reduces all redexes at once, if there is one.
    pub fn parallel_reduct(&self) -> (result: Option<Self>)
        ensures
            stepped(result) == parallel_step(self@),
    {
        proof {
            self.lemma_model();
            lemma_steps_let_free(self@);
        }
        match self.typed().parallel_reduct() {
            Some(reduct) => Some(Term::untyped(reduct)),
            None => None,
        }
    }

    /// Eta-reduces the left-outermost redex, if there is one.
    pub fn eta_reduce_lazy(&self) -> (result: Option<Self>)
        ensures
            stepped(result) == eta_step(self@),
    {
        proof {
            self.lemma_model();
            lemma_steps_let_free(self@);
        }
        match self.typed().eta_reduce_lazy() {
            Some(reduct) => Some(Term::untyped(reduct)),
            None => None,
        }
    }

    /// The text of the term.
    pub fn to_string(&self) -> (text: String)
        ensures
            text@ == term_text(self@),
    {
        self.typed().to_string()
    }
}

/// The term that is an occurrence of the name `v`.
pub fn variable(v: &str) -> (term: Term)
    ensures
        term@ == Tm::Variable(v@),
{
    Term::Variable(String::from_str(v))
}

/// The function of `v` with the body `t`.
pub fn abstraction(v: &str, t: Term) -> (term: Term)
    ensures
        term@ == Tm::Abstraction(v@, Box::new(t@)),
{
    Term::Abstraction(String::from_str(v), Box::new(t))
}

/// The application of `t` to `u`.
pub fn application(t: Term, u: Term) -> (term: Term)
    ensures
        term@ == Tm::Application(Box::new(t@), Box::new(u@)),
{
    Term::Application(Box::new(t), Box::new(u))
}

} // verus!
