//! Single steps of beta- and eta-reduction.
use vstd::prelude::*;

use super::terms::{Term, Tm};
use crate::names::Name;

verus! {

/// The term, unless the step made another one of it.
pub open spec fn or_same(step: Option<Tm>, t: Tm) -> Tm {
    match step {
        Some(reduct) => reduct,
        None => t,
    }
}

/// The term after the beta-reduction of its left-outermost redex, if it has a redex. An
/// applied function is a redex, and so is a `let`.
pub open spec fn beta_step(t: Tm) -> Option<Tm>
    decreases t,
{
    match t {
        Tm::Variable(_) => None,
        Tm::Abstraction(x, b) => match beta_step(*b) {
            Some(b2) => Some(Tm::Abstraction(x, Box::new(b2))),
            None => None,
        },
        Tm::Application(f, u) => match *f {
            Tm::Abstraction(x, b) => Some(b.subst(x, *u)),
            _ => match beta_step(*f) {
                Some(f2) => Some(Tm::Application(Box::new(f2), u)),
                None => match beta_step(*u) {
                    Some(u2) => Some(Tm::Application(f, Box::new(u2))),
                    None => None,
                },
            },
        },
        Tm::Let(x, b, o) => Some(o.subst(x, *b)),
    }
}

/// The term after the beta-reduction of all its redexes at once, if it has a redex.
pub open spec fn parallel_step(t: Tm) -> Option<Tm>
    decreases t,
{
    match t {
        Tm::Variable(_) => None,
        Tm::Abstraction(x, b) => match parallel_step(*b) {
            Some(b2) => Some(Tm::Abstraction(x, Box::new(b2))),
            None => None,
        },
        Tm::Application(f, u) => match *f {
            Tm::Abstraction(x, b) => Some(
                or_same(parallel_step(*b), *b).subst(x, or_same(parallel_step(*u), *u)),
            ),
            _ => if parallel_step(*f) is None && parallel_step(*u) is None {
                None
            } else {
                Some(
                    Tm::Application(
                        Box::new(or_same(parallel_step(*f), *f)),
                        Box::new(or_same(parallel_step(*u), *u)),
                    ),
                )
            },
        },
        Tm::Let(x, b, o) => Some(
            or_same(parallel_step(*o), *o).subst(x, or_same(parallel_step(*b), *b)),
        ),
    }
}

/// Whether the function of `x` with the body `body` only passes `x` on to a term in which
/// `x` is not free.
pub open spec fn eta_redex(x: Name, body: Tm) -> bool {
    body matches Tm::Application(f, u) && *u == Tm::Variable(x) && !f.free_vars().contains(x)
}

/// The term after the eta-reduction of its left-outermost redex, if it has a redex.
pub open spec fn eta_step(t: Tm) -> Option<Tm>
    decreases t,
{
    match t {
        Tm::Variable(_) => None,
        Tm::Abstraction(x, b) => if eta_redex(x, *b) {
            Some(*b->Application_0)
        } else {
            match eta_step(*b) {
                Some(b2) => Some(Tm::Abstraction(x, Box::new(b2))),
                None => None,
            }
        },
        Tm::Application(f, u) => match eta_step(*f) {
            Some(f2) => Some(Tm::Application(Box::new(f2), u)),
            None => match eta_step(*u) {
                Some(u2) => Some(Tm::Application(f, Box::new(u2))),
                None => None,
            },
        },
        Tm::Let(x, b, o) => match eta_step(*b) {
            Some(b2) => Some(Tm::Let(x, Box::new(b2), o)),
            None => match eta_step(*o) {
                Some(o2) => Some(Tm::Let(x, b, Box::new(o2))),
                None => None,
            },
        },
    }
}

/// The mathematical value of the result of a reduction step.
pub open spec fn stepped(result: Option<Term>) -> Option<Tm> {
    match result {
        Some(t) => Some(t@),
        None => None,
    }
}

/// The term, unless the step made another one of it.
fn or_clone(step: Option<Term>, t: &Term) -> (result: Term)
    ensures
        result@ == or_same(stepped(step), t@),
{
    match step {
        Some(reduct) => reduct,
        None => t.clone(),
    }
}

impl Term {
    /// Beta-reduces the left-outermost redex, if there is one. The type is not checked.
    pub fn beta_reduce_lazy(&self) -> (result: Option<Self>)
        ensures
            stepped(result) == beta_step(self@),
        decreases self,
    {
        match self {
            Term::Application(t, u) => match &**t {
                Term::Abstraction(x, b) => {
                    assert(t.model() == Tm::Abstraction(x@, Box::new(b.model())));
                    Some(b.substitute(x.as_str(), u))
                },
                _ => {
                    assert(!(t.model() is Abstraction));
                    match t.beta_reduce_lazy() {
                        Some(t2) => Some(
                            Term::Application(Box::new(t2), Box::new((**u).clone())),
                        ),
                        None => match u.beta_reduce_lazy() {
                            Some(u2) => Some(
                                Term::Application(Box::new((**t).clone()), Box::new(u2)),
                            ),
                            None => None,
                        },
                    }
                },
            },
            Term::Abstraction(x, t) => match t.beta_reduce_lazy() {
                Some(t2) => Some(Term::Abstraction(x.clone(), Box::new(t2))),
                None => None,
            },
            Term::Let(x, b, t) => Some(t.substitute(x.as_str(), b)),
            Term::Variable(_) => None,
        }
    }

    /// Beta-reduces all redexes at once, if there is one. The type is not checked.
    pub fn parallel_reduct(&self) -> (result: Option<Self>)
        ensures
            stepped(result) == parallel_step(self@),
        decreases self,
    {
        match self {
            Term::Application(t, u) => match &**t {
                Term::Abstraction(x, b) => {
                    assert(t.model() == Tm::Abstraction(x@, Box::new(b.model())));
                    let b2 = or_clone(b.parallel_reduct(), b);
                    let u2 = or_clone(u.parallel_reduct(), u);
                    Some(b2.substitute(x.as_str(), &u2))
                },
                _ => {
                    assert(!(t.model() is Abstraction));
                    let t2 = t.parallel_reduct();
                    let u2 = u.parallel_reduct();
                    if t2.is_none() && u2.is_none() {
                        None
                    } else {
                        Some(
                            Term::Application(
                                Box::new(or_clone(t2, t)),
                                Box::new(or_clone(u2, u)),
                            ),
                        )
                    }
                },
            },
            Term::Abstraction(x, t) => match t.parallel_reduct() {
                Some(t2) => Some(Term::Abstraction(x.clone(), Box::new(t2))),
                None => None,
            },
            Term::Let(x, b, t) => {
                let b2 = or_clone(b.parallel_reduct(), b);
                let t2 = or_clone(t.parallel_reduct(), t);
                Some(t2.substitute(x.as_str(), &b2))
            },
            Term::Variable(_) => None,
        }
    }

    /// Whether the function of `x` with this body only passes `x` on to a term in which `x`
    /// is not free; the term, if it does.
    fn eta_contract(&self, x: &String) -> (result: Option<Self>)
        ensures
            stepped(result) == if eta_redex(x@, self@) {
                Some(*self@->Application_0)
            } else {
                None
            },
    {
        match self {
            Term::Application(f, u) => {
                assert(self@ == Tm::Application(Box::new(f.model()), Box::new(u.model())));
                match &**u {
                    Term::Variable(y) => {
                        assert(u.model() == Tm::Variable(y@));
                        if *x == *y && !f.free_vars().contains(x.as_str()) {
                            Some((**f).clone())
                        } else {
                            None
                        }
                    },
                    _ => {
                        assert(!(u.model() is Variable));
                        None
                    },
                }
            },
            _ => None,
        }
    }

    /// Eta-reduces the left-outermost redex, if there is one. The type is not checked.
    pub fn eta_reduce_lazy(&self) -> (result: Option<Self>)
        ensures
            stepped(result) == eta_step(self@),
        decreases self,
    {
        match self {
            Term::Abstraction(x, t) => match t.eta_contract(x) {
                Some(f) => Some(f),
                None => match t.eta_reduce_lazy() {
                    Some(t2) => Some(Term::Abstraction(x.clone(), Box::new(t2))),
                    None => None,
                },
            },
            Term::Application(t, u) => match t.eta_reduce_lazy() {
                Some(t2) => Some(Term::Application(Box::new(t2), Box::new((**u).clone()))),
                None => match u.eta_reduce_lazy() {
                    Some(u2) => Some(Term::Application(Box::new((**t).clone()), Box::new(u2))),
                    None => None,
                },
            },
            Term::Let(x, b, t) => match b.eta_reduce_lazy() {
                Some(b2) => Some(Term::Let(x.clone(), Box::new(b2), Box::new((**t).clone()))),
                None => match t.eta_reduce_lazy() {
                    Some(t2) => Some(Term::Let(x.clone(), Box::new((**b).clone()), Box::new(t2))),
                    None => None,
                },
            },
            Term::Variable(_) => None,
        }
    }
}

} // verus!
