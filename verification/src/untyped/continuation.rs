//! Continuation-passing style.
use vstd::prelude::*;

use super::{abstraction, application, variable, Term};
use crate::fresh_var;
use crate::hindley_milner::terms::Tm;
use crate::names::fresh_name;

verus! {

/// The term `t` in continuation-passing style, with its value handed to `cont`.
///
/// A variable is handed to the continuation as it is. A function gets a second parameter
/// for the continuation of its body. In an application, the function and the argument are
/// computed one after the other, each under a name that nothing else holds; an applied
/// function hands its argument on under its own parameter.
pub open spec fn cps(t: Tm, cont: Tm) -> Tm
    decreases t,
{
    match t {
        Tm::Variable(_) => Tm::Application(Box::new(cont), Box::new(t)),
        Tm::Abstraction(x, b) => {
            let k = fresh_name(t.vars());
            Tm::Application(
                Box::new(cont),
                Box::new(
                    Tm::Abstraction(
                        x,
                        Box::new(Tm::Abstraction(k, Box::new(cps(*b, Tm::Variable(k))))),
                    ),
                ),
            )
        },
        Tm::Application(a, b) => match *a {
            Tm::Abstraction(x, c) => cps(*b, Tm::Abstraction(x, Box::new(cps(*c, cont)))),
            _ => {
                let vars = cont.vars().union(t.vars());
                let b2 = fresh_name(vars);
                let a2 = fresh_name(vars.insert(b2));
                let call = Tm::Application(
                    Box::new(
                        Tm::Application(Box::new(Tm::Variable(a2)), Box::new(Tm::Variable(b2))),
                    ),
                    Box::new(cont),
                );
                cps(*a, Tm::Abstraction(a2, Box::new(cps(*b, Tm::Abstraction(b2, Box::new(call))))))
            },
        },
        Tm::Let(_, _, _) => t,
    }
}

/// Converts a term to continuation-passing style: the result hands the value of `t` to
/// `cont`.
pub fn cps_convert(t: &Term, cont: &Term) -> (result: Term)
    ensures
        result@ == cps(t@, cont@),
    decreases t,
{
    match t {
        Term::Variable(_) => application(cont.clone(), t.clone()),
        Term::Abstraction(x, b) => {
            let k = fresh_var(&t.vars());
            let body = cps_convert(b, &variable(k.as_str()));
            let inner = abstraction(k.as_str(), body);
            application(cont.clone(), abstraction(x.as_str(), inner))
        },
        Term::Application(a, b) => match &**a {
            Term::Abstraction(x, c) => {
                assert(a.model() == Tm::Abstraction(x@, Box::new(c.model())));
                let inner = cps_convert(c, cont);
                cps_convert(b, &abstraction(x.as_str(), inner))
            },
            _ => {
                assert(!(a.model() is Abstraction));
                let mut vars = cont.vars();
                vars.extend(&t.vars());
                let b2 = fresh_var(&vars);
                vars.insert(b2.clone());
                let a2 = fresh_var(&vars);
                let call = application(
                    application(variable(a2.as_str()), variable(b2.as_str())),
                    cont.clone(),
                );
                let argument = cps_convert(b, &abstraction(b2.as_str(), call));
                cps_convert(a, &abstraction(a2.as_str(), argument))
            },
        },
    }
}

} // verus!
