//! Terms, types and judgements as text.
use vstd::prelude::*;

use super::derivation::{Judgement, JudgementModel};
use super::terms::{Term, Tm};
use super::types::{Ty, Type};
use crate::names::Name;

verus! {

/// `text`, in parentheses if `parens` is set.
pub open spec fn wrapped(text: Seq<char>, parens: bool) -> Seq<char> {
    if parens {
        "("@ + text + ")"@
    } else {
        text
    }
}

/// The text of a term. An abstraction is `λx. body` and a definition is
/// `let x = bound in body`. In an application, a function that is no variable and no
/// application stands in parentheses, and so does an argument that is no variable.
pub open spec fn term_text(t: Tm) -> Seq<char>
    decreases t,
{
    match t {
        Tm::Variable(x) => x,
        Tm::Abstraction(x, b) => "λ"@ + x + ". "@ + term_text(*b),
        Tm::Application(f, a) => wrapped(term_text(*f), !(*f is Variable || *f is Application))
            + " "@ + wrapped(term_text(*a), !(*a is Variable)),
        Tm::Let(x, b, o) => "let "@ + x + " = "@ + term_text(*b) + " in "@ + term_text(*o),
    }
}

/// The names with one space between each two.
pub open spec fn names_text(names: Seq<Name>) -> Seq<char>
    decreases names.len(),
{
    if names.len() == 0 {
        Seq::empty()
    } else if names.len() == 1 {
        names[0]
    } else {
        names_text(names.drop_last()) + " "@ + names.last()
    }
}

/// The quantifier in front of a type: `∀`, the schema-bound variables in the order of
/// their first occurrence, and a full stop; nothing for a type without such variables.
pub open spec fn quantifier_text(ty: Ty) -> Seq<char> {
    if ty.gen_var_order().len() == 0 {
        Seq::empty()
    } else {
        "∀"@ + names_text(ty.gen_var_order()) + "."@
    }
}

/// The text of a type: its quantifier, and then the name of the variable, or the domain,
/// ` -> ` and the codomain, each written as a type of its own; a domain that is a function
/// type stands in parentheses.
pub open spec fn type_text(ty: Ty) -> Seq<char>
    decreases ty,
{
    quantifier_text(ty) + match ty {
        Ty::Variable(v) => v,
        Ty::GenVariable(v) => v,
        Ty::Fn(t, u) => wrapped(type_text(*t), *t is Fn) + " -> "@ + type_text(*u),
    }
}

/// The text of a binding: the name, a colon and the type.
pub open spec fn binding_text(name: Name, ty: Ty) -> Seq<char> {
    name + ": "@ + type_text(ty)
}

/// The texts of the bindings with `sep` between each two.
pub open spec fn bindings_text(env: Seq<(Name, Ty)>, sep: Seq<char>) -> Seq<char>
    decreases env.len(),
{
    if env.len() == 0 {
        Seq::empty()
    } else if env.len() == 1 {
        binding_text(env[0].0, env[0].1)
    } else {
        bindings_text(env.drop_last(), sep) + sep + binding_text(env.last().0, env.last().1)
    }
}

/// The text of what a judgement concludes: the term, a colon and the type.
pub open spec fn typing_text(j: JudgementModel) -> Seq<char> {
    term_text(j.term) + ": "@ + type_text(j.ty)
}

/// The text of a judgement on one line: the bindings, separated by commas, the turnstile
/// and the typing.
pub open spec fn judgement_text(j: JudgementModel) -> Seq<char> {
    bindings_text(j.lhs, ", "@) + " ⊢ "@ + typing_text(j)
}

/// `text`, in parentheses if `parens` is set.
fn wrap(text: String, parens: bool) -> (result: String)
    ensures
        result@ == wrapped(text@, parens),
{
    if parens {
        let mut result = String::from_str("(");
        result.append(text.as_str());
        result.append(")");
        result
    } else {
        text
    }
}

impl Term {
    /// The text of the term.
    pub fn to_string(&self) -> (text: String)
        ensures
            text@ == term_text(self@),
        decreases self,
    {
        match self {
            Term::Variable(x) => x.clone(),
            Term::Abstraction(x, b) => {
                let mut text = String::from_str("λ");
                text.append(x.as_str());
                text.append(". ");
                text.append(b.to_string().as_str());
                text
            },
            Term::Application(f, a) => {
                let f_parens = match **f {
                    Term::Variable(_) => false,
                    Term::Application(_, _) => false,
                    _ => true,
                };
                let a_parens = match **a {
                    Term::Variable(_) => false,
                    _ => true,
                };
                let mut text = wrap(f.to_string(), f_parens);
                text.append(" ");
                text.append(wrap(a.to_string(), a_parens).as_str());
                text
            },
            Term::Let(x, b, o) => {
                let mut text = String::from_str("let ");
                text.append(x.as_str());
                text.append(" = ");
                text.append(b.to_string().as_str());
                text.append(" in ");
                text.append(o.to_string().as_str());
                text
            },
        }
    }
}

impl Type {
    /// The quantifier in front of the type.
    fn quantifier(&self) -> (text: String)
        ensures
            text@ == quantifier_text(self@),
    {
        let generic = self.gen_vars();
        let n = generic.len();
        if n == 0 {
            return String::new();
        }
        let ghost order = self@.gen_var_order();
        let mut names = generic.get(0).clone();
        assert(order.take(1) =~= seq![order[0]]);
        let mut i: usize = 1;
        while i < n
            invariant
                1 <= i <= n,
                n == order.len(),
                order == generic.order(),
                names@ == names_text(order.take(i as int)),
            decreases n - i,
        {
            names.append(" ");
            names.append(generic.get(i).as_str());
            assert(order.take(i + 1).drop_last() =~= order.take(i as int));
            i = i + 1;
        }
        assert(order.take(n as int) =~= order);
        let mut text = String::from_str("∀");
        text.append(names.as_str());
        text.append(".");
        text
    }

    /// The text of the type.
    pub fn to_string(&self) -> (text: String)
        ensures
            text@ == type_text(self@),
        decreases self,
    {
        let mut text = self.quantifier();
        match self {
            Type::Variable(v) => {
                text.append(v.as_str());
            },
            Type::GenVariable(v) => {
                text.append(v.as_str());
            },
            Type::Fn(t, u) => {
                let parens = match **t {
                    Type::Fn(_, _) => true,
                    _ => false,
                };
                let mut body = wrap(t.to_string(), parens);
                body.append(" -> ");
                body.append(u.to_string().as_str());
                text.append(body.as_str());
            },
        }
        text
    }
}

/// The texts of the bindings with `sep` between each two.
pub fn bindings_to_string(env: &Vec<(String, Type)>, sep: &str) -> (text: String)
    ensures
        text@ == bindings_text(super::infer::environment(env@), sep@),
{
    let ghost bindings = super::infer::environment(env@);
    if env.len() == 0 {
        return String::new();
    }
    let mut text = env[0].0.clone();
    text.append(": ");
    text.append(env[0].1.to_string().as_str());
    assert(bindings.take(1) =~= seq![bindings[0]]);
    let mut i: usize = 1;
    while i < env.len()
        invariant
            1 <= i <= env.len(),
            bindings == super::infer::environment(env@),
            text@ == bindings_text(bindings.take(i as int), sep@),
        decreases env.len() - i,
    {
        let mut binding = env[i].0.clone();
        binding.append(": ");
        binding.append(env[i].1.to_string().as_str());
        text.append(sep);
        text.append(binding.as_str());
        assert(bindings.take(i + 1).drop_last() =~= bindings.take(i as int));
        i = i + 1;
    }
    assert(bindings.take(env@.len() as int) =~= bindings);
    text
}

impl Judgement {
    /// The text of what the judgement concludes.
    pub fn typing_to_string(&self) -> (text: String)
        ensures
            text@ == typing_text(self@),
    {
        let mut text = self.rhs.0.to_string();
        text.append(": ");
        text.append(self.rhs.1.to_string().as_str());
        text
    }

    /// The text of the judgement on one line.
    pub fn to_string(&self) -> (text: String)
        ensures
            text@ == judgement_text(self@),
    {
        let mut text = bindings_to_string(&self.lhs, ", ");
        text.append(" ⊢ ");
        text.append(self.typing_to_string().as_str());
        text
    }
}

} // verus!
