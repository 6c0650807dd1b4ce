use lambda::hindley_milner::{Term, Type};

fn var(x: &str) -> Term {
    Term::Variable(x.to_string())
}

fn abs(x: &str, body: Term) -> Term {
    Term::Abstraction(x.to_string(), Box::new(body))
}

fn app(f: Term, a: Term) -> Term {
    Term::Application(Box::new(f), Box::new(a))
}

fn let_in(x: &str, bound: Term, body: Term) -> Term {
    Term::Let(x.to_string(), Box::new(bound), Box::new(body))
}

fn tv(x: &str) -> Type {
    Type::Variable(x.to_string())
}

fn gv(x: &str) -> Type {
    Type::GenVariable(x.to_string())
}

fn func(a: Type, b: Type) -> Type {
    Type::Fn(Box::new(a), Box::new(b))
}

#[test]
fn terms_as_text() {
    assert_eq!(var("x").to_string(), "x");
    assert_eq!(abs("x", var("x")).to_string(), "λx. x");
    assert_eq!(app(app(var("f"), var("a")), var("b")).to_string(), "f a b");
    assert_eq!(app(var("f"), app(var("g"), var("b"))).to_string(), "f (g b)");
    assert_eq!(app(abs("x", var("x")), abs("y", var("y"))).to_string(), "(λx. x) (λy. y)");
    assert_eq!(let_in("x", var("a"), var("x")).to_string(), "let x = a in x");
    assert_eq!(
        app(let_in("x", var("a"), var("x")), var("b")).to_string(),
        "(let x = a in x) b"
    );
    assert_eq!(
        let_in(
            "f",
            abs("x", app(var("x"), abs("y", var("y")))),
            app(app(var("f"), var("a")), app(var("g"), var("b")))
        )
        .to_string(),
        "let f = λx. x (λy. y) in f a (g b)"
    );
}

#[test]
fn types_without_schema_variables_as_text() {
    assert_eq!(tv("a").to_string(), "a");
    assert_eq!(func(tv("a"), tv("b")).to_string(), "a -> b");
    assert_eq!(func(tv("a"), func(tv("b"), tv("c"))).to_string(), "a -> b -> c");
    assert_eq!(func(func(tv("a"), tv("b")), tv("c")).to_string(), "(a -> b) -> c");
}

#[test]
fn each_part_of_a_scheme_is_written_with_its_own_quantifier() {
    assert_eq!(gv("a").to_string(), "∀a.a");
    assert_eq!(func(gv("a"), tv("b")).to_string(), "∀a.∀a.a -> b");
    assert_eq!(
        func(func(gv("a"), tv("b")), func(gv("c"), gv("a"))).to_string(),
        "∀a c.(∀a.∀a.a -> b) -> ∀c a.∀c.c -> ∀a.a"
    );
}
