use lambda::hindley_milner::{free_vars, Term, Type, TypeError};

fn var(x: &str) -> Term {
    Term::Variable(x.to_string())
}

fn abs(x: &str, body: Term) -> Term {
    Term::Abstraction(x.to_string(), Box::new(body))
}

fn app(f: Term, a: Term) -> Term {
    Term::Application(Box::new(f), Box::new(a))
}

fn let_in(x: &str, bound: Term, body: Term) -> Term {
    Term::Let(x.to_string(), Box::new(bound), Box::new(body))
}

fn tv(x: &str) -> Type {
    Type::Variable(x.to_string())
}

fn gv(x: &str) -> Type {
    Type::GenVariable(x.to_string())
}

fn func(a: Type, b: Type) -> Type {
    Type::Fn(Box::new(a), Box::new(b))
}

#[test]
fn identity_function_has_one_variable_on_both_sides() {
    let ty = abs("x", var("x")).type_closed().unwrap();
    assert_eq!(ty, func(tv("t0"), tv("t0")));
}

#[test]
fn self_application_fails_the_occurs_check() {
    let result = abs("x", app(var("x"), var("x"))).type_closed();
    match result {
        Err(TypeError::OccursCheckFailure(v, ty)) => {
            assert_eq!(v, "t0");
            assert_eq!(ty, func(tv("t0"), tv("t1")));
        }
        other => panic!("expected an occurs-check failure, got {:?}", other),
    }
}

#[test]
fn unbound_variable_is_reported_by_name() {
    match var("y").type_closed() {
        Err(TypeError::UnboundVariable(name)) => assert_eq!(name, "y"),
        other => panic!("expected an unbound variable, got {:?}", other),
    }
    match abs("x", app(var("x"), var("y"))).type_in(&Vec::new()) {
        Err(TypeError::UnboundVariable(name)) => assert_eq!(name, "y"),
        other => panic!("expected an unbound variable, got {:?}", other),
    }
}

#[test]
fn let_bound_identity_is_polymorphic() {
    let term = let_in("id", abs("x", var("x")), app(var("id"), var("id")));
    let ty = term.type_closed().unwrap();
    assert_eq!(ty, func(tv("t2"), tv("t2")));
}

#[test]
fn lambda_bound_identity_is_monomorphic() {
    let term = app(abs("id", app(var("id"), var("id"))), abs("x", var("x")));
    assert!(matches!(term.type_closed(), Err(TypeError::OccursCheckFailure(_, _))));
}

#[test]
fn constant_function_takes_two_arguments() {
    let k = abs("x", abs("y", var("x")));
    assert_eq!(k.type_closed().unwrap(), func(tv("t0"), func(tv("t1"), tv("t0"))));
}

#[test]
fn s_combinator_has_its_principal_type() {
    let s = abs(
        "x",
        abs("y", abs("z", app(app(var("x"), var("z")), app(var("y"), var("z"))))),
    );
    let ty = s.type_closed().unwrap();
    match &ty {
        Type::Fn(x, rest) => match (&**x, &**rest) {
            (Type::Fn(a, bc), Type::Fn(y, zc)) => match (&**bc, &**y, &**zc) {
                (Type::Fn(b, c), Type::Fn(a2, b2), Type::Fn(a3, c2)) => {
                    assert_eq!(a, a2);
                    assert_eq!(a, a3);
                    assert_eq!(b, b2);
                    assert_eq!(c, c2);
                    assert_ne!(a, b);
                    assert_ne!(b, c);
                    assert_ne!(a, c);
                }
                _ => panic!("unexpected shape {:?}", ty),
            },
            _ => panic!("unexpected shape {:?}", ty),
        },
        _ => panic!("unexpected shape {:?}", ty),
    }
}

#[test]
fn the_most_recent_binding_of_a_name_wins() {
    let env = vec![
        ("x".to_string(), func(tv("a"), tv("a"))),
        ("x".to_string(), tv("b")),
    ];
    assert_eq!(var("x").type_in(&env).unwrap(), tv("b"));
    let shadowed = abs("y", abs("y", var("y")));
    assert_eq!(shadowed.type_closed().unwrap(), func(tv("t0"), func(tv("t1"), tv("t1"))));
}

#[test]
fn each_use_of_a_scheme_is_instantiated_anew() {
    let env = vec![("id".to_string(), func(gv("a"), gv("a")))];
    let ty = app(var("id"), var("id")).type_in(&env).unwrap();
    assert_eq!(ty, func(tv("t1"), tv("t1")));
}

#[test]
fn let_does_not_generalise_the_variables_of_the_environment() {
    // In λx. let y = x in y y the type of y is the type of x, which the lambda binds.
    let term = abs("x", let_in("y", var("x"), app(var("y"), var("y"))));
    assert!(matches!(term.type_closed(), Err(TypeError::OccursCheckFailure(_, _))));
}

#[test]
fn inference_gives_the_same_type_every_time() {
    let term = let_in("k", abs("x", abs("y", var("x"))), app(app(var("k"), var("k")), var("k")));
    let first = term.type_closed().unwrap();
    let second = term.type_closed().unwrap();
    assert_eq!(first, second);
}

#[test]
fn free_vars_of_an_environment_are_its_meta_variables() {
    let env = vec![
        ("f".to_string(), func(tv("a"), gv("g"))),
        ("x".to_string(), tv("b")),
        ("y".to_string(), tv("a")),
    ];
    let free = free_vars(&env);
    assert_eq!(free.len(), 2);
    assert!(free.contains("a") && free.contains("b"));
    assert!(free_vars(&Vec::new()).is_empty());
}

#[test]
fn type_constraints_collects_one_equation_for_each_application() {
    let term = abs("f", abs("x", app(var("f"), app(var("f"), var("x")))));
    let mut constraints = Vec::new();
    let mut supply = lambda::names::NameSupply::new();
    let ty = term.type_constraints(&Vec::new(), &mut constraints, &mut supply).unwrap();
    assert_eq!(ty, func(tv("t0"), func(tv("t1"), tv("t3"))));
    assert_eq!(constraints.len(), 2);
    assert_eq!(constraints[0], (tv("t0"), func(tv("t1"), tv("t2"))));
    assert_eq!(constraints[1], (tv("t0"), func(tv("t2"), tv("t3"))));
    assert_eq!(supply.fresh(), "t4");
}
