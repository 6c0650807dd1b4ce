use lambda::hindley_milner::{join, proof_lines, type_deriv, Proof, Term, Type, TypeError};

fn var(x: &str) -> Term {
    Term::Variable(x.to_string())
}

fn abs(x: &str, body: Term) -> Term {
    Term::Abstraction(x.to_string(), Box::new(body))
}

fn app(f: Term, a: Term) -> Term {
    Term::Application(Box::new(f), Box::new(a))
}

fn let_in(x: &str, bound: Term, body: Term) -> Term {
    Term::Let(x.to_string(), Box::new(bound), Box::new(body))
}

fn tv(x: &str) -> Type {
    Type::Variable(x.to_string())
}

fn gv(x: &str) -> Type {
    Type::GenVariable(x.to_string())
}

fn func(a: Type, b: Type) -> Type {
    Type::Fn(Box::new(a), Box::new(b))
}

fn mentions(proof: &Proof, name: &str) -> bool {
    fn in_type(ty: &Type, name: &str) -> bool {
        match ty {
            Type::Variable(v) | Type::GenVariable(v) => v == name,
            Type::Fn(a, b) => in_type(a, name) || in_type(b, name),
        }
    }
    in_type(&proof.conclusion.rhs.1, name)
        || proof.conclusion.lhs.iter().any(|(_, ty)| in_type(ty, name))
        || proof.premises.iter().any(|p| mentions(p, name))
}

#[test]
fn derivation_of_the_identity() {
    let proof = type_deriv(&abs("x", var("x")), &Vec::new()).unwrap();
    assert_eq!(proof.rule, "Abs");
    assert_eq!(proof.premises.len(), 1);
    assert!(proof.conclusion.lhs.is_empty());
    assert_eq!(proof.conclusion.rhs.1, func(tv("t0"), tv("t0")));
    assert_eq!(proof.ty(), &func(tv("t0"), tv("t0")));
    let premise = &proof.premises[0];
    assert_eq!(premise.rule, "Var");
    assert!(premise.premises.is_empty());
    assert_eq!(premise.conclusion.lhs, vec![("x".to_string(), tv("t0"))]);
    assert_eq!(premise.conclusion.rhs.1, tv("t0"));
}

#[test]
fn derivation_of_the_identity_is_laid_out() {
    let proof = type_deriv(&abs("x", var("x")), &Vec::new()).unwrap();
    let lines = proof_lines(&proof);
    assert_eq!(
        lines,
        vec![
            "     ───────────── [Var]",
            "     x: t0 ⊢ x: t0      ",
            "────────────────── [Abs]",
            " ⊢ λx. x: t0 -> t0      ",
        ]
    );
    assert_eq!(proof.to_string(), lines.join("\n"));
}

#[test]
fn premises_stand_side_by_side_over_the_rule() {
    let env = vec![("f".to_string(), func(tv("a"), tv("b")))];
    let proof = type_deriv(&abs("y", app(var("f"), var("y"))), &env).unwrap();
    let expected = [
        "──────────────────────────────── [Var]  ────────────────────────── [Var]      ",
        "f: t0 -> t1, y: t0 ⊢ f: t0 -> t1        f: t0 -> t1, y: t0 ⊢ y: t0            ",
        "──────────────────────────────────────────────────────────────────────── [App]",
        "                      f: t0 -> t1, y: t0 ⊢ f y: t1                            ",
        "──────────────────────────────────────────────────────────────────────── [Abs]",
        "                    f: t0 -> t1 ⊢ λy. f y: t0 -> t1                           ",
    ];
    assert_eq!(proof.to_string(), expected.join("\n"));
}

#[test]
fn every_judgement_shows_the_resolved_types() {
    let env = vec![("f".to_string(), func(tv("a"), tv("b")))];
    let proof = type_deriv(&abs("y", app(var("f"), var("y"))), &env).unwrap();
    assert!(!mentions(&proof, "a"));
    assert!(!mentions(&proof, "b"));
    assert!(!mentions(&proof, "t2"));
    assert_eq!(proof.conclusion.rhs.1, func(tv("t0"), tv("t1")));
}

#[test]
fn let_generalises_and_each_use_instantiates() {
    let term = let_in("id", abs("x", var("x")), app(var("id"), var("id")));
    let proof = type_deriv(&term, &Vec::new()).unwrap();
    assert_eq!(proof.rule, "Let");
    assert_eq!(proof.conclusion.rhs.1, func(tv("t2"), tv("t2")));
    assert_eq!(proof.premises.len(), 2);
    let bound = &proof.premises[0];
    assert_eq!(bound.rule, "Gen");
    assert_eq!(bound.conclusion.rhs.1, func(gv("t0"), gv("t0")));
    assert_eq!(bound.premises.len(), 1);
    assert_eq!(bound.premises[0].rule, "Abs");
    assert_eq!(bound.premises[0].conclusion.rhs.1, func(tv("t0"), tv("t0")));
    let body = &proof.premises[1];
    assert_eq!(body.rule, "App");
    assert_eq!(body.premises.len(), 2);
    for use_of_id in &body.premises {
        assert_eq!(use_of_id.rule, "Inst");
        assert_eq!(use_of_id.premises.len(), 1);
        assert_eq!(use_of_id.premises[0].rule, "Var");
        assert_eq!(use_of_id.premises[0].conclusion.rhs.1, func(gv("t0"), gv("t0")));
    }
    assert_eq!(
        body.premises[0].conclusion.rhs.1,
        func(func(tv("t2"), tv("t2")), func(tv("t2"), tv("t2")))
    );
    assert_eq!(body.premises[1].conclusion.rhs.1, func(tv("t2"), tv("t2")));
}

#[test]
fn no_gen_step_where_nothing_is_generalised() {
    let term = abs("x", let_in("y", var("x"), var("y")));
    let proof = type_deriv(&term, &Vec::new()).unwrap();
    assert_eq!(proof.rule, "Abs");
    let let_step = &proof.premises[0];
    assert_eq!(let_step.rule, "Let");
    assert_eq!(let_step.premises[0].rule, "Var");
    assert_eq!(let_step.premises[1].rule, "Var");
    assert_eq!(proof.conclusion.rhs.1, func(tv("t0"), tv("t0")));
}

#[test]
fn derivation_fails_as_inference_does() {
    match type_deriv(&var("y"), &Vec::new()) {
        Err(TypeError::UnboundVariable(name)) => assert_eq!(name, "y"),
        other => panic!("expected an unbound variable, got {:?}", other),
    }
    match type_deriv(&abs("x", app(var("x"), var("x"))), &Vec::new()) {
        Err(TypeError::OccursCheckFailure(v, ty)) => {
            assert_eq!(v, "t0");
            assert_eq!(ty, func(tv("t0"), tv("t1")));
        }
        other => panic!("expected an occurs-check failure, got {:?}", other),
    }
    let env = vec![("g".to_string(), gv("k")), ("h".to_string(), func(tv("a"), tv("a")))];
    assert!(type_deriv(&app(var("h"), var("h")), &env).is_err());
}

#[test]
fn judgement_as_text() {
    let env = vec![("f".to_string(), func(tv("a"), tv("b")))];
    let proof = type_deriv(&abs("y", app(var("f"), var("y"))), &env).unwrap();
    assert_eq!(proof.conclusion.to_string(), "f: t0 -> t1 ⊢ λy. f y: t0 -> t1");
    assert_eq!(proof.conclusion.typing_to_string(), "λy. f y: t0 -> t1");
    assert_eq!(
        proof.conclusion.to_stacked_string(),
        "f: t0 -> t1\n─────────────────\nλy. f y: t0 -> t1"
    );
    let premise = &proof.premises[0];
    assert_eq!(premise.conclusion.to_string(), "f: t0 -> t1, y: t0 ⊢ f y: t1");
    assert_eq!(
        premise.conclusion.to_stacked_string(),
        "f: t0 -> t1  y: t0\n──────────────────\nf y: t1"
    );
}

#[test]
fn substituting_a_derivation_rewrites_every_judgement() {
    let proof = type_deriv(&abs("x", var("x")), &Vec::new()).unwrap();
    let mut mapping = lambda::hindley_milner::Substitution::new();
    mapping.insert("t0".to_string(), func(tv("a"), tv("a")));
    let rewritten = proof.substitute(&mapping);
    let a_to_a = func(tv("a"), tv("a"));
    assert_eq!(rewritten.rule, "Abs");
    assert_eq!(rewritten.conclusion.rhs.1, func(a_to_a.clone(), a_to_a.clone()));
    assert_eq!(rewritten.premises[0].conclusion.lhs, vec![("x".to_string(), a_to_a.clone())]);
    assert_eq!(rewritten.premises[0].conclusion.rhs.1, a_to_a);
    let judgement = proof.conclusion.substitute(&mapping);
    assert_eq!(judgement.to_string(), " ⊢ λx. x: (a -> a) -> a -> a");
}

#[test]
fn join_aligns_blocks_at_the_bottom() {
    let blocks = vec![
        vec!["a".to_string()],
        vec!["bb".to_string(), "cc".to_string()],
        vec!["d".to_string()],
    ];
    assert_eq!(join(&blocks), vec!["   bb   ", "a  cc  d"]);
    assert!(join(&Vec::new()).is_empty());
    assert_eq!(join(&vec![vec!["only".to_string()]]), vec!["only"]);
}

#[test]
fn derivations_are_compared_up_to_the_names_of_binders() {
    let one = type_deriv(&abs("x", var("x")), &Vec::new()).unwrap();
    let same = type_deriv(&abs("x", var("x")), &Vec::new()).unwrap();
    assert_eq!(one, same);
    assert_eq!(one.clone(), one);
    assert_eq!(one.conclusion.clone(), one.conclusion);
    let other = type_deriv(&abs("x", abs("y", var("x"))), &Vec::new()).unwrap();
    assert_ne!(one, other);
    // The conclusions of the two derivations differ only in the name of the binder; the
    // premises differ in the name that the environment binds.
    let renamed = type_deriv(&abs("y", var("y")), &Vec::new()).unwrap();
    assert_eq!(one.conclusion, renamed.conclusion);
    assert_ne!(one, renamed);
}

#[test]
fn type_errors_are_compared_by_what_they_hold() {
    let first = type_deriv(&var("y"), &Vec::new()).unwrap_err();
    assert_eq!(first, TypeError::UnboundVariable("y".to_string()));
    assert_ne!(first, TypeError::UnboundVariable("z".to_string()));
    assert_eq!(first.clone(), first);
    let occurs = type_deriv(&abs("x", app(var("x"), var("x"))), &Vec::new()).unwrap_err();
    assert_eq!(occurs, TypeError::OccursCheckFailure("t0".to_string(), func(tv("t0"), tv("t1"))));
    assert_ne!(occurs, TypeError::UnificationMismatch(tv("t0"), func(tv("t0"), tv("t1"))));
}

#[test]
fn the_final_bindings_change_nothing_in_a_finished_derivation() {
    // The identity applied to itself: the first premise is typed before the argument is
    // seen, and has to show what the application finds out.
    let term = let_in("id", abs("x", var("x")), app(var("id"), abs("y", var("y"))));
    let proof = type_deriv(&term, &Vec::new()).unwrap();
    let application = &proof.premises[1];
    let function = &application.premises[0];
    let argument = &application.premises[1];
    match (&function.conclusion.rhs.1, &argument.conclusion.rhs.1) {
        (Type::Fn(domain, codomain), given) => {
            assert_eq!(&**domain, given);
            assert_eq!(&**codomain, &application.conclusion.rhs.1);
        }
        other => panic!("expected a function type, got {:?}", other),
    }
    assert_eq!(proof.conclusion.rhs.1, application.conclusion.rhs.1);
}
