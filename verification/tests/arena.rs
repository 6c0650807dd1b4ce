use lambda::hindley_milner::rec_scheme::{
    FlatTerm, FlatTermRef, FlatType, FlatTypeEnvironment, FlatTypeRef, RcTerm, RcType,
    Term as Layer, Type as TypeLayer,
};
use lambda::hindley_milner::{Term, Type, TypeError};
use std::rc::Rc;

fn var(x: &str) -> Term {
    Term::Variable(x.to_string())
}

fn abs(x: &str, body: Term) -> Term {
    Term::Abstraction(x.to_string(), Box::new(body))
}

fn app(f: Term, a: Term) -> Term {
    Term::Application(Box::new(f), Box::new(a))
}

fn let_in(x: &str, bound: Term, body: Term) -> Term {
    Term::Let(x.to_string(), Box::new(bound), Box::new(body))
}

fn tv(x: &str) -> Type {
    Type::Variable(x.to_string())
}

fn gv(x: &str) -> Type {
    Type::GenVariable(x.to_string())
}

fn func(a: Type, b: Type) -> Type {
    Type::Fn(Box::new(a), Box::new(b))
}

fn same(a: &Term, b: &Term) -> bool {
    match (a, b) {
        (Term::Variable(x), Term::Variable(y)) => x == y,
        (Term::Abstraction(x, t), Term::Abstraction(y, u)) => x == y && same(t, u),
        (Term::Application(t1, u1), Term::Application(t2, u2)) => same(t1, t2) && same(u1, u2),
        (Term::Let(x, b1, t1), Term::Let(y, b2, t2)) => x == y && same(b1, b2) && same(t1, t2),
        _ => false,
    }
}

/// Whether the types are equal up to a one-to-one renaming of their variables.
fn variants(a: &Type, b: &Type) -> bool {
    fn walk(a: &Type, b: &Type, pairs: &mut Vec<(String, String)>) -> bool {
        match (a, b) {
            (Type::Variable(x), Type::Variable(y)) => {
                for (p, q) in pairs.iter() {
                    if p == x || q == y {
                        return p == x && q == y;
                    }
                }
                pairs.push((x.clone(), y.clone()));
                true
            }
            (Type::GenVariable(x), Type::GenVariable(y)) => x == y,
            (Type::Fn(a1, b1), Type::Fn(a2, b2)) => walk(a1, a2, pairs) && walk(b1, b2, pairs),
            _ => false,
        }
    }
    walk(a, b, &mut Vec::new())
}

fn sample_terms() -> Vec<Term> {
    vec![
        abs("x", var("x")),
        abs("x", abs("y", var("x"))),
        abs("x", abs("y", abs("z", app(app(var("x"), var("z")), app(var("y"), var("z")))))),
        abs("x", app(var("x"), var("x"))),
        var("y"),
        let_in("id", abs("x", var("x")), app(var("id"), var("id"))),
        app(abs("id", app(var("id"), var("id"))), abs("x", var("x"))),
        abs("f", abs("x", app(var("f"), app(var("f"), var("x"))))),
        let_in(
            "k",
            abs("x", abs("y", var("x"))),
            app(app(var("k"), abs("z", var("z"))), var("k")),
        ),
        abs("x", let_in("y", var("x"), app(var("y"), var("y")))),
    ]
}

#[test]
fn ref_eq_compares_places() {
    let a = FlatTermRef { idx: 3 };
    assert!(a.ref_eq(FlatTypeRef { idx: 3 }));
    assert!(!a.ref_eq(FlatTypeRef { idx: 4 }));
    let b = FlatTypeRef { idx: 0 };
    assert!(b.ref_eq(FlatTypeRef { idx: 0 }));
    assert!(!b.ref_eq(FlatTypeRef { idx: 1 }));
}

#[test]
fn tree_to_arena_gives_every_occurrence_a_place() {
    let tree = app(abs("x", var("x")), abs("x", var("x")));
    let flat = FlatTerm::from_tree(tree.clone());
    assert_eq!(flat.len(), 5);
    assert_eq!(flat.root().idx, 4);
    match flat.node(flat.root()) {
        Layer::App { lhs, rhs } => {
            assert_eq!(lhs.idx, 1);
            assert_eq!(rhs.idx, 3);
        }
        other => panic!("expected an application, got {:?}", other),
    }
    assert!(matches!(flat.node(FlatTermRef { idx: 0 }), Layer::Var(x) if x == "x"));
    assert!(same(&flat.to_tree(), &tree));
}

#[test]
fn tree_arena_tree_round_trip_is_the_identity() {
    for tree in sample_terms() {
        let back = FlatTerm::from_tree(tree.clone()).to_tree();
        assert!(same(&back, &tree));
        assert!(back.alpha_equivalent(&tree));
    }
}

#[test]
fn children_come_before_their_parents() {
    for tree in sample_terms() {
        let flat = FlatTerm::from_tree(tree);
        for i in 0..flat.len() {
            match flat.node(FlatTermRef { idx: i }) {
                Layer::Var(_) => {}
                Layer::App { lhs, rhs } => assert!(lhs.idx < i && rhs.idx < i),
                Layer::Abs { body, .. } => assert!(body.idx < i),
                Layer::Let { expr, body, .. } => assert!(expr.idx < i && body.idx < i),
            }
        }
    }
}

#[test]
fn shared_graph_to_arena_keeps_what_is_shared() {
    let id = Rc::new(RcTerm::Abs { var: "x".to_string(), body: Rc::new(RcTerm::Var("x".to_string())) });
    let graph = RcTerm::App { lhs: id.clone(), rhs: id.clone() };
    let flat = FlatTerm::from_shared(graph);
    // The shared function has one place, which both children of the root name.
    assert_eq!(flat.len(), 3);
    match flat.node(flat.root()) {
        Layer::App { lhs, rhs } => {
            assert_eq!(lhs.idx, 1);
            assert_eq!(rhs.idx, 1);
        }
        other => panic!("expected an application, got {:?}", other),
    }
    let tree = app(abs("x", var("x")), abs("x", var("x")));
    assert!(same(&flat.to_tree(), &tree));
}

#[test]
fn equal_but_unshared_nodes_are_not_merged() {
    let one = Rc::new(RcTerm::Var("x".to_string()));
    let other = Rc::new(RcTerm::Var("x".to_string()));
    let flat = FlatTerm::from_shared(RcTerm::App { lhs: one, rhs: other });
    assert_eq!(flat.len(), 3);
}

#[test]
fn arena_to_shared_graph_shares_what_has_one_place() {
    let id = Rc::new(RcTerm::Abs { var: "x".to_string(), body: Rc::new(RcTerm::Var("x".to_string())) });
    let flat = FlatTerm::from_shared(RcTerm::App { lhs: id.clone(), rhs: id });
    match RcTerm::from_flat(flat) {
        RcTerm::App { lhs, rhs } => assert!(Rc::ptr_eq(&lhs, &rhs)),
        other => panic!("expected an application, got {:?}", other),
    }
}

#[test]
fn tree_graph_arena_graph_round_trip_keeps_the_term() {
    for tree in sample_terms() {
        let graph = RcTerm::from_tree(tree.clone());
        let flat = FlatTerm::from_shared(graph);
        let back = RcTerm::from_flat(flat);
        let flat_again = FlatTerm::from_shared(back.clone());
        assert!(same(&flat_again.to_tree(), &tree));
        assert!(flat_again.to_tree().alpha_equivalent(&tree));
    }
}

#[test]
fn flat_type_round_trips() {
    let ty = func(func(tv("a"), gv("g")), func(tv("a"), tv("b")));
    let flat = FlatType::from_tree(ty.clone());
    assert_eq!(flat.len(), 7);
    assert_eq!(flat.root().idx, 6);
    assert!(matches!(flat.node(flat.root()), TypeLayer::Fn { lhs, rhs } if lhs.idx == 2 && rhs.idx == 5));
    assert_eq!(flat.to_tree(), ty);
    let graph = RcType::from_tree(ty.clone());
    assert_eq!(FlatType::from_shared(graph).to_tree(), ty);
}

#[test]
fn flat_type_keeps_shared_nodes_shared() {
    let a = Rc::new(RcType::Var("a".to_string()));
    let pair = Rc::new(RcType::Fn { lhs: a.clone(), rhs: a.clone() });
    let flat = FlatType::from_shared(RcType::Fn { lhs: pair.clone(), rhs: pair });
    assert_eq!(flat.len(), 3);
    let ty = func(func(tv("a"), tv("a")), func(tv("a"), tv("a")));
    assert_eq!(flat.to_tree(), ty);
    match RcType::from_flat(flat) {
        RcType::Fn { lhs, rhs } => {
            assert!(Rc::ptr_eq(&lhs, &rhs));
            assert!(matches!(&*lhs, RcType::Fn { lhs, rhs } if Rc::ptr_eq(lhs, rhs)));
        }
        other => panic!("expected a function type, got {:?}", other),
    }
    let unshared = FlatType::from_shared(RcType::from_tree(ty));
    assert_eq!(unshared.len(), 7);
}

#[test]
fn arena_infers_the_identity() {
    let flat = FlatTerm::from_tree(abs("x", var("x")));
    let ty = flat.type_closed().unwrap().to_tree();
    assert_eq!(ty, func(tv("t0"), tv("t0")));
}

#[test]
fn arena_rejects_self_application() {
    let flat = FlatTerm::from_tree(abs("x", app(var("x"), var("x"))));
    match flat.type_closed() {
        Err(TypeError::OccursCheckFailure(v, ty)) => {
            assert_eq!(v, "t0");
            assert_eq!(ty, func(tv("t0"), tv("t1")));
        }
        other => panic!("expected an occurs-check failure, got {:?}", other.map(|t| t.to_tree())),
    }
}

#[test]
fn arena_reports_an_unbound_variable() {
    let flat = FlatTerm::from_tree(var("y"));
    assert!(matches!(flat.type_closed(), Err(TypeError::UnboundVariable(name)) if name == "y"));
}

#[test]
fn arena_types_let_polymorphism() {
    let term = let_in("id", abs("x", var("x")), app(var("id"), var("id")));
    let ty = FlatTerm::from_tree(term).type_closed().unwrap().to_tree();
    assert!(variants(&ty, &func(tv("a"), tv("a"))));
    let mono = app(abs("id", app(var("id"), var("id"))), abs("x", var("x")));
    assert!(FlatTerm::from_tree(mono).type_closed().is_err());
}

#[test]
fn arena_does_not_generalise_what_the_environment_holds() {
    let term = abs("x", let_in("y", var("x"), app(var("y"), var("y"))));
    assert!(FlatTerm::from_tree(term).type_closed().is_err());
}

#[test]
fn both_strategies_agree_on_the_samples() {
    for tree in sample_terms() {
        let by_tree = tree.type_closed();
        let by_arena = FlatTerm::from_tree(tree.clone()).type_closed();
        match (by_tree, by_arena) {
            (Ok(a), Ok(b)) => assert!(variants(&a, &b.to_tree()), "{:?}", tree),
            (Err(_), Err(_)) => {}
            (a, b) => panic!("{:?}: {:?} against {:?}", tree, a, b.map(|t| t.to_tree())),
        }
    }
}

#[test]
fn arena_unify_binds_in_the_whole_arena_at_once() {
    let mut env = FlatTypeEnvironment::new();
    let a = env.new_var();
    let b = env.new_var();
    let c = env.new_var();
    let ab = env.insert_type(TypeLayer::Fn { lhs: a, rhs: b });
    let cc = env.insert_type(TypeLayer::Fn { lhs: c, rhs: c });
    let other = env.insert_type(TypeLayer::Fn { lhs: a, rhs: ab });
    env.unify(ab, cc).unwrap();
    assert_eq!(env.tree_of(ab), env.tree_of(cc));
    assert_eq!(env.tree_of(a), env.tree_of(b));
    let bound = env.tree_of(a);
    assert_eq!(env.tree_of(other), func(bound.clone(), func(bound.clone(), bound)));
}

#[test]
fn arena_unify_reports_the_failure() {
    let mut env = FlatTypeEnvironment::new();
    let a = env.new_var();
    let b = env.new_var();
    let ab = env.insert_type(TypeLayer::Fn { lhs: a, rhs: b });
    match env.unify(a, ab) {
        Err(TypeError::OccursCheckFailure(v, ty)) => {
            assert_eq!(v, "t0");
            assert_eq!(ty, func(tv("t0"), tv("t1")));
        }
        other => panic!("expected an occurs-check failure, got {:?}", other),
    }
    let g = env.insert_type(TypeLayer::GenVar("g".to_string()));
    assert!(matches!(env.unify(g, ab), Err(TypeError::UnificationMismatch(_, _))));
    let h = env.insert_type(TypeLayer::GenVar("g".to_string()));
    assert!(env.unify(g, h).is_ok());
}

#[test]
fn arena_instantiate_and_generalise() {
    let mut env = FlatTypeEnvironment::new();
    let a = env.new_var();
    let b = env.new_var();
    let ab = env.insert_type(TypeLayer::Fn { lhs: a, rhs: b });
    env.push_binding("x".to_string(), a);
    let scheme = env.generalise(ab);
    assert_eq!(env.tree_of(scheme), func(tv("t0"), gv("t1")));
    env.push_binding("f".to_string(), scheme);
    let name = "f".to_string();
    let first = env.instantiate(&name).unwrap();
    let second = env.instantiate(&name).unwrap();
    assert_eq!(env.tree_of(first), func(tv("t0"), tv("t2")));
    assert_eq!(env.tree_of(second), func(tv("t0"), tv("t3")));
    assert!(env.instantiate(&"g".to_string()).is_none());
    let free = env.free_vars();
    assert_eq!(free.len(), 1);
    assert!(free.contains("t0"));
    assert_eq!(env.pop_binding().map(|p| p.idx), Some(scheme.idx));
    assert_eq!(env.get_flat_ty(first).to_tree(), func(tv("t0"), tv("t2")));
    assert_eq!(env.vars(second).len(), 2);
    assert_eq!(env.gen_vars(scheme).len(), 1);
}

#[test]
fn strategies_differ_where_let_binds_a_type_with_an_open_equation() {
    // In λz. let f = (λx. x) z in f f the type of f is that of z. The inference by
    // constraints generalises it before the equation that says so is solved; the inference
    // that unifies as it goes knows it when it generalises.
    let term = abs(
        "z",
        let_in("f", app(abs("x", var("x")), var("z")), app(var("f"), var("f"))),
    );
    assert!(term.type_closed().is_ok());
    assert!(FlatTerm::from_tree(term).type_closed().is_err());
    // In let f = (λx. x) (λy. y) in f f both succeed, with types of different shape.
    let term = let_in(
        "f",
        app(abs("x", var("x")), abs("y", var("y"))),
        app(var("f"), var("f")),
    );
    let by_tree = term.type_closed().unwrap();
    let by_arena = FlatTerm::from_tree(term).type_closed().unwrap().to_tree();
    assert!(matches!(by_tree, Type::Variable(_)));
    assert!(variants(&by_arena, &func(tv("a"), tv("a"))));
}

#[test]
fn flat_terms_and_types_are_copied_with_their_places() {
    let flat = FlatTerm::from_tree(app(abs("x", var("x")), var("y")));
    let copy = flat.clone();
    assert_eq!(copy.len(), flat.len());
    assert!(same(&copy.to_tree(), &flat.to_tree()));
    let ty = FlatType::from_tree(func(tv("a"), gv("b")));
    assert_eq!(ty.clone().to_tree(), func(tv("a"), gv("b")));
    let env = FlatTypeEnvironment::default();
    assert!(env.free_vars().is_empty());
}

#[test]
fn a_flattened_tree_refers_to_every_place_once() {
    // Both occurrences of `a` get a place of their own.
    let flat = FlatTerm::from(app(var("a"), var("a")));
    assert_eq!(flat.len(), 3);
    assert!(matches!(flat.node(FlatTermRef { idx: 0 }), Layer::Var(v) if v == "a"));
    assert!(matches!(flat.node(FlatTermRef { idx: 1 }), Layer::Var(v) if v == "a"));
    assert!(matches!(
        flat.node(FlatTermRef { idx: 2 }),
        Layer::App { lhs, rhs } if lhs.idx == 0 && rhs.idx == 1
    ));
    // A definition is written as what it binds, then its body, then itself.
    let flat = FlatTerm::from(let_in("f", abs("x", var("x")), app(var("f"), var("y"))));
    assert_eq!(flat.len(), 6);
    assert!(matches!(
        flat.node(FlatTermRef { idx: 1 }),
        Layer::Abs { var, body } if var == "x" && body.idx == 0
    ));
    assert!(matches!(
        flat.node(FlatTermRef { idx: 4 }),
        Layer::App { lhs, rhs } if lhs.idx == 2 && rhs.idx == 3
    ));
    assert!(matches!(
        flat.node(FlatTermRef { idx: 5 }),
        Layer::Let { var, expr, body } if var == "f" && expr.idx == 1 && body.idx == 4
    ));
    let flat = FlatType::from(func(func(tv("a"), gv("b")), tv("a")));
    assert_eq!(flat.len(), 5);
    assert!(matches!(
        flat.node(FlatTypeRef { idx: 2 }),
        TypeLayer::Fn { lhs, rhs } if lhs.idx == 0 && rhs.idx == 1
    ));
    assert!(matches!(
        flat.node(FlatTypeRef { idx: 4 }),
        TypeLayer::Fn { lhs, rhs } if lhs.idx == 2 && rhs.idx == 3
    ));
}

#[test]
fn conversions_by_from_are_the_named_ones() {
    for term in sample_terms() {
        let flat = FlatTerm::from(term.clone());
        assert!(same(&flat.to_tree(), &term));
        let graph = RcTerm::from(FlatTerm::from(RcTerm::from_tree(term.clone())));
        assert!(same(&FlatTerm::from(graph).to_tree(), &term));
    }
    let ty = func(tv("a"), func(gv("b"), tv("a")));
    let graph = RcType::from(FlatType::from(RcType::from_tree(ty.clone())));
    assert!(FlatType::from(graph).to_tree() == ty);
}

#[test]
fn a_failed_inference_leaves_the_bindings_as_they_were() {
    let mut env = FlatTypeEnvironment::new();
    let place = env.new_var();
    env.push_binding("f".to_string(), place);
    // The failure comes under two binders, each of which has pushed a binding.
    let term = abs("x", abs("y", app(var("x"), var("missing"))));
    let flat = FlatTerm::from(term);
    let root = flat.root();
    let result = flat.type_in(root, &mut env);
    assert!(matches!(result, Err(TypeError::UnboundVariable(ref v)) if v == "missing"));
    assert!(env.find_binding(&"x".to_string()).is_none());
    assert!(env.find_binding(&"y".to_string()).is_none());
    assert!(matches!(env.find_binding(&"f".to_string()), Some(p) if p.idx == place.idx));
    // No place is lost and no meta-variable is handed out again.
    let next = env.new_var();
    assert_eq!(next.idx, 3);
    assert_eq!(env.tree_of(next), tv("t3"));
    assert_eq!(env.tree_of(place), tv("t0"));
}

#[test]
fn strategies_agree_where_a_let_binds_an_application_to_an_unused_name() {
    let term = abs(
        "f",
        abs("x", abs("z", let_in("y", app(var("f"), var("x")), var("z")))),
    );
    let by_tree = term.type_closed().unwrap();
    let by_arena = FlatTerm::from_tree(term).type_closed().unwrap().to_tree();
    assert!(variants(&by_tree, &by_arena));
    assert!(variants(
        &by_arena,
        &func(func(tv("a"), tv("b")), func(tv("a"), func(tv("c"), tv("c"))))
    ));
    // Where the name is used, the strategies part: the inference by constraints has
    // generalised the type of y before the equation that ties it to x is solved.
    let term = abs("x", let_in("y", app(abs("z", var("z")), var("x")), var("y")));
    let by_tree = term.type_closed().unwrap();
    let by_arena = FlatTerm::from_tree(term).type_closed().unwrap().to_tree();
    assert!(variants(&by_arena, &func(tv("a"), tv("a"))));
    assert!(variants(&by_tree, &func(tv("a"), tv("b"))));
}
