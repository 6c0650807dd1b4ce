use lambda::hindley_milner::{unify, unify_with, Substitution, Type, TypeError};
use lambda::names::{NameSet, NameSupply};

fn tv(x: &str) -> Type {
    Type::Variable(x.to_string())
}

fn gv(x: &str) -> Type {
    Type::GenVariable(x.to_string())
}

fn func(a: Type, b: Type) -> Type {
    Type::Fn(Box::new(a), Box::new(b))
}

fn mapping(entries: Vec<(&str, Type)>) -> Substitution {
    let mut m = Substitution::new();
    for (k, v) in entries {
        m.insert(k.to_string(), v);
    }
    m
}

#[test]
fn type_equality_is_structural() {
    assert_eq!(func(tv("a"), gv("b")), func(tv("a"), gv("b")));
    assert_ne!(tv("a"), gv("a"));
    assert_ne!(func(tv("a"), tv("b")), func(tv("b"), tv("a")));
    assert_eq!(func(tv("a"), tv("b")).clone(), func(tv("a"), tv("b")));
}

#[test]
fn substitute_rewrites_only_meta_variables() {
    let m = mapping(vec![("a", func(tv("c"), tv("c"))), ("g", tv("z"))]);
    let ty = func(tv("a"), func(gv("g"), func(gv("a"), tv("b"))));
    let expected = func(func(tv("c"), tv("c")), func(gv("g"), func(gv("a"), tv("b"))));
    assert_eq!(ty.substitute(&m), expected);
}

#[test]
fn gen_substitute_rewrites_only_schema_variables() {
    let m = mapping(vec![("a", tv("t9"))]);
    let ty = func(tv("a"), func(gv("a"), gv("b")));
    assert_eq!(ty.gen_substitute(&m), func(tv("a"), func(tv("t9"), gv("b"))));
}

#[test]
fn substitution_keeps_the_latest_binding() {
    let mut m = Substitution::new();
    assert!(m.is_empty());
    m.insert("a".to_string(), tv("b"));
    m.insert("a".to_string(), tv("c"));
    assert!(!m.is_empty());
    assert_eq!(m.get("a"), Some(&tv("c")));
    assert_eq!(m.get("b"), None);
    assert!(m.contains_key("a"));
    assert_eq!(m.keys().len(), 1);
    let copy = m.clone();
    assert_eq!(copy.get("a"), Some(&tv("c")));
}

#[test]
fn bind_values_applies_one_binding_to_every_bound_type() {
    let mut m = mapping(vec![("a", func(tv("b"), tv("c"))), ("d", tv("b"))]);
    m.bind_values("b", &gv("g"));
    assert_eq!(m.get("a"), Some(&func(gv("g"), tv("c"))));
    assert_eq!(m.get("d"), Some(&gv("g")));
    assert!(!m.contains_key("b"));
}

#[test]
fn vars_and_gen_vars_are_kept_apart() {
    let ty = func(tv("a"), func(gv("g"), func(tv("b"), func(gv("h"), gv("g")))));
    let vars = ty.vars();
    assert_eq!(vars.len(), 2);
    assert!(vars.contains("a") && vars.contains("b"));
    let gen = ty.gen_vars();
    assert_eq!(gen.len(), 2);
    assert_eq!(gen.get(0), "g");
    assert_eq!(gen.get(1), "h");
    assert!(ty.contains_var("a"));
    assert!(!ty.contains_var("g"));
    assert!(!ty.contains_var("z"));
}

#[test]
fn instantiate_gives_each_schema_variable_one_fresh_variable() {
    let scheme = func(gv("a"), func(gv("b"), func(gv("a"), tv("c"))));
    let mut supply = NameSupply::new();
    supply.fresh();
    let inst = scheme.instantiate(&mut supply);
    assert_eq!(inst, func(tv("t1"), func(tv("t2"), func(tv("t1"), tv("c")))));
    assert_eq!(supply.fresh(), "t3");
    let again = scheme.instantiate(&mut supply);
    assert_eq!(again, func(tv("t4"), func(tv("t5"), func(tv("t4"), tv("c")))));
}

#[test]
fn instantiate_leaves_a_type_without_schema_variables() {
    let ty = func(tv("a"), tv("b"));
    let mut supply = NameSupply::new();
    assert_eq!(ty.instantiate(&mut supply), ty);
    assert_eq!(supply.fresh(), "t0");
}

#[test]
fn generalise_spares_the_variables_of_the_environment() {
    let mut free = NameSet::new();
    free.insert("a".to_string());
    let ty = func(tv("a"), func(tv("b"), gv("c")));
    assert_eq!(ty.generalise(&free), func(tv("a"), func(gv("b"), gv("c"))));
    assert_eq!(ty.generalise(&NameSet::new()), func(gv("a"), func(gv("b"), gv("c"))));
}

#[test]
fn unify_of_nothing_binds_nothing() {
    assert!(unify(vec![]).unwrap().is_empty());
    assert!(unify(vec![(tv("a"), tv("a"))]).unwrap().is_empty());
}

#[test]
fn unify_binds_a_variable_on_either_side() {
    let m = unify(vec![(tv("a"), func(tv("b"), tv("c")))]).unwrap();
    assert_eq!(m.get("a"), Some(&func(tv("b"), tv("c"))));
    let m = unify(vec![(func(tv("b"), tv("c")), tv("a"))]).unwrap();
    assert_eq!(m.get("a"), Some(&func(tv("b"), tv("c"))));
    let m = unify(vec![(tv("a"), tv("b"))]).unwrap();
    assert_eq!(m.get("a"), Some(&tv("b")));
    assert_eq!(m.get("b"), None);
}

#[test]
fn unify_decomposes_function_types() {
    let m = unify(vec![(func(tv("a"), tv("b")), func(tv("c"), func(tv("d"), tv("d"))))]).unwrap();
    assert_eq!(m.get("a"), Some(&tv("c")));
    assert_eq!(m.get("b"), Some(&func(tv("d"), tv("d"))));
    assert_eq!(m.keys().len(), 2);
}

#[test]
fn unify_keeps_the_mapping_applied_to_itself() {
    // The last equation is taken first: a is bound to b -> b, then b to c, and the
    // binding of a has to follow.
    let m = unify(vec![(tv("b"), tv("c")), (tv("a"), func(tv("b"), tv("b")))]).unwrap();
    assert_eq!(m.get("a"), Some(&func(tv("c"), tv("c"))));
    assert_eq!(m.get("b"), Some(&tv("c")));
    let solved = func(tv("a"), tv("b")).substitute(&m);
    assert_eq!(solved, func(func(tv("c"), tv("c")), tv("c")));
}

#[test]
fn unify_applies_a_binding_to_the_equations_that_are_left() {
    // After a is bound to b, the first equation reads b = b -> c and fails the occurs check.
    let result = unify(vec![(tv("a"), func(tv("b"), tv("c"))), (tv("a"), tv("b"))]);
    match result {
        Err(TypeError::OccursCheckFailure(v, ty)) => {
            assert_eq!(v, "b");
            assert_eq!(ty, func(tv("b"), tv("c")));
        }
        other => panic!("expected an occurs-check failure, got {:?}", other),
    }
}

#[test]
fn unify_rejects_an_infinite_type() {
    match unify(vec![(tv("a"), func(tv("a"), tv("b")))]) {
        Err(TypeError::OccursCheckFailure(v, ty)) => {
            assert_eq!(v, "a");
            assert_eq!(ty, func(tv("a"), tv("b")));
        }
        other => panic!("expected an occurs-check failure, got {:?}", other),
    }
    match unify(vec![(func(tv("b"), tv("a")), tv("a"))]) {
        Err(TypeError::OccursCheckFailure(v, ty)) => {
            assert_eq!(v, "a");
            assert_eq!(ty, func(tv("b"), tv("a")));
        }
        other => panic!("expected an occurs-check failure, got {:?}", other),
    }
}

#[test]
fn unify_rejects_different_constructors() {
    match unify(vec![(gv("a"), func(tv("b"), tv("c")))]) {
        Err(TypeError::UnificationMismatch(l, r)) => {
            assert_eq!(l, gv("a"));
            assert_eq!(r, func(tv("b"), tv("c")));
        }
        other => panic!("expected a mismatch, got {:?}", other),
    }
    assert!(matches!(
        unify(vec![(gv("a"), gv("b"))]),
        Err(TypeError::UnificationMismatch(_, _))
    ));
    assert!(matches!(
        unify(vec![(func(tv("a"), tv("b")), gv("g"))]),
        Err(TypeError::UnificationMismatch(_, _))
    ));
}

#[test]
fn unify_binds_a_variable_to_a_schema_variable() {
    let m = unify(vec![(gv("g"), tv("a"))]).unwrap();
    assert_eq!(m.get("a"), Some(&gv("g")));
}

#[test]
fn unify_with_extends_the_given_mapping() {
    let known = mapping(vec![("x", func(tv("a"), tv("a")))]);
    let m = unify_with(vec![(tv("a"), tv("b"))], known).unwrap();
    assert_eq!(m.get("x"), Some(&func(tv("b"), tv("b"))));
    assert_eq!(m.get("a"), Some(&tv("b")));
}

#[test]
fn the_unifier_makes_both_sides_of_every_equation_equal() {
    let equations = vec![
        (func(tv("a"), tv("b")), func(tv("b"), func(tv("c"), tv("d")))),
        (tv("e"), func(tv("a"), tv("d"))),
        (func(tv("c"), tv("f")), func(tv("f"), tv("c"))),
    ];
    let solution = unify(equations.clone()).unwrap();
    for (lhs, rhs) in &equations {
        assert_eq!(lhs.substitute(&solution), rhs.substitute(&solution));
    }
    // Applied twice, the solution does what it does applied once.
    let once = tv("e").substitute(&solution);
    assert_eq!(once.substitute(&solution), once);
}

#[test]
fn every_other_solution_is_an_instance_of_the_unifier() {
    let equations = vec![(func(tv("a"), tv("b")), func(tv("b"), tv("c")))];
    let solution = unify(equations.clone()).unwrap();
    let other = mapping(vec![
        ("a", func(tv("z"), tv("z"))),
        ("b", func(tv("z"), tv("z"))),
        ("c", func(tv("z"), tv("z"))),
    ]);
    for name in ["a", "b", "c", "q"] {
        assert_eq!(
            tv(name).substitute(&solution).substitute(&other),
            tv(name).substitute(&other)
        );
    }
}

#[test]
fn the_order_of_the_equations_changes_only_names() {
    let first = (func(tv("a"), tv("b")), func(tv("b"), tv("c")));
    let second = (tv("d"), func(tv("a"), tv("c")));
    let one = unify(vec![first.clone(), second.clone()]).unwrap();
    let other = unify(vec![second, first]).unwrap();
    let ty = func(tv("d"), func(tv("a"), func(tv("b"), tv("c"))));
    let (x, y) = (ty.substitute(&one), ty.substitute(&other));
    // Both are d := v -> v, a := b := c := v for one variable v.
    match (&x, &y) {
        (Type::Fn(d1, rest1), Type::Fn(d2, rest2)) => {
            match (&**d1, &**rest1, &**d2, &**rest2) {
                (Type::Fn(p1, q1), Type::Fn(a1, _), Type::Fn(p2, q2), Type::Fn(a2, _)) => {
                    assert_eq!(p1, q1);
                    assert_eq!(p1, a1);
                    assert_eq!(p2, q2);
                    assert_eq!(p2, a2);
                    assert!(matches!(**p1, Type::Variable(_)));
                    assert!(matches!(**p2, Type::Variable(_)));
                }
                _ => panic!("unexpected shapes {:?} and {:?}", x, y),
            }
        }
        _ => panic!("unexpected shapes {:?} and {:?}", x, y),
    }
    assert!(unify(vec![(tv("a"), func(tv("a"), tv("b"))), (tv("c"), tv("d"))]).is_err());
    assert!(unify(vec![(tv("c"), tv("d")), (tv("a"), func(tv("a"), tv("b")))]).is_err());
}
