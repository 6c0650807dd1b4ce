use lambda::hindley_milner::Term;

fn var(x: &str) -> Term {
    Term::Variable(x.to_string())
}

fn abs(x: &str, body: Term) -> Term {
    Term::Abstraction(x.to_string(), Box::new(body))
}

fn app(f: Term, a: Term) -> Term {
    Term::Application(Box::new(f), Box::new(a))
}

fn let_in(x: &str, bound: Term, body: Term) -> Term {
    Term::Let(x.to_string(), Box::new(bound), Box::new(body))
}

fn same(a: &Term, b: &Term) -> bool {
    match (a, b) {
        (Term::Variable(x), Term::Variable(y)) => x == y,
        (Term::Abstraction(x, t), Term::Abstraction(y, u)) => x == y && same(t, u),
        (Term::Application(t1, u1), Term::Application(t2, u2)) => same(t1, t2) && same(u1, u2),
        (Term::Let(x, b1, t1), Term::Let(y, b2, t2)) => x == y && same(b1, b2) && same(t1, t2),
        _ => false,
    }
}

#[test]
fn vars_holds_binders_and_occurrences() {
    let t = let_in("f", abs("x", var("y")), app(var("f"), var("z")));
    let vars = t.vars();
    assert_eq!(vars.len(), 4);
    for name in ["f", "x", "y", "z"] {
        assert!(vars.contains(name));
    }
}

#[test]
fn free_vars_leaves_out_what_is_bound() {
    let t = let_in("f", abs("x", app(var("x"), var("f"))), app(var("f"), var("z")));
    let free = t.free_vars();
    assert_eq!(free.len(), 2);
    assert!(free.contains("f"));
    assert!(free.contains("z"));
    assert!(!free.contains("x"));
}

#[test]
fn rename_ignores_shadowing() {
    let t = abs("x", app(var("x"), abs("x", var("y"))));
    let renamed = t.rename("x", "w");
    assert!(same(&renamed, &abs("w", app(var("w"), abs("w", var("y"))))));
    assert!(same(&t.rename("q", "w"), &t));
}

#[test]
fn alpha_equivalence_ignores_the_names_of_binders() {
    assert!(abs("x", var("x")).alpha_equivalent(&abs("y", var("y"))));
    assert!(abs("x", abs("y", app(var("x"), var("y"))))
        .alpha_equivalent(&abs("a", abs("b", app(var("a"), var("b"))))));
    assert!(let_in("x", var("z"), var("x")).alpha_equivalent(&let_in("y", var("z"), var("y"))));
    assert!(abs("x", abs("x", var("x"))).alpha_equivalent(&abs("y", abs("z", var("z")))));
}

#[test]
fn alpha_equivalence_tells_free_names_apart() {
    assert!(!abs("x", var("y")).alpha_equivalent(&abs("y", var("y"))));
    assert!(!var("x").alpha_equivalent(&var("y")));
    assert!(!abs("x", abs("y", var("x"))).alpha_equivalent(&abs("x", abs("y", var("y")))));
    assert!(!abs("x", var("x")).alpha_equivalent(&app(var("x"), var("x"))));
    assert!(!let_in("x", var("a"), var("x")).alpha_equivalent(&abs("x", var("x"))));
}

#[test]
fn a_term_is_alpha_equivalent_to_its_copy_with_fresh_binders() {
    let t = abs("x", let_in("y", app(var("x"), var("f")), abs("x", app(var("y"), var("x")))));
    let copy = abs("p", let_in("q", app(var("p"), var("f")), abs("r", app(var("q"), var("r")))));
    assert!(t.alpha_equivalent(&copy));
    assert!(t.alpha_equivalent(&t.clone()));
}

#[test]
fn term_equality_is_alpha_equivalence() {
    assert_eq!(abs("x", var("x")), abs("y", var("y")));
    assert_ne!(abs("x", var("z")), abs("y", var("y")));
}

#[test]
fn substitute_replaces_free_occurrences() {
    let t = app(var("x"), var("y"));
    assert!(same(&t.substitute("x", &abs("z", var("z"))), &app(abs("z", var("z")), var("y"))));
    assert!(same(&var("y").substitute("x", &var("z")), &var("y")));
}

#[test]
fn substitute_stops_at_a_binder_of_the_name() {
    let t = abs("x", var("x"));
    assert!(same(&t.substitute("x", &var("z")), &t));
    // A let of the name binds it in its body, not in what it binds.
    let l = let_in("x", var("a"), var("x"));
    assert!(same(&l.substitute("x", &var("z")), &l));
    let l = let_in("x", var("x"), var("x"));
    assert!(same(&l.substitute("x", &var("z")), &let_in("x", var("z"), var("x"))));
}

#[test]
fn substitute_renames_binders_to_avoid_capture() {
    // (λy. x)[x := y] must not become λy. y.
    let t = abs("y", var("x"));
    let result = t.substitute("x", &var("y"));
    assert!(same(&result, &abs("x0", var("y"))));
    assert!(result.free_vars().contains("y"));
    assert!(result.alpha_equivalent(&abs("w", var("y"))));
}

#[test]
fn substitute_renames_nested_binders_one_by_one() {
    let t = abs("x0", abs("y", app(var("x"), var("y"))));
    let result = t.substitute("x", &var("y"));
    // The outer binder is renamed away from x0, y and x; the inner one away from the names
    // that are then in use.
    assert!(same(&result, &abs("x1", abs("x0", app(var("y"), var("x0"))))));
}

#[test]
fn substitute_in_let_reaches_both_parts() {
    let t = let_in("f", var("x"), app(var("f"), var("x")));
    let result = t.substitute("x", &var("k"));
    assert!(same(&result, &let_in("x0", var("k"), app(var("x0"), var("k")))));
}

#[test]
fn alpha_equivalence_is_symmetric_and_transitive() {
    let a = abs("x", abs("y", app(var("x"), app(var("y"), var("f")))));
    let b = abs("p", abs("q", app(var("p"), app(var("q"), var("f")))));
    let c = abs("y", abs("x", app(var("y"), app(var("x"), var("f")))));
    assert!(a.alpha_equivalent(&b) && b.alpha_equivalent(&a));
    assert!(b.alpha_equivalent(&c) && a.alpha_equivalent(&c));
    let d = abs("x", abs("y", app(var("y"), app(var("x"), var("f")))));
    assert!(!a.alpha_equivalent(&d) && !d.alpha_equivalent(&a));
}

#[test]
fn alpha_equivalent_terms_have_the_same_free_names() {
    let a = abs("x", app(var("x"), app(var("g"), var("h"))));
    let b = abs("g0", app(var("g0"), app(var("g"), var("h"))));
    assert!(a.alpha_equivalent(&b));
    let (fa, fb) = (a.free_vars(), b.free_vars());
    assert_eq!(fa.len(), 2);
    assert_eq!(fb.len(), 2);
    for name in ["g", "h"] {
        assert!(fa.contains(name) && fb.contains(name));
    }
}

#[test]
fn substitution_respects_alpha_equivalence() {
    let a = abs("y", app(var("x"), abs("z", app(var("z"), app(var("y"), var("x"))))));
    let b = abs("q", app(var("x"), abs("y", app(var("y"), app(var("q"), var("x"))))));
    assert!(a.alpha_equivalent(&b));
    let r = abs("k", app(var("k"), var("y")));
    let r2 = abs("m", app(var("m"), var("y")));
    assert!(r.alpha_equivalent(&r2));
    let left = a.substitute("x", &r);
    let right = b.substitute("x", &r2);
    assert!(left.alpha_equivalent(&right));
    // The free y of what is substituted stays free.
    assert!(left.free_vars().contains("y"));
    assert!(right.free_vars().contains("y"));
    assert!(!left.free_vars().contains("x"));
}

#[test]
fn substitution_under_a_let_of_the_same_name_reaches_what_it_binds() {
    // The let binds x in its body only: the x that it binds to is free and is replaced.
    let term = let_in("x", var("x"), var("x"));
    let result = term.substitute("x", &var("z"));
    assert!(same(&result, &let_in("x", var("z"), var("x"))));
    assert!(result.free_vars().contains("z"));
    assert!(!result.free_vars().contains("x"));
    assert_eq!(result.free_vars().len(), 1);
    // An alpha-equivalent term with another binder gives an alpha-equivalent result.
    let other = let_in("y", var("x"), var("y"));
    assert!(term.alpha_equivalent(&other));
    let through = other.substitute("x", &var("z"));
    assert!(same(&through, &let_in("x0", var("z"), var("x0"))));
    assert!(result.alpha_equivalent(&through));
    // A body in the scope of the let is left alone, also where it holds more.
    let scoped = let_in("x", app(var("x"), var("a")), app(var("x"), var("b")));
    assert!(same(
        &scoped.substitute("x", &var("z")),
        &let_in("x", app(var("z"), var("a")), app(var("x"), var("b")))
    ));
}

#[test]
fn the_free_names_of_a_substitution_are_those_kept_and_those_brought() {
    let term = app(abs("y", app(var("x"), var("y"))), app(var("x"), var("f")));
    let result = term.substitute("x", &app(var("y"), var("g")));
    let free = result.free_vars();
    assert_eq!(free.len(), 3);
    for name in ["f", "g", "y"] {
        assert!(free.contains(name));
    }
}
