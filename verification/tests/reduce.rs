use lambda::hindley_milner::Term;

fn var(x: &str) -> Term {
    Term::Variable(x.to_string())
}

fn abs(x: &str, body: Term) -> Term {
    Term::Abstraction(x.to_string(), Box::new(body))
}

fn app(f: Term, a: Term) -> Term {
    Term::Application(Box::new(f), Box::new(a))
}

fn let_in(x: &str, bound: Term, body: Term) -> Term {
    Term::Let(x.to_string(), Box::new(bound), Box::new(body))
}

fn same(a: &Term, b: &Term) -> bool {
    match (a, b) {
        (Term::Variable(x), Term::Variable(y)) => x == y,
        (Term::Abstraction(x, t), Term::Abstraction(y, u)) => x == y && same(t, u),
        (Term::Application(t1, u1), Term::Application(t2, u2)) => same(t1, t2) && same(u1, u2),
        (Term::Let(x, b1, t1), Term::Let(y, b2, t2)) => x == y && same(b1, b2) && same(t1, t2),
        _ => false,
    }
}

fn normal_form(term: &Term) -> Term {
    let mut result = term.clone();
    let mut steps = 0;
    while let Some(next) = result.beta_reduce_lazy() {
        result = next;
        steps += 1;
        assert!(steps < 1000);
    }
    while let Some(next) = result.eta_reduce_lazy() {
        result = next;
    }
    result
}

#[test]
fn beta_reduces_the_left_outermost_redex() {
    let id = abs("x", var("x"));
    assert!(same(&app(id.clone(), var("y")).beta_reduce_lazy().unwrap(), &var("y")));
    let two = app(app(id.clone(), var("a")), app(id.clone(), var("b")));
    let once = two.beta_reduce_lazy().unwrap();
    assert!(same(&once, &app(var("a"), app(id.clone(), var("b")))));
    let twice = once.beta_reduce_lazy().unwrap();
    assert!(same(&twice, &app(var("a"), var("b"))));
    assert!(twice.beta_reduce_lazy().is_none());
    assert!(var("x").beta_reduce_lazy().is_none());
}

#[test]
fn beta_reduces_under_a_binder_and_unfolds_a_let() {
    let id = abs("x", var("x"));
    let under = abs("z", app(id.clone(), var("z")));
    assert!(same(&under.beta_reduce_lazy().unwrap(), &abs("z", var("z"))));
    let def = let_in("f", id.clone(), app(var("f"), var("f")));
    assert!(same(&def.beta_reduce_lazy().unwrap(), &app(id.clone(), id)));
}

#[test]
fn parallel_reduction_takes_every_redex_at_once() {
    let id = abs("x", var("x"));
    let two = app(app(id.clone(), var("a")), app(id.clone(), var("b")));
    assert!(same(&two.parallel_reduct().unwrap(), &app(var("a"), var("b"))));
    let nested = app(abs("x", app(id.clone(), var("x"))), app(id.clone(), var("c")));
    assert!(same(&nested.parallel_reduct().unwrap(), &var("c")));
    assert!(app(var("a"), var("b")).parallel_reduct().is_none());
    let def = let_in("f", app(id.clone(), var("k")), app(var("f"), app(id, var("f"))));
    assert!(same(&def.parallel_reduct().unwrap(), &app(var("k"), var("k"))));
}

#[test]
fn eta_reduces_a_function_that_only_passes_its_argument_on() {
    let eta = abs("x", app(var("f"), var("x")));
    assert!(same(&eta.eta_reduce_lazy().unwrap(), &var("f")));
    // The argument is used by the function itself: no redex.
    assert!(abs("x", app(var("x"), var("x"))).eta_reduce_lazy().is_none());
    assert!(abs("x", app(var("f"), var("y"))).eta_reduce_lazy().is_none());
    let inside = app(var("g"), abs("x", app(var("f"), var("x"))));
    assert!(same(&inside.eta_reduce_lazy().unwrap(), &app(var("g"), var("f"))));
    let def = let_in("h", abs("x", app(var("f"), var("x"))), var("h"));
    assert!(same(&def.eta_reduce_lazy().unwrap(), &let_in("h", var("f"), var("h"))));
}

#[test]
fn s_k_k_reduces_to_the_identity() {
    let s = abs(
        "x",
        abs("y", abs("z", app(app(var("x"), var("z")), app(var("y"), var("z"))))),
    );
    let k = abs("x", abs("y", var("x")));
    let skk = app(app(s, k.clone()), k);
    let result = normal_form(&skk);
    assert!(result.alpha_equivalent(&abs("v", var("v"))));
    assert_eq!(result.type_closed().unwrap().to_string(), "t0 -> t0");
}
