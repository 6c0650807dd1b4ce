use lambda::hindley_milner::Term as Typed;
use lambda::untyped::compile::compile_toplevel;
use lambda::untyped::continuation::cps_convert;
use lambda::untyped::{abstraction, application, variable, Term};

fn members(term: &Term) -> Vec<String> {
    let names = term.free_vars();
    let mut out = Vec::new();
    let mut i = 0;
    while i < names.len() {
        out.push(names.get(i).clone());
        i += 1;
    }
    out
}

fn identity(x: &str) -> Term {
    abstraction(x, variable(x))
}

#[test]
fn untyped_builders_make_the_three_forms() {
    assert!(matches!(variable("x"), Term::Variable(ref v) if v == "x"));
    assert!(matches!(identity("x"), Term::Abstraction(ref v, ref b)
        if v == "x" && matches!(**b, Term::Variable(ref w) if w == "x")));
    assert!(matches!(application(variable("f"), variable("a")), Term::Application(ref f, ref a)
        if matches!(**f, Term::Variable(ref v) if v == "f")
            && matches!(**a, Term::Variable(ref v) if v == "a")));
}

#[test]
fn untyped_terms_are_equal_up_to_bound_names() {
    assert!(identity("x") == identity("y"));
    assert!(identity("x").alpha_equivalent(&identity("y")));
    assert!(variable("x") != variable("y"));
    assert!(abstraction("x", variable("y")) != abstraction("y", variable("y")));
}

#[test]
fn untyped_text_puts_brackets_where_they_are_needed() {
    let term = application(
        application(identity("x"), variable("a")),
        application(variable("f"), variable("b")),
    );
    assert_eq!(term.to_string(), "(λx. x) a (f b)");
    assert_eq!(abstraction("x", application(variable("x"), variable("y"))).to_string(), "λx. x y");
}

#[test]
fn untyped_free_names_come_in_the_order_of_the_walk() {
    let term = abstraction(
        "c",
        application(application(variable("b"), variable("c")), application(variable("a"), variable("b"))),
    );
    assert_eq!(members(&term), vec!["b".to_string(), "a".to_string()]);
    assert!(members(&identity("x")).is_empty());
    assert_eq!(term.vars().len(), 3);
}

#[test]
fn a_term_without_let_is_the_same_term_in_both_calculi() {
    let term = application(identity("x"), variable("a"));
    let typed = Typed::from(term.clone());
    assert_eq!(typed.to_string(), "(λx. x) a");
    assert!(matches!(typed, Typed::Application(_, _)));
    let back = Term::from(typed);
    assert_eq!(back.to_string(), "(λx. x) a");
    assert!(back == term);
}

#[test]
fn a_let_becomes_a_function_applied_to_what_it_binds() {
    let typed = Typed::Let(
        "x".to_string(),
        Box::new(Typed::Variable("a".to_string())),
        Box::new(Typed::Application(
            Box::new(Typed::Variable("x".to_string())),
            Box::new(Typed::Variable("x".to_string())),
        )),
    );
    let term = Term::from(typed);
    assert_eq!(term.to_string(), "(λx. x x) a");
}

#[test]
fn untyped_substitution_avoids_capture() {
    let term = abstraction("y", application(variable("x"), variable("y")));
    let result = term.substitute("x", &variable("y"));
    assert_eq!(members(&result), vec!["y".to_string()]);
    assert!(result == abstraction("z", application(variable("y"), variable("z"))));
    assert_eq!(term.rename("x", "w").to_string(), "λy. w y");
}

#[test]
fn untyped_reduction_steps() {
    let redex = application(identity("x"), variable("a"));
    assert_eq!(redex.beta_reduce_lazy().unwrap().to_string(), "a");
    assert!(variable("a").beta_reduce_lazy().is_none());
    let both = application(
        abstraction("x", application(variable("x"), variable("x"))),
        application(identity("y"), variable("b")),
    );
    assert_eq!(both.parallel_reduct().unwrap().to_string(), "b b");
    assert!(variable("a").parallel_reduct().is_none());
    let eta = abstraction("x", application(variable("f"), variable("x")));
    assert_eq!(eta.eta_reduce_lazy().unwrap().to_string(), "f");
    assert!(identity("x").eta_reduce_lazy().is_none());
}

#[test]
fn cps_hands_a_variable_to_the_continuation() {
    assert_eq!(cps_convert(&variable("x"), &variable("k")).to_string(), "k x");
}

#[test]
fn cps_gives_a_function_a_parameter_for_its_continuation() {
    assert_eq!(cps_convert(&identity("x"), &variable("k")).to_string(), "k (λx. λx0. x0 x)");
    assert_eq!(cps_convert(&identity("x0"), &variable("k")).to_string(), "k (λx0. λx1. x1 x0)");
}

#[test]
fn cps_names_the_function_and_the_argument_of_an_application() {
    let term = application(variable("f"), variable("a"));
    assert_eq!(
        cps_convert(&term, &variable("k")).to_string(),
        "(λx1. (λx0. x1 x0 k) a) f"
    );
}

#[test]
fn cps_of_an_applied_function_binds_its_parameter() {
    let term = application(identity("x"), variable("y"));
    assert_eq!(cps_convert(&term, &variable("k")).to_string(), "(λx. k x) y");
}

#[test]
fn the_identity_compiles_to_a_main_that_returns_its_argument() {
    let ast = compile_toplevel(&identity("x"));
    assert_eq!(
        format!("{:?}", ast),
        "Ast { type_defs: [], func_defs: [(\"main\", Func { args: [(\"x\", Any)], \
         ret_type: Any, body: [], ret: Read { path: Path { parts: [\"x\"] } } })] }"
    );
}

#[test]
fn an_inner_function_compiles_to_a_struct_and_a_function() {
    let ast = compile_toplevel(&abstraction("x", abstraction("y", variable("x"))));
    assert_eq!(
        format!("{:?}", ast.type_defs),
        "[(\"Closure0\", Struct { fields: [(\"code\", FnPtr), (\"x\", Any)] })]"
    );
    assert_eq!(ast.func_defs.len(), 2);
    assert_eq!(
        format!("{:?}", ast.func_defs[0]),
        "(\"closure_0\", Func { args: [(\"env\", Named { ident: \"Closure0\" }), (\"y\", Any)], \
         ret_type: Any, body: [], ret: Read { path: Path { parts: [\"env\", \"x\"] } } })"
    );
    assert_eq!(
        format!("{:?}", ast.func_defs[1]),
        "(\"main\", Func { args: [(\"x\", Any)], ret_type: Any, body: [], \
         ret: StructLit { name: \"Closure0\", fields: [(\"code\", Read { path: Path { parts: \
         [\"closure_0\"] } }), (\"x\", Read { path: Path { parts: [\"x\"] } })] } })"
    );
}

#[test]
fn an_application_compiles_to_an_assignment_and_a_call() {
    let term = abstraction(
        "f",
        application(application(variable("f"), variable("f")), variable("f")),
    );
    let ast = compile_toplevel(&term);
    assert!(ast.type_defs.is_empty());
    assert_eq!(ast.func_defs.len(), 1);
    let main = &ast.func_defs[0].1;
    assert_eq!(
        format!("{:?}", main.body),
        "[Assign { lhs: \"f0\", rhs: Read { path: Path { parts: [\"f\"] } } }, \
         Assign { lhs: \"f1\", rhs: Call { func: Path { parts: [\"f0\", \"code\"] }, \
         args: [Read { path: Path { parts: [\"f0\"] } }, Read { path: Path { parts: [\"f\"] } }] } }]"
    );
    assert_eq!(
        format!("{:?}", main.ret),
        "Call { func: Path { parts: [\"f1\", \"code\"] }, args: [Read { path: Path { parts: \
         [\"f1\"] } }, Read { path: Path { parts: [\"f\"] } }] }"
    );
}

#[test]
fn a_parameter_named_env_moves_the_environment_to_a_fresh_name() {
    let ast = compile_toplevel(&abstraction("z", abstraction("env", variable("z"))));
    assert_eq!(
        format!("{:?}", ast.func_defs[0]),
        "(\"closure_0\", Func { args: [(\"x0\", Named { ident: \"Closure0\" }), (\"env\", Any)], \
         ret_type: Any, body: [], ret: Read { path: Path { parts: [\"x0\", \"z\"] } } })"
    );
}

#[test]
fn nested_functions_are_numbered_from_the_outside_and_defined_from_the_inside() {
    let term = abstraction(
        "a",
        abstraction("b", abstraction("c", application(variable("b"), variable("a")))),
    );
    let ast = compile_toplevel(&term);
    assert_eq!(
        format!("{:?}", ast.type_defs),
        "[(\"Closure0\", Struct { fields: [(\"code\", FnPtr), (\"a\", Any)] }), \
         (\"Closure1\", Struct { fields: [(\"code\", FnPtr), (\"b\", Any), (\"a\", Any)] })]"
    );
    assert_eq!(format!("{:?}", ast.clone()), format!("{:?}", ast));
    let names: Vec<&str> = ast.func_defs.iter().map(|d| d.0.as_str()).collect();
    assert_eq!(names, vec!["closure_1", "closure_0", "main"]);
    assert_eq!(
        format!("{:?}", ast.func_defs[1].1.ret),
        "StructLit { name: \"Closure1\", fields: [(\"code\", Read { path: Path { parts: \
         [\"closure_1\"] } }), (\"b\", Read { path: Path { parts: [\"b\"] } }), \
         (\"a\", Read { path: Path { parts: [\"env\", \"a\"] } })] }"
    );
    assert_eq!(
        format!("{:?}", ast.func_defs[0].1.body),
        "[Assign { lhs: \"f0\", rhs: Read { path: Path { parts: [\"env\", \"b\"] } } }]"
    );
}
