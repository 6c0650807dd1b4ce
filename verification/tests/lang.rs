use lambda::lang::{Lit, Prim, PrimFunc, Sort};

#[test]
fn every_built_in_function_but_recursion_is_const_safe() {
    let safe = [
        PrimFunc::Add,
        PrimFunc::Sub,
        PrimFunc::Mul,
        PrimFunc::IntEq,
        PrimFunc::Gt,
        PrimFunc::Or,
        PrimFunc::Not,
        PrimFunc::If,
        PrimFunc::For,
    ];
    for f in safe {
        assert!(f.is_const_safe());
        assert!(Prim::Func(f).is_const_safe());
    }
    assert!(!PrimFunc::Rec.is_const_safe());
    assert!(!Prim::Func(PrimFunc::Rec).is_const_safe());
}

#[test]
fn every_literal_is_const_safe() {
    for lit in [Lit::IntLit(-3), Lit::BoolLit(true), Lit::IntType, Lit::BoolType] {
        assert!(Prim::Lit(lit).is_const_safe());
    }
    assert_ne!(Sort::Type, Sort::Universal);
    assert_eq!(Prim::Lit(Lit::IntLit(2)), Prim::Lit(Lit::IntLit(2)));
}
