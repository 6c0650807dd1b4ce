//! The primitives of the term language: sorts, literals and built-in functions.
use vstd::prelude::*;

verus! {

/// The sorts of the language.
#[derive(Debug, Clone, Copy, PartialEq, Eq, Structural)]
pub enum Sort {
    Type,
    Universal,
}

/// A primitive: a literal or a built-in function.
#[derive(Debug, Clone, Copy, PartialEq, Eq, Structural)]
pub enum Prim {
    Lit(Lit),
    Func(PrimFunc),
}

/// A literal value or the type of one.
#[derive(Debug, Clone, Copy, PartialEq, Eq, Structural)]
pub enum Lit {
    IntLit(isize),
    BoolLit(bool),
    IntType,
    BoolType,
}

/// A built-in function.
#[derive(Debug, Clone, Copy, PartialEq, Eq, Structural)]
pub enum PrimFunc {
    Add,
    Sub,
    Mul,
    IntEq,
    Gt,
    Or,
    Not,
    If,
    For,
    Rec,
}

impl PrimFunc {
    /// Whether the function may be used where evaluation has to end: every built-in
    /// function but general recursion.
    pub fn is_const_safe(self) -> (safe: bool)
        ensures
            safe == !(self is Rec),
    {
        match self {
            PrimFunc::Rec => false,
            _ => true,
        }
    }
}

impl Prim {
    /// Whether the primitive may be used where evaluation has to end: every literal, and
    /// every built-in function but general recursion.
    pub fn is_const_safe(self) -> (safe: bool)
        ensures
            safe == !(self == Prim::Func(PrimFunc::Rec)),
    {
        match self {
            Prim::Lit(_) => true,
            Prim::Func(f) => f.is_const_safe(),
        }
    }
}

} // verus!
