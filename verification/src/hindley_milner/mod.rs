//! The Hindley-Milner type system: terms, types, unification and inference.
pub mod agreement;
pub mod derivation;
pub mod derivation_laws;
pub mod infer;
pub mod layout;
pub mod rec_scheme;
pub mod reduce;
pub mod render;
pub mod substitution_laws;
pub mod term_laws;
pub mod terms;
pub mod types;
pub mod unify;
pub mod unify_laws;

pub use derivation::{type_deriv, Judgement, Proof};
pub use infer::{free_vars, TypeEnvironment};
pub use layout::{join, proof_lines};
pub use terms::{Term, Tm};
pub use types::{Substitution, Ty, Type};
pub use unify::{unify, unify_with, TyError, TypeError};
