//! Lambda-calculus terms and Hindley-Milner type inference.
use vstd::prelude::*;

pub mod hindley_milner;
pub mod lang;
pub mod names;
pub mod untyped;

use crate::names::{
    fresh_name, is_first_unused, lemma_first_unused_unique, lemma_numbered_pigeonhole, numbered,
    NameSet,
};

verus! {

/// The first of the names `x0`, `x1`, `x2`, ... that is not in `vs`.
pub fn fresh_var(vs: &NameSet) -> (var: String)
    ensures
        var@ == fresh_name(vs@),
        !vs@.contains(var@),
{
    proof {
        vs.lemma_order();
    }
    let bound = vs.len();
    let mut i: u64 = 0;
    loop
        invariant
            vs@.finite(),
            bound == vs@.len(),
            i <= bound,
            forall|j: nat| j < i ==> vs@.contains(#[trigger] numbered('x', j)),
        decreases bound - i,
    {
        let mut var = String::from_str("x");
        var.append(crate::names::decimal_text(i).as_str());
        proof {
            reveal_strlit("x");
            assert(var@ =~= numbered('x', i as nat));
        }
        if !vs.contains(var.as_str()) {
            proof {
                assert(is_first_unused('x', vs@, i as nat));
                lemma_first_unused_unique('x', vs@, i as nat);
            }
            return var;
        }
        proof {
            lemma_numbered_pigeonhole('x', vs@, (i + 1) as nat);
        }
        i = i + 1;
    }
}

} // verus!
