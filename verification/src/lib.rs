//! A recursive-descent JSON parser that keeps, for every string literal it
//! decodes, the exact source span of the literal and the line/column of its
//! opening quote, so that a caller can locate and rewrite the literal in the
//! original text.

use vstd::prelude::*;

pub mod grammar;
pub mod laws;
pub mod model;
pub mod parser;
pub mod roundtrip;
pub mod textpos;

verus! {

/// Sum of two machine words; the caller keeps the sum inside `u64`.
pub fn add(left: u64, right: u64) -> (r: u64)
    requires
        left + right <= u64::MAX,
    ensures
        r == left + right,
{
    left + right
}

} // verus!
