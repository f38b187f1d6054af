//! Parse errors.
use vstd::prelude::*;

verus! {

/// A parse error: what went wrong, and the byte offset where.
#[derive(Debug, Clone, PartialEq)]
pub struct ParseError {
    pub message: String,
    pub offset: usize,
}

} // verus!
