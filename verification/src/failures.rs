//! The error taxonomy surfaced to callers.

use vstd::prelude::*;

verus! {

/// Every failure a caller can see.
#[derive(Debug)]
pub enum ErrorCases {
    /// Malformed formula text, grammar mismatch, or an unparsable or
    /// overflowing numeric literal; carries a human-readable diagnostic.
    ParserError(String),
    /// Arena or cursor misuse: a node index that names no live node.
    InternalError,
    /// A table lookup failed to find a key that must have been inserted.
    NotFound,
}

} // verus!
