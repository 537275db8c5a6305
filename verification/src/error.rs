//! Errors raised by the refrain core.

use vstd::prelude::*;

verus! {

/// An error of the refrain core: a malformed source text, or a term that
/// cannot be read back into a pattern, or a failing adapter.
#[derive(Debug, Clone, PartialEq, Eq)]
pub enum RefrainError {
    /// The source text is not a well-formed refrain.
    Parse(String),
    /// A rewritten term does not have the shape of a pattern.
    Rewrite(String),
    /// An output adapter failed.
    Adapter(String),
}

} // verus!
