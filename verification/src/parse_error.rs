use vstd::prelude::*;

verus! {

/// A grammar source error, at a 1-based line and column.
#[derive(Debug, Clone, PartialEq, Eq)]
pub struct ParseError {
    pub line: usize,
    pub column: usize,
    pub message: String,
}

} // verus!
