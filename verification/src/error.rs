//! What the library reports when it turns an input down.

use vstd::prelude::*;

verus! {

/// Why an input was turned down.
#[derive(Debug, Clone, Copy, PartialEq, Eq, Structural)]
pub enum DataError {
    /// A line of the dataset text that is not blank holds fewer than two
    /// values, or a value that is not a number. `line` counts from one.
    MalformedRow { line: usize },
    /// A length differs from the one that was asked for.
    DimensionMismatch { expected: usize, found: usize },
}

} // verus!
