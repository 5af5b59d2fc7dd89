//! Failures reported by the library.

use vstd::prelude::*;

verus! {

/// The ways in which a construction or a product can be refused.
#[derive(Clone, Copy, Debug, PartialEq, Eq, Structural)]
pub enum SparseError {
    /// Array lengths disagree with the declared shape or with each other.
    DimensionMismatch,
    /// The row-pointer array is not a valid prefix-sum table.
    InvalidIndptr,
    /// An index lies outside the declared extent.
    OutOfRange,
    /// A vector is partitioned differently from the operator it meets.
    LayoutMismatch,
}

} // verus!
