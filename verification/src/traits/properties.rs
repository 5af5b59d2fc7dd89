//! Properties that every array has.

use vstd::prelude::*;

verus! {

/// The extent of an array along each of its `NDIM` axes.
pub trait Shape<const NDIM: usize> {
    /// The extent along each axis.
    spec fn spec_shape(&self) -> [usize; NDIM];

    /// Returns the extent along each axis.
    fn shape(&self) -> (s: [usize; NDIM])
        ensures
            s == self.spec_shape(),
    ;
}

} // verus!
