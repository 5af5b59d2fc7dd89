//! Operations that change an array in place.
//!
//! Each trait names, as a relation between the array before and after, what
//! its operation does; an implementation says what the relation is for its
//! type.

use vstd::prelude::*;
use vstd::std_specs::iter::IteratorSpec;
use crate::types::Scalar;

verus! {

/// Scale the object by a given factor.
pub trait ScaleInPlace: Sized {
    type Item: Scalar;

    /// Whether `self` is `before` scaled by `alpha`.
    spec fn scaled_from(&self, before: &Self, alpha: Self::Item) -> bool;

    /// Replaces `self` by `self` scaled by `alpha`.
    fn scale_in_place(&mut self, alpha: Self::Item)
        ensures
            final(self).scaled_from(old(self), alpha),
    ;
}

/// Fill the object from `other`.
pub trait FillFrom<Other>: Sized {
    /// Whether `other` has the extent that filling `self` from it needs.
    spec fn fills_from(&self, other: &Other) -> bool;

    /// Whether `self` is `before` with the elements of `other` in place of
    /// its own.
    spec fn filled_from(&self, before: &Self, other: &Other) -> bool;

    /// Replaces the elements of `self` by those of `other`.
    fn fill_from(&mut self, other: Other)
        requires
            old(self).fills_from(&other),
        ensures
            final(self).filled_from(old(self), &other),
    ;
}

/// Add `alpha * other` to `self`.
pub trait SumInto<Other>: Sized {
    type Item: Scalar;

    /// Whether `other` has the extent that adding it to `self` needs.
    spec fn sums_with(&self, other: &Other) -> bool;

    /// Whether `self` is `before` plus `alpha` times `other`.
    spec fn summed_from(&self, before: &Self, alpha: Self::Item, other: &Other) -> bool;

    /// Adds `alpha * other` to `self`.
    fn sum_into(&mut self, alpha: Self::Item, other: Other)
        requires
            old(self).sums_with(&other),
        ensures
            final(self).summed_from(old(self), alpha, &other),
    ;
}

/// Set the diagonal of an object.
pub trait SetDiag: Sized {
    type Item: Scalar;

    /// The number of diagonal elements.
    spec fn diag_len(&self) -> int;

    /// Whether `self` is `before` with the first `diag.len()` diagonal
    /// elements replaced by the items of `diag`.
    spec fn diag_set_from(&self, before: &Self, diag: Seq<Self::Item>) -> bool;

    /// Sets the diagonal from the items that `iter` yields, up to the number
    /// of diagonal elements or until `iter` ends, whichever comes first.
    fn set_diag_from_iter<I: Iterator<Item = Self::Item>>(&mut self, iter: I)
        ensures
            iter.obeys_prophetic_iter_laws() ==> final(self).diag_set_from(
                old(self),
                if iter.remaining().len() <= old(self).diag_len() {
                    iter.remaining()
                } else {
                    iter.remaining().take(old(self).diag_len())
                },
            ),
    ;

    /// Sets the diagonal from `diag`, which must have one item for each
    /// diagonal element.
    fn set_diag_from_slice(&mut self, diag: &[Self::Item])
        requires
            diag@.len() == old(self).diag_len(),
        ensures
            final(self).diag_set_from(old(self), diag@),
    ;
}

} // verus!
