//! Access to the elements of an array.
//!
//! Elements are addressed by a multi-index with one entry per axis. The
//! unchecked traits demand an index within the shape; the checked traits
//! accept any index and answer `None` outside the shape. Every type with
//! unchecked access gets the checked access for free.
//!
//! `ChunkedAccess` hands out fixed-size runs of elements, and `RawAccess` and
//! `RawAccessMut` expose the storage behind an array.

use vstd::prelude::*;
use crate::traits::properties::Shape;
use crate::types::{DataChunk, Scalar};

verus! {

/// Whether `multi_index` addresses an element of an array of shape `shape`:
/// the two have as many entries, and each index is below its extent.
pub open spec fn index_in_shape(multi_index: Seq<usize>, shape: Seq<usize>) -> bool {
    &&& multi_index.len() == shape.len()
    &&& forall|d: int| 0 <= d < shape.len() ==> multi_index[d] < shape[d]
}

/// Access by value to an element that is known to exist.
pub trait UnsafeRandomAccessByValue<const NDIM: usize>: Shape<NDIM> {
    type Item: Scalar;

    /// The element at `multi_index`.
    spec fn value_at(&self, multi_index: Seq<usize>) -> Self::Item;

    /// Returns the element at `multi_index`, which must lie within the shape.
    fn get_value_unchecked(&self, multi_index: [usize; NDIM]) -> (r: Self::Item)
        requires
            index_in_shape(multi_index@, self.spec_shape()@),
        ensures
            r == self.value_at(multi_index@),
    ;
}

/// Access by reference to an element that is known to exist.
pub trait UnsafeRandomAccessByRef<const NDIM: usize>: Shape<NDIM> {
    type Item: Scalar;

    /// The element at `multi_index`.
    spec fn element_at(&self, multi_index: Seq<usize>) -> Self::Item;

    /// Returns a reference to the element at `multi_index`, which must lie
    /// within the shape.
    fn get_unchecked(&self, multi_index: [usize; NDIM]) -> (r: &Self::Item)
        requires
            index_in_shape(multi_index@, self.spec_shape()@),
        ensures
            *r == self.element_at(multi_index@),
    ;
}

/// Mutable access to an element that is known to exist.
pub trait UnsafeRandomAccessMut<const NDIM: usize>: Shape<NDIM> + Sized {
    type Item: Scalar;

    /// The element at `multi_index`.
    spec fn slot_at(&self, multi_index: Seq<usize>) -> Self::Item;

    /// Whether `self` is `before` with `value` written to the element at
    /// `multi_index` and nothing else changed.
    spec fn written(&self, before: &Self, multi_index: Seq<usize>, value: Self::Item) -> bool;

    /// Returns a mutable reference to the element at `multi_index`, which must
    /// lie within the shape. When the borrow ends the array is the array
    /// before with what the reference then holds written to that element.
    fn get_unchecked_mut(&mut self, multi_index: [usize; NDIM]) -> (r: &mut Self::Item)
        requires
            index_in_shape(multi_index@, old(self).spec_shape()@),
        ensures
            *r == old(self).slot_at(multi_index@),
            final(self).spec_shape() == old(self).spec_shape(),
            final(self).slot_at(multi_index@) == *final(r),
            final(self).written(old(self), multi_index@, *final(r)),
    ;
}

/// Bounds-checked access by value.
pub trait RandomAccessByValue<const NDIM: usize>: UnsafeRandomAccessByValue<NDIM> {
    /// Returns the element at `multi_index`, or `None` outside the shape.
    fn get_value(&self, multi_index: [usize; NDIM]) -> (r: Option<Self::Item>)
        ensures
            r == if index_in_shape(multi_index@, self.spec_shape()@) {
                Some(self.value_at(multi_index@))
            } else {
                None
            },
    ;
}

/// Bounds-checked access by reference.
pub trait RandomAccessByRef<const NDIM: usize>: UnsafeRandomAccessByRef<NDIM> {
    /// Returns a reference to the element at `multi_index`, or `None` outside
    /// the shape.
    fn get(&self, multi_index: [usize; NDIM]) -> (r: Option<&Self::Item>)
        ensures
            r.is_some() <==> index_in_shape(multi_index@, self.spec_shape()@),
            r.is_some() ==> *r.unwrap() == self.element_at(multi_index@),
    ;
}

/// Bounds-checked mutable access.
pub trait RandomAccessMut<const NDIM: usize>: UnsafeRandomAccessMut<NDIM> {
    /// Returns a mutable reference to the element at `multi_index`, or `None`
    /// outside the shape. With a reference, the array is in the end the array
    /// before with what the reference then holds written to that element;
    /// without one, it is the array before.
    fn get_mut(&mut self, multi_index: [usize; NDIM]) -> (r: Option<&mut Self::Item>)
        ensures
            r.is_some() <==> index_in_shape(multi_index@, old(self).spec_shape()@),
            r.is_some() ==> {
                &&& *r.unwrap() == old(self).slot_at(multi_index@)
                &&& final(self).spec_shape() == old(self).spec_shape()
                &&& final(self).slot_at(multi_index@) == *final(r.unwrap())
                &&& final(self).written(old(self), multi_index@, *final(r.unwrap()))
            },
            r.is_none() ==> *final(self) == *old(self),
    ;
}

/// Access to the elements in runs of `N`, in their one-dimensional order.
pub trait ChunkedAccess<const N: usize> {
    type Item: Scalar;

    /// The number of elements.
    spec fn element_count(&self) -> int;

    /// The element at position `index` of the one-dimensional order.
    spec fn flat_at(&self, index: int) -> Self::Item;

    /// What fills the slots of a chunk that hold no element.
    spec fn padding(&self) -> Self::Item;

    /// Returns chunk `chunk_index`, which starts at element `N * chunk_index`,
    /// or `None` when the elements end before that. The chunk holds as many
    /// elements as are left, at most `N`, and padding after them.
    fn get_chunk(&self, chunk_index: usize) -> (r: Option<DataChunk<Self::Item, N>>)
        ensures
            r.is_some() <==> N * chunk_index < self.element_count(),
            r.is_some() ==> {
                let c = r.unwrap();
                &&& c.start_index == N * chunk_index
                &&& c.valid_entries == crate::types::chunk_len(
                    N as int,
                    chunk_index as int,
                    self.element_count(),
                )
                &&& forall|k: int|
                    0 <= k < c.valid_entries ==> c.data@[k] == self.flat_at(c.start_index + k)
                &&& forall|k: int| c.valid_entries <= k < N ==> c.data@[k] == self.padding()
            },
    ;
}

/// Read access to the storage behind an array.
pub trait RawAccess {
    type Item: Scalar;

    /// The storage, element by element.
    spec fn spec_data(&self) -> Seq<Self::Item>;

    /// Returns the whole storage as a slice.
    fn data(&self) -> (r: &[Self::Item])
        ensures
            r@ == self.spec_data(),
    ;
}

/// Write access to the storage behind an array.
pub trait RawAccessMut: RawAccess {
    /// Returns the whole storage as a mutable slice. What the slice holds
    /// when the borrow ends is what the storage then holds.
    fn data_mut(&mut self) -> (r: &mut [Self::Item])
        ensures
            r@ == old(self).spec_data(),
            final(self).spec_data() == final(r)@,
    ;
}

/// Whether `multi_index` lies within `shape`.
#[inline]
pub fn check_dimension<const NDIM: usize>(multi_index: [usize; NDIM], shape: [usize; NDIM]) -> (r:
    bool)
    ensures
        r == index_in_shape(multi_index@, shape@),
{
    let mut acc = true;
    let mut d: usize = 0;
    while d < NDIM
        invariant
            0 <= d <= NDIM,
            acc == (forall|e: int| 0 <= e < d ==> multi_index@[e] < shape@[e]),
        decreases NDIM - d,
    {
        acc = acc && multi_index[d] < shape[d];
        d += 1;
    }
    acc
}

impl<
    Item: Scalar,
    Mat: UnsafeRandomAccessByValue<NDIM, Item = Item>,
    const NDIM: usize,
> RandomAccessByValue<NDIM> for Mat {
    fn get_value(&self, multi_index: [usize; NDIM]) -> (r: Option<Self::Item>) {
        if check_dimension(multi_index, self.shape()) {
            Some(self.get_value_unchecked(multi_index))
        } else {
            None
        }
    }
}

impl<
    Item: Scalar,
    Mat: UnsafeRandomAccessMut<NDIM, Item = Item>,
    const NDIM: usize,
> RandomAccessMut<NDIM> for Mat {
    fn get_mut(&mut self, multi_index: [usize; NDIM]) -> (r: Option<&mut Self::Item>) {
        if check_dimension(multi_index, self.shape()) {
            Some(self.get_unchecked_mut(multi_index))
        } else {
            None
        }
    }
}

impl<
    Item: Scalar,
    Mat: UnsafeRandomAccessByRef<NDIM, Item = Item>,
    const NDIM: usize,
> RandomAccessByRef<NDIM> for Mat {
    fn get(&self, multi_index: [usize; NDIM]) -> (r: Option<&Self::Item>) {
        if check_dimension(multi_index, self.shape()) {
            Some(self.get_unchecked(multi_index))
        } else {
            None
        }
    }
}

} // verus!
