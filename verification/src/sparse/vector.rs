//! A vector whose entries are partitioned among the processes of a group.
//!
//! Each process holds the entries that its layout says it owns, in a local
//! buffer indexed by local offset: the global index minus the first index
//! that the process owns.

use vstd::prelude::*;
use crate::error::SparseError;
use crate::sparse::index_layout::IndexLayout;
use crate::traits::accessors::{
    RawAccess,
    RawAccessMut,
    UnsafeRandomAccessByRef,
    UnsafeRandomAccessByValue,
    UnsafeRandomAccessMut,
};
use crate::traits::in_place_operations::{FillFrom, ScaleInPlace, SumInto};
use crate::traits::properties::Shape;
use crate::types::{whole_slice_mut, Scalar};

verus! {

/// The part of a distributed vector that one process holds.
pub struct IndexableVector<T: Scalar> {
    layout: IndexLayout,
    local: Vec<T>,
}

impl<T: Scalar> IndexableVector<T> {
    /// The layout that the vector is partitioned by.
    pub closed spec fn spec_layout(&self) -> IndexLayout {
        self.layout
    }

    /// The entries that this process holds, by local offset.
    pub closed spec fn spec_local(&self) -> Seq<T> {
        self.local@
    }

    /// A vector is valid when its layout is and it holds one entry for each
    /// index that the process owns.
    pub open spec fn wf(&self) -> bool {
        &&& self.spec_layout().wf()
        &&& self.spec_local().len() == self.spec_layout().local_len()
    }

    /// The part of a vector of zeros that the process of `layout` holds.
    pub fn new(layout: &IndexLayout) -> (r: Self)
        requires
            layout.wf(),
        ensures
            r.wf(),
            r.spec_layout() == *layout,
            forall|k: int| 0 <= k < r.spec_local().len() ==> r.spec_local()[k] == T::zero_value(),
    {
        let n = layout.number_of_local_indices();
        let zero = T::zero();
        let mut local: Vec<T> = Vec::new();
        let mut k: usize = 0;
        while k < n
            invariant
                0 <= k <= n,
                local@.len() == k,
                forall|j: int| 0 <= j < k ==> local@[j] == zero,
            decreases n - k,
        {
            local.push(zero);
            k += 1;
        }
        IndexableVector { layout: *layout, local }
    }

    /// The part of a vector that the process of `layout` holds, with the
    /// given entries. Fails with `DimensionMismatch` when `values` does not
    /// have one entry for each index that the process owns.
    pub fn from_local(layout: &IndexLayout, values: Vec<T>) -> (r: Result<Self, SparseError>)
        requires
            layout.wf(),
        ensures
            match r {
                Ok(v) => {
                    &&& values@.len() == layout.local_len()
                    &&& v.wf()
                    &&& v.spec_layout() == *layout
                    &&& v.spec_local() == values@
                },
                Err(e) => e == SparseError::DimensionMismatch && values@.len()
                    != layout.local_len(),
            },
    {
        if values.len() != layout.number_of_local_indices() {
            return Err(SparseError::DimensionMismatch);
        }
        Ok(IndexableVector { layout: *layout, local: values })
    }

    /// The layout that the vector is partitioned by.
    pub fn layout(&self) -> (r: &IndexLayout)
        ensures
            *r == self.spec_layout(),
    {
        &self.layout
    }

    /// The number of entries that this process holds.
    pub fn local_len(&self) -> (r: usize)
        ensures
            r == self.spec_local().len(),
    {
        self.local.len()
    }

    /// The entries that this process holds, by local offset.
    pub fn local(&self) -> (r: &Vec<T>)
        ensures
            r@ == self.spec_local(),
    {
        &self.local
    }

    /// The entry at local offset `local_offset`, or `None` when the process
    /// holds no such entry.
    pub fn get_local(&self, local_offset: usize) -> (r: Option<T>)
        ensures
            r == if local_offset < self.spec_local().len() {
                Some(self.spec_local()[local_offset as int])
            } else {
                None
            },
    {
        if local_offset < self.local.len() {
            Some(self.local[local_offset])
        } else {
            None
        }
    }

    /// Sets the entry at local offset `local_offset`. Fails with `OutOfRange`,
    /// and changes nothing, when the process holds no such entry.
    pub fn set_local(&mut self, local_offset: usize, value: T) -> (r: Result<(), SparseError>)
        ensures
            final(self).spec_layout() == old(self).spec_layout(),
            match r {
                Ok(_) => local_offset < old(self).spec_local().len() && final(self).spec_local()
                    == old(self).spec_local().update(local_offset as int, value),
                Err(e) => e == SparseError::OutOfRange && local_offset >= old(
                    self,
                ).spec_local().len() && final(self).spec_local() == old(self).spec_local(),
            },
    {
        if local_offset >= self.local.len() {
            return Err(SparseError::OutOfRange);
        }
        self.local.set(local_offset, value);
        Ok(())
    }

    /// The local buffer, for a caller that keeps its length.
    pub(crate) fn local_mut(&mut self) -> (r: &mut Vec<T>)
        ensures
            r@ == old(self).spec_local(),
            final(self).spec_layout() == old(self).spec_layout(),
            final(self).spec_local() == final(r)@,
    {
        &mut self.local
    }

    /// Replaces every entry that this process holds by the entry of `values`
    /// at the same offset. Fails with `DimensionMismatch`, and changes
    /// nothing, when `values` has another length than the local buffer.
    pub fn set_all_local(&mut self, values: &Vec<T>) -> (r: Result<(), SparseError>)
        ensures
            final(self).spec_layout() == old(self).spec_layout(),
            match r {
                Ok(_) => values@.len() == old(self).spec_local().len() && final(self).spec_local()
                    == values@,
                Err(e) => e == SparseError::DimensionMismatch && values@.len() != old(
                    self,
                ).spec_local().len() && final(self).spec_local() == old(self).spec_local(),
            },
    {
        let n = self.local.len();
        if values.len() != n {
            return Err(SparseError::DimensionMismatch);
        }
        let mut k: usize = 0;
        while k < n
            invariant
                0 <= k <= n,
                n == values@.len(),
                self.local@.len() == n,
                self.layout == old(self).layout,
                forall|j: int| 0 <= j < k ==> self.local@[j] == values@[j],
            decreases n - k,
        {
            self.local.set(k, values[k]);
            k += 1;
        }
        proof {
            assert(self.local@ =~= values@);
        }
        Ok(())
    }
}

impl<T: Scalar> Shape<1> for IndexableVector<T> {
    /// The shape of the local buffer: its length.
    closed spec fn spec_shape(&self) -> [usize; 1] {
        [self.local.len()]
    }

    fn shape(&self) -> (s: [usize; 1]) {
        [self.local.len()]
    }
}

impl<T: Scalar> IndexableVector<T> {
    /// The one extent of the local buffer is its length.
    pub proof fn lemma_shape(&self)
        ensures
            self.spec_shape()@.len() == 1,
            self.spec_shape()@[0] == self.spec_local().len(),
    {
        assert(self.local.len() == self.local@.len());
    }
}

impl<T: Scalar> UnsafeRandomAccessByValue<1> for IndexableVector<T> {
    type Item = T;

    open spec fn value_at(&self, multi_index: Seq<usize>) -> T {
        self.spec_local()[multi_index[0] as int]
    }

    fn get_value_unchecked(&self, multi_index: [usize; 1]) -> (r: T) {
        self.local[multi_index[0]]
    }
}

impl<T: Scalar> UnsafeRandomAccessByRef<1> for IndexableVector<T> {
    type Item = T;

    open spec fn element_at(&self, multi_index: Seq<usize>) -> T {
        self.spec_local()[multi_index[0] as int]
    }

    fn get_unchecked(&self, multi_index: [usize; 1]) -> (r: &T) {
        &self.local[multi_index[0]]
    }
}

impl<T: Scalar> UnsafeRandomAccessMut<1> for IndexableVector<T> {
    type Item = T;

    open spec fn slot_at(&self, multi_index: Seq<usize>) -> T {
        self.spec_local()[multi_index[0] as int]
    }

    /// The layout is as before, and the local buffer is the buffer before
    /// with `value` at the local offset `multi_index[0]`.
    open spec fn written(&self, before: &Self, multi_index: Seq<usize>, value: T) -> bool {
        &&& self.spec_layout() == before.spec_layout()
        &&& self.spec_local() == before.spec_local().update(multi_index[0] as int, value)
    }

    fn get_unchecked_mut(&mut self, multi_index: [usize; 1]) -> (r: &mut T) {
        &mut self.local[multi_index[0]]
    }
}

impl<T: Scalar> RawAccess for IndexableVector<T> {
    type Item = T;

    open spec fn spec_data(&self) -> Seq<T> {
        self.spec_local()
    }

    fn data(&self) -> (r: &[T]) {
        self.local.as_slice()
    }
}

impl<T: Scalar> RawAccessMut for IndexableVector<T> {
    fn data_mut(&mut self) -> (r: &mut [T])
        ensures
            final(self).spec_layout() == old(self).spec_layout(),
            final(self).spec_local().len() == old(self).spec_local().len(),
    {
        whole_slice_mut(&mut self.local)
    }
}

impl<T: Scalar> ScaleInPlace for IndexableVector<T> {
    type Item = T;

    /// Every entry is the entry before times `alpha`.
    open spec fn scaled_from(&self, before: &Self, alpha: T) -> bool {
        &&& self.spec_layout() == before.spec_layout()
        &&& self.spec_local().len() == before.spec_local().len()
        &&& forall|k: int|
            0 <= k < self.spec_local().len() ==> #[trigger] self.spec_local()[k]
                == before.spec_local()[k].product(alpha)
    }

    fn scale_in_place(&mut self, alpha: T) {
        let n = self.local.len();
        let mut k: usize = 0;
        while k < n
            invariant
                0 <= k <= n,
                self.local@.len() == n,
                n == old(self).local@.len(),
                self.layout == old(self).layout,
                forall|j: int|
                    0 <= j < k ==> #[trigger] self.local@[j] == old(self).local@[j].product(alpha),
                forall|j: int| k <= j < n ==> self.local@[j] == old(self).local@[j],
            decreases n - k,
        {
            let scaled = self.local[k].times(alpha);
            self.local.set(k, scaled);
            k += 1;
        }
    }
}

impl<'a, T: Scalar> FillFrom<&'a IndexableVector<T>> for IndexableVector<T> {
    /// The two local buffers have one length.
    open spec fn fills_from(&self, other: &&'a IndexableVector<T>) -> bool {
        self.spec_local().len() == other.spec_local().len()
    }

    /// The entries are those of `other`.
    open spec fn filled_from(&self, before: &Self, other: &&'a IndexableVector<T>) -> bool {
        &&& self.spec_layout() == before.spec_layout()
        &&& self.spec_local() == other.spec_local()
    }

    fn fill_from(&mut self, other: &'a IndexableVector<T>) {
        let n = self.local.len();
        let mut k: usize = 0;
        while k < n
            invariant
                0 <= k <= n,
                self.local@.len() == n,
                n == other.local@.len(),
                self.layout == old(self).layout,
                forall|j: int| 0 <= j < k ==> self.local@[j] == other.local@[j],
            decreases n - k,
        {
            self.local.set(k, other.local[k]);
            k += 1;
        }
        proof {
            assert(self.local@ =~= other.local@);
        }
    }
}

impl<'a, T: Scalar> SumInto<&'a IndexableVector<T>> for IndexableVector<T> {
    type Item = T;

    /// The two local buffers have one length.
    open spec fn sums_with(&self, other: &&'a IndexableVector<T>) -> bool {
        self.spec_local().len() == other.spec_local().len()
    }

    /// Every entry is the entry before plus `alpha` times the entry of
    /// `other`.
    open spec fn summed_from(&self, before: &Self, alpha: T, other: &&'a IndexableVector<T>) -> bool {
        &&& self.spec_layout() == before.spec_layout()
        &&& self.spec_local().len() == before.spec_local().len()
        &&& forall|k: int|
            0 <= k < self.spec_local().len() ==> #[trigger] self.spec_local()[k]
                == before.spec_local()[k].sum(alpha.product(other.spec_local()[k]))
    }

    fn sum_into(&mut self, alpha: T, other: &'a IndexableVector<T>) {
        let n = self.local.len();
        let mut k: usize = 0;
        while k < n
            invariant
                0 <= k <= n,
                self.local@.len() == n,
                n == other.local@.len(),
                n == old(self).local@.len(),
                self.layout == old(self).layout,
                forall|j: int|
                    0 <= j < k ==> #[trigger] self.local@[j] == old(self).local@[j].sum(
                        alpha.product(other.local@[j]),
                    ),
                forall|j: int| k <= j < n ==> self.local@[j] == old(self).local@[j],
            decreases n - k,
        {
            let summed = self.local[k].plus(alpha.times(other.local[k]));
            self.local.set(k, summed);
            k += 1;
        }
    }
}

} // verus!
