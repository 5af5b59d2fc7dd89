//! A strided array over a buffer.

use vstd::prelude::*;
use vstd::std_specs::iter::IteratorSpec;
use crate::dense::layout::{
    convert_1d_nd_from_shape,
    convert_nd_raw,
    is_column_major,
    column_major_strides,
    distinct_offsets,
    is_offset,
    lemma_column_major_distinct,
    lemma_column_major_fits,
    lemma_column_major_strides,
    lemma_prefix_full,
    lemma_prefix_monotone,
    lemma_raw_offset_nonnegative,
    lemma_ravelled_unravels,
    lemma_unravelled_distinct,
    lemma_unravelled_in_shape,
    number_of_elements,
    product_of,
    raw_offset,
    storage_fits,
    stride_from_shape,
    strides_fit,
    unravelled,
};
use crate::traits::accessors::{
    index_in_shape,
    ChunkedAccess,
    RawAccess,
    RawAccessMut,
    UnsafeRandomAccessByRef,
    UnsafeRandomAccessByValue,
    UnsafeRandomAccessMut,
};
use crate::traits::in_place_operations::{FillFrom, SetDiag};
use crate::traits::properties::Shape;
use crate::types::{chunk_len, empty_chunk, whole_slice_mut, DataChunk, Scalar};

verus! {

/// An array of `NDIM` axes whose elements lie in a buffer at the offsets that
/// its strides give.
///
/// The buffer is long enough for every index within the shape, and the
/// number of elements fits a `usize`; both hold for as long as the array
/// lives.
pub struct BaseArray<Item: Scalar, const NDIM: usize> {
    data: Vec<Item>,
    shape: [usize; NDIM],
    stride: [usize; NDIM],
}

impl<Item: Scalar, const NDIM: usize> BaseArray<Item, NDIM> {
    /// What every array satisfies.
    #[verifier::type_invariant]
    pub closed spec fn wf(&self) -> bool {
        &&& product_of(self.shape@) <= usize::MAX
        &&& storage_fits(self.data@.len() as int, self.shape@, self.stride@)
    }

    /// The stride along each axis.
    pub closed spec fn spec_stride(&self) -> [usize; NDIM] {
        self.stride
    }

    /// The buffer behind the array.
    pub closed spec fn buffer(&self) -> Seq<Item> {
        self.data@
    }

    /// The element at `multi_index`: the buffer's item at the offset that the
    /// strides give.
    pub open spec fn at(&self, multi_index: Seq<usize>) -> Item {
        self.buffer()[raw_offset(multi_index, self.spec_stride()@)]
    }

    /// An array of shape `shape` over `data`, laid out column-major. `data`
    /// must hold at least as many items as such an array has elements; the
    /// elements are the first of them.
    pub fn new(data: Vec<Item>, shape: [usize; NDIM]) -> (r: Self)
        requires
            data@.len() >= product_of(shape@),
            strides_fit(shape@),
        ensures
            r.wf(),
            r.spec_shape() == shape,
            r.buffer() == data@,
            is_column_major(r.spec_stride()@, shape@),
            distinct_offsets(shape@, r.spec_stride()@),
    {
        let stride = stride_from_shape(shape);
        proof {
            lemma_column_major_fits(shape@, stride@);
            lemma_column_major_distinct(shape@, stride@);
            assert(data.len() == data@.len());
        }
        Self { data, shape, stride }
    }

    /// An array of shape `shape` over `data` with the given strides. `data`
    /// must reach every offset that an index within the shape has.
    pub fn new_with_stride(data: Vec<Item>, shape: [usize; NDIM], stride: [usize; NDIM]) -> (r:
        Self)
        requires
            product_of(shape@) <= usize::MAX,
            storage_fits(data@.len() as int, shape@, stride@),
        ensures
            r.wf(),
            r.spec_shape() == shape,
            r.buffer() == data@,
            r.spec_stride() == stride,
    {
        Self { data, shape, stride }
    }

    /// Returns the stride along each axis.
    pub fn stride(&self) -> (s: [usize; NDIM])
        ensures
            s == self.spec_stride(),
    {
        self.stride
    }

    /// The buffer offset of an index within the shape.
    fn offset_of(&self, multi_index: [usize; NDIM]) -> (offset: usize)
        requires
            index_in_shape(multi_index@, self.shape@),
        ensures
            offset == raw_offset(multi_index@, self.stride@),
            offset < self.data@.len(),
    {
        proof {
            use_type_invariant(self);
            assert(storage_fits(self.data@.len() as int, self.shape@, self.stride@));
            assert(self.data.len() == self.data@.len());
        }
        convert_nd_raw(multi_index, self.stride)
    }
}

impl<Item: Scalar, const NDIM: usize> Shape<NDIM> for BaseArray<Item, NDIM> {
    closed spec fn spec_shape(&self) -> [usize; NDIM] {
        self.shape
    }

    fn shape(&self) -> (s: [usize; NDIM]) {
        self.shape
    }
}

impl<Item: Scalar, const NDIM: usize> UnsafeRandomAccessByRef<NDIM> for BaseArray<Item, NDIM> {
    type Item = Item;

    open spec fn element_at(&self, multi_index: Seq<usize>) -> Item {
        self.at(multi_index)
    }

    #[inline]
    fn get_unchecked(&self, multi_index: [usize; NDIM]) -> (r: &Item) {
        let index = self.offset_of(multi_index);
        &self.data[index]
    }
}

impl<Item: Scalar, const NDIM: usize> UnsafeRandomAccessByValue<NDIM> for BaseArray<Item, NDIM> {
    type Item = Item;

    open spec fn value_at(&self, multi_index: Seq<usize>) -> Item {
        self.at(multi_index)
    }

    #[inline]
    fn get_value_unchecked(&self, multi_index: [usize; NDIM]) -> (r: Item) {
        let index = self.offset_of(multi_index);
        self.data[index]
    }
}

impl<Item: Scalar, const NDIM: usize> UnsafeRandomAccessMut<NDIM> for BaseArray<Item, NDIM> {
    type Item = Item;

    open spec fn slot_at(&self, multi_index: Seq<usize>) -> Item {
        self.at(multi_index)
    }

    /// Shape and strides are as before, and the buffer is the buffer before
    /// with `value` at the offset of `multi_index`, which lies within it.
    open spec fn written(&self, before: &Self, multi_index: Seq<usize>, value: Item) -> bool {
        &&& self.spec_shape() == before.spec_shape()
        &&& self.spec_stride() == before.spec_stride()
        &&& 0 <= raw_offset(multi_index, before.spec_stride()@) < before.buffer().len()
        &&& self.buffer() == before.buffer().update(
            raw_offset(multi_index, before.spec_stride()@),
            value,
        )
    }

    #[inline]
    fn get_unchecked_mut(&mut self, multi_index: [usize; NDIM]) -> (r: &mut Item) {
        proof {
            use_type_invariant(&*self);
        }
        let index = self.offset_of(multi_index);
        &mut self.data[index]
    }
}

impl<Item: Scalar, const N: usize, const NDIM: usize> ChunkedAccess<N> for BaseArray<Item, NDIM> {
    type Item = Item;

    open spec fn element_count(&self) -> int {
        product_of(self.spec_shape()@)
    }

    open spec fn flat_at(&self, index: int) -> Item {
        self.at(unravelled(index, self.spec_shape()@))
    }

    open spec fn padding(&self) -> Item {
        Item::zero_value()
    }

    #[inline]
    fn get_chunk(&self, chunk_index: usize) -> (r: Option<DataChunk<Item, N>>) {
        proof {
            use_type_invariant(self);
        }
        let nelements = number_of_elements(self.shape);
        match empty_chunk::<N, Item>(chunk_index, nelements) {
            Some(mut chunk) => {
                let mut count: usize = 0;
                while count < chunk.valid_entries
                    invariant
                        0 <= count <= chunk.valid_entries <= N,
                        nelements == product_of(self.shape@),
                        chunk.start_index + chunk.valid_entries <= nelements,
                        chunk.start_index == N * chunk_index,
                        chunk.valid_entries == chunk_len(
                            N as int,
                            chunk_index as int,
                            nelements as int,
                        ),
                        forall|k: int|
                            0 <= k < count ==> chunk.data@[k] == self.at(
                                unravelled(chunk.start_index + k, self.shape@),
                            ),
                        forall|k: int| count <= k < N ==> chunk.data@[k] == Item::zero_value(),
                    decreases chunk.valid_entries - count,
                {
                    let multi_index = convert_1d_nd_from_shape(
                        chunk.start_index + count,
                        self.shape,
                    );
                    let value = self.get_value_unchecked(multi_index);
                    chunk.data[count] = value;
                    count += 1;
                }
                Some(chunk)
            },
            None => None,
        }
    }
}

impl<Item: Scalar, const NDIM: usize> RawAccess for BaseArray<Item, NDIM> {
    type Item = Item;

    open spec fn spec_data(&self) -> Seq<Item> {
        self.buffer()
    }

    fn data(&self) -> (r: &[Item]) {
        self.data.as_slice()
    }
}

impl<Item: Scalar, const NDIM: usize> RawAccessMut for BaseArray<Item, NDIM> {
    fn data_mut(&mut self) -> (r: &mut [Item])
        ensures
            final(self).spec_shape() == old(self).spec_shape(),
            final(self).spec_stride() == old(self).spec_stride(),
    {
        proof {
            use_type_invariant(&*self);
        }
        whole_slice_mut(&mut self.data)
    }
}

/// The offset of the diagonal element `[k, k]`.
pub open spec fn diag_offset(stride: Seq<usize>, k: int) -> int {
    raw_offset(seq![k as usize, k as usize], stride)
}

/// The buffer of a matrix with strides `stride` after the first `n` items of
/// `diag` have been written, one after the other, to the diagonal elements
/// `[0, 0]`, `[1, 1]` and so on.
pub open spec fn diag_written<Item>(buffer: Seq<Item>, stride: Seq<usize>, diag: Seq<Item>, n: int) -> Seq<
    Item,
>
    decreases n,
{
    if n <= 0 {
        buffer
    } else {
        diag_written(buffer, stride, diag, n - 1).update(diag_offset(stride, n - 1), diag[n - 1])
    }
}

/// Only the first `n` items of `diag` matter for the first `n` writes.
pub proof fn lemma_diag_written_prefix<Item>(
    buffer: Seq<Item>,
    stride: Seq<usize>,
    a: Seq<Item>,
    b: Seq<Item>,
    n: int,
)
    requires
        forall|k: int| 0 <= k < n ==> a[k] == b[k],
    ensures
        diag_written(buffer, stride, a, n) == diag_written(buffer, stride, b, n),
    decreases n,
{
    if n > 0 {
        lemma_diag_written_prefix(buffer, stride, a, b, n - 1);
    }
}

/// The offset of `[k, k]` is `k` times the sum of the two strides.
pub proof fn lemma_diag_offset(stride: Seq<usize>, k: int)
    requires
        stride.len() == 2,
        0 <= k <= usize::MAX,
    ensures
        diag_offset(stride, k) == k * (stride[0] + stride[1]),
{
    let m = seq![k as usize, k as usize];
    assert(m.drop_last() =~= seq![k as usize]);
    assert(m.drop_last().drop_last().len() == 0);
    assert(stride.drop_last().len() == 1);
    assert(raw_offset(m.drop_last().drop_last(), stride.drop_last().drop_last()) == 0);
    assert(raw_offset(m.drop_last(), stride.drop_last()) == k * stride[0]);
    assert(k * (stride[0] + stride[1]) == k * stride[0] + k * stride[1]) by (nonlinear_arith);
}

/// Unless both strides are zero, the diagonal elements lie at different
/// offsets, so that after `n` writes each of the first `n` of them holds its
/// item of `diag` and every other place of the buffer holds what it held.
pub proof fn lemma_diag_written_at<Item>(
    buffer: Seq<Item>,
    stride: Seq<usize>,
    diag: Seq<Item>,
    n: int,
    at: int,
)
    requires
        stride.len() == 2,
        stride[0] + stride[1] > 0,
        0 <= n <= usize::MAX,
        forall|k: int| 0 <= k < n ==> #[trigger] diag_offset(stride, k) < buffer.len(),
        0 <= at < buffer.len(),
    ensures
        diag_written(buffer, stride, diag, n).len() == buffer.len(),
        forall|k: int|
            0 <= k < n && at == diag_offset(stride, k) ==> diag_written(buffer, stride, diag, n)[at]
                == diag[k],
        (forall|k: int| 0 <= k < n ==> at != diag_offset(stride, k)) ==> diag_written(
            buffer,
            stride,
            diag,
            n,
        )[at] == buffer[at],
    decreases n,
{
    if n > 0 {
        lemma_diag_written_at(buffer, stride, diag, n - 1, at);
        let last = diag_offset(stride, n - 1);
        assert(last < buffer.len());
        lemma_diag_offset(stride, n - 1);
        assert forall|k: int| 0 <= k < n && at == diag_offset(stride, k) implies diag_written(
            buffer,
            stride,
            diag,
            n,
        )[at] == diag[k] by {
            lemma_diag_offset(stride, k);
            if k < n - 1 {
                assert(k * (stride[0] + stride[1]) < (n - 1) * (stride[0] + stride[1]))
                    by (nonlinear_arith)
                    requires
                        0 <= k < n - 1,
                        stride[0] + stride[1] > 0,
                ;
            }
        }
        if forall|k: int| 0 <= k < n ==> at != diag_offset(stride, k) {
            assert(at != diag_offset(stride, n - 1));
        }
    }
}

impl<Item: Scalar> SetDiag for BaseArray<Item, 2> {
    type Item = Item;

    /// The smaller of the two extents.
    open spec fn diag_len(&self) -> int {
        if self.spec_shape()@[0] <= self.spec_shape()@[1] {
            self.spec_shape()@[0] as int
        } else {
            self.spec_shape()@[1] as int
        }
    }

    /// Shape and strides are as before, and the buffer is the buffer before
    /// with the items of `diag` written to the diagonal in order.
    open spec fn diag_set_from(&self, before: &Self, diag: Seq<Item>) -> bool {
        &&& self.spec_shape() == before.spec_shape()
        &&& self.spec_stride() == before.spec_stride()
        &&& self.buffer() == diag_written(
            before.buffer(),
            before.spec_stride()@,
            diag,
            diag.len() as int,
        )
    }

    fn set_diag_from_iter<I: Iterator<Item = Item>>(&mut self, iter: I)
        ensures
            final(self).spec_shape() == old(self).spec_shape(),
            final(self).spec_stride() == old(self).spec_stride(),
            final(self).buffer().len() == old(self).buffer().len(),
    {
        let mut iter = iter;
        let ghost items = iter.remaining();
        let ghost lawful = iter.obeys_prophetic_iter_laws();
        let shape = self.shape;
        let n = if shape[0] <= shape[1] {
            shape[0]
        } else {
            shape[1]
        };
        let mut k: usize = 0;
        let mut more = true;
        while more && k < n
            invariant
                0 <= k <= n,
                n == old(self).diag_len(),
                self.shape == old(self).shape,
                shape == self.shape,
                self.stride == old(self).stride,
                self.data@.len() == old(self).data@.len(),
                iter.obeys_prophetic_iter_laws() == lawful,
                lawful ==> k <= items.len() && iter.remaining() == items.skip(k as int),
                lawful && !more ==> k == items.len(),
                lawful ==> self.data@ == diag_written(
                    old(self).data@,
                    self.stride@,
                    items,
                    k as int,
                ),
            decreases (if more { 1int } else { 0int }), n - k,
        {
            match iter.next() {
                Some(value) => {
                    let slot = self.get_unchecked_mut([k, k]);
                    *slot = value;
                    assert([k, k]@ =~= seq![k, k]);
                    assert(k < items.len() ==> items.skip(k as int).drop_first() =~= items.skip(
                        k as int + 1,
                    ));
                    k += 1;
                },
                None => {
                    more = false;
                },
            }
        }
        assert(lawful && items.len() > n ==> diag_written(
            old(self).data@,
            self.stride@,
            items,
            n as int,
        ) == diag_written(old(self).data@, self.stride@, items.take(n as int), n as int)) by {
            if items.len() > n {
                lemma_diag_written_prefix(
                    old(self).data@,
                    self.stride@,
                    items,
                    items.take(n as int),
                    n as int,
                );
            }
        }
    }

    fn set_diag_from_slice(&mut self, diag: &[Item]) {
        let n = diag.len();
        let mut k: usize = 0;
        while k < n
            invariant
                0 <= k <= n,
                n == diag@.len(),
                n == old(self).diag_len(),
                self.shape == old(self).shape,
                self.stride == old(self).stride,
                self.data@ == diag_written(old(self).data@, self.stride@, diag@, k as int),
            decreases n - k,
        {
            let slot = self.get_unchecked_mut([k, k]);
            *slot = diag[k];
            proof {
                assert([k, k]@ =~= seq![k, k]);
            }
            k += 1;
        }
    }
}

/// The buffer of an array of shape `shape` and strides `stride` after the
/// first `n` elements of `other`, in the one-dimensional order of the
/// elements, have been written one after the other to their multi-indices.
pub open spec fn fill_written<
    Item: Scalar,
    Other: UnsafeRandomAccessByValue<NDIM, Item = Item>,
    const NDIM: usize,
>(buffer: Seq<Item>, shape: Seq<usize>, stride: Seq<usize>, other: &Other, n: int) -> Seq<Item>
    decreases n,
{
    if n <= 0 {
        buffer
    } else {
        fill_written(buffer, shape, stride, other, n - 1).update(
            raw_offset(unravelled(n - 1, shape), stride),
            other.value_at(unravelled(n - 1, shape)),
        )
    }
}

impl<
    Item: Scalar,
    Other: UnsafeRandomAccessByValue<NDIM, Item = Item> + Shape<NDIM>,
    const NDIM: usize,
> FillFrom<Other> for BaseArray<Item, NDIM> {
    /// The two arrays have one shape.
    open spec fn fills_from(&self, other: &Other) -> bool {
        self.spec_shape() == other.spec_shape()
    }

    /// Shape and strides are as before, and the buffer is the buffer before
    /// with the elements of `other` written to their multi-indices in the
    /// one-dimensional order. Places of the buffer that are the offset of no
    /// multi-index within the shape hold what they held. Where the strides
    /// give different offsets to different multi-indices, every element is
    /// the element of `other` at the same multi-index.
    open spec fn filled_from(&self, before: &Self, other: &Other) -> bool {
        let shape = before.spec_shape()@;
        let stride = before.spec_stride()@;
        &&& self.spec_shape() == before.spec_shape()
        &&& self.spec_stride() == before.spec_stride()
        &&& self.buffer().len() == before.buffer().len()
        &&& self.buffer() == fill_written(
            before.buffer(),
            shape,
            stride,
            other,
            product_of(shape),
        )
        &&& forall|k: int|
            0 <= k < self.buffer().len() && !is_offset(k, shape, stride)
                ==> #[trigger] self.buffer()[k] == before.buffer()[k]
        &&& distinct_offsets(shape, stride) ==> forall|m: Seq<usize>| #[trigger]
            index_in_shape(m, shape) ==> self.at(m) == other.value_at(m)
    }

    /// Writes the elements of `other` over those of `self`, in the
    /// one-dimensional order of the elements.
    fn fill_from(&mut self, other: Other) {
        proof {
            use_type_invariant(&*self);
        }
        let shape = self.shape;
        let count = number_of_elements(shape);
        let ghost stride = self.stride@;
        let ghost distinct = distinct_offsets(shape@, stride);
        let mut i: usize = 0;
        while i < count
            invariant
                0 <= i <= count,
                count == product_of(shape@),
                shape == self.shape,
                self.shape == old(self).shape,
                self.stride == old(self).stride,
                stride == self.stride@,
                self.data@.len() == old(self).data@.len(),
                other.spec_shape() == self.shape,
                distinct == distinct_offsets(shape@, stride),
                storage_fits(self.data@.len() as int, shape@, stride),
                self.data@ == fill_written(old(self).data@, shape@, stride, &other, i as int),
                forall|k: int|
                    0 <= k < self.data@.len() && !is_offset(k, shape@, stride)
                        ==> #[trigger] self.data@[k] == old(self).data@[k],
                distinct ==> forall|j: int|
                    0 <= j < i ==> self.data@[raw_offset(
                        #[trigger] unravelled(j, shape@),
                        stride,
                    )] == other.value_at(unravelled(j, shape@)),
            decreases count - i,
        {
            let multi_index = convert_1d_nd_from_shape(i, shape);
            let value = other.get_value_unchecked(multi_index);
            let ghost entering = self.data@;
            let slot = self.get_unchecked_mut(multi_index);
            *slot = value;
            proof {
                let here = raw_offset(multi_index@, stride);
                assert(self.data@ == entering.update(here, value));
                assert(index_in_shape(multi_index@, shape@));
                assert(is_offset(here, shape@, stride));
                if distinct {
                    assert forall|j: int| 0 <= j < i + 1 implies self.data@[raw_offset(
                        #[trigger] unravelled(j, shape@),
                        stride,
                    )] == other.value_at(unravelled(j, shape@)) by {
                        if j < i {
                            let there = unravelled(j, shape@);
                            lemma_unravelled_in_shape(j, shape@);
                            lemma_raw_offset_nonnegative(there, stride);
                            if raw_offset(there, stride) == here {
                                assert(index_in_shape(there, shape@));
                                assert(there == multi_index@);
                                lemma_unravelled_distinct(j, i as int, shape@);
                            }
                            assert(entering[raw_offset(there, stride)] == other.value_at(there));
                        }
                    }
                }
            }
            i += 1;
        }
        proof {
            if distinct {
                assert forall|m: Seq<usize>| #[trigger] index_in_shape(m, shape@) implies self.at(
                    m,
                ) == other.value_at(m) by {
                    lemma_prefix_monotone(shape@, 0, shape@.len() as int);
                    lemma_prefix_full(shape@);
                    lemma_column_major_strides(shape@);
                    let cm = column_major_strides(shape@);
                    lemma_ravelled_unravels(m, shape@, cm);
                    lemma_raw_offset_nonnegative(m, stride);
                    let j = raw_offset(m, cm);
                    assert(unravelled(j, shape@) == m);
                    assert(self.data@[raw_offset(unravelled(j, shape@), stride)]
                        == other.value_at(unravelled(j, shape@)));
                }
            }
        }
    }
}

} // verus!
