//! How a multi-index maps to a position in storage.
//!
//! An array of `NDIM` axes stores its elements in one buffer. The element at
//! multi-index `m` sits at offset `m[0] * stride[0] + m[1] * stride[1] + ..`.
//! With column-major strides, axis `d` has the product of the extents of the
//! axes before it as its stride, so that the first axis runs fastest and the
//! offsets of the elements are exactly `0, 1, .., count - 1`.

use vstd::prelude::*;
use vstd::arithmetic::div_mod::{
    lemma_breakdown,
    lemma_fundamental_div_mod_converse,
    lemma_div_denominator,
    lemma_div_pos_is_pos,
    lemma_mod_bound,
    lemma_small_mod,
};
use vstd::arithmetic::mul::{lemma_mul_inequality, lemma_mul_nonnegative};
use crate::traits::accessors::index_in_shape;

verus! {

/// The product of all extents: the number of elements of an array of this
/// shape.
pub open spec fn product_of(shape: Seq<usize>) -> int
    decreases shape.len(),
{
    if shape.len() == 0 {
        1
    } else {
        product_of(shape.drop_last()) * (shape.last() as int)
    }
}

/// The product of the first `d` extents.
pub open spec fn prefix_product(shape: Seq<usize>, d: int) -> int {
    product_of(shape.take(d))
}

/// The storage offset of `multi_index` under `stride`.
pub open spec fn raw_offset(multi_index: Seq<usize>, stride: Seq<usize>) -> int
    decreases multi_index.len(),
{
    if multi_index.len() == 0 || stride.len() == 0 {
        0
    } else {
        raw_offset(multi_index.drop_last(), stride.drop_last()) + (multi_index.last() as int) * (
        stride.last() as int)
    }
}

/// Whether every column-major stride of `shape` fits a `usize`.
pub open spec fn strides_fit(shape: Seq<usize>) -> bool {
    forall|d: int| 0 <= d <= shape.len() ==> #[trigger] prefix_product(shape, d) <= usize::MAX
}

/// Whether `stride` is the column-major stride of `shape`.
pub open spec fn is_column_major(stride: Seq<usize>, shape: Seq<usize>) -> bool {
    &&& stride.len() == shape.len()
    &&& forall|d: int| 0 <= d < shape.len() ==> stride[d] as int == #[trigger] prefix_product(shape, d)
}

/// The multi-index of the element at one-dimensional position `index` of an
/// array of shape `shape`, the first axis running fastest.
pub open spec fn unravelled(index: int, shape: Seq<usize>) -> Seq<usize> {
    Seq::new(
        shape.len(),
        |d: int| ((index / prefix_product(shape, d)) % (shape[d] as int)) as usize,
    )
}

/// Whether a buffer of `len` elements holds every element of an array of
/// shape `shape` laid out with `stride`.
pub open spec fn storage_fits(len: int, shape: Seq<usize>, stride: Seq<usize>) -> bool {
    &&& stride.len() == shape.len()
    &&& forall|m: Seq<usize>| #[trigger] index_in_shape(m, shape) ==> raw_offset(m, stride) < len
}

/// A product of extents is never negative.
pub proof fn lemma_product_nonnegative(shape: Seq<usize>)
    ensures
        0 <= product_of(shape),
    decreases shape.len(),
{
    if shape.len() > 0 {
        lemma_product_nonnegative(shape.drop_last());
        lemma_mul_nonnegative(product_of(shape.drop_last()), shape.last() as int);
    }
}

/// Taking one more extent into a prefix multiplies the product by it.
pub proof fn lemma_prefix_step(shape: Seq<usize>, d: int)
    requires
        0 <= d < shape.len(),
    ensures
        prefix_product(shape, d + 1) == prefix_product(shape, d) * (shape[d] as int),
        prefix_product(shape, 0) == 1,
        0 <= prefix_product(shape, d),
{
    assert(shape.take(d + 1).drop_last() =~= shape.take(d));
    assert(shape.take(d + 1).last() == shape[d]);
    assert(shape.take(0).len() == 0);
    lemma_product_nonnegative(shape.take(d));
}

/// The prefix of all extents is the whole product.
pub proof fn lemma_prefix_full(shape: Seq<usize>)
    ensures
        prefix_product(shape, shape.len() as int) == product_of(shape),
        prefix_product(shape, 0) == 1,
{
    assert(shape.take(shape.len() as int) =~= shape);
    assert(shape.take(0).len() == 0);
}

/// When no extent is zero, prefix products are positive and grow with the
/// prefix.
pub proof fn lemma_prefix_monotone(shape: Seq<usize>, d: int, e: int)
    requires
        0 <= d <= e <= shape.len(),
        forall|k: int| 0 <= k < shape.len() ==> shape[k] > 0,
    ensures
        1 <= prefix_product(shape, d) <= prefix_product(shape, e),
    decreases e,
{
    if e == 0 {
        lemma_prefix_full(shape);
    } else if d == e {
        lemma_prefix_monotone(shape, d - 1, e - 1);
        lemma_prefix_step(shape, e - 1);
        lemma_mul_inequality(1, shape[e - 1] as int, prefix_product(shape, e - 1));
        assert(prefix_product(shape, e - 1) * (shape[e - 1] as int) >= prefix_product(
            shape,
            e - 1,
        )) by (nonlinear_arith)
            requires
                prefix_product(shape, e - 1) >= 1,
                shape[e - 1] as int >= 1,
        ;
    } else {
        lemma_prefix_monotone(shape, d, e - 1);
        lemma_prefix_step(shape, e - 1);
        assert(prefix_product(shape, e - 1) * (shape[e - 1] as int) >= prefix_product(
            shape,
            e - 1,
        )) by (nonlinear_arith)
            requires
                prefix_product(shape, e - 1) >= 1,
                shape[e - 1] as int >= 1,
        ;
    }
}

/// A shape with a zero extent has no elements.
pub proof fn lemma_product_zero(shape: Seq<usize>, z: int)
    requires
        0 <= z < shape.len(),
        shape[z] == 0,
    ensures
        product_of(shape) == 0,
    decreases shape.len(),
{
    if z == shape.len() - 1 {
        assert(product_of(shape.drop_last()) * 0 == 0) by (nonlinear_arith);
    } else {
        lemma_product_zero(shape.drop_last(), z);
        assert(0 * (shape.last() as int) == 0) by (nonlinear_arith);
    }
}

/// A shape that admits an index has no zero extent.
pub proof fn lemma_product_positive(shape: Seq<usize>)
    requires
        product_of(shape) > 0,
    ensures
        forall|k: int| 0 <= k < shape.len() ==> shape[k] > 0,
{
    assert forall|k: int| 0 <= k < shape.len() implies shape[k] > 0 by {
        if shape[k] == 0 {
            lemma_product_zero(shape, k);
        }
    }
}

/// Offsets are sums of non-negative terms, so the offset over the first `d`
/// axes is at most the offset over all of them.
pub proof fn lemma_raw_offset_prefix(multi_index: Seq<usize>, stride: Seq<usize>, d: int)
    requires
        multi_index.len() == stride.len(),
        0 <= d <= multi_index.len(),
    ensures
        0 <= raw_offset(multi_index.take(d), stride.take(d)) <= raw_offset(multi_index, stride),
        d < multi_index.len() ==> raw_offset(multi_index.take(d + 1), stride.take(d + 1))
            == raw_offset(multi_index.take(d), stride.take(d)) + (multi_index[d] as int) * (
        stride[d] as int),
        d < multi_index.len() ==> raw_offset(multi_index.take(d + 1), stride.take(d + 1))
            <= raw_offset(multi_index, stride),
    decreases multi_index.len() - d,
{
    let n = multi_index.len() as int;
    if d == n {
        assert(multi_index.take(d) =~= multi_index);
        assert(stride.take(d) =~= stride);
        lemma_raw_offset_nonnegative(multi_index, stride);
    } else {
        lemma_raw_offset_prefix(multi_index, stride, d + 1);
        assert(multi_index.take(d + 1).drop_last() =~= multi_index.take(d));
        assert(stride.take(d + 1).drop_last() =~= stride.take(d));
        lemma_mul_nonnegative(multi_index[d] as int, stride[d] as int);
        lemma_raw_offset_nonnegative(multi_index.take(d), stride.take(d));
    }
}

/// An offset is never negative.
pub proof fn lemma_raw_offset_nonnegative(multi_index: Seq<usize>, stride: Seq<usize>)
    ensures
        0 <= raw_offset(multi_index, stride),
    decreases multi_index.len(),
{
    if multi_index.len() > 0 && stride.len() > 0 {
        lemma_raw_offset_nonnegative(multi_index.drop_last(), stride.drop_last());
        lemma_mul_nonnegative(multi_index.last() as int, stride.last() as int);
    }
}

/// Under column-major strides the offset over the first `d` axes of an index
/// within the shape is below the product of the first `d` extents.
pub proof fn lemma_column_major_prefix_bound(
    multi_index: Seq<usize>,
    shape: Seq<usize>,
    stride: Seq<usize>,
    d: int,
)
    requires
        index_in_shape(multi_index, shape),
        is_column_major(stride, shape),
        0 <= d <= shape.len(),
    ensures
        raw_offset(multi_index.take(d), stride.take(d)) < prefix_product(shape, d),
    decreases d,
{
    if d == 0 {
        lemma_prefix_full(shape);
        assert(multi_index.take(0).len() == 0);
    } else {
        lemma_column_major_prefix_bound(multi_index, shape, stride, d - 1);
        lemma_raw_offset_prefix(multi_index, stride, d - 1);
        lemma_prefix_step(shape, d - 1);
        let pp = prefix_product(shape, d - 1);
        let m = multi_index[d - 1] as int;
        let s = shape[d - 1] as int;
        assert(stride[d - 1] as int == pp);
        assert(pp + m * pp <= pp * s) by (nonlinear_arith)
            requires
                0 <= m < s,
                0 <= pp,
        ;
    }
}

/// Under column-major strides every index within the shape has an offset
/// below the number of elements.
pub proof fn lemma_column_major_fits(shape: Seq<usize>, stride: Seq<usize>)
    requires
        is_column_major(stride, shape),
    ensures
        storage_fits(product_of(shape), shape, stride),
{
    assert forall|m: Seq<usize>| #[trigger] index_in_shape(m, shape) implies raw_offset(m, stride)
        < product_of(shape) by {
        lemma_column_major_prefix_bound(m, shape, stride, shape.len() as int);
        lemma_prefix_full(shape);
        assert(m.take(shape.len() as int) =~= m);
        assert(stride.take(shape.len() as int) =~= stride);
    }
}

/// The multi-index of a position below the number of elements lies within
/// the shape.
pub proof fn lemma_unravelled_in_shape(index: int, shape: Seq<usize>)
    requires
        0 <= index < product_of(shape),
    ensures
        index_in_shape(unravelled(index, shape), shape),
{
    lemma_product_positive(shape);
    assert forall|d: int| 0 <= d < shape.len() implies unravelled(index, shape)[d] < shape[d] by {
        lemma_prefix_monotone(shape, d, d);
        lemma_div_pos_is_pos(index, prefix_product(shape, d));
        lemma_mod_bound(index / prefix_product(shape, d), shape[d] as int);
    }
}

/// Under column-major strides the offset over the first `d` axes of the
/// multi-index of position `index` is `index` modulo the product of the
/// first `d` extents.
pub proof fn lemma_unravelled_prefix_offset(index: int, shape: Seq<usize>, stride: Seq<usize>, d: int)
    requires
        0 <= index < product_of(shape),
        is_column_major(stride, shape),
        0 <= d <= shape.len(),
    ensures
        prefix_product(shape, d) >= 1,
        raw_offset(unravelled(index, shape).take(d), stride.take(d)) == index % prefix_product(
            shape,
            d,
        ),
    decreases d,
{
    lemma_product_positive(shape);
    lemma_prefix_monotone(shape, d, d);
    let m = unravelled(index, shape);
    if d == 0 {
        lemma_prefix_full(shape);
        assert(m.take(0).len() == 0);
    } else {
        lemma_unravelled_prefix_offset(index, shape, stride, d - 1);
        lemma_raw_offset_prefix(m, stride, d - 1);
        lemma_prefix_step(shape, d - 1);
        let pp = prefix_product(shape, d - 1);
        let s = shape[d - 1] as int;
        lemma_breakdown(index, pp, s);
        assert(stride[d - 1] as int == pp);
        lemma_div_pos_is_pos(index, pp);
        lemma_mod_bound(index / pp, s);
        assert(m[d - 1] as int == (index / pp) % s);
        assert(((index / pp) % s) * pp == pp * ((index / pp) % s)) by (nonlinear_arith);
    }
}

/// Under column-major strides the element at one-dimensional position
/// `index` lies at offset `index`.
pub proof fn lemma_unravelled_offset(index: int, shape: Seq<usize>, stride: Seq<usize>)
    requires
        0 <= index < product_of(shape),
        is_column_major(stride, shape),
    ensures
        raw_offset(unravelled(index, shape), stride) == index,
{
    let n = shape.len() as int;
    lemma_unravelled_prefix_offset(index, shape, stride, n);
    lemma_prefix_full(shape);
    assert(unravelled(index, shape).take(n) =~= unravelled(index, shape));
    assert(stride.take(n) =~= stride);
    lemma_small_mod(index as nat, product_of(shape) as nat);
}

/// The column-major strides of `shape`, as a list.
pub open spec fn column_major_strides(shape: Seq<usize>) -> Seq<usize> {
    Seq::new(shape.len(), |d: int| prefix_product(shape, d) as usize)
}

/// Whether `stride` gives different offsets to different multi-indices
/// within `shape`.
pub open spec fn distinct_offsets(shape: Seq<usize>, stride: Seq<usize>) -> bool {
    forall|a: Seq<usize>, b: Seq<usize>|
        #![trigger index_in_shape(a, shape), index_in_shape(b, shape)]
        index_in_shape(a, shape) && index_in_shape(b, shape) && raw_offset(a, stride)
            == raw_offset(b, stride) ==> a == b
}

/// Whether `k` is the offset of some multi-index within `shape`.
pub open spec fn is_offset(k: int, shape: Seq<usize>, stride: Seq<usize>) -> bool {
    exists|m: Seq<usize>| #[trigger] index_in_shape(m, shape) && raw_offset(m, stride) == k
}

/// What the axes from `d` on contribute to a column-major offset, in units
/// of the product of the extents before axis `d`.
pub open spec fn tail_index(multi_index: Seq<usize>, shape: Seq<usize>, d: int) -> int
    decreases shape.len() - d,
{
    if d < 0 || d >= shape.len() {
        0
    } else {
        multi_index[d] + shape[d] * tail_index(multi_index, shape, d + 1)
    }
}

/// A shape with elements whose number fits a `usize` has column-major
/// strides that fit too.
pub proof fn lemma_column_major_strides(shape: Seq<usize>)
    requires
        0 < product_of(shape) <= usize::MAX,
    ensures
        is_column_major(column_major_strides(shape), shape),
{
    lemma_product_positive(shape);
    lemma_prefix_full(shape);
    assert forall|d: int| 0 <= d < shape.len() implies column_major_strides(shape)[d] as int
        == #[trigger] prefix_product(shape, d) by {
        lemma_prefix_monotone(shape, d, shape.len() as int);
    }
}

/// A column-major offset is the offset over the first `d` axes plus the
/// product of the first `d` extents times what the other axes contribute.
pub proof fn lemma_offset_split(multi_index: Seq<usize>, shape: Seq<usize>, stride: Seq<usize>, d: int)
    requires
        index_in_shape(multi_index, shape),
        is_column_major(stride, shape),
        0 <= d <= shape.len(),
    ensures
        0 <= tail_index(multi_index, shape, d),
        raw_offset(multi_index, stride) == raw_offset(multi_index.take(d), stride.take(d))
            + prefix_product(shape, d) * tail_index(multi_index, shape, d),
    decreases shape.len() - d,
{
    let n = shape.len() as int;
    if d == n {
        assert(multi_index.take(n) =~= multi_index);
        assert(stride.take(n) =~= stride);
        assert(prefix_product(shape, d) * 0 == 0) by (nonlinear_arith);
    } else {
        lemma_offset_split(multi_index, shape, stride, d + 1);
        lemma_raw_offset_prefix(multi_index, stride, d);
        lemma_prefix_step(shape, d);
        let pp = prefix_product(shape, d);
        let s = shape[d] as int;
        let m = multi_index[d] as int;
        let t = tail_index(multi_index, shape, d + 1);
        assert(stride[d] as int == pp);
        assert(m * pp + (pp * s) * t == pp * (m + s * t)) by (nonlinear_arith);
        assert(0 <= m + s * t) by (nonlinear_arith)
            requires
                0 <= m,
                0 <= s,
                0 <= t,
        ;
    }
}

/// Under column-major strides the multi-index of the position that is the
/// offset of a multi-index within the shape is that multi-index.
pub proof fn lemma_ravelled_unravels(multi_index: Seq<usize>, shape: Seq<usize>, stride: Seq<usize>)
    requires
        index_in_shape(multi_index, shape),
        is_column_major(stride, shape),
    ensures
        0 <= raw_offset(multi_index, stride) < product_of(shape),
        unravelled(raw_offset(multi_index, stride), shape) == multi_index,
{
    let n = shape.len() as int;
    let j = raw_offset(multi_index, stride);
    lemma_raw_offset_nonnegative(multi_index, stride);
    lemma_column_major_fits(shape, stride);
    assert forall|d: int| 0 <= d < n implies unravelled(j, shape)[d] == multi_index[d] by {
        lemma_offset_split(multi_index, shape, stride, d);
        lemma_offset_split(multi_index, shape, stride, d + 1);
        lemma_column_major_prefix_bound(multi_index, shape, stride, d);
        lemma_raw_offset_nonnegative(multi_index.take(d), stride.take(d));
        let pp = prefix_product(shape, d);
        let low = raw_offset(multi_index.take(d), stride.take(d));
        let t = tail_index(multi_index, shape, d);
        let s = shape[d] as int;
        assert(j == t * pp + low) by (nonlinear_arith)
            requires
                j == low + pp * t,
        ;
        lemma_fundamental_div_mod_converse(j, pp, t, low);
        let rest = tail_index(multi_index, shape, d + 1);
        assert(t == rest * s + multi_index[d]) by (nonlinear_arith)
            requires
                t == multi_index[d] + s * rest,
        ;
        lemma_fundamental_div_mod_converse(t, s, rest, multi_index[d] as int);
    }
    assert(unravelled(j, shape) =~= multi_index);
}

/// Column-major strides give different offsets to different multi-indices
/// within the shape.
pub proof fn lemma_column_major_distinct(shape: Seq<usize>, stride: Seq<usize>)
    requires
        is_column_major(stride, shape),
    ensures
        distinct_offsets(shape, stride),
{
    assert forall|a: Seq<usize>, b: Seq<usize>|
        #![trigger index_in_shape(a, shape), index_in_shape(b, shape)]
        index_in_shape(a, shape) && index_in_shape(b, shape) && raw_offset(a, stride)
            == raw_offset(b, stride) implies a == b by {
        lemma_ravelled_unravels(a, shape, stride);
        lemma_ravelled_unravels(b, shape, stride);
    }
}

/// Different positions below the number of elements have different
/// multi-indices.
pub proof fn lemma_unravelled_distinct(i: int, j: int, shape: Seq<usize>)
    requires
        0 <= i < product_of(shape),
        0 <= j < product_of(shape),
        product_of(shape) <= usize::MAX,
        unravelled(i, shape) == unravelled(j, shape),
    ensures
        i == j,
{
    lemma_column_major_strides(shape);
    lemma_unravelled_offset(i, shape, column_major_strides(shape));
    lemma_unravelled_offset(j, shape, column_major_strides(shape));
}

/// The column-major strides of `shape`.
pub fn stride_from_shape<const NDIM: usize>(shape: [usize; NDIM]) -> (stride: [usize; NDIM])
    requires
        strides_fit(shape@),
    ensures
        is_column_major(stride@, shape@),
{
    let mut stride = [0usize;NDIM];
    let mut acc: usize = 1;
    let mut d: usize = 0;
    proof {
        lemma_prefix_full(shape@);
    }
    while d < NDIM
        invariant
            0 <= d <= NDIM,
            strides_fit(shape@),
            acc as int == prefix_product(shape@, d as int),
            forall|e: int| 0 <= e < d ==> stride@[e] as int == #[trigger] prefix_product(shape@, e),
        decreases NDIM - d,
    {
        proof {
            lemma_prefix_step(shape@, d as int);
            assert(prefix_product(shape@, d as int + 1) <= usize::MAX);
        }
        stride[d] = acc;
        acc = acc * shape[d];
        d += 1;
    }
    stride
}

/// The number of elements of an array of shape `shape`.
pub fn number_of_elements<const NDIM: usize>(shape: [usize; NDIM]) -> (count: usize)
    requires
        product_of(shape@) <= usize::MAX,
    ensures
        count == product_of(shape@),
{
    let mut d: usize = 0;
    while d < NDIM
        invariant
            0 <= d <= NDIM,
            forall|e: int| 0 <= e < d ==> shape@[e] > 0,
        decreases NDIM - d,
    {
        if shape[d] == 0 {
            proof {
                lemma_product_zero(shape@, d as int);
            }
            return 0;
        }
        d += 1;
    }
    let mut count: usize = 1;
    d = 0;
    proof {
        lemma_prefix_full(shape@);
    }
    while d < NDIM
        invariant
            0 <= d <= NDIM,
            forall|e: int| 0 <= e < NDIM ==> shape@[e] > 0,
            product_of(shape@) <= usize::MAX,
            count as int == prefix_product(shape@, d as int),
        decreases NDIM - d,
    {
        proof {
            lemma_prefix_step(shape@, d as int);
            lemma_prefix_monotone(shape@, d as int + 1, NDIM as int);
            lemma_prefix_full(shape@);
        }
        count = count * shape[d];
        d += 1;
    }
    proof {
        lemma_prefix_full(shape@);
    }
    count
}

/// The storage offset of `multi_index` under `stride`.
pub fn convert_nd_raw<const NDIM: usize>(multi_index: [usize; NDIM], stride: [usize; NDIM]) -> (offset:
    usize)
    requires
        raw_offset(multi_index@, stride@) <= usize::MAX,
    ensures
        offset == raw_offset(multi_index@, stride@),
{
    let mut offset: usize = 0;
    let mut d: usize = 0;
    proof {
        assert(multi_index@.take(0).len() == 0);
    }
    while d < NDIM
        invariant
            0 <= d <= NDIM,
            raw_offset(multi_index@, stride@) <= usize::MAX,
            offset as int == raw_offset(multi_index@.take(d as int), stride@.take(d as int)),
        decreases NDIM - d,
    {
        proof {
            lemma_raw_offset_prefix(multi_index@, stride@, d as int);
            lemma_mul_nonnegative(multi_index@[d as int] as int, stride@[d as int] as int);
        }
        offset = offset + multi_index[d] * stride[d];
        d += 1;
    }
    proof {
        assert(multi_index@.take(NDIM as int) =~= multi_index@);
        assert(stride@.take(NDIM as int) =~= stride@);
    }
    offset
}

/// The multi-index of the element at one-dimensional position `index` of an
/// array of shape `shape`.
pub fn convert_1d_nd_from_shape<const NDIM: usize>(index: usize, shape: [usize; NDIM]) -> (multi_index:
    [usize; NDIM])
    requires
        index < product_of(shape@),
    ensures
        multi_index@ == unravelled(index as int, shape@),
        index_in_shape(multi_index@, shape@),
{
    let mut multi_index = [0usize;NDIM];
    let mut rest: usize = index;
    let mut d: usize = 0;
    proof {
        lemma_product_positive(shape@);
        lemma_prefix_full(shape@);
    }
    while d < NDIM
        invariant
            0 <= d <= NDIM,
            forall|e: int| 0 <= e < NDIM ==> shape@[e] > 0,
            rest as int == (index as int) / prefix_product(shape@, d as int),
            forall|e: int| 0 <= e < d ==> multi_index@[e] == unravelled(index as int, shape@)[e],
        decreases NDIM - d,
    {
        proof {
            lemma_prefix_step(shape@, d as int);
            lemma_prefix_monotone(shape@, d as int, d as int);
            lemma_div_denominator(
                index as int,
                prefix_product(shape@, d as int),
                shape@[d as int] as int,
            );
        }
        multi_index[d] = rest % shape[d];
        rest = rest / shape[d];
        d += 1;
    }
    proof {
        assert(multi_index@ =~= unravelled(index as int, shape@));
        lemma_unravelled_in_shape(index as int, shape@);
    }
    multi_index
}

} // verus!
