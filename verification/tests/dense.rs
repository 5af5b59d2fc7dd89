use dist_sparse::dense::addition::ArrayAddition;
use dist_sparse::dense::base_array::BaseArray;
use dist_sparse::dense::other::difference;
use dist_sparse::dense::layout::{
    convert_1d_nd_from_shape, convert_nd_raw, number_of_elements, stride_from_shape,
};
use dist_sparse::dense::scalar_mult::ArrayScalarMult;
use dist_sparse::traits::accessors::{
    check_dimension, ChunkedAccess, RandomAccessByRef, RandomAccessByValue, RandomAccessMut,
    RawAccess, RawAccessMut, UnsafeRandomAccessByRef, UnsafeRandomAccessByValue,
    UnsafeRandomAccessMut,
};
use dist_sparse::traits::in_place_operations::{FillFrom, SetDiag};
use dist_sparse::traits::properties::Shape;
use dist_sparse::types::{empty_chunk, DataChunk, Scalar};

#[test]
fn check_dimension_compares_axis_by_axis() {
    assert!(check_dimension([0, 0], [1, 1]));
    assert!(check_dimension([2, 4], [3, 5]));
    assert!(!check_dimension([3, 4], [3, 5]));
    assert!(!check_dimension([2, 5], [3, 5]));
    assert!(!check_dimension([0, 0], [0, 5]));
    assert!(check_dimension::<0>([], []));
    assert!(!check_dimension([usize::MAX], [usize::MAX]));
    assert!(check_dimension([usize::MAX - 1], [usize::MAX]));
}

#[test]
fn column_major_strides() {
    assert_eq!(stride_from_shape([6, 13]), [1, 6]);
    assert_eq!(stride_from_shape([2, 3, 4]), [1, 2, 6]);
    assert_eq!(stride_from_shape([5]), [1]);
    assert_eq!(stride_from_shape([3, 0, 4]), [1, 3, 0]);
    assert_eq!(stride_from_shape::<0>([]), []);
}

#[test]
fn offsets_and_multi_indices() {
    assert_eq!(number_of_elements([2, 3, 4]), 24);
    assert_eq!(number_of_elements([2, 0, 4]), 0);
    assert_eq!(number_of_elements::<0>([]), 1);
    assert_eq!(convert_nd_raw([1, 2, 3], [1, 2, 6]), 1 + 4 + 18);
    assert_eq!(convert_nd_raw([1, 2], [10, 1]), 12);
    assert_eq!(convert_1d_nd_from_shape(23, [2, 3, 4]), [1, 2, 3]);
    assert_eq!(convert_1d_nd_from_shape(0, [2, 3, 4]), [0, 0, 0]);
    assert_eq!(convert_1d_nd_from_shape(7, [2, 3, 4]), [1, 0, 1]);
    for i in 0..24 {
        let m = convert_1d_nd_from_shape(i, [2, 3, 4]);
        assert_eq!(convert_nd_raw(m, stride_from_shape([2, 3, 4])), i);
    }
}

fn sample() -> BaseArray<i64, 2> {
    // column-major 2 x 3:  [[0, 2, 4], [1, 3, 5]]
    BaseArray::new(vec![0, 1, 2, 3, 4, 5], [2, 3])
}

#[test]
fn base_array_access() {
    let mut a = sample();
    assert_eq!(a.shape(), [2, 3]);
    assert_eq!(a.stride(), [1, 2]);
    assert_eq!(a.get_value_unchecked([1, 2]), 5);
    assert_eq!(*a.get_unchecked([0, 1]), 2);
    assert_eq!(a.get_value([1, 1]), Some(3));
    assert_eq!(a.get_value([2, 0]), None);
    assert_eq!(a.get_value([0, 3]), None);
    assert_eq!(a.get([1, 0]), Some(&1));
    assert_eq!(a.get([9, 9]), None);
    *a.get_unchecked_mut([0, 2]) = 40;
    *a.get_mut([1, 0]).unwrap() = 10;
    assert!(a.get_mut([2, 2]).is_none());
    assert_eq!(a.data(), &[0i64, 10, 2, 3, 40, 5]);
    a.data_mut()[0] = -1;
    assert_eq!(a.get_value([0, 0]), Some(-1));
}

#[test]
fn base_array_with_row_major_strides() {
    // row-major 2 x 3: [[0, 1, 2], [3, 4, 5]]
    let a: BaseArray<i64, 2> = BaseArray::new_with_stride(vec![0, 1, 2, 3, 4, 5], [2, 3], [3, 1]);
    assert_eq!(a.stride(), [3, 1]);
    assert_eq!(a.get_value([1, 0]), Some(3));
    assert_eq!(a.get_value([0, 2]), Some(2));
    // chunks follow the one-dimensional order, first axis fastest
    let c: DataChunk<i64, 4> = a.get_chunk(0).unwrap();
    assert_eq!(c.data, [0, 3, 1, 4]);
    let c: DataChunk<i64, 4> = a.get_chunk(1).unwrap();
    assert_eq!(c.data, [2, 5, 0, 0]);
    assert_eq!(c.start_index, 4);
    assert_eq!(c.valid_entries, 2);
}

#[test]
fn chunks_of_a_base_array() {
    let a = sample();
    let c: DataChunk<i64, 4> = a.get_chunk(0).unwrap();
    assert_eq!((c.data, c.start_index, c.valid_entries), ([0, 1, 2, 3], 0, 4));
    let c: DataChunk<i64, 4> = a.get_chunk(1).unwrap();
    assert_eq!((c.data, c.start_index, c.valid_entries), ([4, 5, 0, 0], 4, 2));
    assert!(ChunkedAccess::<4>::get_chunk(&a, 2).is_none());
    assert!(ChunkedAccess::<4>::get_chunk(&a, usize::MAX).is_none());
    let c: DataChunk<i64, 6> = a.get_chunk(0).unwrap();
    assert_eq!((c.data, c.start_index, c.valid_entries), ([0, 1, 2, 3, 4, 5], 0, 6));
    assert!(ChunkedAccess::<6>::get_chunk(&a, 1).is_none());
    let empty: BaseArray<i64, 2> = BaseArray::new(vec![], [0, 3]);
    assert!(ChunkedAccess::<4>::get_chunk(&empty, 0).is_none());
}

#[test]
fn empty_chunks() {
    let c: DataChunk<i64, 4> = empty_chunk(1, 6).unwrap();
    assert_eq!((c.data, c.start_index, c.valid_entries), ([0, 0, 0, 0], 4, 2));
    let c: DataChunk<i64, 4> = empty_chunk(0, 6).unwrap();
    assert_eq!((c.start_index, c.valid_entries), (0, 4));
    assert!(empty_chunk::<4, i64>(2, 6).is_none());
    assert!(empty_chunk::<4, i64>(2, 8).is_none());
    assert!(empty_chunk::<4, i64>(usize::MAX, 8).is_none());
    assert!(empty_chunk::<4, i64>(0, 0).is_none());
}

#[test]
fn scalar_multiple_of_an_array() {
    let m = ArrayScalarMult::new(3, sample());
    assert_eq!(m.shape(), [2, 3]);
    assert_eq!(m.get_value_unchecked([1, 2]), 15);
    assert_eq!(m.get_value([0, 1]), Some(6));
    assert_eq!(m.get_value([2, 1]), None);
    let c: DataChunk<i64, 4> = m.get_chunk(1).unwrap();
    assert_eq!((c.data, c.start_index, c.valid_entries), ([12, 15, 0, 0], 4, 2));
    assert!(ChunkedAccess::<4>::get_chunk(&m, 2).is_none());
    // nested
    let mm = ArrayScalarMult::new(-1, m);
    assert_eq!(mm.get_value([1, 1]), Some(-9));
    let c: DataChunk<i64, 4> = mm.get_chunk(0).unwrap();
    assert_eq!(c.data, [0, -3, -6, -9]);
}

#[test]
fn integers_wrap() {
    assert_eq!(<i64 as Scalar>::zero(), 0);
    assert_eq!(<i64 as Scalar>::one(), 1);
    assert_eq!(2i64.plus(3), 5);
    assert_eq!(2i64.times(3), 6);
    assert_eq!(2i64.negate(), -2);
    assert_eq!(i64::MAX.plus(1), i64::MIN);
    assert_eq!(i64::MAX.times(2), -2);
    assert_eq!(i64::MIN.negate(), i64::MIN);
    assert_eq!(0i64.negate(), 0);
}

#[test]
fn diagonal_from_a_slice() {
    let mut a: BaseArray<i64, 2> = BaseArray::new(vec![0; 6], [2, 3]);
    a.set_diag_from_slice(&[7, 8]);
    assert_eq!(a.data(), &[7i64, 0, 0, 8, 0, 0]);
    assert_eq!(a.get_value([0, 0]), Some(7));
    assert_eq!(a.get_value([1, 1]), Some(8));
    let mut tall: BaseArray<i64, 2> = BaseArray::new(vec![1; 6], [3, 2]);
    tall.set_diag_from_slice(&[5, 6]);
    assert_eq!(tall.data(), &[5i64, 1, 1, 1, 6, 1]);
}

#[test]
fn diagonal_from_an_iterator_stops_at_the_shorter() {
    let mut a: BaseArray<i64, 2> = BaseArray::new(vec![0; 9], [3, 3]);
    a.set_diag_from_iter(vec![1i64, 2].into_iter());
    assert_eq!(a.data(), &[1i64, 0, 0, 0, 2, 0, 0, 0, 0]);
    a.set_diag_from_iter(vec![4i64, 5, 6, 7, 8].into_iter());
    assert_eq!(a.data(), &[4i64, 0, 0, 0, 5, 0, 0, 0, 6]);
    a.set_diag_from_iter(std::iter::empty());
    assert_eq!(a.data(), &[4i64, 0, 0, 0, 5, 0, 0, 0, 6]);
}

#[test]
fn diagonal_of_a_row_major_matrix() {
    let mut a: BaseArray<i64, 2> = BaseArray::new_with_stride(vec![0; 6], [2, 3], [3, 1]);
    a.set_diag_from_slice(&[7, 8]);
    assert_eq!(a.data(), &[7i64, 0, 0, 0, 8, 0]);
}

#[test]
fn difference_of_two_arrays() {
    let a = sample();
    let b: BaseArray<i64, 2> = BaseArray::new(vec![10, 20, 30, 40, 50, 60], [2, 3]);
    let d = difference(b, a);
    assert_eq!(d.shape(), [2, 3]);
    assert_eq!(d.get_value([0, 0]), Some(10));
    assert_eq!(d.get_value([1, 2]), Some(55));
    assert_eq!(d.get_value_unchecked([1, 0]), 19);
    assert_eq!(d.get_value([2, 0]), None);
    let s = ArrayAddition::new(sample(), sample());
    assert_eq!(s.get_value([1, 1]), Some(6));
}

#[test]
fn fill_from_a_lazy_product() {
    let mut res: BaseArray<i64, 2> = BaseArray::new(vec![0; 6], [2, 3]);
    res.fill_from(ArrayScalarMult::new(3, sample()));
    assert_eq!(res.data(), &[0i64, 3, 6, 9, 12, 15]);
    // from a row-major array into a column-major one
    let rows: BaseArray<i64, 2> = BaseArray::new_with_stride(vec![0, 1, 2, 3, 4, 5], [2, 3], [3, 1]);
    res.fill_from(rows);
    assert_eq!(res.data(), &[0i64, 3, 1, 4, 2, 5]);
    assert_eq!(res.get_value([1, 2]), Some(5));
}

#[test]
fn a_write_through_get_mut_changes_one_element() {
    let mut a: BaseArray<i64, 2> = BaseArray::new(vec![1, 2, 3, 4, 5, 6], [2, 3]);
    *a.get_mut([1, 1]).unwrap() = 9;
    assert_eq!(a.get_value([1, 1]), Some(9));
    assert_eq!(a.data(), &[1i64, 2, 3, 9, 5, 6]);
    assert_eq!(a.shape(), [2, 3]);
    assert_eq!(a.stride(), [1, 2]);
    assert!(a.get_mut([1, 3]).is_none());
    assert!(a.get_mut([2, 0]).is_none());
    assert_eq!(a.data(), &[1i64, 2, 3, 9, 5, 6]);
    assert_eq!(a.shape(), [2, 3]);
    assert_eq!(a.stride(), [1, 2]);
}

#[test]
fn a_buffer_longer_than_the_array() {
    let mut a: BaseArray<i64, 2> = BaseArray::new(vec![1, 2, 3, 4, 5, 6, 7, 8], [2, 3]);
    assert_eq!(a.get_value([1, 2]), Some(6));
    assert_eq!(a.get_value([0, 1]), Some(3));
    assert_eq!(a.get_value([0, 3]), None);
    assert_eq!(a.data(), &[1i64, 2, 3, 4, 5, 6, 7, 8]);
    let c: DataChunk<i64, 4> = a.get_chunk(1).unwrap();
    assert_eq!((c.data, c.start_index, c.valid_entries), ([5, 6, 0, 0], 4, 2));
    // filling writes the elements and leaves the rest of the buffer alone
    a.fill_from(ArrayScalarMult::new(2, sample()));
    assert_eq!(a.data(), &[0i64, 2, 4, 6, 8, 10, 7, 8]);
}

#[test]
fn fill_into_a_row_major_array() {
    let mut rows: BaseArray<i64, 2> = BaseArray::new_with_stride(vec![0; 6], [2, 3], [3, 1]);
    rows.fill_from(sample());
    // sample is [[0, 2, 4], [1, 3, 5]]
    assert_eq!(rows.data(), &[0i64, 2, 4, 1, 3, 5]);
    for r in 0..2 {
        for c in 0..3 {
            assert_eq!(rows.get_value([r, c]), sample().get_value([r, c]));
        }
    }
}

#[test]
fn fill_into_an_array_whose_elements_share_storage() {
    // both strides zero: every element is the one item of the buffer, and
    // the last element written stays
    let mut one: BaseArray<i64, 2> = BaseArray::new_with_stride(vec![-1, 77], [2, 3], [0, 0]);
    one.fill_from(sample());
    assert_eq!(one.data(), &[5i64, 77]);
}
