use dist_sparse::error::SparseError;
use dist_sparse::process_group::ProcessGroup;
use dist_sparse::sparse::index_layout::IndexLayout;
use dist_sparse::sparse::vector::IndexableVector;
use dist_sparse::traits::accessors::{
    RandomAccessByRef, RandomAccessByValue, RandomAccessMut, RawAccess, RawAccessMut,
    UnsafeRandomAccessByRef, UnsafeRandomAccessByValue, UnsafeRandomAccessMut,
};
use dist_sparse::traits::in_place_operations::{FillFrom, ScaleInPlace, SumInto};
use dist_sparse::traits::properties::Shape;

fn layout(n: usize, p: usize, rank: usize) -> IndexLayout {
    IndexLayout::new(n, &ProcessGroup::new(rank, p).unwrap())
}

#[test]
fn a_new_vector_holds_zeros_for_the_local_range() {
    let l = layout(10, 3, 0);
    let v = IndexableVector::<i64>::new(&l);
    assert_eq!(v.local(), &vec![0i64; 4]);
    assert_eq!(v.local_len(), 4);
    assert_eq!(v.layout(), &l);
    let v = IndexableVector::<i64>::new(&layout(2, 5, 4));
    assert_eq!(v.local_len(), 0);
}

#[test]
fn from_local_checks_the_length() {
    let l = layout(10, 3, 1);
    let v = IndexableVector::from_local(&l, vec![1i64, 2, 3]).unwrap();
    assert_eq!(v.local(), &vec![1i64, 2, 3]);
    assert_eq!(
        IndexableVector::from_local(&l, vec![1i64, 2]).err(),
        Some(SparseError::DimensionMismatch)
    );
    assert_eq!(
        IndexableVector::from_local(&l, vec![1i64, 2, 3, 4]).err(),
        Some(SparseError::DimensionMismatch)
    );
}

#[test]
fn local_entries_are_read_and_written_by_offset() {
    let l = layout(10, 3, 1);
    let mut v = IndexableVector::from_local(&l, vec![1i64, 2, 3]).unwrap();
    assert_eq!(v.get_local(0), Some(1));
    assert_eq!(v.get_local(2), Some(3));
    assert_eq!(v.get_local(3), None);
    assert_eq!(v.set_local(1, 20), Ok(()));
    assert_eq!(v.local(), &vec![1i64, 20, 3]);
    assert_eq!(v.set_local(3, 9), Err(SparseError::OutOfRange));
    assert_eq!(v.local(), &vec![1i64, 20, 3]);
    assert_eq!(v.set_all_local(&vec![7, 8, 9]), Ok(()));
    assert_eq!(v.local(), &vec![7i64, 8, 9]);
    assert_eq!(v.set_all_local(&vec![7, 8]), Err(SparseError::DimensionMismatch));
    assert_eq!(v.local(), &vec![7i64, 8, 9]);
}

#[test]
fn the_local_buffer_is_a_one_dimensional_array() {
    let l = layout(10, 3, 1);
    let mut v = IndexableVector::from_local(&l, vec![1i64, 2, 3]).unwrap();
    assert_eq!(v.shape(), [3]);
    assert_eq!(v.get_value([1]), Some(2));
    assert_eq!(v.get_value([3]), None);
    assert_eq!(v.get([2]), Some(&3));
    assert_eq!(v.get([7]), None);
    assert_eq!(v.get_value_unchecked([0]), 1);
    assert_eq!(*v.get_unchecked([0]), 1);
    *v.get_unchecked_mut([0]) = 11;
    *v.get_mut([1]).unwrap() = 12;
    assert!(v.get_mut([3]).is_none());
    assert_eq!(v.data(), &[11i64, 12, 3]);
    v.data_mut()[2] = 13;
    assert_eq!(v.local(), &vec![11i64, 12, 13]);
}

#[test]
fn in_place_operations_on_the_local_buffer() {
    let l = layout(10, 3, 1);
    let mut v = IndexableVector::from_local(&l, vec![1i64, 2, 3]).unwrap();
    let w = IndexableVector::from_local(&l, vec![10i64, 20, 30]).unwrap();
    v.scale_in_place(3);
    assert_eq!(v.local(), &vec![3i64, 6, 9]);
    v.sum_into(2, &w);
    assert_eq!(v.local(), &vec![23i64, 46, 69]);
    v.fill_from(&w);
    assert_eq!(v.local(), &vec![10i64, 20, 30]);
    assert_eq!(v.layout(), &l);
}

#[test]
fn get_mut_past_the_local_range_changes_nothing() {
    // six indices over two processes: no rank holds an offset for an index
    // at or past the global size
    for rank in 0..2 {
        let l = layout(6, 2, rank);
        let (start, _) = l.own_range();
        let mut v = IndexableVector::from_local(&l, vec![1i64, 2, 3]).unwrap();
        for g in [6usize, 7, 100] {
            assert!(v.get_mut([g - start]).is_none());
            assert_eq!(v.local(), &vec![1i64, 2, 3]);
            assert_eq!(v.layout(), &l);
        }
    }
}

#[test]
fn get_mut_writes_one_local_entry() {
    let l = layout(6, 2, 1);
    let mut v = IndexableVector::from_local(&l, vec![9i64, 4, 5]).unwrap();
    *v.get_mut([2]).unwrap() = 7;
    assert_eq!(v.local(), &vec![9i64, 4, 7]);
    assert_eq!(v.layout(), &l);
}
