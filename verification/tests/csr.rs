use dist_sparse::error::SparseError;
use dist_sparse::sparse::csr_mat::CsrMatrix;
use dist_sparse::sparse::kernel::csr_matvec;

fn build(
    shape: (usize, usize),
    indptr: Vec<usize>,
    indices: Vec<usize>,
    values: Vec<i64>,
) -> Result<CsrMatrix<i64>, SparseError> {
    CsrMatrix::new(shape, indptr, indices, values)
}

#[test]
fn a_valid_matrix_keeps_its_arrays() {
    let m = build((2, 6), vec![0, 3, 6], vec![0, 1, 5, 0, 1, 2], vec![1, 2, 9, 4, 5, 6]).unwrap();
    assert_eq!(m.shape(), (2, 6));
    assert_eq!(m.rows(), 2);
    assert_eq!(m.cols(), 6);
    assert_eq!(m.nnz(), 6);
    assert_eq!(m.indptr(), &vec![0usize, 3, 6]);
    assert_eq!(m.indices(), &vec![0usize, 1, 5, 0, 1, 2]);
    assert_eq!(m.data(), &vec![1i64, 2, 9, 4, 5, 6]);
    assert!(m.has_columns_in_range());
}

#[test]
fn rows_are_pairs_of_column_and_value() {
    let m = build((3, 6), vec![0, 3, 3, 6], vec![0, 1, 5, 0, 1, 2], vec![1, 2, 9, 4, 5, 6]).unwrap();
    assert_eq!(m.row(0), Some(vec![(0usize, 1i64), (1, 2), (5, 9)]));
    assert_eq!(m.row(1), Some(vec![]));
    assert_eq!(m.row(2), Some(vec![(0usize, 4i64), (1, 5), (2, 6)]));
    assert_eq!(m.row(3), None);
}

#[test]
fn indptr_of_the_wrong_length_is_a_dimension_mismatch() {
    assert_eq!(
        build((2, 6), vec![0, 3], vec![0, 1, 5], vec![1, 2, 9]).err(),
        Some(SparseError::DimensionMismatch)
    );
    assert_eq!(
        build((2, 6), vec![0, 1, 2, 3], vec![0, 1, 5], vec![1, 2, 9]).err(),
        Some(SparseError::DimensionMismatch)
    );
    assert_eq!(build((0, 6), vec![], vec![], vec![]).err(), Some(SparseError::DimensionMismatch));
    assert_eq!(
        build((usize::MAX, 6), vec![0], vec![], vec![]).err(),
        Some(SparseError::DimensionMismatch)
    );
}

#[test]
fn indices_and_values_of_different_lengths_are_a_dimension_mismatch() {
    assert_eq!(
        build((1, 6), vec![0, 2], vec![0, 1, 5], vec![1, 2]).err(),
        Some(SparseError::DimensionMismatch)
    );
    // checked before the row pointers
    assert_eq!(
        build((1, 6), vec![5, 2], vec![0], vec![1, 2]).err(),
        Some(SparseError::DimensionMismatch)
    );
}

#[test]
fn a_decreasing_indptr_is_invalid() {
    assert_eq!(
        build((2, 6), vec![0, 2, 1], vec![0], vec![1]).err(),
        Some(SparseError::InvalidIndptr)
    );
    assert_eq!(
        build((3, 6), vec![0, 3, 2, 3], vec![0, 1, 2], vec![1, 2, 3]).err(),
        Some(SparseError::InvalidIndptr)
    );
}

#[test]
fn an_indptr_that_does_not_span_the_values_is_invalid() {
    assert_eq!(
        build((2, 6), vec![1, 2, 3], vec![0, 1, 2], vec![1, 2, 3]).err(),
        Some(SparseError::InvalidIndptr)
    );
    assert_eq!(
        build((2, 6), vec![0, 1, 2], vec![0, 1, 2], vec![1, 2, 3]).err(),
        Some(SparseError::InvalidIndptr)
    );
    assert_eq!(
        build((2, 6), vec![0, 1, 4], vec![0, 1, 2], vec![1, 2, 3]).err(),
        Some(SparseError::InvalidIndptr)
    );
}

#[test]
fn a_matrix_without_rows_or_nonzeros() {
    let m = build((0, 4), vec![0], vec![], vec![]).unwrap();
    assert_eq!(m.rows(), 0);
    assert_eq!(m.nnz(), 0);
    assert_eq!(m.row(0), None);
    let mut y: Vec<i64> = vec![];
    assert_eq!(csr_matvec(&m, 1, &vec![1, 2, 3, 4], 1, &mut y), Ok(()));
    let m = build((2, 0), vec![0, 0, 0], vec![], vec![]).unwrap();
    let mut y = vec![3i64, 4];
    assert_eq!(csr_matvec(&m, 7, &vec![], 2, &mut y), Ok(()));
    assert_eq!(y, vec![6, 8]);
}

#[test]
fn columns_are_not_checked_at_construction() {
    let m = build((1, 2), vec![0, 1], vec![2], vec![1]).unwrap();
    assert!(!m.has_columns_in_range());
    let mut y = vec![5i64];
    assert_eq!(csr_matvec(&m, 1, &vec![1, 1], 1, &mut y), Err(SparseError::OutOfRange));
    assert_eq!(y, vec![5]);
}

#[test]
fn row_blocks_keep_rows_and_columns() {
    let m = build((3, 6), vec![0, 3, 3, 6], vec![0, 1, 5, 0, 1, 2], vec![1, 2, 9, 4, 5, 6]).unwrap();
    let b = m.row_block(1, 3).unwrap();
    assert_eq!(b.shape(), (2, 6));
    assert_eq!(b.indptr(), &vec![0usize, 0, 3]);
    assert_eq!(b.indices(), &vec![0usize, 1, 2]);
    assert_eq!(b.data(), &vec![4i64, 5, 6]);
    assert_eq!(b.row(1), m.row(2));
    let all = m.row_block(0, 3).unwrap();
    assert_eq!(all.indptr(), m.indptr());
    assert_eq!(all.data(), m.data());
    let none = m.row_block(2, 2).unwrap();
    assert_eq!(none.shape(), (0, 6));
    assert_eq!(none.indptr(), &vec![0usize]);
    assert!(m.row_block(2, 1).is_none());
    assert!(m.row_block(0, 4).is_none());
}

#[test]
fn product_sums_in_storage_order() {
    // duplicate columns within a row add up
    let m = build((1, 2), vec![0, 3], vec![1, 0, 1], vec![2, 3, 4]).unwrap();
    let mut y = vec![10i64];
    csr_matvec(&m, 1, &vec![5, 7], 1, &mut y).unwrap();
    assert_eq!(y, vec![10 + 2 * 7 + 3 * 5 + 4 * 7]);
}

#[test]
fn product_with_vectors_of_the_wrong_length() {
    let m = build((2, 6), vec![0, 3, 6], vec![0, 1, 5, 0, 1, 2], vec![1, 2, 9, 4, 5, 6]).unwrap();
    let mut y = vec![0i64, 0];
    assert_eq!(
        csr_matvec(&m, 1, &vec![1, 2, 3], 0, &mut y),
        Err(SparseError::DimensionMismatch)
    );
    let mut y = vec![0i64];
    assert_eq!(
        csr_matvec(&m, 1, &vec![1, 2, 3, 9, 4, 5], 0, &mut y),
        Err(SparseError::DimensionMismatch)
    );
    assert_eq!(y, vec![0]);
}
