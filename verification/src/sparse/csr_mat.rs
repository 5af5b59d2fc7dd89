//! Compressed-row storage of a sparse matrix.
//!
//! The nonzeros of row `i` are the entries `indptr[i] .. indptr[i + 1]` of
//! `indices` (their columns) and `data` (their values). The matrix is checked
//! once, when it is built, and never changes afterwards.

use vstd::prelude::*;
use crate::error::SparseError;
use crate::types::Scalar;

verus! {

/// Whether `indptr` is a row-pointer table over `nnz` nonzeros: it starts at
/// zero, never decreases, and ends at `nnz`.
pub open spec fn valid_indptr(indptr: Seq<usize>, nnz: int) -> bool {
    &&& indptr.len() >= 1
    &&& indptr[0] == 0
    &&& forall|i: int, j: int|
        0 <= i <= j < indptr.len() ==> #[trigger] indptr[i] <= #[trigger] indptr[j]
    &&& indptr[indptr.len() - 1] == nnz
}

/// Whether the three arrays have the lengths that a matrix of `rows` rows
/// needs.
pub open spec fn lengths_agree(rows: int, indptr_len: int, indices_len: int, values_len: int) -> bool {
    indptr_len == rows + 1 && indices_len == values_len
}

/// Whether `block` is made of rows `first .. last` of `whole`, with the same
/// columns.
pub open spec fn is_row_block<T: Scalar>(
    block: &CsrMatrix<T>,
    whole: &CsrMatrix<T>,
    first: int,
    last: int,
) -> bool {
    &&& block.wf()
    &&& block.spec_rows() == last - first
    &&& block.spec_cols() == whole.spec_cols()
    &&& block.spec_indices() == whole.spec_indices().subrange(
        whole.row_start(first),
        whole.row_start(last),
    )
    &&& block.spec_data() == whole.spec_data().subrange(
        whole.row_start(first),
        whole.row_start(last),
    )
    &&& forall|i: int|
        0 <= i <= last - first ==> #[trigger] block.row_start(i) == whole.row_start(first + i)
            - whole.row_start(first)
}

/// A sparse matrix in compressed-row form. Column indices are global.
pub struct CsrMatrix<T: Scalar> {
    shape: (usize, usize),
    indptr: Vec<usize>,
    indices: Vec<usize>,
    data: Vec<T>,
}

impl<T: Scalar> CsrMatrix<T> {
    /// The number of rows.
    pub closed spec fn spec_rows(&self) -> int {
        self.shape.0 as int
    }

    /// The number of columns.
    pub closed spec fn spec_cols(&self) -> int {
        self.shape.1 as int
    }

    /// The row-pointer table.
    pub closed spec fn spec_indptr(&self) -> Seq<usize> {
        self.indptr@
    }

    /// The column of each nonzero.
    pub closed spec fn spec_indices(&self) -> Seq<usize> {
        self.indices@
    }

    /// The value of each nonzero.
    pub closed spec fn spec_data(&self) -> Seq<T> {
        self.data@
    }

    /// The number of nonzeros.
    pub open spec fn spec_nnz(&self) -> int {
        self.spec_data().len() as int
    }

    /// What every matrix that `new` returns satisfies.
    pub open spec fn wf(&self) -> bool {
        &&& 0 <= self.spec_rows() <= usize::MAX
        &&& 0 <= self.spec_cols() <= usize::MAX
        &&& self.spec_nnz() <= usize::MAX
        &&& lengths_agree(
            self.spec_rows(),
            self.spec_indptr().len() as int,
            self.spec_indices().len() as int,
            self.spec_data().len() as int,
        )
        &&& valid_indptr(self.spec_indptr(), self.spec_nnz())
    }

    /// The position of the first nonzero of row `i`; for `i` the number of
    /// rows, the number of nonzeros.
    pub open spec fn row_start(&self, i: int) -> int {
        self.spec_indptr()[i] as int
    }

    /// The nonzeros of row `i` as pairs of column and value.
    pub open spec fn row_entries(&self, i: int) -> Seq<(usize, T)> {
        Seq::new(
            (self.row_start(i + 1) - self.row_start(i)) as nat,
            |k: int|
                (
                    self.spec_indices()[self.row_start(i) + k],
                    self.spec_data()[self.row_start(i) + k],
                ),
        )
    }

    /// Whether every column index is below the number of columns.
    pub open spec fn columns_in_range(&self) -> bool {
        forall|k: int| 0 <= k < self.spec_indices().len() ==> self.spec_indices()[k] < self.spec_cols()
    }

    /// The rows of a valid matrix lie one after the other within the arrays.
    pub proof fn lemma_rows_ordered(&self, i: int, j: int)
        requires
            self.wf(),
            0 <= i <= j <= self.spec_rows(),
        ensures
            0 <= self.row_start(i) <= self.row_start(j) <= self.spec_nnz(),
            self.spec_indices().len() == self.spec_nnz(),
    {
        assert(self.spec_indptr()[i] <= self.spec_indptr()[j]);
        assert(self.spec_indptr()[j] <= self.spec_indptr()[self.spec_rows()]);
    }

    /// Builds a matrix of `shape.0` rows and `shape.1` columns from its
    /// row-pointer table, the columns of its nonzeros and their values.
    ///
    /// Fails with `DimensionMismatch` when `indptr` does not have one entry
    /// more than there are rows or `indices` and `values` differ in length,
    /// and otherwise with `InvalidIndptr` when `indptr` is no row-pointer
    /// table over the nonzeros.
    pub fn new(shape: (usize, usize), indptr: Vec<usize>, indices: Vec<usize>, values: Vec<T>) -> (r:
        Result<Self, SparseError>)
        ensures
            match r {
                Ok(m) => {
                    &&& lengths_agree(
                        shape.0 as int,
                        indptr@.len() as int,
                        indices@.len() as int,
                        values@.len() as int,
                    )
                    &&& valid_indptr(indptr@, values@.len() as int)
                    &&& m.wf()
                    &&& m.spec_rows() == shape.0
                    &&& m.spec_cols() == shape.1
                    &&& m.spec_indptr() == indptr@
                    &&& m.spec_indices() == indices@
                    &&& m.spec_data() == values@
                },
                Err(e) => if !lengths_agree(
                    shape.0 as int,
                    indptr@.len() as int,
                    indices@.len() as int,
                    values@.len() as int,
                ) {
                    e == SparseError::DimensionMismatch
                } else {
                    e == SparseError::InvalidIndptr && !valid_indptr(indptr@, values@.len() as int)
                },
            },
    {
        let rows = shape.0;
        if rows == usize::MAX || indptr.len() != rows + 1 || indices.len() != values.len() {
            proof {
                assert(indptr.len() == indptr@.len());
            }
            return Err(SparseError::DimensionMismatch);
        }
        if indptr[0] != 0 || indptr[rows] != values.len() {
            return Err(SparseError::InvalidIndptr);
        }
        let mut i: usize = 0;
        while i < rows
            invariant
                0 <= i <= rows,
                rows == shape.0,
                indptr@.len() == rows + 1,
                indices@.len() == values@.len(),
                indptr@[0] == 0,
                indptr@[rows as int] == values@.len(),
                forall|a: int, b: int|
                    0 <= a <= b <= i ==> #[trigger] indptr@[a] <= #[trigger] indptr@[b],
            decreases rows - i,
        {
            if indptr[i] > indptr[i + 1] {
                proof {
                    assert(!(indptr@[i as int] <= indptr@[i as int + 1]));
                }
                return Err(SparseError::InvalidIndptr);
            }
            i += 1;
        }
        Ok(CsrMatrix { shape, indptr, indices, data: values })
    }

    /// The number of rows and the number of columns.
    pub fn shape(&self) -> (s: (usize, usize))
        ensures
            s.0 == self.spec_rows(),
            s.1 == self.spec_cols(),
    {
        self.shape
    }

    /// The number of rows.
    pub fn rows(&self) -> (r: usize)
        ensures
            r == self.spec_rows(),
    {
        self.shape.0
    }

    /// The number of columns.
    pub fn cols(&self) -> (r: usize)
        ensures
            r == self.spec_cols(),
    {
        self.shape.1
    }

    /// The number of nonzeros.
    pub fn nnz(&self) -> (r: usize)
        ensures
            r == self.spec_nnz(),
    {
        self.data.len()
    }

    /// The row-pointer table.
    pub fn indptr(&self) -> (r: &Vec<usize>)
        ensures
            r@ == self.spec_indptr(),
    {
        &self.indptr
    }

    /// The column of each nonzero.
    pub fn indices(&self) -> (r: &Vec<usize>)
        ensures
            r@ == self.spec_indices(),
    {
        &self.indices
    }

    /// The value of each nonzero.
    pub fn data(&self) -> (r: &Vec<T>)
        ensures
            r@ == self.spec_data(),
    {
        &self.data
    }

    /// The nonzeros of row `i` as pairs of column and value, in storage
    /// order, or `None` when the matrix has no such row.
    pub fn row(&self, i: usize) -> (r: Option<Vec<(usize, T)>>)
        requires
            self.wf(),
        ensures
            r.is_some() <==> i < self.spec_rows(),
            r.is_some() ==> r.unwrap()@ == self.row_entries(i as int),
    {
        if i >= self.shape.0 {
            return None;
        }
        proof {
            self.lemma_rows_ordered(i as int, i as int + 1);
        }
        let start = self.indptr[i];
        let end = self.indptr[i + 1];
        let mut entries: Vec<(usize, T)> = Vec::new();
        let mut k: usize = start;
        while k < end
            invariant
                start <= k <= end <= self.data@.len(),
                self.indices@.len() == self.data@.len(),
                entries@.len() == k - start,
                forall|j: int|
                    0 <= j < k - start ==> entries@[j] == (
                        self.indices@[start + j],
                        self.data@[start + j],
                    ),
            decreases end - k,
        {
            entries.push((self.indices[k], self.data[k]));
            k += 1;
        }
        proof {
            assert(entries@ =~= self.row_entries(i as int));
        }
        Some(entries)
    }

    /// Whether every column index is below the number of columns.
    pub fn has_columns_in_range(&self) -> (r: bool)
        ensures
            r == self.columns_in_range(),
    {
        let mut k: usize = 0;
        while k < self.indices.len()
            invariant
                0 <= k <= self.indices@.len(),
                forall|j: int| 0 <= j < k ==> self.indices@[j] < self.shape.1,
            decreases self.indices@.len() - k,
        {
            if self.indices[k] >= self.shape.1 {
                proof {
                    assert(!(self.spec_indices()[k as int] < self.spec_cols()));
                }
                return false;
            }
            k += 1;
        }
        true
    }

    /// The matrix made of rows `first .. last` of this one, with the same
    /// columns, or `None` when these are not rows of the matrix.
    pub fn row_block(&self, first: usize, last: usize) -> (r: Option<CsrMatrix<T>>)
        requires
            self.wf(),
        ensures
            r.is_some() <==> first <= last <= self.spec_rows(),
            r.is_some() ==> is_row_block(&r.unwrap(), self, first as int, last as int),
    {
        if first > last || last > self.shape.0 {
            return None;
        }
        proof {
            self.lemma_rows_ordered(first as int, last as int);
        }
        let base = self.indptr[first];
        let top = self.indptr[last];
        let mut indptr: Vec<usize> = Vec::new();
        let mut i: usize = first;
        while i <= last
            invariant
                self.wf(),
                first <= i <= last + 1,
                first <= last <= self.shape.0,
                self.indptr.len() == self.shape.0 + 1,
                base == self.indptr@[first as int],
                indptr@.len() == i - first,
                forall|j: int|
                    0 <= j < i - first ==> #[trigger] indptr@[j] == self.indptr@[first + j] - base,
            decreases last + 1 - i,
        {
            proof {
                self.lemma_rows_ordered(first as int, i as int);
            }
            indptr.push(self.indptr[i] - base);
            i += 1;
        }
        let mut indices: Vec<usize> = Vec::new();
        let mut data: Vec<T> = Vec::new();
        let mut k: usize = base;
        while k < top
            invariant
                base <= k <= top <= self.data@.len(),
                self.indices@.len() == self.data@.len(),
                indices@ == self.indices@.subrange(base as int, k as int),
                data@ == self.data@.subrange(base as int, k as int),
            decreases top - k,
        {
            indices.push(self.indices[k]);
            data.push(self.data[k]);
            proof {
                assert(indices@ =~= self.indices@.subrange(base as int, k as int + 1));
                assert(data@ =~= self.data@.subrange(base as int, k as int + 1));
            }
            k += 1;
        }
        let block = CsrMatrix { shape: (last - first, self.shape.1), indptr, indices, data };
        proof {
            assert forall|a: int, b: int| 0 <= a <= b < block.indptr@.len() implies #[trigger]
                block.indptr@[a] <= #[trigger] block.indptr@[b] by {
                self.lemma_rows_ordered(first + a, first + b);
            }
        }
        Some(block)
    }
}

} // verus!
