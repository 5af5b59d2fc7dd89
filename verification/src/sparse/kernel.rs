//! The arithmetic of a sparse matrix-vector product, row by row.
//!
//! Row `i` of `y = alpha * A * x + beta * y` is
//! `beta * y[i] + alpha * (v[0] * o[0] + v[1] * o[1] + ..)`, where `v` are the
//! values of the nonzeros of the row and `o` the entries of `x` at their
//! columns. The sum starts from zero and takes the nonzeros in storage order.

use vstd::prelude::*;
use crate::error::SparseError;
use crate::sparse::csr_mat::{valid_indptr, CsrMatrix};
use crate::types::Scalar;

verus! {

/// The sum of `values[k] * operands[k]` over the `count` positions from
/// `start` on, taken from left to right starting at zero.
pub open spec fn row_sum<T: Scalar>(values: Seq<T>, operands: Seq<T>, start: int, count: int) -> T
    decreases count,
{
    if count <= 0 {
        T::zero_value()
    } else {
        row_sum(values, operands, start, count - 1).sum(
            values[start + count - 1].product(operands[start + count - 1]),
        )
    }
}

/// The items of `pool` at `positions`, in the order of `positions`.
pub open spec fn gathered<T>(positions: Seq<usize>, pool: Seq<T>) -> Seq<T> {
    Seq::new(positions.len(), |k: int| pool[positions[k] as int])
}

/// `beta * y + alpha * s`.
pub open spec fn axpby<T: Scalar>(alpha: T, s: T, beta: T, y: T) -> T {
    beta.product(y).sum(alpha.product(s))
}

/// Row `i` of the product of `mat` with the vector `x`: the nonzeros of the
/// row against the entries of `x` at their columns.
pub open spec fn row_product<T: Scalar>(mat: &CsrMatrix<T>, i: int, x: Seq<T>) -> T {
    row_sum(
        mat.spec_data(),
        gathered(mat.spec_indices(), x),
        mat.row_start(i),
        mat.row_start(i + 1) - mat.row_start(i),
    )
}

/// Whether `after` is `alpha * mat * x + beta * before`.
pub open spec fn is_product<T: Scalar>(
    mat: &CsrMatrix<T>,
    alpha: T,
    x: Seq<T>,
    beta: T,
    before: Seq<T>,
    after: Seq<T>,
) -> bool {
    &&& after.len() == mat.spec_rows()
    &&& forall|i: int|
        0 <= i < mat.spec_rows() ==> #[trigger] after[i] == axpby(
            alpha,
            row_product(mat, i, x),
            beta,
            before[i],
        )
}

/// A row without nonzeros has the product zero, whatever the vector.
pub proof fn lemma_empty_row_product<T: Scalar>(mat: &CsrMatrix<T>, i: int, x: Seq<T>)
    requires
        mat.row_start(i + 1) == mat.row_start(i),
    ensures
        row_product(mat, i, x) == T::zero_value(),
{
}

/// In the integers modulo 2^64 a row whose product is zero leaves
/// `beta * y`, whatever `alpha` is. A number type with other rules, such as
/// one with infinities, need not agree.
pub proof fn lemma_axpby_of_zero_i64(alpha: i64, beta: i64, y: i64)
    ensures
        axpby(alpha, 0i64, beta, y) == beta.product(y),
{
    assert(alpha * 0 == 0) by (nonlinear_arith);
    assert(0int % 0x1_0000_0000_0000_0000 == 0) by (nonlinear_arith);
}

/// Two sums over runs that agree position by position are equal.
pub proof fn lemma_row_sum_congruent<T: Scalar>(
    values1: Seq<T>,
    operands1: Seq<T>,
    start1: int,
    values2: Seq<T>,
    operands2: Seq<T>,
    start2: int,
    count: int,
)
    requires
        forall|k: int|
            start1 <= k < start1 + count ==> #[trigger] values1[k] == values2[k - start1 + start2],
        forall|k: int|
            start1 <= k < start1 + count ==> #[trigger] operands1[k] == operands2[k - start1
                + start2],
    ensures
        row_sum(values1, operands1, start1, count) == row_sum(values2, operands2, start2, count),
    decreases count,
{
    if count > 0 {
        lemma_row_sum_congruent(values1, operands1, start1, values2, operands2, start2, count - 1);
        assert(values1[start1 + count - 1] == values2[start2 + count - 1]);
        assert(operands1[start1 + count - 1] == operands2[start2 + count - 1]);
    }
}

/// Replaces each `y[i]` by `beta * y[i] + alpha * s`, where `s` is the sum
/// over the nonzeros of row `i` of their value times the item of `near`
/// followed by `far` at their position.
pub(crate) fn accumulate_rows<T: Scalar>(
    indptr: &Vec<usize>,
    values: &Vec<T>,
    positions: &Vec<usize>,
    near: &Vec<T>,
    far: &Vec<T>,
    alpha: T,
    beta: T,
    y: &mut Vec<T>,
)
    requires
        valid_indptr(indptr@, values@.len() as int),
        positions@.len() == values@.len(),
        old(y)@.len() == indptr@.len() - 1,
        forall|k: int| 0 <= k < positions@.len() ==> positions@[k] < near@.len() + far@.len(),
    ensures
        final(y)@.len() == old(y)@.len(),
        forall|i: int|
            0 <= i < old(y)@.len() ==> #[trigger] final(y)@[i] == axpby(
                alpha,
                row_sum(
                    values@,
                    gathered(positions@, near@ + far@),
                    indptr@[i] as int,
                    indptr@[i + 1] - indptr@[i],
                ),
                beta,
                old(y)@[i],
            ),
{
    let rows = y.len();
    let ghost pool = near@ + far@;
    let ghost operands = gathered(positions@, pool);
    let mut i: usize = 0;
    while i < rows
        invariant
            0 <= i <= rows,
            rows == old(y)@.len(),
            y@.len() == rows,
            rows == indptr@.len() - 1,
            valid_indptr(indptr@, values@.len() as int),
            positions@.len() == values@.len(),
            pool == near@ + far@,
            operands == gathered(positions@, pool),
            forall|k: int| 0 <= k < positions@.len() ==> positions@[k] < near@.len() + far@.len(),
            forall|r: int| i <= r < rows ==> y@[r] == old(y)@[r],
            forall|r: int|
                0 <= r < i ==> #[trigger] y@[r] == axpby(
                    alpha,
                    row_sum(values@, operands, indptr@[r] as int, indptr@[r + 1] - indptr@[r]),
                    beta,
                    old(y)@[r],
                ),
        decreases rows - i,
    {
        proof {
            assert(indptr@[i as int] <= indptr@[i as int + 1]);
            assert(indptr@[i as int + 1] <= indptr@[rows as int]);
        }
        let start = indptr[i];
        let end = indptr[i + 1];
        let mut acc = T::zero();
        let mut k: usize = start;
        while k < end
            invariant
                start <= k <= end <= values@.len(),
                positions@.len() == values@.len(),
                pool == near@ + far@,
                operands == gathered(positions@, pool),
                forall|j: int|
                    0 <= j < positions@.len() ==> positions@[j] < near@.len() + far@.len(),
                acc == row_sum(values@, operands, start as int, k - start),
            decreases end - k,
        {
            let p = positions[k];
            let operand = if p < near.len() {
                near[p]
            } else {
                far[p - near.len()]
            };
            proof {
                assert(operand == pool[p as int]);
                assert(operands[k as int] == pool[positions@[k as int] as int]);
            }
            acc = acc.plus(values[k].times(operand));
            k += 1;
        }
        let updated = beta.times(y[i]).plus(alpha.times(acc));
        y.set(i, updated);
        i += 1;
    }
}

/// Replaces `y` by `alpha * mat * x + beta * y`.
///
/// Fails with `DimensionMismatch` when `x` does not have one entry for each
/// column or `y` one for each row, and otherwise with `OutOfRange` when a
/// nonzero lies in a column that the matrix does not have. A failed call
/// leaves `y` as it was.
pub fn csr_matvec<T: Scalar>(mat: &CsrMatrix<T>, alpha: T, x: &Vec<T>, beta: T, y: &mut Vec<T>) -> (r:
    Result<(), SparseError>)
    requires
        mat.wf(),
    ensures
        match r {
            Ok(_) => {
                &&& x@.len() == mat.spec_cols()
                &&& old(y)@.len() == mat.spec_rows()
                &&& mat.columns_in_range()
                &&& is_product(mat, alpha, x@, beta, old(y)@, final(y)@)
            },
            Err(e) => {
                &&& final(y)@ == old(y)@
                &&& if x@.len() != mat.spec_cols() || old(y)@.len() != mat.spec_rows() {
                    e == SparseError::DimensionMismatch
                } else {
                    e == SparseError::OutOfRange && !mat.columns_in_range()
                }
            },
        },
{
    if x.len() != mat.cols() || y.len() != mat.rows() {
        return Err(SparseError::DimensionMismatch);
    }
    if !mat.has_columns_in_range() {
        return Err(SparseError::OutOfRange);
    }
    let far: Vec<T> = Vec::new();
    proof {
        assert(x@ + far@ =~= x@);
    }
    accumulate_rows(mat.indptr(), mat.data(), mat.indices(), x, &far, alpha, beta, y);
    Ok(())
}

} // verus!
