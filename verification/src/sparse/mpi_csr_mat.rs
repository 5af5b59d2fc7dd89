//! One process's part of a distributed sparse matrix, and its product with a
//! distributed vector.
//!
//! A process holds a block of rows. The columns of its nonzeros are global:
//! some lie in the part of the input vector that the process holds itself,
//! the others are ghosts whose values arrive through the communicator before
//! each product.

use vstd::prelude::*;
use crate::error::SparseError;
use crate::sparse::csr_mat::{is_row_block, CsrMatrix};
use crate::sparse::ghost_communicator::{is_ghost_set, GhostCommunicator, GhostRequests};
use crate::sparse::index_layout::IndexLayout;
use crate::sparse::kernel::{accumulate_rows, axpby, gathered, row_sum};
use crate::sparse::sorted::strictly_increasing;
use crate::sparse::vector::IndexableVector;
use crate::types::Scalar;

verus! {

/// The slot of the ghost with global index `c`.
pub open spec fn slot_of(ghosts: Seq<usize>, c: usize) -> int {
    choose|k: int| 0 <= k < ghosts.len() && ghosts[k] == c
}

/// The entry of the input vector at global index `c`, as the process of
/// `layout` sees it: its own entry if it owns `c`, else the value in the
/// ghost slot of `c`.
pub open spec fn lookup<T>(
    layout: IndexLayout,
    ghosts: Seq<usize>,
    c: usize,
    local: Seq<T>,
    ghost_values: Seq<T>,
) -> T {
    if layout.local_start() <= c < layout.local_end() {
        local[c - layout.local_start()]
    } else {
        ghost_values[slot_of(ghosts, c)]
    }
}

/// Where the entry at global index `c` lies in the local buffer followed by
/// the ghost buffer.
pub open spec fn operand_position(layout: IndexLayout, ghosts: Seq<usize>, c: usize) -> int {
    if layout.local_start() <= c < layout.local_end() {
        c - layout.local_start()
    } else {
        layout.local_len() + slot_of(ghosts, c)
    }
}

/// In an ascending list an item has one slot only.
pub proof fn lemma_slot_unique(ghosts: Seq<usize>, k: int)
    requires
        strictly_increasing(ghosts),
        0 <= k < ghosts.len(),
    ensures
        slot_of(ghosts, ghosts[k]) == k,
{
    let s = slot_of(ghosts, ghosts[k]);
    if s < k {
        assert(ghosts[s] < ghosts[k]);
    } else if k < s {
        assert(ghosts[k] < ghosts[s]);
    }
}

/// Ghosts are distinct indices outside the local range, so the ghost in slot
/// `k` has an index of at least `k`, and of at least `k` plus the length of
/// the local range if it lies behind that range.
pub proof fn lemma_ghost_slot_bound(ghosts: Seq<usize>, start: int, end: int, k: int)
    requires
        strictly_increasing(ghosts),
        0 <= start <= end,
        forall|j: int| 0 <= j < ghosts.len() ==> !(start <= #[trigger] ghosts[j] < end),
        0 <= k < ghosts.len(),
    ensures
        ghosts[k] >= k,
        ghosts[k] >= end ==> ghosts[k] >= k + (end - start),
    decreases k,
{
    if k > 0 {
        lemma_ghost_slot_bound(ghosts, start, end, k - 1);
        assert(ghosts[k - 1] < ghosts[k]);
    }
}

/// Cuts `whole` into the row blocks of the processes of `range_layout`, by
/// rank: block `q` holds the rows that process `q` owns.
///
/// Fails with `DimensionMismatch` when `whole` does not have one row for
/// each index of `range_layout`.
pub fn row_blocks<T: Scalar>(whole: &CsrMatrix<T>, range_layout: &IndexLayout) -> (r: Result<
    Vec<CsrMatrix<T>>,
    SparseError,
>)
    requires
        whole.wf(),
        range_layout.wf(),
    ensures
        match r {
            Ok(blocks) => {
                &&& whole.spec_rows() == range_layout.spec_global_size()
                &&& blocks@.len() == range_layout.spec_process_count()
                &&& forall|q: int|
                    0 <= q < blocks@.len() ==> is_row_block(
                        &#[trigger] blocks@[q],
                        whole,
                        range_layout.start_of(q),
                        range_layout.start_of(q + 1),
                    )
            },
            Err(e) => e == SparseError::DimensionMismatch && whole.spec_rows()
                != range_layout.spec_global_size(),
        },
{
    if whole.rows() != range_layout.global_size() {
        return Err(SparseError::DimensionMismatch);
    }
    let p = range_layout.process_count();
    let mut blocks: Vec<CsrMatrix<T>> = Vec::new();
    let mut q: usize = 0;
    while q < p
        invariant
            0 <= q <= p,
            p == range_layout.spec_process_count(),
            whole.wf(),
            range_layout.wf(),
            whole.spec_rows() == range_layout.spec_global_size(),
            blocks@.len() == q,
            forall|t: int|
                0 <= t < q ==> is_row_block(
                    &#[trigger] blocks@[t],
                    whole,
                    range_layout.start_of(t),
                    range_layout.start_of(t + 1),
                ),
        decreases p - q,
    {
        let (first, last) = range_layout.local_range(q);
        let block = match whole.row_block(first, last) {
            Some(block) => block,
            None => {
                proof {
                    assert(false);
                }
                return Err(SparseError::DimensionMismatch);
            },
        };
        blocks.push(block);
        q += 1;
    }
    Ok(blocks)
}

/// One process's row block of a distributed matrix whose ghosts are known
/// but whose communicator is not yet complete.
pub struct MpiCsrMatrixBuilder<T: Scalar> {
    local: CsrMatrix<T>,
    domain_layout: IndexLayout,
    range_layout: IndexLayout,
    requests: GhostRequests,
    positions: Vec<usize>,
}

/// One process's part of a distributed sparse matrix.
pub struct MpiCsrMatrix<T: Scalar> {
    local: CsrMatrix<T>,
    domain_layout: IndexLayout,
    range_layout: IndexLayout,
    communicator: GhostCommunicator,
    positions: Vec<usize>,
}

/// Whether a row block, two layouts and a list of ghosts fit together: the
/// layouts are those of one process of one group, the block has a row for
/// each index of the range layout that the process owns and as many columns
/// as the domain layout has indices, and the ghosts are the columns of the
/// block that the process does not own in the domain layout.
pub open spec fn block_fits<T: Scalar>(
    local: &CsrMatrix<T>,
    domain_layout: IndexLayout,
    range_layout: IndexLayout,
    ghosts: Seq<usize>,
) -> bool {
    &&& local.wf()
    &&& domain_layout.wf()
    &&& range_layout.wf()
    &&& layouts_agree(domain_layout, range_layout)
    &&& shape_fits(local, domain_layout, range_layout)
    &&& local.columns_in_range()
    &&& is_ghost_set(ghosts, domain_layout, local.spec_indices())
}

/// Whether two layouts are held by the same process of the same group.
pub open spec fn layouts_agree(domain_layout: IndexLayout, range_layout: IndexLayout) -> bool {
    &&& domain_layout.spec_process_count() == range_layout.spec_process_count()
    &&& domain_layout.spec_rank() == range_layout.spec_rank()
}

/// Whether a row block has a row for each index of the range layout that the
/// process owns and as many columns as the domain layout has indices.
pub open spec fn shape_fits<T: Scalar>(
    local: &CsrMatrix<T>,
    domain_layout: IndexLayout,
    range_layout: IndexLayout,
) -> bool {
    &&& local.spec_rows() == range_layout.local_len()
    &&& local.spec_cols() == domain_layout.spec_global_size()
}

/// Whether `positions` says, for every nonzero, where the vector entry at
/// its column lies in the local buffer followed by the ghost buffer.
pub open spec fn positions_fit(
    positions: Seq<usize>,
    layout: IndexLayout,
    ghosts: Seq<usize>,
    indices: Seq<usize>,
) -> bool {
    &&& positions.len() == indices.len()
    &&& forall|k: int|
        0 <= k < indices.len() ==> #[trigger] positions[k] == operand_position(
            layout,
            ghosts,
            indices[k],
        )
}

impl<T: Scalar> MpiCsrMatrixBuilder<T> {
    /// The row block.
    pub closed spec fn spec_local(&self) -> &CsrMatrix<T> {
        &self.local
    }

    /// The partition of the columns and of the input vector.
    pub closed spec fn spec_domain_layout(&self) -> IndexLayout {
        self.domain_layout
    }

    /// The partition of the rows and of the output vector.
    pub closed spec fn spec_range_layout(&self) -> IndexLayout {
        self.range_layout
    }

    /// The ghosts of the block and what to ask of the peers.
    pub closed spec fn spec_requests(&self) -> GhostRequests {
        self.requests
    }

    /// For every nonzero, the place of its operand.
    pub closed spec fn spec_positions(&self) -> Seq<usize> {
        self.positions@
    }

    /// The parts fit together.
    pub open spec fn wf(&self) -> bool {
        &&& self.spec_requests().wf()
        &&& self.spec_requests().spec_layout() == self.spec_domain_layout()
        &&& block_fits(
            self.spec_local(),
            self.spec_domain_layout(),
            self.spec_range_layout(),
            self.spec_requests().spec_ghost_indices(),
        )
        &&& positions_fit(
            self.spec_positions(),
            self.spec_domain_layout(),
            self.spec_requests().spec_ghost_indices(),
            self.spec_local().spec_indices(),
        )
    }

    /// What this process asks of each peer; see `GhostRequests::requests`.
    pub fn requests(&self) -> (r: Vec<Vec<usize>>)
        requires
            self.wf(),
        ensures
            r@.len() == self.spec_domain_layout().spec_process_count(),
            forall|q: int|
                0 <= q < r@.len() ==> (#[trigger] r@[q])@ == self.spec_requests().requests_to(q),
    {
        self.requests.requests()
    }

    /// The ghosts of the block.
    pub fn ghost_requests(&self) -> (r: &GhostRequests)
        ensures
            *r == self.spec_requests(),
    {
        &self.requests
    }

    /// Completes the matrix from what the peers asked of this process; see
    /// `GhostCommunicator::new` for `incoming` and for the failures.
    pub fn finish(self, incoming: &Vec<Vec<usize>>) -> (r: Result<MpiCsrMatrix<T>, SparseError>)
        requires
            self.wf(),
        ensures
            match r {
                Ok(m) => {
                    &&& m.wf()
                    &&& m.spec_local() == self.spec_local()
                    &&& m.spec_domain_layout() == self.spec_domain_layout()
                    &&& m.spec_range_layout() == self.spec_range_layout()
                    &&& m.spec_communicator().spec_requests() == self.spec_requests()
                    &&& m.spec_communicator().answers(incoming@)
                    &&& incoming@.len() == self.spec_domain_layout().spec_process_count()
                    &&& crate::sparse::ghost_communicator::requests_owned(
                        self.spec_domain_layout(),
                        incoming@,
                    )
                },
                Err(e) => if incoming@.len() != self.spec_domain_layout().spec_process_count() {
                    e == SparseError::DimensionMismatch
                } else {
                    e == SparseError::OutOfRange
                        && !crate::sparse::ghost_communicator::requests_owned(
                        self.spec_domain_layout(),
                        incoming@,
                    )
                },
            },
    {
        let MpiCsrMatrixBuilder { local, domain_layout, range_layout, requests, positions } = self;
        match GhostCommunicator::new(requests, incoming) {
            Ok(communicator) => Ok(
                MpiCsrMatrix { local, domain_layout, range_layout, communicator, positions },
            ),
            Err(e) => Err(e),
        }
    }
}

impl<T: Scalar> MpiCsrMatrix<T> {
    /// The row block.
    pub closed spec fn spec_local(&self) -> &CsrMatrix<T> {
        &self.local
    }

    /// The partition of the columns and of the input vector.
    pub closed spec fn spec_domain_layout(&self) -> IndexLayout {
        self.domain_layout
    }

    /// The partition of the rows and of the output vector.
    pub closed spec fn spec_range_layout(&self) -> IndexLayout {
        self.range_layout
    }

    /// The communication plan.
    pub closed spec fn spec_communicator(&self) -> GhostCommunicator {
        self.communicator
    }

    /// For every nonzero, the place of its operand.
    pub closed spec fn spec_positions(&self) -> Seq<usize> {
        self.positions@
    }

    /// The global index of each ghost, by slot.
    pub open spec fn spec_ghost_indices(&self) -> Seq<usize> {
        self.spec_communicator().spec_ghost_indices()
    }

    /// The plan is valid and built for the domain layout, and the block, the
    /// layouts and the ghosts of the plan fit together.
    pub open spec fn wf(&self) -> bool {
        &&& self.spec_communicator().wf()
        &&& self.spec_communicator().spec_layout() == self.spec_domain_layout()
        &&& block_fits(
            self.spec_local(),
            self.spec_domain_layout(),
            self.spec_range_layout(),
            self.spec_ghost_indices(),
        )
        &&& positions_fit(
            self.spec_positions(),
            self.spec_domain_layout(),
            self.spec_ghost_indices(),
            self.spec_local().spec_indices(),
        )
    }

    /// For every nonzero, the vector entry that it is multiplied with: the
    /// entry of the input vector at its column, taken from `local` or from
    /// `ghost_values`.
    pub open spec fn operands(&self, local: Seq<T>, ghost_values: Seq<T>) -> Seq<T> {
        Seq::new(
            self.spec_local().spec_indices().len(),
            |k: int|
                lookup(
                    self.spec_domain_layout(),
                    self.spec_ghost_indices(),
                    self.spec_local().spec_indices()[k],
                    local,
                    ghost_values,
                ),
        )
    }

    /// Row `i` of the product of the block with the vector whose entries are
    /// `local` on this process and `ghost_values` at the ghosts.
    pub open spec fn local_row_product(&self, i: int, local: Seq<T>, ghost_values: Seq<T>) -> T {
        row_sum(
            self.spec_local().spec_data(),
            self.operands(local, ghost_values),
            self.spec_local().row_start(i),
            self.spec_local().row_start(i + 1) - self.spec_local().row_start(i),
        )
    }

    /// A block without nonzeros has the product zero in every row, whatever
    /// the vector and the ghost values, so that a product leaves
    /// `beta * y[i] + alpha * 0` in every local row.
    pub proof fn lemma_block_without_nonzeros(&self, i: int, local: Seq<T>, ghost_values: Seq<T>)
        requires
            self.wf(),
            self.spec_local().spec_nnz() == 0,
            0 <= i < self.spec_local().spec_rows(),
        ensures
            self.local_row_product(i, local, ghost_values) == T::zero_value(),
    {
        self.spec_local().lemma_rows_ordered(i, i + 1);
        self.spec_local().lemma_rows_ordered(i + 1, self.spec_local().spec_rows());
    }

    /// Takes the row block `local` of a process and the two layouts that the
    /// process holds, and works out the ghosts of the block.
    ///
    /// Fails with `LayoutMismatch` when the layouts are not held by the same
    /// process of the same group; otherwise with `DimensionMismatch` when
    /// the block does not have a row for each index that the process owns in
    /// `range_layout`, or as many columns as `domain_layout` has indices;
    /// otherwise with `OutOfRange` when a nonzero lies in a column that the
    /// block does not have.
    pub fn prepare(local: CsrMatrix<T>, domain_layout: &IndexLayout, range_layout: &IndexLayout) -> (r:
        Result<MpiCsrMatrixBuilder<T>, SparseError>)
        requires
            local.wf(),
            domain_layout.wf(),
            range_layout.wf(),
        ensures
            match r {
                Ok(b) => {
                    &&& b.wf()
                    &&& *b.spec_local() == local
                    &&& b.spec_domain_layout() == *domain_layout
                    &&& b.spec_range_layout() == *range_layout
                },
                Err(e) => if !layouts_agree(*domain_layout, *range_layout) {
                    e == SparseError::LayoutMismatch
                } else if !shape_fits(&local, *domain_layout, *range_layout) {
                    e == SparseError::DimensionMismatch
                } else {
                    e == SparseError::OutOfRange && !local.columns_in_range()
                },
            },
    {
        if domain_layout.process_count() != range_layout.process_count() || domain_layout.rank()
            != range_layout.rank() {
            return Err(SparseError::LayoutMismatch);
        }
        if local.rows() != range_layout.number_of_local_indices() || local.cols()
            != domain_layout.global_size() {
            return Err(SparseError::DimensionMismatch);
        }
        let requests = match GhostRequests::new(domain_layout, local.indices()) {
            Ok(requests) => requests,
            Err(e) => {
                return Err(e);
            },
        };
        let (start, end) = domain_layout.own_range();
        let indices = local.indices();
        let mut positions: Vec<usize> = Vec::new();
        let mut k: usize = 0;
        while k < indices.len()
            invariant
                0 <= k <= indices@.len(),
                domain_layout.wf(),
                requests.wf(),
                requests.spec_layout() == *domain_layout,
                is_ghost_set(requests.spec_ghost_indices(), *domain_layout, indices@),
                start == domain_layout.local_start(),
                end == domain_layout.local_end(),
                start <= end <= domain_layout.spec_global_size(),
                positions@.len() == k,
                forall|j: int|
                    0 <= j < k ==> #[trigger] positions@[j] == operand_position(
                        *domain_layout,
                        requests.spec_ghost_indices(),
                        indices@[j],
                    ),
            decreases indices@.len() - k,
        {
            let c = indices[k];
            if start <= c && c < end {
                positions.push(c - start);
            } else {
                proof {
                    assert(indices@.contains(c));
                    assert(requests.spec_ghost_indices().contains(c));
                }
                match requests.slot_of(c) {
                    Some(slot) => {
                        proof {
                            let g = requests.spec_ghost_indices();
                            lemma_slot_unique(g, slot as int);
                            lemma_ghost_slot_bound(g, start as int, end as int, slot as int);
                            assert(g[slot as int] < domain_layout.spec_global_size());
                            domain_layout.lemma_ranges_ordered();
                        }
                        positions.push((end - start) + slot);
                    },
                    None => {
                        proof {
                            assert(false);
                        }
                        positions.push(0);
                    },
                }
            }
            k += 1;
        }
        Ok(
            MpiCsrMatrixBuilder {
                local,
                domain_layout: *domain_layout,
                range_layout: *range_layout,
                requests,
                positions,
            },
        )
    }

    /// The row block.
    pub fn local(&self) -> (r: &CsrMatrix<T>)
        ensures
            r == self.spec_local(),
    {
        &self.local
    }

    /// The partition of the columns and of the input vector.
    pub fn domain_layout(&self) -> (r: &IndexLayout)
        ensures
            *r == self.spec_domain_layout(),
    {
        &self.domain_layout
    }

    /// The partition of the rows and of the output vector.
    pub fn range_layout(&self) -> (r: &IndexLayout)
        ensures
            *r == self.spec_range_layout(),
    {
        &self.range_layout
    }

    /// The communication plan.
    pub fn communicator(&self) -> (r: &GhostCommunicator)
        ensures
            *r == self.spec_communicator(),
    {
        &self.communicator
    }

    /// Replaces the part of `y` that this process holds by its part of
    /// `alpha * A * x + beta * y`. `ghost_values` holds the entries of `x` at
    /// the ghosts of this process, by slot, as the communicator received
    /// them for this product.
    ///
    /// Fails with `LayoutMismatch` when `x` is not laid out by the domain
    /// layout or `y` not by the range layout, and otherwise with
    /// `DimensionMismatch` when `ghost_values` does not hold one value for
    /// each ghost. A failed call leaves `y` as it was.
    pub fn multiply(
        &self,
        alpha: T,
        x: &IndexableVector<T>,
        ghost_values: &Vec<T>,
        beta: T,
        y: &mut IndexableVector<T>,
    ) -> (r: Result<(), SparseError>)
        requires
            self.wf(),
            x.wf(),
            old(y).wf(),
        ensures
            final(y).spec_layout() == old(y).spec_layout(),
            final(y).wf(),
            match r {
                Ok(_) => {
                    &&& x.spec_layout() == self.spec_domain_layout()
                    &&& old(y).spec_layout() == self.spec_range_layout()
                    &&& ghost_values@.len() == self.spec_ghost_indices().len()
                    &&& forall|i: int|
                        0 <= i < self.spec_local().spec_rows()
                            ==> #[trigger] final(y).spec_local()[i] == axpby(
                            alpha,
                            self.local_row_product(i, x.spec_local(), ghost_values@),
                            beta,
                            old(y).spec_local()[i],
                        )
                },
                Err(e) => {
                    &&& final(y).spec_local() == old(y).spec_local()
                    &&& if x.spec_layout() != self.spec_domain_layout() || old(y).spec_layout()
                        != self.spec_range_layout() {
                        e == SparseError::LayoutMismatch
                    } else {
                        e == SparseError::DimensionMismatch && ghost_values@.len()
                            != self.spec_ghost_indices().len()
                    }
                },
            },
    {
        if *x.layout() != self.domain_layout || *y.layout() != self.range_layout {
            return Err(SparseError::LayoutMismatch);
        }
        if ghost_values.len() != self.communicator.ghost_count() {
            return Err(SparseError::DimensionMismatch);
        }
        let near = x.local();
        proof {
            let layout = self.domain_layout;
            let g = self.spec_ghost_indices();
            let indices = self.local.spec_indices();
            layout.lemma_ranges_ordered();
            assert forall|k: int| 0 <= k < self.positions@.len() implies #[trigger] self.positions@[k]
                < near@.len() + ghost_values@.len() && gathered(
                self.positions@,
                near@ + ghost_values@,
            )[k] == self.operands(near@, ghost_values@)[k] by {
                let c = indices[k];
                assert(self.positions@[k] == operand_position(layout, g, c));
                if !(layout.local_start() <= c < layout.local_end()) {
                    assert(indices.contains(c));
                    assert(g.contains(c));
                    let s = slot_of(g, c);
                    assert(0 <= s < g.len());
                }
            }
            assert(gathered(self.positions@, near@ + ghost_values@) =~= self.operands(
                near@,
                ghost_values@,
            ));
        }
        accumulate_rows(
            self.local.indptr(),
            self.local.data(),
            &self.positions,
            near,
            ghost_values,
            alpha,
            beta,
            y.local_mut(),
        );
        Ok(())
    }
}

} // verus!
