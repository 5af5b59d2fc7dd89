//! Ownership of a global index range by the processes of a group.
//!
//! `N` indices are dealt to `P` processes in contiguous blocks that are as
//! even as possible: every block has `N / P` indices and the first `N % P`
//! blocks have one more. The rule needs no negotiation, so every process
//! computes the same table.

use vstd::prelude::*;
use crate::error::SparseError;
use crate::process_group::ProcessGroup;

verus! {

/// The first global index of block `r` when `n` indices are dealt to `p`
/// processes. `block_start(n, p, p)` is the end of the last block.
pub open spec fn block_start(n: int, p: int, r: int) -> int {
    r * (n / p) + if r < n % p { r } else { n % p }
}

/// Whether global index `i` lies in block `r`.
pub open spec fn in_block(n: int, p: int, r: int, i: int) -> bool {
    0 <= r < p && block_start(n, p, r) <= i < block_start(n, p, r + 1)
}

/// Whether some block holds global index `i`.
pub open spec fn has_block(n: int, p: int, i: int) -> bool {
    exists|r: int| in_block(n, p, r, i)
}

/// Block `r` has `n / p` indices, and one more when `r` is below `n % p`.
pub proof fn lemma_block_start_step(n: int, p: int, r: int)
    requires
        0 <= n,
        0 < p,
        0 <= r < p,
    ensures
        block_start(n, p, r + 1) - block_start(n, p, r) == n / p + if r < n % p { 1int } else { 0int },
        block_start(n, p, r) <= block_start(n, p, r + 1),
{
    let q = n / p;
    assert((r + 1) * q == r * q + q) by (nonlinear_arith);
    assert(0 <= q) by (nonlinear_arith)
        requires
            0 <= n,
            0 < p,
            q == n / p,
    ;
}

/// The table begins at `0` and ends at `n`.
pub proof fn lemma_block_start_ends(n: int, p: int)
    requires
        0 <= n,
        0 < p,
    ensures
        block_start(n, p, 0) == 0,
        block_start(n, p, p) == n,
{
    let q = n / p;
    assert(0 * q == 0) by (nonlinear_arith);
    assert(0 <= n % p < p && n == p * q + n % p) by (nonlinear_arith)
        requires
            0 <= n,
            0 < p,
            q == n / p,
    ;
}

/// Block starts never decrease with the rank.
pub proof fn lemma_block_start_monotone(n: int, p: int, r1: int, r2: int)
    requires
        0 <= n,
        0 < p,
        0 <= r1 <= r2 <= p,
    ensures
        block_start(n, p, r1) <= block_start(n, p, r2),
    decreases r2 - r1,
{
    if r1 < r2 {
        lemma_block_start_step(n, p, r2 - 1);
        lemma_block_start_monotone(n, p, r1, r2 - 1);
    }
}

/// Every block lies inside `[0, n)`.
pub proof fn lemma_block_start_bounds(n: int, p: int, r: int)
    requires
        0 <= n,
        0 < p,
        0 <= r <= p,
    ensures
        0 <= block_start(n, p, r) <= n,
{
    lemma_block_start_ends(n, p);
    lemma_block_start_monotone(n, p, 0, r);
    lemma_block_start_monotone(n, p, r, p);
}

/// The blocks partition `[0, n)`: they are laid end to end in rank order from
/// `0` to `n`; a block of lower rank ends before one of higher rank starts,
/// so no index lies in two blocks; and every index below `n` lies in some
/// block.
pub proof fn lemma_blocks_partition(n: int, p: int)
    requires
        0 <= n,
        0 < p,
    ensures
        block_start(n, p, 0) == 0,
        block_start(n, p, p) == n,
        forall|r: int| 0 <= r < p ==> #[trigger] block_start(n, p, r) <= block_start(n, p, r + 1),
        forall|r1: int, r2: int|
            #![trigger block_start(n, p, r1), block_start(n, p, r2)]
            0 <= r1 < r2 < p ==> block_start(n, p, r1 + 1) <= block_start(n, p, r2),
        forall|r1: int, r2: int, i: int|
            #[trigger] in_block(n, p, r1, i) && #[trigger] in_block(n, p, r2, i) ==> r1 == r2,
        forall|i: int| 0 <= i < n ==> #[trigger] has_block(n, p, i),
{
    lemma_block_start_ends(n, p);
    assert forall|r: int| 0 <= r < p implies #[trigger] block_start(n, p, r) <= block_start(
        n,
        p,
        r + 1,
    ) by {
        lemma_block_start_step(n, p, r);
    }
    assert forall|r1: int, r2: int|
        #![trigger block_start(n, p, r1), block_start(n, p, r2)]
        0 <= r1 < r2 < p implies block_start(n, p, r1 + 1) <= block_start(n, p, r2) by {
        lemma_block_start_monotone(n, p, r1 + 1, r2);
    }
    assert forall|r1: int, r2: int, i: int| #[trigger]
        in_block(n, p, r1, i) && #[trigger] in_block(n, p, r2, i) implies r1 == r2 by {
        lemma_block_owner_unique(n, p, r1, r2, i);
    }
    assert forall|i: int| 0 <= i < n implies #[trigger] has_block(n, p, i) by {
        lemma_block_owner_exists(n, p, i, p);
    }
}

/// An index lies in at most one block.
pub proof fn lemma_block_owner_unique(n: int, p: int, r1: int, r2: int, i: int)
    requires
        0 <= n,
        0 < p,
        in_block(n, p, r1, i),
        in_block(n, p, r2, i),
    ensures
        r1 == r2,
{
    if r1 < r2 {
        lemma_block_start_monotone(n, p, r1 + 1, r2);
    } else if r2 < r1 {
        lemma_block_start_monotone(n, p, r2 + 1, r1);
    }
}

/// An index below the start of block `k` lies in a block below `k`.
pub proof fn lemma_block_owner_exists(n: int, p: int, i: int, k: int)
    requires
        0 <= n,
        0 < p,
        0 <= k <= p,
        0 <= i < block_start(n, p, k),
    ensures
        exists|r: int| #[trigger] in_block(n, p, r, i) && r < k,
    decreases k,
{
    lemma_block_start_ends(n, p);
    if k > 0 {
        if block_start(n, p, k - 1) <= i {
            assert(in_block(n, p, k - 1, i));
        } else {
            lemma_block_owner_exists(n, p, i, k - 1);
        }
    }
}

/// The partition of `[0, global_size)` among the processes of a group, as
/// seen from one of them.
#[derive(Clone, Copy, Debug, PartialEq, Eq, Structural)]
pub struct IndexLayout {
    global_size: usize,
    process_count: usize,
    rank: usize,
}

impl IndexLayout {
    /// A layout is valid when its rank names one of its processes.
    pub open spec fn wf(self) -> bool {
        0 <= self.spec_rank() < self.spec_process_count()
    }

    /// The number of global indices.
    pub closed spec fn spec_global_size(self) -> int {
        self.global_size as int
    }

    /// The number of processes that share the indices.
    pub closed spec fn spec_process_count(self) -> int {
        self.process_count as int
    }

    /// The rank of the process that holds this layout.
    pub closed spec fn spec_rank(self) -> int {
        self.rank as int
    }

    /// The first global index that process `r` owns.
    pub open spec fn start_of(self, r: int) -> int {
        block_start(self.spec_global_size(), self.spec_process_count(), r)
    }

    /// Whether process `r` owns global index `i`.
    pub open spec fn owns(self, r: int, i: int) -> bool {
        in_block(self.spec_global_size(), self.spec_process_count(), r, i)
    }

    /// The first global index that this process owns.
    pub open spec fn local_start(self) -> int {
        self.start_of(self.spec_rank())
    }

    /// One past the last global index that this process owns.
    pub open spec fn local_end(self) -> int {
        self.start_of(self.spec_rank() + 1)
    }

    /// The number of indices that this process owns.
    pub open spec fn local_len(self) -> int {
        self.local_end() - self.local_start()
    }

    /// Two layouts describe the same partition when they split the same
    /// number of indices among the same number of processes.
    pub open spec fn same_partition(self, other: IndexLayout) -> bool {
        self.spec_global_size() == other.spec_global_size() && self.spec_process_count()
            == other.spec_process_count()
    }

    /// The ranges of a valid layout are ordered and stay within the global
    /// size.
    pub proof fn lemma_ranges_ordered(self)
        requires
            self.wf(),
        ensures
            0 <= self.local_start() <= self.local_end() <= self.spec_global_size(),
            self.spec_global_size() <= usize::MAX,
            0 <= self.spec_rank() < self.spec_process_count(),
    {
        let n = self.spec_global_size();
        let p = self.spec_process_count();
        lemma_block_start_bounds(n, p, self.spec_rank());
        lemma_block_start_bounds(n, p, self.spec_rank() + 1);
        lemma_block_start_step(n, p, self.spec_rank());
    }

    /// Lays `global_size` indices out over the processes of `group`.
    pub fn new(global_size: usize, group: &ProcessGroup) -> (r: IndexLayout)
        requires
            group.wf(),
        ensures
            r.wf(),
            r.spec_global_size() == global_size,
            r.spec_process_count() == group.spec_size(),
            r.spec_rank() == group.spec_rank(),
    {
        IndexLayout { global_size, process_count: group.size(), rank: group.rank() }
    }

    /// The number of global indices.
    pub fn global_size(&self) -> (r: usize)
        ensures
            r == self.spec_global_size(),
    {
        self.global_size
    }

    /// The number of processes.
    pub fn process_count(&self) -> (r: usize)
        ensures
            r == self.spec_process_count(),
    {
        self.process_count
    }

    /// The rank of the process that holds this layout.
    pub fn rank(&self) -> (r: usize)
        ensures
            r == self.spec_rank(),
    {
        self.rank
    }

    /// Whether `other` splits the same indices among the same processes.
    pub fn is_same_partition(&self, other: &IndexLayout) -> (r: bool)
        ensures
            r == self.same_partition(*other),
    {
        self.global_size == other.global_size && self.process_count == other.process_count
    }

    /// The first index of block `rank`; `rank` may be the process count, which
    /// gives the global size.
    fn start(&self, rank: usize) -> (r: usize)
        requires
            self.wf(),
            rank <= self.spec_process_count(),
        ensures
            r == self.start_of(rank as int),
    {
        let q: usize = self.global_size / self.process_count;
        let rem: usize = self.global_size % self.process_count;
        proof {
            let n = self.global_size as int;
            let p = self.process_count as int;
            lemma_block_start_bounds(n, p, rank as int);
            assert(0 <= (rank as int) * (q as int)) by (nonlinear_arith)
                requires
                    0 <= rank,
                    0 <= q,
            ;
        }
        let extra: usize = if rank < rem {
            rank
        } else {
            rem
        };
        rank * q + extra
    }

    /// The half-open range `[start, end)` of global indices that process
    /// `rank` owns.
    pub fn local_range(&self, rank: usize) -> (r: (usize, usize))
        requires
            self.wf(),
            rank < self.spec_process_count(),
        ensures
            r.0 == self.start_of(rank as int),
            r.1 == self.start_of(rank as int + 1),
            r.0 <= r.1 <= self.spec_global_size(),
    {
        proof {
            let n = self.global_size as int;
            let p = self.process_count as int;
            lemma_block_start_step(n, p, rank as int);
            lemma_block_start_bounds(n, p, rank as int + 1);
        }
        (self.start(rank), self.start(rank + 1))
    }

    /// The half-open range of global indices that this process owns.
    pub fn own_range(&self) -> (r: (usize, usize))
        requires
            self.wf(),
        ensures
            r.0 == self.local_start(),
            r.1 == self.local_end(),
            r.0 <= r.1 <= self.spec_global_size(),
    {
        self.local_range(self.rank)
    }

    /// The number of indices that this process owns.
    pub fn number_of_local_indices(&self) -> (r: usize)
        requires
            self.wf(),
        ensures
            r == self.local_len(),
    {
        let (start, end) = self.own_range();
        end - start
    }

    /// The rank of the process that owns `global_index`, or `OutOfRange` when
    /// the index is not below the global size.
    pub fn index_to_rank(&self, global_index: usize) -> (r: Result<usize, SparseError>)
        requires
            self.wf(),
        ensures
            global_index < self.spec_global_size() ==> r.is_ok() && self.owns(
                r.unwrap() as int,
                global_index as int,
            ) && forall|other: int|
                self.owns(other, global_index as int) ==> other == r.unwrap(),
            global_index >= self.spec_global_size() ==> r == Err::<usize, SparseError>(
                SparseError::OutOfRange,
            ),
    {
        if global_index >= self.global_size {
            return Err(SparseError::OutOfRange);
        }
        let q: usize = self.global_size / self.process_count;
        let rem: usize = self.global_size % self.process_count;
        let ghost n = self.global_size as int;
        let ghost p = self.process_count as int;
        let ghost i = global_index as int;
        proof {
            assert(n == p * (q as int) + (rem as int) && 0 <= rem < p) by (nonlinear_arith)
                requires
                    0 <= n,
                    0 < p,
                    q == n / p,
                    rem == n % p,
            ;
            assert((rem as int) * (q as int + 1) == (rem as int) * (q as int) + rem)
                by (nonlinear_arith);
            assert((rem as int) * (q as int) <= p * (q as int)) by (nonlinear_arith)
                requires
                    0 <= rem < p,
                    0 <= q,
            ;
        }
        proof {
            if rem > 0 {
                assert(p * (q as int) >= 2 * (q as int)) by (nonlinear_arith)
                    requires
                        p >= 2,
                        0 <= q,
                ;
            }
        }
        let big: usize = if rem > 0 {
            rem * (q + 1)
        } else {
            0
        };
        if global_index < big {
            let r: usize = global_index / (q + 1);
            proof {
                let w = q as int + 1;
                assert(i == w * (r as int) + i % w && 0 <= i % w < w) by (nonlinear_arith)
                    requires
                        0 <= i,
                        0 < w,
                        r == i / w,
                ;
                assert((r as int) < rem) by (nonlinear_arith)
                    requires
                        i < (rem as int) * w,
                        i == w * (r as int) + i % w,
                        0 <= i % w,
                        0 < w,
                        0 <= r,
                        0 <= rem,
                ;
                assert((r as int) * (q as int) + r == w * (r as int)) by (nonlinear_arith)
                    requires
                        w == q + 1,
                ;
                assert((r as int + 1) * (q as int) + (r + 1) == w * (r as int) + w)
                    by (nonlinear_arith)
                    requires
                        w == q + 1,
                ;
                assert(self.owns(r as int, i));
                assert forall|other: int| self.owns(other, i) implies other == r by {
                    lemma_block_owner_unique(n, p, other, r as int, i);
                }
            }
            Ok(r)
        } else {
            proof {
                if q == 0 {
                    assert(p * (q as int) == 0) by (nonlinear_arith)
                        requires
                            q == 0,
                    ;
                    assert((rem as int) * (q as int) == 0) by (nonlinear_arith)
                        requires
                            q == 0,
                    ;
                }
            }
            let d: usize = global_index - big;
            let k: usize = d / q;
            proof {
                let qi = q as int;
                let di = d as int;
                assert(di == qi * (k as int) + di % qi && 0 <= di % qi < qi) by (nonlinear_arith)
                    requires
                        0 <= di,
                        0 < qi,
                        k == di / qi,
                ;
                // d < (p - rem) * q, so k < p - rem
                assert(p * qi == (rem as int) * qi + (p - rem) * qi) by (nonlinear_arith);
                assert((k as int) < p - rem) by (nonlinear_arith)
                    requires
                        di < (p - rem) * qi,
                        di == qi * (k as int) + di % qi,
                        0 <= di % qi,
                        0 < qi,
                        0 <= k,
                        0 <= p - rem,
                ;
                assert((rem as int + k as int) * qi == (rem as int) * qi + qi * (k as int))
                    by (nonlinear_arith);
                assert((rem as int + k as int + 1) * qi == (rem as int) * qi + qi * (k as int)
                    + qi) by (nonlinear_arith);
                assert(self.owns(rem + k, i));
                assert forall|other: int| self.owns(other, i) implies other == rem + k by {
                    lemma_block_owner_unique(n, p, other, rem + k, i);
                }
            }
            Ok(rem + k)
        }
    }

    /// The global index of this process's local offset `local`, or nothing
    /// when the process owns no such offset.
    pub fn local_to_global(&self, local: usize) -> (r: Option<usize>)
        requires
            self.wf(),
        ensures
            r.is_some() <==> local < self.local_len(),
            r.is_some() ==> r.unwrap() == self.local_start() + local,
    {
        let (start, end) = self.own_range();
        if local < end - start {
            Some(start + local)
        } else {
            None
        }
    }

    /// The local offset of `global_index` on this process, or nothing when
    /// another process owns it or it lies outside the global range.
    pub fn global_to_local(&self, global_index: usize) -> (r: Option<usize>)
        requires
            self.wf(),
        ensures
            r.is_some() <==> self.local_start() <= global_index < self.local_end(),
            r.is_some() ==> r.unwrap() == global_index - self.local_start(),
    {
        let (start, end) = self.own_range();
        if start <= global_index && global_index < end {
            Some(global_index - start)
        } else {
            None
        }
    }
}

} // verus!
