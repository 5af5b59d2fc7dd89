//! A whole process group inside one process.
//!
//! Every part of a distributed matrix is held side by side, and what the
//! processes of a real group would send each other is copied from part to
//! part. The products computed this way go through the same plan, the same
//! gathering and the same ghost buffers as on a real group.

use vstd::prelude::*;
use crate::error::SparseError;
use crate::process_group::ProcessGroup;
use crate::sparse::csr_mat::{is_row_block, CsrMatrix};
use crate::sparse::ghost_communicator::{requests_owned, GhostCommunicator};
use crate::sparse::index_layout::IndexLayout;
use crate::sparse::kernel::{axpby, gathered, is_product, lemma_row_sum_congruent, row_product};
use crate::sparse::mpi_csr_mat::{slot_of, MpiCsrMatrix, MpiCsrMatrixBuilder};
use crate::sparse::vector::IndexableVector;
use crate::types::Scalar;

verus! {

/// Whether every process of `outgoing` has one message for each process.
pub open spec fn is_square<T>(outgoing: Seq<Vec<Vec<T>>>) -> bool {
    forall|r: int| 0 <= r < outgoing.len() ==> (#[trigger] outgoing[r])@.len() == outgoing.len()
}

/// Delivers the messages of an all-to-all exchange: `outgoing[r][q]` is what
/// process `r` sends to process `q`, and the result holds at `[q][r]` what
/// process `q` received from process `r`.
///
/// Fails with `DimensionMismatch` when some process does not have one
/// message for each process.
pub fn all_to_all<T: Copy>(outgoing: &Vec<Vec<Vec<T>>>) -> (r: Result<
    Vec<Vec<Vec<T>>>,
    SparseError,
>)
    ensures
        match r {
            Ok(incoming) => {
                &&& is_square(outgoing@)
                &&& is_square(incoming@)
                &&& incoming@.len() == outgoing@.len()
                &&& forall|q: int, s: int|
                    0 <= q < outgoing@.len() && 0 <= s < outgoing@.len()
                        ==> (#[trigger] incoming@[q]@[s])@ == outgoing@[s]@[q]@
            },
            Err(e) => e == SparseError::DimensionMismatch && !is_square(outgoing@),
        },
{
    let p = outgoing.len();
    let mut s: usize = 0;
    while s < p
        invariant
            0 <= s <= p,
            p == outgoing@.len(),
            forall|t: int| 0 <= t < s ==> (#[trigger] outgoing@[t])@.len() == p,
        decreases p - s,
    {
        if outgoing[s].len() != p {
            proof {
                assert((outgoing@[s as int])@.len() != outgoing@.len());
            }
            return Err(SparseError::DimensionMismatch);
        }
        s += 1;
    }
    let mut incoming: Vec<Vec<Vec<T>>> = Vec::new();
    let mut q: usize = 0;
    while q < p
        invariant
            0 <= q <= p,
            p == outgoing@.len(),
            is_square(outgoing@),
            incoming@.len() == q,
            forall|t: int| 0 <= t < q ==> (#[trigger] incoming@[t])@.len() == p,
            forall|t: int, s: int|
                0 <= t < q && 0 <= s < p ==> (#[trigger] incoming@[t]@[s])@ == outgoing@[s]@[t]@,
        decreases p - q,
    {
        let mut inbox: Vec<Vec<T>> = Vec::new();
        let mut s: usize = 0;
        while s < p
            invariant
                0 <= s <= p,
                0 <= q < p,
                p == outgoing@.len(),
                is_square(outgoing@),
                inbox@.len() == s,
                forall|t: int| 0 <= t < s ==> (#[trigger] inbox@[t])@ == outgoing@[t]@[q as int]@,
            decreases p - s,
        {
            proof {
                assert((outgoing@[s as int])@.len() == p);
            }
            let message = &outgoing[s][q];
            let mut copy: Vec<T> = Vec::new();
            let mut j: usize = 0;
            while j < message.len()
                invariant
                    0 <= j <= message@.len(),
                    copy@ == message@.take(j as int),
                decreases message@.len() - j,
            {
                copy.push(message[j]);
                proof {
                    assert(copy@ =~= message@.take(j as int + 1));
                }
                j += 1;
            }
            proof {
                assert(message@.take(j as int) =~= message@);
            }
            inbox.push(copy);
            s += 1;
        }
        incoming.push(inbox);
        q += 1;
    }
    Ok(incoming)
}

/// Whether the layouts of a part are those of process `r` of `p` processes
/// over the columns and the rows of `whole`, and its block holds the rows of
/// `whole` that the process owns.
pub open spec fn block_of<T: Scalar>(
    local: &CsrMatrix<T>,
    domain_layout: IndexLayout,
    range_layout: IndexLayout,
    whole: &CsrMatrix<T>,
    p: int,
    r: int,
) -> bool {
    &&& domain_layout.spec_global_size() == whole.spec_cols()
    &&& domain_layout.spec_process_count() == p
    &&& domain_layout.spec_rank() == r
    &&& range_layout.spec_global_size() == whole.spec_rows()
    &&& range_layout.spec_process_count() == p
    &&& range_layout.spec_rank() == r
    &&& is_row_block(local, whole, range_layout.local_start(), range_layout.local_end())
}

/// Whether the process of `sender` sends to process `asker_rank` exactly
/// what that process asks of it: entry by entry, the local offset of the
/// global index that `asker` requests from process `sender_rank`.
pub open spec fn peer_answers(
    sender: GhostCommunicator,
    asker: GhostCommunicator,
    sender_rank: int,
    asker_rank: int,
) -> bool {
    let asked = asker.spec_requests().requests_to(sender_rank);
    let sent = sender.spec_send_list(asker_rank);
    &&& sent.len() == asked.len()
    &&& forall|j: int|
        0 <= j < asked.len() ==> #[trigger] sent[j] == asked[j] - sender.spec_layout().local_start()
}

/// Whether every part sends to every other what that one asks of it.
pub open spec fn plans_consistent<T: Scalar>(parts: Seq<MpiCsrMatrix<T>>) -> bool {
    forall|q: int, r: int|
        0 <= q < parts.len() && 0 <= r < parts.len() ==> #[trigger] peer_answers(
            parts[q].spec_communicator(),
            parts[r].spec_communicator(),
            q,
            r,
        )
}

/// What one process asks of another is owned by that other process.
pub proof fn lemma_requests_are_owned(
    asker: crate::sparse::ghost_communicator::GhostRequests,
    owner_layout: IndexLayout,
    j: int,
)
    requires
        asker.wf(),
        owner_layout.wf(),
        owner_layout.same_partition(asker.spec_layout()),
        0 <= j < asker.requests_to(owner_layout.spec_rank()).len(),
    ensures
        owner_layout.local_start() <= asker.requests_to(owner_layout.spec_rank())[j]
            < owner_layout.local_end(),
{
    let q = owner_layout.spec_rank();
    let off = asker.spec_receive_offsets();
    let g = asker.spec_ghost_indices();
    assert(off[q] <= off[q + 1]);
    assert(off[q + 1] <= off[asker.spec_layout().spec_process_count()]);
    let k = off[q] + j;
    assert(asker.spec_layout().owns(q, g[k] as int));
}

/// A distributed sparse matrix all of whose parts live in this process.
pub struct InProcessMatrix<T: Scalar> {
    parts: Vec<MpiCsrMatrix<T>>,
    rows: usize,
    cols: usize,
    whole: Ghost<CsrMatrix<T>>,
}

impl<T: Scalar> InProcessMatrix<T> {
    /// The parts, by rank.
    pub closed spec fn spec_parts(&self) -> Seq<MpiCsrMatrix<T>> {
        self.parts@
    }

    /// The matrix that the parts were cut from.
    pub closed spec fn spec_whole(&self) -> CsrMatrix<T> {
        self.whole@
    }

    /// The number of rows of the whole matrix, as stored.
    pub closed spec fn spec_rows(&self) -> int {
        self.rows as int
    }

    /// The number of columns of the whole matrix, as stored.
    pub closed spec fn spec_cols(&self) -> int {
        self.cols as int
    }

    /// There is a part for each process of a group of at least one; part `r`
    /// is valid and holds the rows of the whole matrix that process `r`
    /// owns; and the plans of the parts answer each other.
    pub open spec fn wf(&self) -> bool {
        let parts = self.spec_parts();
        let p = parts.len() as int;
        &&& p > 0
        &&& self.spec_whole().wf()
        &&& self.spec_whole().columns_in_range()
        &&& self.spec_rows() == self.spec_whole().spec_rows()
        &&& self.spec_cols() == self.spec_whole().spec_cols()
        &&& forall|r: int|
            0 <= r < p ==> (#[trigger] parts[r]).wf() && block_of(
                parts[r].spec_local(),
                parts[r].spec_domain_layout(),
                parts[r].spec_range_layout(),
                &self.spec_whole(),
                p,
                r,
            )
        &&& plans_consistent(parts)
    }

    /// Cuts `whole` into one row block for each process of `group`, works
    /// out the ghosts of every block, and lets the parts exchange their
    /// requests. Rows and columns are both partitioned as evenly as
    /// possible.
    ///
    /// Fails with `OutOfRange` when a nonzero of `whole` lies in a column
    /// that the matrix does not have.
    pub fn from_csr(whole: &CsrMatrix<T>, group: &ProcessGroup) -> (r: Result<Self, SparseError>)
        requires
            whole.wf(),
            group.wf(),
        ensures
            match r {
                Ok(m) => {
                    &&& whole.columns_in_range()
                    &&& m.wf()
                    &&& m.spec_whole() == *whole
                    &&& m.spec_parts().len() == group.spec_size()
                },
                Err(e) => e == SparseError::OutOfRange && !whole.columns_in_range(),
            },
    {
        if !whole.has_columns_in_range() {
            return Err(SparseError::OutOfRange);
        }
        let p = group.size();
        let rows = whole.rows();
        let cols = whole.cols();
        // The builders are kept in descending rank order, so that they can be
        // taken off the end in ascending rank order.
        let mut builders: Vec<MpiCsrMatrixBuilder<T>> = Vec::new();
        let mut t: usize = 0;
        while t < p
            invariant
                0 <= t <= p,
                p > 0,
                whole.wf(),
                whole.columns_in_range(),
                rows == whole.spec_rows(),
                cols == whole.spec_cols(),
                builders@.len() == t,
                forall|u: int|
                    0 <= u < t ==> (#[trigger] builders@[u]).wf() && block_of(
                        builders@[u].spec_local(),
                        builders@[u].spec_domain_layout(),
                        builders@[u].spec_range_layout(),
                        whole,
                        p as int,
                        p - 1 - u,
                    ),
            decreases p - t,
        {
            let rank = p - 1 - t;
            let member = match ProcessGroup::new(rank, p) {
                Some(member) => member,
                None => {
                    proof {
                        assert(false);
                    }
                    return Err(SparseError::OutOfRange);
                },
            };
            let domain_layout = IndexLayout::new(cols, &member);
            let range_layout = IndexLayout::new(rows, &member);
            let (first, last) = range_layout.own_range();
            let block = match whole.row_block(first, last) {
                Some(block) => block,
                None => {
                    proof {
                        assert(false);
                    }
                    return Err(SparseError::OutOfRange);
                },
            };
            proof {
                whole.lemma_rows_ordered(first as int, last as int);
                assert forall|k: int| 0 <= k < block.spec_indices().len() implies
                    block.spec_indices()[k] < block.spec_cols() by {
                    assert(block.spec_indices()[k] == whole.spec_indices()[whole.row_start(
                        first as int,
                    ) + k]);
                }
            }
            let builder = match MpiCsrMatrix::prepare(block, &domain_layout, &range_layout) {
                Ok(builder) => builder,
                Err(e) => {
                    proof {
                        assert(false);
                    }
                    return Err(e);
                },
            };
            builders.push(builder);
            t += 1;
        }
        let mut outgoing: Vec<Vec<Vec<usize>>> = Vec::new();
        let mut r: usize = 0;
        while r < p
            invariant
                0 <= r <= p,
                builders@.len() == p,
                forall|u: int|
                    0 <= u < p ==> (#[trigger] builders@[u]).wf()
                        && builders@[u].spec_domain_layout().spec_process_count() == p,
                outgoing@.len() == r,
                forall|s: int| 0 <= s < r ==> (#[trigger] outgoing@[s])@.len() == p,
                forall|s: int, q: int|
                    0 <= s < r && 0 <= q < p ==> (#[trigger] outgoing@[s]@[q])@ == builders@[p - 1
                        - s].spec_requests().requests_to(q),
            decreases p - r,
        {
            let requests = builders[p - 1 - r].requests();
            outgoing.push(requests);
            r += 1;
        }
        let incoming = match all_to_all(&outgoing) {
            Ok(incoming) => incoming,
            Err(e) => {
                proof {
                    assert(false);
                }
                return Err(SparseError::OutOfRange);
            },
        };
        let ghost prepared = builders@;
        let mut parts: Vec<MpiCsrMatrix<T>> = Vec::new();
        let mut r: usize = 0;
        while r < p
            invariant
                0 <= r <= p,
                p > 0,
                whole.wf(),
                prepared.len() == p,
                builders@ == prepared.take(p - r),
                forall|u: int|
                    0 <= u < p ==> (#[trigger] prepared[u]).wf() && block_of(
                        prepared[u].spec_local(),
                        prepared[u].spec_domain_layout(),
                        prepared[u].spec_range_layout(),
                        whole,
                        p as int,
                        p - 1 - u,
                    ),
                incoming@.len() == p,
                is_square(incoming@),
                forall|q: int, s: int|
                    0 <= q < p && 0 <= s < p ==> (#[trigger] incoming@[q]@[s])@ == prepared[p - 1
                        - s].spec_requests().requests_to(q),
                parts@.len() == r,
                forall|q: int|
                    0 <= q < r ==> {
                        &&& (#[trigger] parts@[q]).wf()
                        &&& block_of(
                            parts@[q].spec_local(),
                            parts@[q].spec_domain_layout(),
                            parts@[q].spec_range_layout(),
                            whole,
                            p as int,
                            q,
                        )
                        &&& parts@[q].spec_communicator().spec_requests() == prepared[p - 1
                            - q].spec_requests()
                        &&& parts@[q].spec_communicator().answers(incoming@[q]@)
                    },
            decreases p - r,
        {
            let builder = match builders.pop() {
                Some(builder) => builder,
                None => {
                    proof {
                        assert(false);
                    }
                    return Err(SparseError::OutOfRange);
                },
            };
            proof {
                assert(builder == prepared[p - 1 - r]);
                assert(builders@ =~= prepared.take(p - (r + 1)));
                let own = builder.spec_domain_layout();
                assert((incoming@[r as int])@.len() == p);
                assert forall|s: int, j: int|
                    0 <= s < incoming@[r as int]@.len() && 0 <= j < incoming@[r as int]@[s]@.len()
                    implies own.local_start() <= #[trigger] incoming@[r as int]@[s]@[j]
                    < own.local_end() by {
                    let asker = prepared[p - 1 - s];
                    assert(asker.wf());
                    assert((incoming@[r as int]@[s])@ == asker.spec_requests().requests_to(
                        r as int,
                    ));
                    lemma_requests_are_owned(asker.spec_requests(), own, j);
                }
                assert(requests_owned(own, incoming@[r as int]@));
            }
            let part = match builder.finish(&incoming[r]) {
                Ok(part) => part,
                Err(e) => {
                    proof {
                        assert(false);
                    }
                    return Err(e);
                },
            };
            parts.push(part);
            r += 1;
        }
        proof {
            assert forall|q: int, r: int| 0 <= q < parts@.len() && 0 <= r < parts@.len() implies
                #[trigger] peer_answers(
                parts@[q].spec_communicator(),
                parts@[r].spec_communicator(),
                q,
                r,
            ) by {
                let sender = parts@[q].spec_communicator();
                let asker = parts@[r].spec_communicator();
                assert(parts@[q].wf());
                assert(parts@[r].wf());
                assert(sender.answers(incoming@[q]@));
                assert((incoming@[q]@[r])@ == asker.spec_requests().requests_to(q));
                assert(sender.spec_send_list(r).len() == incoming@[q]@[r]@.len());
                assert forall|j: int|
                    0 <= j < asker.spec_requests().requests_to(q).len() implies #[trigger]
                    sender.spec_send_list(r)[j] == asker.spec_requests().requests_to(q)[j]
                    - sender.spec_layout().local_start() by {
                    assert(sender.spec_send_list(r)[j] == incoming@[q]@[r]@[j]
                        - sender.spec_layout().local_start());
                }
            }
        }
        Ok(InProcessMatrix { parts, rows, cols, whole: Ghost(*whole) })
    }

    /// The number of processes.
    pub fn process_count(&self) -> (r: usize)
        ensures
            r == self.spec_parts().len(),
    {
        self.parts.len()
    }

    /// The part of process `rank`, or `None` when there is no such process.
    pub fn part(&self, rank: usize) -> (r: Option<&MpiCsrMatrix<T>>)
        ensures
            r.is_some() <==> rank < self.spec_parts().len(),
            r.is_some() ==> *r.unwrap() == self.spec_parts()[rank as int],
    {
        if rank < self.parts.len() {
            Some(&self.parts[rank])
        } else {
            None
        }
    }
}

/// Whether `xs` holds, for each part, the entries of `x` that the process of
/// the part owns in the domain layout.
pub open spec fn scattered<T: Scalar>(
    xs: Seq<IndexableVector<T>>,
    parts: Seq<MpiCsrMatrix<T>>,
    x: Seq<T>,
) -> bool {
    &&& xs.len() == parts.len()
    &&& forall|q: int|
        0 <= q < parts.len() ==> {
            &&& (#[trigger] xs[q]).wf()
            &&& xs[q].spec_layout() == parts[q].spec_domain_layout()
            &&& xs[q].spec_local() == x.subrange(
                parts[q].spec_domain_layout().local_start(),
                parts[q].spec_domain_layout().local_end(),
            )
        }
}

/// Whether `ghosts` holds, for each part and each of its ghost slots, the
/// entry of `x` at the global index of the slot.
pub open spec fn ghosts_current<T: Scalar>(
    ghosts: Seq<Vec<T>>,
    parts: Seq<MpiCsrMatrix<T>>,
    x: Seq<T>,
) -> bool {
    &&& ghosts.len() == parts.len()
    &&& forall|r: int|
        0 <= r < parts.len() ==> (#[trigger] ghosts[r])@.len()
            == parts[r].spec_ghost_indices().len()
    &&& forall|r: int, k: int|
        0 <= r < parts.len() && 0 <= k < ghosts[r]@.len() ==> #[trigger] ghosts[r]@[k]
            == x[parts[r].spec_ghost_indices()[k] as int]
}

/// A row of a part, multiplied with the entries of `x` that the process
/// holds and with ghost values that are the entries of `x` at the ghosts,
/// is the same row of the whole matrix multiplied with `x`.
pub proof fn lemma_part_row<T: Scalar>(
    part: &MpiCsrMatrix<T>,
    whole: &CsrMatrix<T>,
    p: int,
    r: int,
    x: Seq<T>,
    ghost_values: Seq<T>,
    i: int,
)
    requires
        part.wf(),
        whole.wf(),
        whole.columns_in_range(),
        block_of(
            part.spec_local(),
            part.spec_domain_layout(),
            part.spec_range_layout(),
            whole,
            p,
            r,
        ),
        x.len() == whole.spec_cols(),
        ghost_values.len() == part.spec_ghost_indices().len(),
        forall|k: int|
            0 <= k < ghost_values.len() ==> #[trigger] ghost_values[k]
                == x[part.spec_ghost_indices()[k] as int],
        0 <= i < part.spec_local().spec_rows(),
    ensures
        part.local_row_product(
            i,
            x.subrange(
                part.spec_domain_layout().local_start(),
                part.spec_domain_layout().local_end(),
            ),
            ghost_values,
        ) == row_product(whole, part.spec_range_layout().local_start() + i, x),
{
    let block = part.spec_local();
    let dl = part.spec_domain_layout();
    let rl = part.spec_range_layout();
    let g = part.spec_ghost_indices();
    let first = rl.local_start();
    let last = rl.local_end();
    let local = x.subrange(dl.local_start(), dl.local_end());
    let operands = part.operands(local, ghost_values);
    let pool = gathered(whole.spec_indices(), x);
    rl.lemma_ranges_ordered();
    dl.lemma_ranges_ordered();
    whole.lemma_rows_ordered(first, last);
    whole.lemma_rows_ordered(first + i, first + i + 1);
    whole.lemma_rows_ordered(first, first + i);
    whole.lemma_rows_ordered(first + i + 1, last);
    block.lemma_rows_ordered(i, i + 1);
    let base = whole.row_start(first);
    let bs = block.row_start(i);
    let ws = whole.row_start(first + i);
    let count = block.row_start(i + 1) - bs;
    assert(block.row_start(i) == whole.row_start(first + i) - base);
    assert(block.row_start(i + 1) == whole.row_start(first + (i + 1)) - base);
    assert(count == whole.row_start(first + i + 1) - ws);
    assert forall|k: int| bs <= k < bs + count implies #[trigger] block.spec_data()[k]
        == whole.spec_data()[k - bs + ws] by {}
    assert forall|k: int| bs <= k < bs + count implies #[trigger] operands[k] == pool[k - bs
        + ws] by {
        let c = block.spec_indices()[k];
        assert(c == whole.spec_indices()[k + base]);
        assert(c < whole.spec_cols());
        if dl.local_start() <= c < dl.local_end() {
            assert(local[c - dl.local_start()] == x[c as int]);
        } else {
            assert(block.spec_indices().contains(c));
            assert(g.contains(c));
            let slot = slot_of(g, c);
            assert(0 <= slot < g.len() && g[slot] == c);
            assert(ghost_values[slot] == x[g[slot] as int]);
        }
    }
    lemma_row_sum_congruent(
        block.spec_data(),
        operands,
        bs,
        whole.spec_data(),
        pool,
        ws,
        count,
    );
}

/// A copy of the entries `first .. last` of `x`.
fn slice_of<T: Copy>(x: &Vec<T>, first: usize, last: usize) -> (r: Vec<T>)
    requires
        first <= last <= x@.len(),
    ensures
        r@ == x@.subrange(first as int, last as int),
{
    let mut out: Vec<T> = Vec::new();
    let mut k: usize = first;
    while k < last
        invariant
            first <= k <= last <= x@.len(),
            out@ == x@.subrange(first as int, k as int),
        decreases last - k,
    {
        out.push(x[k]);
        proof {
            assert(out@ =~= x@.subrange(first as int, k as int + 1));
        }
        k += 1;
    }
    out
}

impl<T: Scalar> InProcessMatrix<T> {
    /// Hands each part the entries of `x` that its process owns.
    fn scatter(&self, x: &Vec<T>) -> (xs: Vec<IndexableVector<T>>)
        requires
            self.wf(),
            x@.len() == self.spec_cols(),
        ensures
            scattered(xs@, self.spec_parts(), x@),
    {
        let p = self.parts.len();
        let mut xs: Vec<IndexableVector<T>> = Vec::new();
        let mut q: usize = 0;
        while q < p
            invariant
                0 <= q <= p,
                p == self.parts@.len(),
                self.wf(),
                x@.len() == self.spec_cols(),
                xs@.len() == q,
                forall|s: int|
                    0 <= s < q ==> {
                        &&& (#[trigger] xs@[s]).wf()
                        &&& xs@[s].spec_layout() == self.parts@[s].spec_domain_layout()
                        &&& xs@[s].spec_local() == x@.subrange(
                            self.parts@[s].spec_domain_layout().local_start(),
                            self.parts@[s].spec_domain_layout().local_end(),
                        )
                    },
            decreases p - q,
        {
            proof {
                assert(self.spec_parts()[q as int].wf());
            }
            let layout = self.parts[q].domain_layout();
            let (first, last) = layout.own_range();
            let values = slice_of(x, first, last);
            let part_x = match IndexableVector::from_local(layout, values) {
                Ok(v) => v,
                Err(_) => {
                    proof {
                        assert(false);
                    }
                    IndexableVector::new(layout)
                },
            };
            xs.push(part_x);
            q += 1;
        }
        xs
    }

    /// Runs one exchange: every part gathers what its peers asked of it, the
    /// buffers change hands, and every part lays out its ghost buffer.
    fn exchange_parts(&self, xs: &Vec<IndexableVector<T>>, Ghost(x): Ghost<Seq<T>>) -> (ghosts: Vec<
        Vec<T>,
    >)
        requires
            self.wf(),
            x.len() == self.spec_cols(),
            scattered(xs@, self.spec_parts(), x),
        ensures
            ghosts_current(ghosts@, self.spec_parts(), x),
    {
        let p = self.parts.len();
        let mut outgoing: Vec<Vec<Vec<T>>> = Vec::new();
        let mut q: usize = 0;
        while q < p
            invariant
                0 <= q <= p,
                p == self.parts@.len(),
                self.wf(),
                scattered(xs@, self.spec_parts(), x),
                outgoing@.len() == q,
                forall|s: int| 0 <= s < q ==> (#[trigger] outgoing@[s])@.len() == p,
                forall|s: int, r: int|
                    0 <= s < q && 0 <= r < p ==> (#[trigger] outgoing@[s]@[r])@ == gathered(
                        self.parts@[s].spec_communicator().spec_send_list(r),
                        xs@[s].spec_local(),
                    ),
            decreases p - q,
        {
            proof {
                assert(self.spec_parts()[q as int].wf());
                assert(xs@[q as int].wf());
            }
            let buffers = match self.parts[q].communicator().send_buffers(&xs[q]) {
                Ok(buffers) => buffers,
                Err(_) => {
                    proof {
                        assert(false);
                    }
                    Vec::new()
                },
            };
            outgoing.push(buffers);
            q += 1;
        }
        let incoming = match all_to_all(&outgoing) {
            Ok(incoming) => incoming,
            Err(_) => {
                proof {
                    assert(false);
                }
                Vec::new()
            },
        };
        let mut ghosts: Vec<Vec<T>> = Vec::new();
        let mut r: usize = 0;
        while r < p
            invariant
                0 <= r <= p,
                p == self.parts@.len(),
                self.wf(),
                x.len() == self.spec_cols(),
                scattered(xs@, self.spec_parts(), x),
                incoming@.len() == p,
                is_square(incoming@),
                forall|t: int, s: int|
                    0 <= t < p && 0 <= s < p ==> (#[trigger] incoming@[t]@[s])@ == gathered(
                        self.parts@[s].spec_communicator().spec_send_list(t),
                        xs@[s].spec_local(),
                    ),
                ghosts@.len() == r,
                forall|t: int|
                    0 <= t < r ==> (#[trigger] ghosts@[t])@.len()
                        == self.parts@[t].spec_ghost_indices().len(),
                forall|t: int, k: int|
                    0 <= t < r && 0 <= k < ghosts@[t]@.len() ==> #[trigger] ghosts@[t]@[k]
                        == x[self.parts@[t].spec_ghost_indices()[k] as int],
            decreases p - r,
        {
            let communicator = self.parts[r].communicator();
            proof {
                let parts = self.spec_parts();
                let me = parts[r as int];
                assert(me.wf());
                let requests = communicator.spec_requests();
                let off = requests.spec_receive_offsets();
                assert((incoming@[r as int])@.len() == p);
                assert forall|q: int| 0 <= q < p implies (#[trigger] incoming@[r as int]@[q])@.len()
                    == requests.first_slot(q + 1) - requests.first_slot(q) by {
                    assert(parts[q].wf());
                    assert(peer_answers(
                        parts[q].spec_communicator(),
                        parts[r as int].spec_communicator(),
                        q,
                        r as int,
                    ));
                    assert(off[q] <= off[q + 1]);
                    assert(off[q + 1] <= off[p as int]);
                }
                assert(communicator.payloads_fit(incoming@[r as int]@));
            }
            let buffer = match communicator.receive(&incoming[r]) {
                Ok(buffer) => buffer,
                Err(_) => {
                    proof {
                        assert(false);
                    }
                    Vec::new()
                },
            };
            proof {
                let parts = self.spec_parts();
                let me = parts[r as int];
                let requests = communicator.spec_requests();
                let off = requests.spec_receive_offsets();
                let g = requests.spec_ghost_indices();
                assert forall|k: int| 0 <= k < buffer@.len() implies #[trigger] buffer@[k]
                    == x[g[k] as int] by {
                    crate::sparse::ghost_communicator::lemma_slot_has_peer(requests, k, p as int);
                    let q = choose|q: int|
                        0 <= q < p && requests.first_slot(q) <= k < #[trigger] requests.first_slot(
                            q + 1,
                        );
                    let j = k - requests.first_slot(q);
                    let sender = parts[q].spec_communicator();
                    let owner = parts[q].spec_domain_layout();
                    assert(parts[q].wf());
                    assert(xs@[q].wf());
                    assert(peer_answers(sender, *communicator, q, r as int));
                    assert(off[q] <= off[q + 1]);
                    assert(off[q + 1] <= off[p as int]);
                    let asked = requests.requests_to(q);
                    assert(asked[j] == g[k]);
                    lemma_requests_are_owned(requests, owner, j);
                    owner.lemma_ranges_ordered();
                    assert(buffer@[requests.first_slot(q) + j] == incoming@[r as int]@[q]@[j]);
                    assert((incoming@[r as int]@[q])@ == gathered(
                        sender.spec_send_list(r as int),
                        xs@[q].spec_local(),
                    ));
                    assert(sender.spec_send_list(r as int)[j] == asked[j] - owner.local_start());
                }
            }
            ghosts.push(buffer);
            r += 1;
        }
        ghosts
    }

    /// Runs one exchange for the vector `x` and returns the ghost buffer of
    /// every part, by rank. Each buffer holds the entries of `x` as they are
    /// now, whatever an earlier exchange delivered.
    ///
    /// Fails with `DimensionMismatch` when `x` does not have one entry for
    /// each column.
    pub fn exchange(&self, x: &Vec<T>) -> (r: Result<Vec<Vec<T>>, SparseError>)
        requires
            self.wf(),
        ensures
            match r {
                Ok(ghosts) => x@.len() == self.spec_whole().spec_cols() && ghosts_current(
                    ghosts@,
                    self.spec_parts(),
                    x@,
                ),
                Err(e) => e == SparseError::DimensionMismatch && x@.len()
                    != self.spec_whole().spec_cols(),
            },
    {
        if x.len() != self.cols {
            return Err(SparseError::DimensionMismatch);
        }
        let xs = self.scatter(x);
        Ok(self.exchange_parts(&xs, Ghost(x@)))
    }

    /// Replaces `y` by `alpha * A * x + beta * y`, where `A` is the whole
    /// matrix, by the distributed path: `x` and `y` are dealt to the parts,
    /// the parts exchange ghost values, every part multiplies its block, and
    /// the parts of the result are put together.
    ///
    /// Fails with `DimensionMismatch`, leaving `y` as it was, when `x` does
    /// not have one entry for each column or `y` one for each row.
    pub fn multiply(&self, alpha: T, x: &Vec<T>, beta: T, y: &mut Vec<T>) -> (r: Result<
        (),
        SparseError,
    >)
        requires
            self.wf(),
        ensures
            match r {
                Ok(_) => {
                    &&& x@.len() == self.spec_whole().spec_cols()
                    &&& old(y)@.len() == self.spec_whole().spec_rows()
                    &&& is_product(&self.spec_whole(), alpha, x@, beta, old(y)@, final(y)@)
                },
                Err(e) => {
                    &&& e == SparseError::DimensionMismatch
                    &&& x@.len() != self.spec_whole().spec_cols() || old(y)@.len()
                        != self.spec_whole().spec_rows()
                    &&& final(y)@ == old(y)@
                },
            },
    {
        if x.len() != self.cols || y.len() != self.rows {
            return Err(SparseError::DimensionMismatch);
        }
        let xs = self.scatter(x);
        let ghosts = self.exchange_parts(&xs, Ghost(x@));
        let p = self.parts.len();
        let ghost whole = self.spec_whole();
        let ghost rows = self.rows as int;
        let mut r: usize = 0;
        proof {
            crate::sparse::index_layout::lemma_block_start_ends(rows, p as int);
        }
        while r < p
            invariant
                0 <= r <= p,
                p == self.parts@.len(),
                self.wf(),
                whole == self.spec_whole(),
                rows == self.rows,
                x@.len() == self.spec_cols(),
                scattered(xs@, self.spec_parts(), x@),
                ghosts_current(ghosts@, self.spec_parts(), x@),
                y@.len() == rows,
                old(y)@.len() == rows,
                0 <= crate::sparse::index_layout::block_start(rows, p as int, r as int) <= rows,
                forall|i: int|
                    0 <= i < crate::sparse::index_layout::block_start(rows, p as int, r as int)
                        ==> #[trigger] y@[i] == axpby(
                        alpha,
                        row_product(&whole, i, x@),
                        beta,
                        old(y)@[i],
                    ),
                forall|i: int|
                    crate::sparse::index_layout::block_start(rows, p as int, r as int) <= i < rows
                        ==> y@[i] == old(y)@[i],
            decreases p - r,
        {
            let part = &self.parts[r];
            proof {
                assert(self.spec_parts()[r as int].wf());
                assert(xs@[r as int].wf());
                part.spec_range_layout().lemma_ranges_ordered();
            }
            let layout = part.range_layout();
            let (first, last) = layout.own_range();
            let values = slice_of(y, first, last);
            let mut part_y = match IndexableVector::from_local(layout, values) {
                Ok(v) => v,
                Err(_) => {
                    proof {
                        assert(false);
                    }
                    IndexableVector::new(layout)
                },
            };
            let ghost before = part_y.spec_local();
            match part.multiply(alpha, &xs[r], &ghosts[r], beta, &mut part_y) {
                Ok(_) => {},
                Err(_) => {
                    proof {
                        assert(false);
                    }
                },
            }
            let result = part_y.local();
            let ghost entering = y@;
            let mut i: usize = 0;
            while i < last - first
                invariant
                    0 <= i <= last - first,
                    first <= last <= rows,
                    y@.len() == rows,
                    result@.len() == last - first,
                    forall|k: int| 0 <= k < first ==> y@[k] == entering[k],
                    forall|k: int| first + i <= k < rows ==> y@[k] == entering[k],
                    forall|k: int| 0 <= k < i ==> y@[first + k] == result@[k],
                decreases last - first - i,
            {
                y.set(first + i, result[i]);
                i += 1;
            }
            proof {
                assert forall|k: int| 0 <= k < last implies #[trigger] y@[k] == axpby(
                    alpha,
                    row_product(&whole, k, x@),
                    beta,
                    old(y)@[k],
                ) by {
                    if k >= first {
                        let j = k - first;
                        assert(y@[first + j] == result@[j]);
                        assert(before[j] == old(y)@[k]);
                        lemma_part_row(
                            part,
                            &whole,
                            p as int,
                            r as int,
                            x@,
                            ghosts@[r as int]@,
                            j,
                        );
                    } else {
                        assert(y@[k] == entering[k]);
                    }
                }
            }
            r += 1;
        }
        Ok(())
    }
}

} // verus!
