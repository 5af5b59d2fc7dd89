//! Which remote vector entries a process needs, and how they are exchanged.
//!
//! A process whose matrix rows refer to columns that another process owns
//! needs the vector entries at those columns before it can multiply. The
//! entries are its ghosts. Each ghost gets a slot in a ghost buffer; slots
//! are numbered in ascending order of global index, so that the ghosts owned
//! by one peer occupy a run of consecutive slots and the runs follow each
//! other in rank order.
//!
//! The plan is built in two steps around one collective exchange. First each
//! process works out its ghosts (`GhostRequests`) and tells every peer which
//! of the peer's indices it needs. From what the peers asked of it, a process
//! then learns which of its own entries to send to whom
//! (`GhostCommunicator`). The plan is fixed from then on. For every product
//! a process gathers one send buffer per peer, the buffers are exchanged, and
//! what arrived is laid into the ghost buffer in slot order.

use vstd::prelude::*;
use crate::error::SparseError;
use crate::sparse::index_layout::{lemma_block_owner_unique, lemma_block_start_ends, IndexLayout};
use crate::sparse::kernel::gathered;
use crate::sparse::sorted::{
    lemma_increasing_unique,
    lemma_push_contains,
    lemma_take_contains,
    lower_bound,
    sorted_unique,
    strictly_increasing,
};
use crate::sparse::vector::IndexableVector;
use crate::types::Scalar;

verus! {

/// Whether `ghosts` lists, in ascending order and each once, exactly the
/// items of `columns` that the process of `layout` does not own.
pub open spec fn is_ghost_set(ghosts: Seq<usize>, layout: IndexLayout, columns: Seq<usize>) -> bool {
    &&& strictly_increasing(ghosts)
    &&& forall|c: usize|
        #[trigger] ghosts.contains(c) <==> (columns.contains(c) && !(layout.local_start() <= c
            < layout.local_end()))
}

/// The ghosts of one process and the peers that own them: the receiving
/// half of a communication plan, and what the process asks of its peers.
pub struct GhostRequests {
    layout: IndexLayout,
    ghost_indices: Vec<usize>,
    receive_offsets: Vec<usize>,
}

impl GhostRequests {
    /// The layout of the vectors whose entries are exchanged.
    pub closed spec fn spec_layout(&self) -> IndexLayout {
        self.layout
    }

    /// The global index of each ghost, by slot.
    pub closed spec fn spec_ghost_indices(&self) -> Seq<usize> {
        self.ghost_indices@
    }

    /// The first slot of the ghosts that each peer owns; one entry more than
    /// there are processes, the last being the number of ghosts.
    pub closed spec fn spec_receive_offsets(&self) -> Seq<usize> {
        self.receive_offsets@
    }

    /// The number of ghosts.
    pub open spec fn spec_ghost_count(&self) -> int {
        self.spec_ghost_indices().len() as int
    }

    /// The first slot of the ghosts that process `q` owns.
    pub open spec fn first_slot(&self, q: int) -> int {
        self.spec_receive_offsets()[q] as int
    }

    /// The global indices that this process asks of process `q`, in slot
    /// order.
    pub open spec fn requests_to(&self, q: int) -> Seq<usize> {
        self.spec_ghost_indices().subrange(self.first_slot(q), self.first_slot(q + 1))
    }

    /// The slots that receive what process `q` sends, in the order in which
    /// `q` sends it.
    pub open spec fn slots_from(&self, q: int) -> Seq<usize> {
        Seq::new(
            (self.first_slot(q + 1) - self.first_slot(q)) as nat,
            |j: int| (self.first_slot(q) + j) as usize,
        )
    }

    /// The ghosts are ascending global indices that other processes own, and
    /// the offsets cut them into one run for each process, which owns the
    /// ghosts of its run.
    pub open spec fn wf(&self) -> bool {
        let layout = self.spec_layout();
        let g = self.spec_ghost_indices();
        let off = self.spec_receive_offsets();
        let p = layout.spec_process_count();
        &&& layout.wf()
        &&& strictly_increasing(g)
        &&& forall|k: int|
            0 <= k < g.len() ==> #[trigger] g[k] < layout.spec_global_size() && !(
            layout.local_start() <= g[k] < layout.local_end())
        &&& off.len() == p + 1
        &&& off[0] == 0
        &&& off[p] == g.len()
        &&& forall|a: int, b: int| 0 <= a <= b <= p ==> #[trigger] off[a] <= #[trigger] off[b]
        &&& forall|q: int, k: int|
            0 <= q < p && off[q] <= k < off[q + 1] ==> #[trigger] layout.owns(q, g[k] as int)
    }

    /// Works out the ghosts of the process of `layout` from the column
    /// indices of its matrix rows. Fails with `OutOfRange` when a column is
    /// not below the global size.
    pub fn new(layout: &IndexLayout, columns: &Vec<usize>) -> (r: Result<Self, SparseError>)
        requires
            layout.wf(),
        ensures
            match r {
                Ok(req) => {
                    &&& req.wf()
                    &&& req.spec_layout() == *layout
                    &&& is_ghost_set(req.spec_ghost_indices(), *layout, columns@)
                    &&& forall|k: int|
                        0 <= k < columns@.len() ==> columns@[k] < layout.spec_global_size()
                },
                Err(e) => e == SparseError::OutOfRange && exists|k: int|
                    0 <= k < columns@.len() && columns@[k] >= layout.spec_global_size(),
            },
    {
        let (start, end) = layout.own_range();
        let n = layout.global_size();
        let p = layout.process_count();
        let mut remote: Vec<usize> = Vec::new();
        let mut k: usize = 0;
        while k < columns.len()
            invariant
                0 <= k <= columns@.len(),
                n == layout.spec_global_size(),
                forall|j: int| 0 <= j < k ==> columns@[j] < n,
                forall|c: usize|
                    #[trigger] remote@.contains(c) <==> (columns@.take(k as int).contains(c)
                        && !(start <= c < end)),
            decreases columns@.len() - k,
        {
            let c = columns[k];
            if c >= n {
                return Err(SparseError::OutOfRange);
            }
            let ghost before = remote@;
            if c < start || c >= end {
                remote.push(c);
            }
            proof {
                assert forall|x: usize| #[trigger]
                    remote@.contains(x) <==> (columns@.take(k as int + 1).contains(x) && !(start
                        <= x < end)) by {
                    lemma_take_contains(columns@, k as int, x);
                    lemma_push_contains(before, c, x);
                    if c < start || c >= end {
                        assert(remote@ =~= before.push(c));
                    }
                    assert(before.contains(x) <==> (columns@.take(k as int).contains(x) && !(
                    start <= x < end)));
                }
            }
            k += 1;
        }
        let ghosts = sorted_unique(&remote, 0, remote.len());
        proof {
            assert(columns@.take(k as int) =~= columns@);
            assert(remote@.subrange(0, remote@.len() as int) =~= remote@);
            assert forall|j: int| 0 <= j < ghosts@.len() implies #[trigger] ghosts@[j] < n && !(
            start <= ghosts@[j] < end) by {
                assert(ghosts@.contains(ghosts@[j]));
                let c = ghosts@[j];
                let i = choose|i: int| 0 <= i < columns@.len() && columns@[i] == c;
                assert(columns@[i] < n);
            }
            lemma_block_start_ends(n as int, p as int);
        }
        let mut offsets: Vec<usize> = Vec::new();
        offsets.push(0);
        let mut slot: usize = 0;
        let mut q: usize = 0;
        while q < p
            invariant
                0 <= q <= p,
                layout.wf(),
                n == layout.spec_global_size(),
                p == layout.spec_process_count(),
                strictly_increasing(ghosts@),
                forall|j: int| 0 <= j < ghosts@.len() ==> #[trigger] ghosts@[j] < n,
                0 <= slot <= ghosts@.len(),
                offsets@.len() == q + 1,
                offsets@[0] == 0,
                offsets@[q as int] == slot,
                forall|j: int| 0 <= j < slot ==> ghosts@[j] < layout.start_of(q as int),
                forall|j: int| slot <= j < ghosts@.len() ==> ghosts@[j] >= layout.start_of(q as int),
                forall|a: int, b: int|
                    0 <= a <= b <= q ==> #[trigger] offsets@[a] <= #[trigger] offsets@[b],
                forall|r: int, j: int|
                    0 <= r < q && offsets@[r] <= j < offsets@[r + 1] ==> #[trigger] layout.owns(
                        r,
                        ghosts@[j] as int,
                    ),
            decreases p - q,
        {
            let (_, q_end) = layout.local_range(q);
            let ghost first = slot;
            while slot < ghosts.len() && ghosts[slot] < q_end
                invariant
                    first <= slot <= ghosts@.len(),
                    strictly_increasing(ghosts@),
                    forall|j: int| 0 <= j < slot ==> ghosts@[j] < q_end,
                decreases ghosts@.len() - slot,
            {
                slot += 1;
            }
            proof {
                assert forall|j: int| slot <= j < ghosts@.len() implies ghosts@[j] >= q_end by {
                    if j > slot {
                        assert(ghosts@[slot as int] < ghosts@[j]);
                    }
                }
            }
            let ghost old_offsets = offsets@;
            offsets.push(slot);
            proof {
                assert forall|a: int, b: int| 0 <= a <= b <= q + 1 implies #[trigger] offsets@[a]
                    <= #[trigger] offsets@[b] by {
                    if b <= q {
                        assert(old_offsets[a] <= old_offsets[b]);
                    } else if a <= q {
                        assert(old_offsets[a] <= old_offsets[q as int]);
                    }
                }
                assert forall|r: int, j: int|
                    0 <= r < q + 1 && offsets@[r] <= j < offsets@[r + 1] implies #[trigger]
                    layout.owns(r, ghosts@[j] as int) by {
                    if r < q {
                        assert(offsets@[r] == old_offsets[r]);
                        assert(offsets@[r + 1] == old_offsets[r + 1]);
                        assert(layout.owns(r, ghosts@[j] as int));
                    }
                }
            }
            q += 1;
        }
        proof {
            assert(slot == ghosts@.len()) by {
                if slot < ghosts@.len() {
                    assert(ghosts@[slot as int] >= layout.start_of(p as int));
                }
            }
        }
        Ok(GhostRequests { layout: *layout, ghost_indices: ghosts, receive_offsets: offsets })
    }

    /// The layout of the vectors whose entries are exchanged.
    pub fn layout(&self) -> (r: &IndexLayout)
        ensures
            *r == self.spec_layout(),
    {
        &self.layout
    }

    /// The number of ghosts.
    pub fn ghost_count(&self) -> (r: usize)
        ensures
            r == self.spec_ghost_count(),
    {
        self.ghost_indices.len()
    }

    /// The global index of each ghost, by slot.
    pub fn ghost_indices(&self) -> (r: &Vec<usize>)
        ensures
            r@ == self.spec_ghost_indices(),
    {
        &self.ghost_indices
    }

    /// The slot of the ghost with global index `global_index`, or `None`
    /// when that index is no ghost of this process.
    pub fn slot_of(&self, global_index: usize) -> (r: Option<usize>)
        requires
            self.wf(),
        ensures
            match r {
                Some(slot) => slot < self.spec_ghost_count() && self.spec_ghost_indices()[slot as int]
                    == global_index,
                None => !self.spec_ghost_indices().contains(global_index),
            },
    {
        let pos = lower_bound(&self.ghost_indices, global_index);
        if pos < self.ghost_indices.len() && self.ghost_indices[pos] == global_index {
            Some(pos)
        } else {
            proof {
                if self.ghost_indices@.contains(global_index) {
                    let i = choose|i: int|
                        0 <= i < self.ghost_indices@.len() && self.ghost_indices@[i]
                            == global_index;
                    if i > pos {
                        assert(self.ghost_indices@[pos as int] < self.ghost_indices@[i]);
                    }
                }
            }
            None
        }
    }

    /// The slots that receive what process `peer` sends, or `None` when the
    /// group has no such process.
    pub fn receive_list(&self, peer: usize) -> (r: Option<Vec<usize>>)
        requires
            self.wf(),
        ensures
            r.is_some() <==> peer < self.spec_layout().spec_process_count(),
            r.is_some() ==> r.unwrap()@ == self.slots_from(peer as int),
    {
        if peer >= self.layout.process_count() {
            return None;
        }
        proof {
            assert(self.receive_offsets@[peer as int] <= self.receive_offsets@[peer as int + 1]);
            assert(self.receive_offsets@[peer as int + 1]
                <= self.receive_offsets@[self.layout.spec_process_count()]);
        }
        let first = self.receive_offsets[peer];
        let last = self.receive_offsets[peer + 1];
        let mut slots: Vec<usize> = Vec::new();
        let mut k: usize = first;
        while k < last
            invariant
                first <= k <= last,
                slots@.len() == k - first,
                forall|j: int| 0 <= j < k - first ==> slots@[j] == first + j,
            decreases last - k,
        {
            slots.push(k);
            k += 1;
        }
        proof {
            assert(slots@ =~= self.slots_from(peer as int));
        }
        Some(slots)
    }

    /// What this process asks of each peer: for every process of the group,
    /// in rank order, the global indices that it owns and this process
    /// needs.
    pub fn requests(&self) -> (r: Vec<Vec<usize>>)
        requires
            self.wf(),
        ensures
            r@.len() == self.spec_layout().spec_process_count(),
            forall|q: int| 0 <= q < r@.len() ==> (#[trigger] r@[q])@ == self.requests_to(q),
    {
        let p = self.layout.process_count();
        let mut out: Vec<Vec<usize>> = Vec::new();
        let mut q: usize = 0;
        while q < p
            invariant
                0 <= q <= p,
                self.wf(),
                p == self.layout.spec_process_count(),
                out@.len() == q,
                forall|r: int| 0 <= r < q ==> (#[trigger] out@[r])@ == self.requests_to(r),
            decreases p - q,
        {
            proof {
                assert(self.receive_offsets@[q as int] <= self.receive_offsets@[q as int + 1]);
                assert(self.receive_offsets@[q as int + 1] <= self.receive_offsets@[p as int]);
            }
            let first = self.receive_offsets[q];
            let last = self.receive_offsets[q + 1];
            let mut list: Vec<usize> = Vec::new();
            let mut k: usize = first;
            while k < last
                invariant
                    first <= k <= last <= self.ghost_indices@.len(),
                    list@ == self.ghost_indices@.subrange(first as int, k as int),
                decreases last - k,
            {
                list.push(self.ghost_indices[k]);
                proof {
                    assert(list@ =~= self.ghost_indices@.subrange(first as int, k as int + 1));
                }
                k += 1;
            }
            out.push(list);
            q += 1;
        }
        out
    }
}

/// Whether process `layout.rank` owns every index that its peers ask of it.
pub open spec fn requests_owned(layout: IndexLayout, incoming: Seq<Vec<usize>>) -> bool {
    forall|q: int, j: int|
        0 <= q < incoming.len() && 0 <= j < incoming[q]@.len() ==> layout.local_start()
            <= #[trigger] incoming[q]@[j] < layout.local_end()
}

/// The communication plan of one process: which slots of its ghost buffer
/// receive from which peer, and which of its own entries it sends to whom.
pub struct GhostCommunicator {
    requests: GhostRequests,
    send_lists: Vec<Vec<usize>>,
}

impl GhostCommunicator {
    /// The receiving half of the plan.
    pub closed spec fn spec_requests(&self) -> GhostRequests {
        self.requests
    }

    /// The local offsets of the entries that this process sends to process
    /// `q`, in the order in which it sends them.
    pub closed spec fn spec_send_list(&self, q: int) -> Seq<usize> {
        self.send_lists@[q]@
    }

    /// The number of send lists.
    pub closed spec fn spec_send_count(&self) -> int {
        self.send_lists@.len() as int
    }

    /// The layout of the vectors whose entries are exchanged.
    pub open spec fn spec_layout(&self) -> IndexLayout {
        self.spec_requests().spec_layout()
    }

    /// The global index of each ghost, by slot.
    pub open spec fn spec_ghost_indices(&self) -> Seq<usize> {
        self.spec_requests().spec_ghost_indices()
    }

    /// The number of ghosts.
    pub open spec fn spec_ghost_count(&self) -> int {
        self.spec_requests().spec_ghost_count()
    }

    /// The receiving half is valid, there is one send list for each process,
    /// and every entry to send is one that this process holds.
    pub open spec fn wf(&self) -> bool {
        &&& self.spec_requests().wf()
        &&& self.spec_send_count() == self.spec_layout().spec_process_count()
        &&& forall|q: int, j: int|
            0 <= q < self.spec_send_count() && 0 <= j < self.spec_send_list(q).len()
                ==> #[trigger] self.spec_send_list(q)[j] < self.spec_layout().local_len()
    }

    /// Whether the send lists answer the requests `incoming`, of which
    /// `incoming[q]` came from process `q`: entry by entry, the local offset
    /// of the global index that was asked for.
    pub open spec fn answers(&self, incoming: Seq<Vec<usize>>) -> bool {
        &&& self.spec_send_count() == incoming.len()
        &&& forall|q: int|
            0 <= q < incoming.len() ==> (#[trigger] self.spec_send_list(q)).len()
                == incoming[q]@.len()
        &&& forall|q: int, j: int|
            0 <= q < incoming.len() && 0 <= j < incoming[q]@.len() ==> #[trigger] self.spec_send_list(
                q,
            )[j] == incoming[q]@[j] - self.spec_layout().local_start()
    }

    /// Completes the plan of a process from what its peers asked of it;
    /// `incoming[q]` holds the global indices that process `q` needs from
    /// this one.
    ///
    /// Fails with `DimensionMismatch` when `incoming` does not have one list
    /// for each process, and otherwise with `OutOfRange` when a peer asks for
    /// an index that this process does not own.
    pub fn new(requests: GhostRequests, incoming: &Vec<Vec<usize>>) -> (r: Result<
        Self,
        SparseError,
    >)
        requires
            requests.wf(),
        ensures
            match r {
                Ok(c) => {
                    &&& incoming@.len() == requests.spec_layout().spec_process_count()
                    &&& requests_owned(requests.spec_layout(), incoming@)
                    &&& c.wf()
                    &&& c.spec_requests() == requests
                    &&& c.answers(incoming@)
                },
                Err(e) => if incoming@.len() != requests.spec_layout().spec_process_count() {
                    e == SparseError::DimensionMismatch
                } else {
                    e == SparseError::OutOfRange && !requests_owned(
                        requests.spec_layout(),
                        incoming@,
                    )
                },
            },
    {
        let p = requests.layout.process_count();
        if incoming.len() != p {
            return Err(SparseError::DimensionMismatch);
        }
        let (start, end) = requests.layout.own_range();
        let mut send_lists: Vec<Vec<usize>> = Vec::new();
        let mut q: usize = 0;
        while q < p
            invariant
                0 <= q <= p,
                p == incoming@.len(),
                p == requests.spec_layout().spec_process_count(),
                start == requests.layout.local_start(),
                end == requests.layout.local_end(),
                start <= end,
                send_lists@.len() == q,
                forall|r: int, j: int|
                    0 <= r < q && 0 <= j < incoming@[r]@.len() ==> start
                        <= #[trigger] incoming@[r]@[j] < end,
                forall|r: int|
                    0 <= r < q ==> (#[trigger] send_lists@[r])@.len() == incoming@[r]@.len(),
                forall|r: int, j: int|
                    0 <= r < q && 0 <= j < incoming@[r]@.len() ==> #[trigger] send_lists@[r]@[j]
                        == incoming@[r]@[j] - start,
            decreases p - q,
        {
            let asked = &incoming[q];
            let mut list: Vec<usize> = Vec::new();
            let mut j: usize = 0;
            while j < asked.len()
                invariant
                    0 <= j <= asked@.len(),
                    asked@ == incoming@[q as int]@,
                    0 <= q < incoming@.len(),
                    incoming@.len() == requests.spec_layout().spec_process_count(),
                    start == requests.layout.local_start(),
                    end == requests.layout.local_end(),
                    list@.len() == j,
                    forall|i: int| 0 <= i < j ==> start <= #[trigger] asked@[i] < end,
                    forall|i: int| 0 <= i < j ==> #[trigger] list@[i] == asked@[i] - start,
                decreases asked@.len() - j,
            {
                let g = asked[j];
                if g < start || g >= end {
                    proof {
                        assert(!(start <= incoming@[q as int]@[j as int] < end));
                    }
                    return Err(SparseError::OutOfRange);
                }
                list.push(g - start);
                j += 1;
            }
            send_lists.push(list);
            q += 1;
        }
        Ok(GhostCommunicator { requests, send_lists })
    }

    /// The receiving half of the plan.
    pub fn requests(&self) -> (r: &GhostRequests)
        ensures
            *r == self.spec_requests(),
    {
        &self.requests
    }

    /// The layout of the vectors whose entries are exchanged.
    pub fn layout(&self) -> (r: &IndexLayout)
        ensures
            *r == self.spec_layout(),
    {
        self.requests.layout()
    }

    /// The number of ghosts.
    pub fn ghost_count(&self) -> (r: usize)
        ensures
            r == self.spec_ghost_count(),
    {
        self.requests.ghost_count()
    }

    /// The global index of each ghost, by slot.
    pub fn ghost_indices(&self) -> (r: &Vec<usize>)
        ensures
            r@ == self.spec_ghost_indices(),
    {
        self.requests.ghost_indices()
    }

    /// The slots that receive what process `peer` sends, or `None` when the
    /// group has no such process.
    pub fn receive_list(&self, peer: usize) -> (r: Option<Vec<usize>>)
        requires
            self.wf(),
        ensures
            r.is_some() <==> peer < self.spec_layout().spec_process_count(),
            r.is_some() ==> r.unwrap()@ == self.spec_requests().slots_from(peer as int),
    {
        self.requests.receive_list(peer)
    }

    /// The local offsets of the entries that this process sends to process
    /// `peer`, or `None` when the group has no such process.
    pub fn send_list(&self, peer: usize) -> (r: Option<&Vec<usize>>)
        requires
            self.wf(),
        ensures
            r.is_some() <==> peer < self.spec_layout().spec_process_count(),
            r.is_some() ==> r.unwrap()@ == self.spec_send_list(peer as int),
    {
        if peer < self.send_lists.len() {
            Some(&self.send_lists[peer])
        } else {
            None
        }
    }

    /// Gathers what this process sends in one exchange: for every process of
    /// the group, in rank order, the entries of `x` that it asked for.
    ///
    /// Fails with `LayoutMismatch` when `x` is not laid out as the plan is.
    pub fn send_buffers<T: Scalar>(&self, x: &IndexableVector<T>) -> (r: Result<
        Vec<Vec<T>>,
        SparseError,
    >)
        requires
            self.wf(),
            x.wf(),
        ensures
            match r {
                Ok(buffers) => {
                    &&& x.spec_layout() == self.spec_layout()
                    &&& buffers@.len() == self.spec_layout().spec_process_count()
                    &&& forall|q: int|
                        0 <= q < buffers@.len() ==> (#[trigger] buffers@[q])@ == gathered(
                            self.spec_send_list(q),
                            x.spec_local(),
                        )
                },
                Err(e) => e == SparseError::LayoutMismatch && x.spec_layout()
                    != self.spec_layout(),
            },
    {
        if *x.layout() != self.requests.layout {
            return Err(SparseError::LayoutMismatch);
        }
        let p = self.send_lists.len();
        let local = x.local();
        let mut buffers: Vec<Vec<T>> = Vec::new();
        let mut q: usize = 0;
        while q < p
            invariant
                0 <= q <= p,
                self.wf(),
                p == self.send_lists@.len(),
                local@ == x.spec_local(),
                local@.len() == self.spec_layout().local_len(),
                buffers@.len() == q,
                forall|r: int|
                    0 <= r < q ==> (#[trigger] buffers@[r])@ == gathered(
                        self.spec_send_list(r),
                        local@,
                    ),
            decreases p - q,
        {
            let list = &self.send_lists[q];
            let mut buffer: Vec<T> = Vec::new();
            let mut j: usize = 0;
            proof {
                assert forall|i: int| 0 <= i < list@.len() implies #[trigger] list@[i]
                    < local@.len() by {
                    assert(self.spec_send_list(q as int)[i] < self.spec_layout().local_len());
                }
            }
            while j < list.len()
                invariant
                    0 <= j <= list@.len(),
                    list@ == self.spec_send_list(q as int),
                    forall|i: int| 0 <= i < list@.len() ==> #[trigger] list@[i] < local@.len(),
                    buffer@.len() == j,
                    forall|i: int| 0 <= i < j ==> buffer@[i] == local@[list@[i] as int],
                decreases list@.len() - j,
            {
                buffer.push(local[list[j]]);
                j += 1;
            }
            proof {
                assert(buffer@ =~= gathered(self.spec_send_list(q as int), local@));
            }
            buffers.push(buffer);
            q += 1;
        }
        Ok(buffers)
    }

    /// Whether `incoming` holds, for each process, as many values as this
    /// process has ghosts that the process owns.
    pub open spec fn payloads_fit<T>(&self, incoming: Seq<Vec<T>>) -> bool {
        &&& incoming.len() == self.spec_layout().spec_process_count()
        &&& forall|q: int|
            0 <= q < incoming.len() ==> (#[trigger] incoming[q])@.len()
                == self.spec_requests().first_slot(q + 1) - self.spec_requests().first_slot(q)
    }

    /// Lays what arrived in one exchange into a fresh ghost buffer;
    /// `incoming[q]` holds what process `q` sent, in the order of its send
    /// list. The value that came `j`-th from process `q` lands in the `j`-th
    /// slot of the run of that process, whatever order the messages came in.
    ///
    /// Fails with `DimensionMismatch` when `incoming` does not hold exactly
    /// one value for each ghost.
    pub fn receive<T: Scalar>(&self, incoming: &Vec<Vec<T>>) -> (r: Result<Vec<T>, SparseError>)
        requires
            self.wf(),
        ensures
            match r {
                Ok(ghosts) => {
                    &&& self.payloads_fit(incoming@)
                    &&& ghosts@.len() == self.spec_ghost_count()
                    &&& forall|q: int, j: int|
                        0 <= q < incoming@.len() && 0 <= j < incoming@[q]@.len()
                            ==> #[trigger] ghosts@[self.spec_requests().first_slot(q) + j]
                            == incoming@[q]@[j]
                },
                Err(e) => e == SparseError::DimensionMismatch && !self.payloads_fit(incoming@),
            },
    {
        let p = self.requests.layout.process_count();
        if incoming.len() != p {
            return Err(SparseError::DimensionMismatch);
        }
        let mut q: usize = 0;
        while q < p
            invariant
                0 <= q <= p,
                self.wf(),
                p == self.spec_layout().spec_process_count(),
                incoming@.len() == p,
                forall|r: int|
                    0 <= r < q ==> (#[trigger] incoming@[r])@.len()
                        == self.spec_requests().first_slot(r + 1)
                        - self.spec_requests().first_slot(r),
            decreases p - q,
        {
            proof {
                assert(self.requests.receive_offsets@[q as int]
                    <= self.requests.receive_offsets@[q as int + 1]);
            }
            if incoming[q].len() != self.requests.receive_offsets[q + 1]
                - self.requests.receive_offsets[q] {
                proof {
                    assert(incoming@[q as int]@.len() != self.spec_requests().first_slot(q + 1)
                        - self.spec_requests().first_slot(q as int));
                }
                return Err(SparseError::DimensionMismatch);
            }
            q += 1;
        }
        let mut ghosts: Vec<T> = Vec::new();
        q = 0;
        while q < p
            invariant
                0 <= q <= p,
                self.wf(),
                p == self.spec_layout().spec_process_count(),
                self.payloads_fit(incoming@),
                ghosts@.len() == self.spec_requests().first_slot(q as int),
                forall|r: int, j: int|
                    0 <= r < q && 0 <= j < incoming@[r]@.len()
                        ==> #[trigger] ghosts@[self.spec_requests().first_slot(r) + j]
                        == incoming@[r]@[j],
            decreases p - q,
        {
            let payload = &incoming[q];
            let ghost base = ghosts@;
            let mut j: usize = 0;
            while j < payload.len()
                invariant
                    0 <= j <= payload@.len(),
                    ghosts@.len() == base.len() + j,
                    forall|i: int| 0 <= i < base.len() ==> ghosts@[i] == base[i],
                    forall|i: int| 0 <= i < j ==> ghosts@[base.len() + i] == payload@[i],
                decreases payload@.len() - j,
            {
                ghosts.push(payload[j]);
                j += 1;
            }
            proof {
                assert(incoming@[q as int]@.len() == self.spec_requests().first_slot(q + 1)
                    - self.spec_requests().first_slot(q as int));
                assert forall|r: int, j: int|
                    0 <= r < q + 1 && 0 <= j < incoming@[r]@.len() implies #[trigger]
                    ghosts@[self.spec_requests().first_slot(r) + j] == incoming@[r]@[j] by {
                    if r < q {
                        assert(incoming@[r]@.len() == self.spec_requests().first_slot(r + 1)
                            - self.spec_requests().first_slot(r));
                        assert(self.requests.receive_offsets@[r + 1]
                            <= self.requests.receive_offsets@[q as int]);
                        assert(base[self.spec_requests().first_slot(r) + j] == incoming@[r]@[j]);
                    }
                }
            }
            q += 1;
        }
        Ok(ghosts)
    }
}

/// Every ghost slot lies in the run of some process.
pub proof fn lemma_slot_has_peer(
    requests: GhostRequests,
    k: int,
    upto: int,
)
    requires
        requests.wf(),
        0 <= upto <= requests.spec_layout().spec_process_count(),
        0 <= k < requests.first_slot(upto),
    ensures
        exists|q: int|
            0 <= q < upto && requests.first_slot(q) <= k < #[trigger] requests.first_slot(q + 1),
    decreases upto,
{
    if upto > 0 {
        if requests.first_slot(upto - 1) <= k {
            assert(requests.first_slot(upto - 1) <= k < requests.first_slot((upto - 1) + 1));
        } else {
            lemma_slot_has_peer(requests, k, upto - 1);
        }
    }
}

/// Every ghost slot from the run of process `from` on lies in the run of a
/// process of rank `from` or higher.
pub proof fn lemma_slot_peer_from(requests: GhostRequests, k: int, from: int)
    requires
        requests.wf(),
        0 <= from <= requests.spec_layout().spec_process_count(),
        requests.first_slot(from) <= k < requests.spec_ghost_count(),
    ensures
        exists|q: int|
            from <= q < requests.spec_layout().spec_process_count() && requests.first_slot(q) <= k
                < #[trigger] requests.first_slot(q + 1),
    decreases requests.spec_layout().spec_process_count() - from,
{
    let p = requests.spec_layout().spec_process_count();
    if from < p {
        if k < requests.first_slot(from + 1) {
        } else {
            lemma_slot_peer_from(requests, k, from + 1);
        }
    }
}

/// The ghosts of a layout and a set of columns are cut into runs in one way
/// only: two valid request tables with the same layout and the same ghosts
/// have the same offsets.
pub proof fn lemma_offsets_unique(a: GhostRequests, b: GhostRequests)
    requires
        a.wf(),
        b.wf(),
        a.spec_layout() == b.spec_layout(),
        a.spec_ghost_indices() == b.spec_ghost_indices(),
    ensures
        a.spec_receive_offsets() == b.spec_receive_offsets(),
{
    let p = a.spec_layout().spec_process_count();
    assert forall|q: int| 0 <= q < p + 1 implies a.spec_receive_offsets()[q]
        == b.spec_receive_offsets()[q] by {
        lemma_offsets_order(a, b, q);
        lemma_offsets_order(b, a, q);
    }
    assert(a.spec_receive_offsets() =~= b.spec_receive_offsets());
}

/// The run of process `q` starts no earlier in one table than in another:
/// a slot between the two starts would hold a ghost owned by a process below
/// `q` and by one of rank `q` or higher.
proof fn lemma_offsets_order(a: GhostRequests, b: GhostRequests, q: int)
    requires
        a.wf(),
        b.wf(),
        a.spec_layout() == b.spec_layout(),
        a.spec_ghost_indices() == b.spec_ghost_indices(),
        0 <= q <= a.spec_layout().spec_process_count(),
    ensures
        a.first_slot(q) >= b.first_slot(q),
{
    if a.first_slot(q) < b.first_slot(q) {
        let layout = a.spec_layout();
        let p = layout.spec_process_count();
        let n = layout.spec_global_size();
        let g = a.spec_ghost_indices();
        let k = a.first_slot(q);
        assert(b.spec_receive_offsets()[q] <= b.spec_receive_offsets()[p]);
        lemma_slot_peer_from(a, k, q);
        let hi = choose|r: int|
            q <= r < p && a.first_slot(r) <= k < #[trigger] a.first_slot(r + 1);
        assert(layout.owns(hi, g[k] as int));
        lemma_slot_has_peer(b, k, q);
        let lo = choose|r: int| 0 <= r < q && b.first_slot(r) <= k < #[trigger] b.first_slot(r + 1);
        assert(layout.owns(lo, g[k] as int));
        lemma_block_owner_unique(n, p, lo, hi, g[k] as int);
    }
}

/// Building the plan again from the same layout, the same columns and the
/// same requests of the peers gives the same plan: the same ghost in every
/// slot, the same run of slots for every peer, and the same entries to send
/// to every peer in the same order.
pub proof fn lemma_plan_reproducible(
    a: GhostCommunicator,
    b: GhostCommunicator,
    columns: Seq<usize>,
    incoming: Seq<Vec<usize>>,
)
    requires
        a.wf(),
        b.wf(),
        a.spec_layout() == b.spec_layout(),
        is_ghost_set(a.spec_ghost_indices(), a.spec_layout(), columns),
        is_ghost_set(b.spec_ghost_indices(), b.spec_layout(), columns),
        a.answers(incoming),
        b.answers(incoming),
    ensures
        a.spec_ghost_indices() == b.spec_ghost_indices(),
        a.spec_requests().spec_receive_offsets() == b.spec_requests().spec_receive_offsets(),
        forall|q: int|
            0 <= q < a.spec_layout().spec_process_count() ==> #[trigger] a.spec_requests().slots_from(
                q,
            ) == b.spec_requests().slots_from(q),
        forall|q: int|
            0 <= q < a.spec_layout().spec_process_count() ==> #[trigger] a.spec_send_list(q)
                == b.spec_send_list(q),
{
    let ga = a.spec_ghost_indices();
    let gb = b.spec_ghost_indices();
    assert forall|c: usize| #[trigger] ga.contains(c) <==> gb.contains(c) by {}
    lemma_increasing_unique(ga, gb);
    lemma_offsets_unique(a.spec_requests(), b.spec_requests());
    assert forall|q: int| 0 <= q < a.spec_layout().spec_process_count() implies #[trigger]
        a.spec_send_list(q) == b.spec_send_list(q) by {
        assert(a.spec_send_list(q).len() == incoming[q]@.len());
        assert(b.spec_send_list(q).len() == incoming[q]@.len());
        assert forall|j: int| 0 <= j < incoming[q]@.len() implies a.spec_send_list(q)[j]
            == b.spec_send_list(q)[j] by {
            assert(a.spec_send_list(q)[j] == incoming[q]@[j] - a.spec_layout().local_start());
            assert(b.spec_send_list(q)[j] == incoming[q]@[j] - b.spec_layout().local_start());
        }
        assert(a.spec_send_list(q) =~= b.spec_send_list(q));
    }
}

/// A process whose block refers to no column of another process, and in
/// particular one whose block has no nonzeros, has no ghosts: it asks
/// nothing of any peer and receives nothing from any.
pub proof fn lemma_no_remote_columns(requests: GhostRequests, columns: Seq<usize>)
    requires
        requests.wf(),
        is_ghost_set(requests.spec_ghost_indices(), requests.spec_layout(), columns),
        forall|k: int|
            0 <= k < columns.len() ==> requests.spec_layout().local_start() <= #[trigger] columns[k]
                < requests.spec_layout().local_end(),
    ensures
        requests.spec_ghost_count() == 0,
        forall|q: int|
            0 <= q < requests.spec_layout().spec_process_count() ==> (
            #[trigger] requests.requests_to(q)).len() == 0,
        forall|q: int|
            0 <= q < requests.spec_layout().spec_process_count() ==> (
            #[trigger] requests.slots_from(q)).len() == 0,
{
    let g = requests.spec_ghost_indices();
    if g.len() > 0 {
        let c = g[0];
        assert(g.contains(c));
        assert(columns.contains(c));
        let k = choose|k: int| 0 <= k < columns.len() && columns[k] == c;
        assert(requests.spec_layout().local_start() <= columns[k]);
    }
    let off = requests.spec_receive_offsets();
    let p = requests.spec_layout().spec_process_count();
    assert forall|q: int| 0 <= q < p implies (#[trigger] requests.requests_to(q)).len() == 0
        && requests.slots_from(q).len() == 0 by {
        assert(off[0] <= off[q]);
        assert(off[q] <= off[q + 1]);
        assert(off[q + 1] <= off[p]);
    }
}

/// A process of which no peer asks anything sends nothing.
pub proof fn lemma_no_requests_no_sends(plan: GhostCommunicator, incoming: Seq<Vec<usize>>)
    requires
        plan.answers(incoming),
        forall|q: int| 0 <= q < incoming.len() ==> (#[trigger] incoming[q])@.len() == 0,
    ensures
        forall|q: int| 0 <= q < incoming.len() ==> (#[trigger] plan.spec_send_list(q)).len() == 0,
{
}

} // verus!
