//! The identity of one process among a fixed set of cooperating processes.

use vstd::prelude::*;

verus! {

/// "My rank" and "how many of us there are", passed explicitly to whatever
/// needs to know which part of a partitioned object this process holds.
#[derive(Clone, Copy, Debug, PartialEq, Eq, Structural)]
pub struct ProcessGroup {
    rank: usize,
    size: usize,
}

impl ProcessGroup {
    /// A group is valid when it has at least one member and the rank names one.
    pub open spec fn wf(self) -> bool {
        0 <= self.spec_rank() < self.spec_size()
    }

    /// The rank of this process, as a mathematical integer.
    pub closed spec fn spec_rank(self) -> int {
        self.rank as int
    }

    /// The number of processes, as a mathematical integer.
    pub closed spec fn spec_size(self) -> int {
        self.size as int
    }

    /// Describes process `rank` of a group of `size` processes, or nothing
    /// when `rank` does not name a member of such a group.
    pub fn new(rank: usize, size: usize) -> (r: Option<ProcessGroup>)
        ensures
            r.is_some() <==> rank < size,
            r.is_some() ==> r.unwrap().wf() && r.unwrap().spec_rank() == rank
                && r.unwrap().spec_size() == size,
    {
        if rank < size {
            Some(ProcessGroup { rank, size })
        } else {
            None
        }
    }

    /// The rank of this process.
    pub fn rank(&self) -> (r: usize)
        ensures
            r == self.spec_rank(),
    {
        self.rank
    }

    /// The number of processes in the group.
    pub fn size(&self) -> (r: usize)
        ensures
            r == self.spec_size(),
    {
        self.size
    }

    /// The same group as seen from process `rank`, or nothing when the group
    /// has no such member.
    pub fn with_rank(&self, rank: usize) -> (r: Option<ProcessGroup>)
        ensures
            r.is_some() <==> rank < self.spec_size(),
            r.is_some() ==> r.unwrap().wf() && r.unwrap().spec_rank() == rank
                && r.unwrap().spec_size() == self.spec_size(),
    {
        ProcessGroup::new(rank, self.size)
    }
}

} // verus!
