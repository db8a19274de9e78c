//! Pipes: a byte queue shared by the descriptors of its two ends, with a
//! count of the open descriptors of each end.

use vstd::prelude::*;
use std::collections::VecDeque;

verus! {

/// Bytes a pipe is prepared to hold.
pub const PIPE_BUF_SIZE: usize = 4096;

pub struct PipeInner {
    pub buf: VecDeque<u8>,
    pub write_ends: usize,
    pub read_ends: usize,
}

impl PipeInner {
    /// An empty pipe with one descriptor open on each end.
    pub fn new() -> (r: Self)
        ensures
            r.buf@ == Seq::<u8>::empty(),
            r.write_ends == 1,
            r.read_ends == 1,
    {
        Self { buf: VecDeque::with_capacity(PIPE_BUF_SIZE), write_ends: 1, read_ends: 1 }
    }
}

/// A pipe, named by its index in the table of pipes.
pub type PipeRef = usize;

/// Every pipe of the system.
pub struct PipeTable {
    pub pipes: Vec<PipeInner>,
}

impl PipeTable {
    pub fn new() -> (r: Self)
        ensures
            r.pipes@.len() == 0,
    {
        PipeTable { pipes: Vec::new() }
    }

    /// Open write ends of pipe `p`.
    pub open spec fn writers(&self, p: int) -> int {
        self.pipes@[p].write_ends as int
    }

    /// Open read ends of pipe `p`.
    pub open spec fn readers(&self, p: int) -> int {
        self.pipes@[p].read_ends as int
    }
}

/// Creates a pipe and returns it twice: once for the read end and once for
/// the write end.
pub fn new_pipe(table: &mut PipeTable) -> (r: (PipeRef, PipeRef))
    ensures
        r.0 == r.1,
        r.0 == old(table).pipes@.len(),
        final(table).pipes@.len() == old(table).pipes@.len() + 1,
        forall|p: int| 0 <= p < old(table).pipes@.len() ==> #[trigger] final(table).pipes@[p] == old(table).pipes@[p],
        final(table).pipes@[r.0 as int].buf@ == Seq::<u8>::empty(),
        final(table).writers(r.0 as int) == 1,
        final(table).readers(r.0 as int) == 1,
{
    let id = table.pipes.len();
    table.pipes.push(PipeInner::new());
    (id, id)
}

} // verus!
