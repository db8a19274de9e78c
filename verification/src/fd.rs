//! Open-file descriptions and per-process descriptor tables.
//!
//! Descriptions live in one table shared by all processes (`OpenFiles`); a
//! descriptor slot holds the index of a description, so that several slots,
//! also of different processes, can share one. A description of a pipe end
//! names its pipe in the `PipeTable`; the pipe counts the slots open on each
//! of its ends.

use vstd::prelude::*;
use crate::fs::procfs::ProcfsNode;
use crate::fs::ramfs::RamfsHandle;
use crate::pipe::{PipeRef, PipeTable, PipeInner};

verus! {

pub const FD_MAX: usize = 16;

#[derive(Clone, Copy, Debug, PartialEq, Eq, Structural)]
pub enum FdKind {
    Serial,
    File,
    DevNull,
    DevZero,
    Directory,
    Pipe,
}

/// The file behind a description of kind `File`.
pub enum FileNode {
    Ram(RamfsHandle),
    Proc(ProcfsNode),
}

pub struct OpenFile {
    pub kind: FdKind,
    pub readable: bool,
    pub writable: bool,
    pub append: bool,
    pub node: Option<FileNode>,
    pub pipe: Option<PipeRef>,
    pub offset: usize,
    pub dir_entries: Option<Vec<String>>,
}

impl OpenFile {
    /// The read end of `pipe`.
    pub fn pipe_read(pipe: PipeRef) -> (r: Self)
        ensures
            r.kind == FdKind::Pipe && r.readable && !r.writable && !r.append,
            r.node is None && r.pipe == Some(pipe) && r.offset == 0 && r.dir_entries is None,
    {
        Self { kind: FdKind::Pipe, readable: true, writable: false, append: false, node: None, pipe: Some(pipe), offset: 0, dir_entries: None }
    }

    /// The write end of `pipe`.
    pub fn pipe_write(pipe: PipeRef) -> (r: Self)
        ensures
            r.kind == FdKind::Pipe && !r.readable && r.writable && !r.append,
            r.node is None && r.pipe == Some(pipe) && r.offset == 0 && r.dir_entries is None,
    {
        Self { kind: FdKind::Pipe, readable: false, writable: true, append: false, node: None, pipe: Some(pipe), offset: 0, dir_entries: None }
    }

    /// The serial console, for reading and writing.
    pub fn stdin() -> (r: Self)
        ensures
            r.kind == FdKind::Serial && r.readable && r.writable && !r.append,
            r.node is None && r.pipe is None && r.offset == 0 && r.dir_entries is None,
    {
        Self { kind: FdKind::Serial, readable: true, writable: true, append: false, node: None, pipe: None, offset: 0, dir_entries: None }
    }

    /// The serial console, for reading and writing.
    pub fn stdout() -> (r: Self)
        ensures
            r.kind == FdKind::Serial && r.readable && r.writable && !r.append,
            r.node is None && r.pipe is None && r.offset == 0 && r.dir_entries is None,
    {
        Self { kind: FdKind::Serial, readable: true, writable: true, append: false, node: None, pipe: None, offset: 0, dir_entries: None }
    }

    /// A file of a file system, at offset 0.
    pub fn file(node: FileNode, readable: bool, writable: bool, append: bool) -> (r: Self)
        ensures
            r.kind == FdKind::File && r.readable == readable && r.writable == writable && r.append == append,
            r.node == Some(node) && r.pipe is None && r.offset == 0 && r.dir_entries is None,
    {
        Self { kind: FdKind::File, readable, writable, append, node: Some(node), pipe: None, offset: 0, dir_entries: None }
    }

    /// A device of the given kind, for reading and writing.
    pub fn device(kind: FdKind) -> (r: Self)
        ensures
            r.kind == kind && r.readable && r.writable && !r.append,
            r.node is None && r.pipe is None && r.offset == 0 && r.dir_entries is None,
    {
        Self { kind, readable: true, writable: true, append: false, node: None, pipe: None, offset: 0, dir_entries: None }
    }

    /// A directory listing with the given names, for reading.
    pub fn directory(entries: Vec<String>) -> (r: Self)
        ensures
            r.kind == FdKind::Directory && r.readable && !r.writable && !r.append,
            r.node is None && r.pipe is None && r.offset == 0 && r.dir_entries == Some(entries),
    {
        Self { kind: FdKind::Directory, readable: true, writable: false, append: false, node: None, pipe: None, offset: 0, dir_entries: Some(entries) }
    }
}

/// A description, named by its index in `OpenFiles`.
pub type FdEntry = usize;

/// Every open-file description of the system.
pub struct OpenFiles {
    pub files: Vec<OpenFile>,
}

impl OpenFiles {
    pub fn new() -> (r: Self)
        ensures
            r.files@.len() == 0,
    {
        OpenFiles { files: Vec::new() }
    }

    /// Every pipe that a description names exists.
    pub open spec fn pipes_ok(&self, pipes: &PipeTable) -> bool {
        forall|i: int| 0 <= i < self.files@.len() ==> ((#[trigger] self.files@[i]).pipe matches Some(p) ==> p < pipes.pipes@.len())
    }
}

/// `n` moved by one for an end that the description opens: up, or down
/// but not below zero.
pub open spec fn step(n: int, opens: bool, up: bool) -> int {
    if !opens {
        n
    } else if up {
        n + 1
    } else if n > 0 {
        n - 1
    } else {
        0
    }
}

/// `t2` is `t1` with the end counts of the pipe of `f` moved by one.
pub open spec fn ends_moved(t1: Seq<PipeInner>, t2: Seq<PipeInner>, f: OpenFile, up: bool) -> bool {
    &&& t2.len() == t1.len()
    &&& forall|q: int| 0 <= q < t1.len() && f.pipe != Some(q as usize) ==> #[trigger] t2[q] == t1[q]
    &&& f.pipe matches Some(p) ==> {
        &&& t2[p as int].buf@ == t1[p as int].buf@
        &&& t2[p as int].write_ends == step(t1[p as int].write_ends as int, f.writable, up)
        &&& t2[p as int].read_ends == step(t1[p as int].read_ends as int, f.readable, up)
    }
}

/// Number of slots among `slots` whose description names pipe `p` and
/// opens its write end (`write`) or its read end.
pub open spec fn end_refs(slots: Seq<Option<usize>>, files: Seq<OpenFile>, p: int, write: bool) -> nat
    decreases slots.len(),
{
    if slots.len() == 0 {
        0
    } else {
        let rest = end_refs(slots.drop_last(), files, p, write);
        match slots.last() {
            Some(e) => {
                let f = files[e as int];
                if f.pipe == Some(p as usize) && (if write { f.writable } else { f.readable }) {
                    rest + 1
                } else {
                    rest
                }
            },
            None => rest,
        }
    }
}

proof fn lemma_end_refs_bound(slots: Seq<Option<usize>>, files: Seq<OpenFile>, p: int, write: bool)
    ensures
        end_refs(slots, files, p, write) <= slots.len(),
    decreases slots.len(),
{
    if slots.len() > 0 {
        lemma_end_refs_bound(slots.drop_last(), files, p, write);
    }
}

/// Counts of a pipe end moved up by one per descriptor would not overflow.
pub open spec fn room_for_refs(pipes: &PipeTable) -> bool {
    forall|p: int| 0 <= p < pipes.pipes@.len() ==> (#[trigger] pipes.pipes@[p]).write_ends + FD_MAX <= usize::MAX
        && pipes.pipes@[p].read_ends + FD_MAX <= usize::MAX
}

/// The end counts of the pipe of `f` can move up by one.
pub open spec fn room_for_one(pipes: &PipeTable, f: OpenFile) -> bool {
    f.pipe matches Some(p) ==> pipes.pipes@[p as int].write_ends < usize::MAX && pipes.pipes@[p as int].read_ends < usize::MAX
}

/// Moves the end counts of the pipe of `f` by one.
fn move_ends(f: &OpenFile, pipes: &mut PipeTable, up: bool)
    requires
        f.pipe matches Some(p) ==> p < old(pipes).pipes@.len(),
        up ==> room_for_one(old(pipes), *f),
    ensures
        ends_moved(old(pipes).pipes@, final(pipes).pipes@, *f, up),
{
    if let Some(p) = f.pipe {
        let mut inner = pipes.pipes.remove(p);
        if f.writable {
            inner.write_ends = if up { inner.write_ends + 1 } else { inner.write_ends.saturating_sub(1) };
        }
        if f.readable {
            inner.read_ends = if up { inner.read_ends + 1 } else { inner.read_ends.saturating_sub(1) };
        }
        pipes.pipes.insert(p, inner);
        proof {
            assert forall|q: int| 0 <= q < old(pipes).pipes@.len() && f.pipe != Some(q as usize) implies #[trigger] pipes.pipes@[q] == old(pipes).pipes@[q] by {
                if q < p {
                } else {
                    assert(q > p);
                }
            }
        }
    }
}

pub struct FdTable {
    entries: [Option<FdEntry>; 16],
}

impl FdTable {
    /// The description in each slot.
    pub closed spec fn slots(&self) -> Seq<Option<usize>> {
        self.entries@
    }

    /// Every slot names an existing description.
    pub open spec fn entries_ok(&self, files: &OpenFiles) -> bool {
        forall|i: int| 0 <= i < self.slots().len() ==> ((#[trigger] self.slots()[i]) matches Some(e) ==> e < files.files@.len())
    }

    pub proof fn lemma_len(&self)
        ensures
            self.slots().len() == FD_MAX,
    {
    }

    /// The description in slot `fd`.
    pub fn get(&self, fd: usize) -> (r: Option<FdEntry>)
        ensures
            r == (if fd < FD_MAX { self.slots()[fd as int] } else { None }),
    {
        if fd < FD_MAX {
            self.entries[fd]
        } else {
            None
        }
    }

    /// Puts a new description for `file` in the lowest free slot.
    pub fn allocate(&mut self, file: OpenFile, files: &mut OpenFiles) -> (r: Option<usize>)
        ensures
            match first_free(old(self).slots(), 0) {
                Some(i) => {
                    &&& r == Some(i as usize)
                    &&& final(files).files@ == old(files).files@.push(file)
                    &&& final(self).slots() == old(self).slots().update(i, Some(old(files).files@.len() as usize))
                },
                None => {
                    &&& r is None
                    &&& final(files).files@ == old(files).files@
                    &&& final(self).slots() == old(self).slots()
                },
            },
    {
        match find_free(&self.entries, 0) {
            Some(i) => {
                files.files.push(file);
                self.entries[i] = Some(files.files.len() - 1);
                proof {
                    assert(self.slots() =~= old(self).slots().update(i as int, Some(old(files).files@.len() as usize)));
                }
                Some(i)
            },
            None => None,
        }
    }

    /// Empties slot `fd`; a pipe end it held has one descriptor less.
    pub fn close(&mut self, fd: usize, files: &OpenFiles, pipes: &mut PipeTable) -> (r: bool)
        requires
            old(self).entries_ok(files),
            files.pipes_ok(old(pipes)),
        ensures
            r == (fd < FD_MAX && old(self).slots()[fd as int] is Some),
            final(self).entries_ok(files),
            r ==> final(self).slots() == old(self).slots().update(fd as int, None)
                && ends_moved(old(pipes).pipes@, final(pipes).pipes@, files.files@[old(self).slots()[fd as int]->0 as int], false),
            !r ==> final(self).slots() == old(self).slots() && final(pipes).pipes@ == old(pipes).pipes@,
    {
        if fd >= FD_MAX {
            return false;
        }
        match self.entries[fd] {
            Some(e) => {
                proof {
                    assert(self.slots()[fd as int] == Some(e));
                    assert(files.files@[e as int].pipe matches Some(p) ==> p < pipes.pipes@.len());
                }
                self.entries[fd] = None;
                move_ends(&files.files[e], pipes, false);
                proof {
                    assert(self.slots() =~= old(self).slots().update(fd as int, None));
                }
                true
            },
            None => false,
        }
    }

    /// A copy of the table for a child process: the same descriptions in the
    /// same slots, each pipe end counting the new references.
    pub fn fork_clone(&self, files: &OpenFiles, pipes: &mut PipeTable) -> (r: Self)
        requires
            self.entries_ok(files),
            files.pipes_ok(old(pipes)),
            room_for_refs(old(pipes)),
        ensures
            r.slots() == self.slots(),
            final(pipes).pipes@.len() == old(pipes).pipes@.len(),
            forall|p: int| 0 <= p < old(pipes).pipes@.len() ==> {
                &&& (#[trigger] final(pipes).pipes@[p]).buf@ == old(pipes).pipes@[p].buf@
                &&& final(pipes).pipes@[p].write_ends == old(pipes).pipes@[p].write_ends + end_refs(self.slots(), files.files@, p, true)
                &&& final(pipes).pipes@[p].read_ends == old(pipes).pipes@[p].read_ends + end_refs(self.slots(), files.files@, p, false)
            },
    {
        let mut t = Self { entries: [None; 16] };
        let ghost sl = self.slots();
        let plen = pipes.pipes.len();
        let mut i: usize = 0;
        while i < FD_MAX
            invariant
                i <= FD_MAX,
                plen == old(pipes).pipes@.len(),
                sl == self.slots(),
                sl.len() == FD_MAX,
                self.entries_ok(files),
                files.pipes_ok(old(pipes)),
                room_for_refs(old(pipes)),
                pipes.pipes@.len() == old(pipes).pipes@.len(),
                forall|k: int| 0 <= k < i ==> #[trigger] t.entries@[k] == sl[k],
                forall|p: int| 0 <= p < old(pipes).pipes@.len() ==> {
                    &&& (#[trigger] pipes.pipes@[p]).buf@ == old(pipes).pipes@[p].buf@
                    &&& pipes.pipes@[p].write_ends == old(pipes).pipes@[p].write_ends + end_refs(sl.subrange(0, i as int), files.files@, p, true)
                    &&& pipes.pipes@[p].read_ends == old(pipes).pipes@[p].read_ends + end_refs(sl.subrange(0, i as int), files.files@, p, false)
                },
            decreases FD_MAX - i,
        {
            let slot = self.entries[i];
            proof {
                assert(sl.subrange(0, i + 1).drop_last() =~= sl.subrange(0, i as int));
                assert(sl.subrange(0, i + 1).last() == sl[i as int]);
                assert forall|p: int| 0 <= p < old(pipes).pipes@.len() implies
                    end_refs(sl.subrange(0, i as int), files.files@, p, true) <= i
                    && end_refs(sl.subrange(0, i as int), files.files@, p, false) <= i by {
                    lemma_end_refs_bound(sl.subrange(0, i as int), files.files@, p, true);
                    lemma_end_refs_bound(sl.subrange(0, i as int), files.files@, p, false);
                }
            }
            let ghost pre = pipes.pipes@;
            if let Some(e) = slot {
                proof {
                    assert(sl[i as int] == Some(e));
                    assert(files.files@[e as int].pipe matches Some(p) ==> p < pipes.pipes@.len());
                    if let Some(p) = files.files@[e as int].pipe {
                        assert(old(pipes).pipes@[p as int].write_ends + FD_MAX <= usize::MAX);
                    }
                }
                move_ends(&files.files[e], pipes, true);
                proof {
                    assert(ends_moved(pre, pipes.pipes@, files.files@[e as int], true));
                }
            }
            proof {
                let s1 = sl.subrange(0, i + 1);
                assert forall|p: int| 0 <= p < old(pipes).pipes@.len() implies {
                    &&& (#[trigger] pipes.pipes@[p]).buf@ == old(pipes).pipes@[p].buf@
                    &&& pipes.pipes@[p].write_ends == old(pipes).pipes@[p].write_ends + end_refs(s1, files.files@, p, true)
                    &&& pipes.pipes@[p].read_ends == old(pipes).pipes@[p].read_ends + end_refs(s1, files.files@, p, false)
                } by {
                    assert(s1.drop_last() =~= sl.subrange(0, i as int));
                    assert(s1.last() == sl[i as int]);
                    assert(pre[p].buf@ == old(pipes).pipes@[p].buf@);
                    assert(pre[p].write_ends == old(pipes).pipes@[p].write_ends + end_refs(sl.subrange(0, i as int), files.files@, p, true));
                    assert(pre[p].read_ends == old(pipes).pipes@[p].read_ends + end_refs(sl.subrange(0, i as int), files.files@, p, false));
                    match slot {
                        Some(e) => {
                            let f = files.files@[e as int];
                            assert(ends_moved(pre, pipes.pipes@, f, true));
                            if f.pipe == Some(p as usize) {
                                let q = f.pipe->0;
                                assert(q as int == p);
                                assert(pipes.pipes@[q as int].write_ends == step(pre[q as int].write_ends as int, f.writable, true));
                            } else {
                                assert(pipes.pipes@[p] == pre[p]);
                            }
                        },
                        None => {
                            assert(pipes.pipes@ == pre);
                        },
                    }
                }
            }
            t.entries[i] = slot;
            i = i + 1;
        }
        proof {
            assert(sl.subrange(0, FD_MAX as int) =~= sl);
            assert(t.slots() =~= sl);
        }
        t
    }

    /// Puts the existing description `entry` in the lowest free slot; a
    /// pipe end it holds gets one descriptor more.
    pub fn alloc_entry(&mut self, entry: FdEntry, files: &OpenFiles, pipes: &mut PipeTable) -> (r: Option<usize>)
        requires
            entry < files.files@.len(),
            files.pipes_ok(old(pipes)),
            room_for_one(old(pipes), files.files@[entry as int]),
        ensures
            match first_free(old(self).slots(), 0) {
                Some(i) => {
                    &&& r == Some(i as usize)
                    &&& final(self).slots() == old(self).slots().update(i, Some(entry))
                    &&& ends_moved(old(pipes).pipes@, final(pipes).pipes@, files.files@[entry as int], true)
                },
                None => {
                    &&& r is None
                    &&& final(self).slots() == old(self).slots()
                    &&& final(pipes).pipes@ == old(pipes).pipes@
                },
            },
    {
        match find_free(&self.entries, 0) {
            Some(i) => {
                proof {
                    assert(files.files@[entry as int].pipe matches Some(p) ==> p < pipes.pipes@.len());
                }
                move_ends(&files.files[entry], pipes, true);
                self.entries[i] = Some(entry);
                proof {
                    assert(self.slots() =~= old(self).slots().update(i as int, Some(entry)));
                }
                Some(i)
            },
            None => None,
        }
    }

    /// Puts `entry` in the lowest free slot at or above `minfd`.
    pub fn alloc_from(&mut self, entry: FdEntry, minfd: usize) -> (r: Option<usize>)
        ensures
            match first_free(old(self).slots(), minfd as int) {
                Some(i) => r == Some(i as usize) && final(self).slots() == old(self).slots().update(i, Some(entry)),
                None => r is None && final(self).slots() == old(self).slots(),
            },
    {
        match find_free(&self.entries, minfd) {
            Some(i) => {
                self.entries[i] = Some(entry);
                proof {
                    assert(self.slots() =~= old(self).slots().update(i as int, Some(entry)));
                }
                Some(i)
            },
            None => None,
        }
    }

    /// Puts `entry` in slot `fd` (when `fd` is a slot); a pipe end it holds
    /// gets one descriptor more. A description already there is replaced.
    pub fn put(&mut self, fd: usize, entry: FdEntry, files: &OpenFiles, pipes: &mut PipeTable)
        requires
            entry < files.files@.len(),
            files.pipes_ok(old(pipes)),
            room_for_one(old(pipes), files.files@[entry as int]),
        ensures
            fd < FD_MAX ==> final(self).slots() == old(self).slots().update(fd as int, Some(entry))
                && ends_moved(old(pipes).pipes@, final(pipes).pipes@, files.files@[entry as int], true),
            fd >= FD_MAX ==> final(self).slots() == old(self).slots() && final(pipes).pipes@ == old(pipes).pipes@,
    {
        if fd < FD_MAX {
            proof {
                assert(files.files@[entry as int].pipe matches Some(p) ==> p < pipes.pipes@.len());
            }
            move_ends(&files.files[entry], pipes, true);
            self.entries[fd] = Some(entry);
            proof {
                assert(self.slots() =~= old(self).slots().update(fd as int, Some(entry)));
            }
        }
    }

    /// Descriptors 0, 1 and 2 on the serial console, the others free.
    pub fn new_stdio(files: &mut OpenFiles) -> (r: Self)
        ensures
            final(files).files@.len() == old(files).files@.len() + 3,
            forall|i: int| 0 <= i < old(files).files@.len() ==> #[trigger] final(files).files@[i] == old(files).files@[i],
            forall|k: int| 0 <= k < 3 ==> #[trigger] final(files).files@[old(files).files@.len() + k] == serial_desc(),
            forall|k: int| 0 <= k < 3 ==> #[trigger] r.slots()[k] == Some((old(files).files@.len() + k) as usize),
            forall|k: int| 3 <= k < FD_MAX ==> #[trigger] r.slots()[k] is None,
    {
        files.files.push(OpenFile::stdin());
        files.files.push(OpenFile::stdout());
        files.files.push(OpenFile::stdout());
        let base = files.files.len() - 3;
        let mut t = Self { entries: [None; 16] };
        t.entries[0] = Some(base);
        t.entries[1] = Some(base + 1);
        t.entries[2] = Some(base + 2);
        t
    }
}

/// The first free slot at or after `from`.
pub open spec fn first_free(slots: Seq<Option<usize>>, from: int) -> Option<int> {
    if exists|i: int| from <= i < slots.len() && 0 <= i && slots[i] is None {
        Some(choose|i: int| from <= i < slots.len() && 0 <= i && slots[i] is None
            && forall|j: int| from <= j < i && 0 <= j ==> slots[j] is Some)
    } else {
        None
    }
}

/// The first free slot at or after `from`, and what `first_free` says of it.
fn find_free(entries: &[Option<FdEntry>; 16], from: usize) -> (r: Option<usize>)
    ensures
        match r {
            Some(i) => {
                &&& from <= i < FD_MAX
                &&& entries@[i as int] is None
                &&& forall|j: int| from <= j < i ==> entries@[j] is Some
                &&& first_free(entries@, from as int) == Some(i as int)
            },
            None => first_free(entries@, from as int) is None,
        },
{
    let mut i = from;
    while i < 16
        invariant
            from <= i || i == from,
            forall|j: int| from <= j < i && j < FD_MAX ==> entries@[j] is Some,
        decreases 16 - i,
    {
        if entries[i].is_none() {
            proof {
                let k = choose|k: int| from <= k < entries@.len() && 0 <= k && entries@[k] is None
                    && forall|j: int| from <= j < k && 0 <= j ==> entries@[j] is Some;
                assert(k == i) by {
                    if k < i {
                        assert(entries@[k] is Some);
                    }
                    if k > i {
                        assert(entries@[i as int] is Some);
                    }
                }
            }
            return Some(i);
        }
        i = i + 1;
    }
    None
}

/// A description of the serial console.
pub open spec fn serial_desc() -> OpenFile {
    OpenFile {
        kind: FdKind::Serial,
        readable: true,
        writable: true,
        append: false,
        node: None,
        pipe: None,
        offset: 0,
        dir_entries: None,
    }
}

} // verus!
