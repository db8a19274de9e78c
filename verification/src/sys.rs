//! The decisions of the system calls that a process makes: what each call
//! computes from the process's state and its arguments, and the bytes it
//! hands back.

use vstd::prelude::*;
use vstd::slice::slice_to_vec;
use vstd::utf8::encode_utf8;
use crate::fd::{FdKind, FileNode, OpenFile, OpenFiles, FD_MAX, ends_moved, first_free, room_for_one, step};
use crate::pipe::{PipeInner, PipeTable};
use crate::fs::ramfs::{Ramfs, written, dir_names, dir_prefix};
use crate::syscall::{resolve_path, resolve_spec};
use crate::text::str_eq;
use crate::fs::vfs::{FileType, read_count};
use crate::process::{Process, Scheduler, WaitStep};
use crate::vma::{VMAFlags, heap_outcome, has_heap, is_heap_pick, lemma_heap_outcome_ends_fit};

verus! {

// ----------------------------------------------------------------------
// brk and mmap
// ----------------------------------------------------------------------

/// Moves the program break of `p` up to `requested`, rounded up to a page,
/// by growing the heap; returns the break, which stays where it was when
/// `requested` is 0 or not above it, or when the heap cannot grow.
pub fn sys_brk(p: &mut Process, requested: u64) -> (r: u64)
    requires
        old(p).wf(),
        requested + 0xfff <= u64::MAX,
    ensures
        final(p).wf(),
        r == final(p).brk_current,
        final(p).brk_start == old(p).brk_start,
        final(p).address_space.page_table == old(p).address_space.page_table,
        final(p).address_space.owner_pid == old(p).address_space.owner_pid,
        requested == 0 || requested <= old(p).brk_current ==> *final(p) == *old(p),
        !(requested == 0 || requested <= old(p).brk_current) ==> {
            let aligned = ((requested + 0xfff) as u64 & !0xfffu64) as u64;
            let out = heap_outcome(old(p).address_space.vmas@, old(p).brk_start, aligned);
            &&& final(p).address_space.vmas@ == out.1
            &&& final(p).brk_current == (if out.0 { aligned } else { old(p).brk_current })
            &&& *final(p) == (Process { address_space: final(p).address_space, brk_current: final(p).brk_current, ..*old(p) })
        },
{
    if requested == 0 || requested <= p.brk_current {
        return p.brk_current;
    }
    let bumped = requested + 0xfff;
    let aligned = bumped & !0xfffu64;
    proof {
        assert(aligned + 4095 <= u64::MAX) by (bit_vector)
            requires
                aligned == bumped & !0xfffu64;
    }
    let ghost s = p.address_space.vmas@;
    let start = p.brk_start;
    match p.address_space.extend_heap(start, aligned) {
        Ok(()) => {
            p.brk_current = aligned;
        },
        Err(_) => {},
    }
    proof {
        if has_heap(s) {
            assert(is_heap_pick(s, choose|k: int| is_heap_pick(s, k)));
        }
        lemma_heap_outcome_ends_fit(s, start, aligned);
    }
    p.brk_current
}

/// Rights that an mmap protection asks for: read 1, write 2, execute 4.
pub open spec fn prot_rights(prot: u32) -> VMAFlags {
    VMAFlags { read: prot & 1 != 0, write: prot & 2 != 0, execute: prot & 4 != 0 }
}

/// How an mmap request is served: with these rights, and at exactly the
/// given address (fixed) or wherever there is room.
pub fn mmap_request(addr: u64, prot: u32, flags: u32) -> (r: (VMAFlags, bool))
    ensures
        r.0 == prot_rights(prot),
        r.1 == (addr != 0 && flags & 0x10 != 0),
{
    let rights = VMAFlags { read: prot & 1 != 0, write: prot & 2 != 0, execute: prot & 4 != 0 };
    (rights, addr != 0 && flags & 0x10 != 0)
}

// ----------------------------------------------------------------------
// stat
// ----------------------------------------------------------------------

/// The fields of `struct stat` that the kernel fills; the others are 0.
#[derive(Clone, Copy, Debug, PartialEq, Eq, Structural)]
pub struct LinuxStat {
    pub st_mode: u32,
    pub st_nlink: u64,
    pub st_size: i64,
    pub st_blksize: i64,
    pub st_blocks: i64,
}

/// A stat record: directories drwxr-xr-x, regular files -rw-r--r--, one
/// link, the size, 4096-byte blocks for I/O and the size in 512-byte
/// blocks.
pub fn fill_stat(file_type: FileType, size: usize) -> (r: LinuxStat)
    requires
        size <= i64::MAX - 511,
    ensures
        r == stat_spec(file_type, size as int),
        r.st_mode == (match file_type {
            FileType::Directory => 0o040755u32,
            FileType::Regular => 0o100644u32,
        }),
        r.st_nlink == 1,
        r.st_size == size,
        r.st_blksize == 4096,
        r.st_blocks == (size + 511) / 512,
{
    let mode: u32 = match file_type {
        FileType::Directory => 0o040000 | 0o755,
        FileType::Regular => 0o100000 | 0o644,
    };
    proof {
        assert(0o040000u32 | 0o755u32 == 0o040755u32) by (bit_vector);
        assert(0o100000u32 | 0o644u32 == 0o100644u32) by (bit_vector);
    }
    LinuxStat { st_mode: mode, st_nlink: 1, st_size: size as i64, st_blksize: 4096, st_blocks: (size as i64 + 511) / 512 }
}

// ----------------------------------------------------------------------
// uname
// ----------------------------------------------------------------------

/// A field of `struct utsname`: the text and zeros up to 65 bytes.
pub open spec fn uts_field(text: Seq<u8>) -> Seq<u8> {
    text + Seq::new((65 - text.len()) as nat, |i: int| 0u8)
}

fn push_field(out: &mut Vec<u8>, text: &[u8])
    requires
        text@.len() <= 64,
    ensures
        final(out)@ == old(out)@ + uts_field(text@),
{
    let mut i: usize = 0;
    while i < text.len()
        invariant
            i <= text@.len(),
            out@ == old(out)@ + text@.subrange(0, i as int),
        decreases text@.len() - i,
    {
        out.push(text[i]);
        i = i + 1;
        proof {
            assert(out@ =~= old(out)@ + text@.subrange(0, i as int));
        }
    }
    let mut k: usize = text.len();
    while k < 65
        invariant
            text@.len() <= k <= 65,
            out@ == old(out)@ + text@ + Seq::new((k - text@.len()) as nat, |j: int| 0u8),
        decreases 65 - k,
    {
        out.push(0u8);
        k = k + 1;
        proof {
            assert(out@ =~= old(out)@ + text@ + Seq::new((k - text@.len()) as nat, |j: int| 0u8));
        }
    }
    proof {
        assert(text@.subrange(0, text@.len() as int) =~= text@);
        assert(out@ =~= old(out)@ + uts_field(text@));
    }
}

/// The bytes of `struct utsname`: system "Linux", node "ferrum", release
/// "6.1.0", version "#1 Ferrum OS", machine "x86_64", and an empty domain,
/// each in a zero-padded field of 65 bytes.
pub fn uname_bytes() -> (r: Vec<u8>)
    ensures
        r@ == uts_field("Linux"@.map_values(|c: char| c as u8)) + uts_field("ferrum"@.map_values(|c: char| c as u8))
            + uts_field("6.1.0"@.map_values(|c: char| c as u8)) + uts_field("#1 Ferrum OS"@.map_values(|c: char| c as u8))
            + uts_field("x86_64"@.map_values(|c: char| c as u8)) + uts_field(Seq::empty()),
{
    let mut out: Vec<u8> = Vec::new();
    proof {
        reveal_strlit("Linux");
        reveal_strlit("ferrum");
        reveal_strlit("6.1.0");
        reveal_strlit("#1 Ferrum OS");
        reveal_strlit("x86_64");
    }
    let a: [u8; 5] = [76, 105, 110, 117, 120];
    let b: [u8; 6] = [102, 101, 114, 114, 117, 109];
    let c: [u8; 5] = [54, 46, 49, 46, 48];
    let d: [u8; 12] = [35, 49, 32, 70, 101, 114, 114, 117, 109, 32, 79, 83];
    let e: [u8; 6] = [120, 56, 54, 95, 54, 52];
    let z: [u8; 0] = [];
    push_field(&mut out, &a);
    push_field(&mut out, &b);
    push_field(&mut out, &c);
    push_field(&mut out, &d);
    push_field(&mut out, &e);
    push_field(&mut out, &z);
    proof {
        assert(a@ =~= "Linux"@.map_values(|c: char| c as u8));
        assert(b@ =~= "ferrum"@.map_values(|c: char| c as u8));
        assert(c@ =~= "6.1.0"@.map_values(|c: char| c as u8));
        assert(d@ =~= "#1 Ferrum OS"@.map_values(|c: char| c as u8));
        assert(e@ =~= "x86_64"@.map_values(|c: char| c as u8));
        assert(z@ =~= Seq::<u8>::empty());
    }
    out
}


// ----------------------------------------------------------------------
// getdents64
// ----------------------------------------------------------------------

/// `v` in `n` bytes, least significant first.
pub open spec fn le_bytes(v: nat, n: nat) -> Seq<u8>
    decreases n,
{
    if n == 0 {
        Seq::empty()
    } else {
        seq![(v % 256) as u8] + le_bytes(v / 256, (n - 1) as nat)
    }
}

fn push_le(out: &mut Vec<u8>, v: u64, n: usize)
    requires
        n <= 8,
    ensures
        final(out)@ == old(out)@ + le_bytes(v as nat, n as nat),
    decreases n,
{
    if n > 0 {
        out.push((v % 256) as u8);
        push_le(out, v / 256, n - 1);
        proof {
            assert(final(out)@ =~= old(out)@ + le_bytes(v as nat, n as nat));
        }
    }
}

/// Length of the record of a name of `n` bytes: 19 bytes of header, the
/// name and its NUL, rounded up to 8.
pub open spec fn dirent_len(n: int) -> int {
    (20 + n + 7) / 8 * 8
}

/// The bytes of the record of entry `i` named `name`: inode and offset
/// `i + 1`, the record length, type 8 (regular file), the name and a NUL.
pub open spec fn dirent(i: int, name: Seq<u8>) -> Seq<u8> {
    le_bytes((i + 1) as nat, 8) + le_bytes((i + 1) as nat, 8) + le_bytes(dirent_len(name.len() as int) as nat, 2)
        + seq![8u8] + name + seq![0u8]
}

/// The records of the entries `names` from `i` on, placed from offset
/// `off` in a buffer of `count` bytes, as long as each fits.
pub open spec fn dirents_from(names: Seq<Seq<u8>>, i: int, off: int, count: int) -> Seq<(int, Seq<u8>)>
    decreases names.len() - i,
{
    if i < 0 || i >= names.len() || off + dirent_len(names[i].len() as int) > count {
        Seq::empty()
    } else {
        seq![(off, dirent(i, names[i]))] + dirents_from(names, i + 1, off + dirent_len(names[i].len() as int), count)
    }
}

/// The bytes of each entry name.
pub open spec fn name_bytes(names: Seq<String>) -> Seq<Seq<u8>> {
    names.map_values(|n: String| encode_utf8(n@))
}

/// The records that getdents64 writes for the directory entries `names`
/// from entry `start` into a buffer of `count` bytes: each at its offset,
/// as many as fit, in order.
pub fn dirent_records(names: &[String], start: usize, count: usize) -> (r: Vec<(usize, Vec<u8>)>)
    requires
        names@.len() < 0x1_0000_0000,
        forall|i: int| 0 <= i < names@.len() ==> (#[trigger] name_bytes(names@)[i]).len() < 0x1_0000,
        count + 0x2_0000 <= usize::MAX,
    ensures
        r@.len() == dirents_from(name_bytes(names@), start as int, 0, count as int).len(),
        forall|k: int| 0 <= k < r@.len() ==> (#[trigger] r@[k]).0 == dirents_from(name_bytes(names@), start as int, 0, count as int)[k].0
            && r@[k].1@ == dirents_from(name_bytes(names@), start as int, 0, count as int)[k].1,
{
    let ghost nb = name_bytes(names@);
    let mut out: Vec<(usize, Vec<u8>)> = Vec::new();
    let mut i = start;
    let mut off: usize = 0;
    proof {
        assert(dirents_from(nb, start as int, 0, count as int) =~= Seq::empty() + dirents_from(nb, start as int, 0, count as int));
    }
    while i < names.len()
        invariant_except_break
            start <= i,
            off <= count,
            nb == name_bytes(names@),
            dirents_from(nb, start as int, 0, count as int) == out@.map_values(|e: (usize, Vec<u8>)| (e.0 as int, e.1@))
                + dirents_from(nb, i as int, off as int, count as int),
        invariant
            names@.len() < 0x1_0000_0000,
            forall|j: int| 0 <= j < names@.len() ==> (#[trigger] nb[j]).len() < 0x1_0000,
            count + 0x2_0000 <= usize::MAX,
        ensures
            dirents_from(nb, start as int, 0, count as int) == out@.map_values(|e: (usize, Vec<u8>)| (e.0 as int, e.1@)),
        decreases names@.len() - i,
    {
        let bytes = names[i].as_str().as_bytes();
        proof {
            assert(nb[i as int] == bytes@);
        }
        let reclen = (20 + bytes.len() + 7) / 8 * 8;
        if off + reclen > count {
            proof {
                assert(dirents_from(nb, i as int, off as int, count as int) =~= Seq::empty());
                assert(out@.map_values(|e: (usize, Vec<u8>)| (e.0 as int, e.1@)) + Seq::<(int, Seq<u8>)>::empty()
                    =~= out@.map_values(|e: (usize, Vec<u8>)| (e.0 as int, e.1@)));
            }
            break;
        }
        let mut rec: Vec<u8> = Vec::new();
        push_le(&mut rec, (i + 1) as u64, 8);
        push_le(&mut rec, (i + 1) as u64, 8);
        push_le(&mut rec, reclen as u64, 2);
        rec.push(8u8);
        let ghost r0 = rec@;
        let mut k: usize = 0;
        while k < bytes.len()
            invariant
                k <= bytes@.len(),
                rec@ == r0 + bytes@.subrange(0, k as int),
            decreases bytes@.len() - k,
        {
            rec.push(bytes[k]);
            k = k + 1;
            proof {
                assert(rec@ =~= r0 + bytes@.subrange(0, k as int));
            }
        }
        rec.push(0u8);
        proof {
            assert(bytes@.subrange(0, bytes@.len() as int) =~= bytes@);
            assert(rec@ =~= dirent(i as int, nb[i as int]));
        }
        let ghost before = out@;
        out.push((off, rec));
        proof {
            let f = |e: (usize, Vec<u8>)| (e.0 as int, e.1@);
            assert(out@.map_values(f) =~= before.map_values(f).push((off as int, dirent(i as int, nb[i as int]))));
            assert(dirents_from(nb, i as int, off as int, count as int)
                =~= seq![(off as int, dirent(i as int, nb[i as int]))] + dirents_from(nb, i + 1, off + reclen, count as int));
        }
        off = off + reclen;
        i = i + 1;
    }
    proof {
        if i >= names.len() {
        }
    }
    out
}


// ----------------------------------------------------------------------
// lseek and getcwd
// ----------------------------------------------------------------------

/// Size of the file that a description reads: its node's size, or 0.
pub fn desc_size(desc: &OpenFile, fs: &Ramfs) -> (r: usize)
    requires
        fs.wf(),
        desc.node matches Some(FileNode::Ram(h)) ==> fs.handle_ok(h),
    ensures
        r == match desc.node {
            Some(FileNode::Ram(h)) => fs.node_data()[h.node()].len() as usize,
            Some(FileNode::Proc(n)) => n.contents().len() as usize,
            None => 0usize,
        },
{
    match &desc.node {
        Some(FileNode::Ram(h)) => fs.stat(*h).size,
        Some(FileNode::Proc(n)) => n.stat().size,
        None => 0,
    }
}

/// Moves the offset of `desc`: to `offset` (whence 0), by `offset`
/// (whence 1) or to `size + offset` (whence 2); -22 for another whence or
/// a negative result, which leave the offset alone.
pub fn sys_lseek(desc: &mut OpenFile, size: usize, offset: i64, whence: i32) -> (r: i64)
    requires
        whence == 1 ==> old(desc).offset <= i64::MAX && i64::MIN <= old(desc).offset + offset <= i64::MAX,
        whence == 2 ==> size <= i64::MAX && i64::MIN <= size + offset <= i64::MAX,
    ensures
        match seek_target(old(desc).offset as int, size as int, offset as int, whence as int) {
            Some(t) => r == t && *final(desc) == (OpenFile { offset: t as usize, ..*old(desc) }),
            None => r == -22 && *final(desc) == *old(desc),
        },
{
    let target: i64 = if whence == 0 {
        offset
    } else if whence == 1 {
        desc.offset as i64 + offset
    } else if whence == 2 {
        size as i64 + offset
    } else {
        return -22;
    };
    if target < 0 {
        return -22;
    }
    desc.offset = target as usize;
    target
}

/// The offset that lseek moves to: `offset` from the start (whence 0),
/// from the current offset `cur` (1) or from the end `size` (2); none for
/// another whence or a negative result.
pub open spec fn seek_target(cur: int, size: int, offset: int, whence: int) -> Option<int> {
    let t = if whence == 0 { offset } else if whence == 1 { cur + offset } else { size + offset };
    if 0 <= whence <= 2 && t >= 0 { Some(t) } else { None }
}

/// What getcwd hands back for the directory `cwd` into a buffer of `size`
/// bytes: its bytes and a NUL, or -34 (range) when they do not fit.
pub fn getcwd_bytes(cwd: &str, size: usize) -> (r: Result<Vec<u8>, i64>)
    ensures
        match r {
            Ok(v) => encode_utf8(cwd@).len() + 1 <= size && v@ == encode_utf8(cwd@).push(0u8),
            Err(e) => encode_utf8(cwd@).len() + 1 > size && e == -34,
        },
{
    let bytes = cwd.as_bytes();
    if size < bytes.len() || size - bytes.len() < 1 {
        return Err(-34);
    }
    let mut v = slice_to_vec(bytes);
    v.push(0u8);
    Ok(v)
}


// ----------------------------------------------------------------------
// read and write
// ----------------------------------------------------------------------

/// What a read or write on a descriptor comes to: done with a result, or
/// a transfer through the serial console that the caller performs.
#[derive(Clone, Copy, Debug, PartialEq, Eq, Structural)]
pub enum FdIo {
    Done(i64),
    Console,
}

/// The descriptions name valid nodes of `fs`, and a file description has
/// a node.
pub open spec fn descs_ok(files: Seq<OpenFile>, fs: Ramfs) -> bool {
    forall|i: int| 0 <= i < files.len() ==> {
        &&& ((#[trigger] files[i]).node matches Some(FileNode::Ram(h)) ==> fs.handle_ok(h))
        &&& (files[i].kind == FdKind::File ==> files[i].node is Some)
    }
}

/// The bytes that a file description reads: its node's contents.
pub open spec fn desc_data(f: OpenFile, fs: Ramfs) -> Seq<u8> {
    match f.node {
        Some(FileNode::Ram(h)) => fs.node_data()[h.node()],
        Some(FileNode::Proc(n)) => n.contents(),
        None => Seq::empty(),
    }
}

/// The description that descriptor `fd` of the current process names.
pub open spec fn current_desc(sched: Scheduler, fd: usize) -> Option<int> {
    let s = sched.procs();
    let cur = sched.current_index();
    if sched.started() && s[cur] is Some && fd < FD_MAX && s[cur]->0.fd_table.slots()[fd as int] is Some {
        Some(s[cur]->0.fd_table.slots()[fd as int]->0 as int)
    } else {
        None
    }
}

fn lookup_desc(sched: &Scheduler, fd: usize) -> (r: Result<usize, i64>)
    requires
        sched.wf(),
    ensures
        match current_desc(*sched, fd) {
            Some(e) => r == Ok::<usize, i64>(e as usize),
            None => {
                let s = sched.procs();
                let cur = sched.current_index();
                r == Err::<usize, i64>(if sched.started() && s[cur] is Some { -9i64 } else { -1i64 })
            },
        },
{
    if !sched.is_started() {
        return Err(-1);
    }
    match sched.current() {
        Some(p) => {
            proof {
                p.fd_table.lemma_len();
            }
            match p.fd_table.get(fd) {
                Some(e) => Ok(e),
                None => Err(-9),
            }
        },
        None => Err(-1),
    }
}

/// Reads from descriptor `fd` of the current process into `buf`: nothing
/// for an empty buffer; -1 without a current process, -9 for a free
/// descriptor or one not open for reading, -21 for a directory; the
/// console for the serial line; the node's bytes from the description's
/// offset (which moves past them) for a file; nothing for /dev/null and
/// zeros for /dev/zero.
pub fn sys_read(sched: &Scheduler, files: &mut OpenFiles, fs: &Ramfs, fd: usize, buf: &mut [u8]) -> (r: FdIo)
    requires
        sched.wf(),
        fs.wf(),
        descs_ok(old(files).files@, *fs),
        current_desc(*sched, fd) matches Some(e) ==> 0 <= e < old(files).files@.len()
            && old(files).files@[e].offset + old(buf)@.len() <= usize::MAX,
    ensures
        final(buf)@.len() == old(buf)@.len(),
        final(files).files@.len() == old(files).files@.len(),
        ({
            let f0 = old(files).files@;
            if old(buf)@.len() == 0 {
                r == FdIo::Done(0) && final(files).files@ == f0 && final(buf)@ == old(buf)@
            } else {
                match current_desc(*sched, fd) {
                    None => {
                        let s = sched.procs();
                        let cur = sched.current_index();
                        &&& r == FdIo::Done(if sched.started() && s[cur] is Some { -9i64 } else { -1i64 })
                        &&& final(files).files@ == f0 && final(buf)@ == old(buf)@
                    },
                    Some(e) => {
                        let f = f0[e];
                        if f.kind == FdKind::Directory {
                            r == FdIo::Done(-21i64) && final(files).files@ == f0 && final(buf)@ == old(buf)@
                        } else if !f.readable {
                            r == FdIo::Done(-9i64) && final(files).files@ == f0 && final(buf)@ == old(buf)@
                        } else {
                            match f.kind {
                                FdKind::Serial => r == FdIo::Console && final(files).files@ == f0 && final(buf)@ == old(buf)@,
                                FdKind::File => {
                                    let d = desc_data(f, *fs);
                                    let n = read_count(d.len() as int, f.offset as int, old(buf)@.len() as int);
                                    &&& r == FdIo::Done(n as i64)
                                    &&& forall|k: int| 0 <= k < n ==> #[trigger] final(buf)@[k] == d[f.offset + k]
                                    &&& forall|k: int| n <= k < old(buf)@.len() ==> #[trigger] final(buf)@[k] == old(buf)@[k]
                                    &&& final(files).files@ == f0.update(e, OpenFile { offset: (f.offset + n) as usize, ..f })
                                },
                                FdKind::DevZero => {
                                    &&& r == FdIo::Done(old(buf)@.len() as i64)
                                    &&& forall|k: int| 0 <= k < old(buf)@.len() ==> #[trigger] final(buf)@[k] == 0u8
                                    &&& final(files).files@ == f0
                                },
                                FdKind::DevNull => r == FdIo::Done(0) && final(files).files@ == f0 && final(buf)@ == old(buf)@,
                                _ => r == FdIo::Done(-9i64) && final(files).files@ == f0 && final(buf)@ == old(buf)@,
                            }
                        }
                    },
                }
            }
        }),
{
    if buf.len() == 0 {
        return FdIo::Done(0);
    }
    let e = match lookup_desc(sched, fd) {
        Ok(e) => e,
        Err(code) => return FdIo::Done(code),
    };
    let kind = files.files[e].kind;
    if kind == FdKind::Directory {
        return FdIo::Done(-21);
    }
    if !files.files[e].readable {
        return FdIo::Done(-9);
    }
    match kind {
        FdKind::Serial => FdIo::Console,
        FdKind::File => {
            let offset = files.files[e].offset;
            let n = match &files.files[e].node {
                Some(FileNode::Ram(h)) => {
                    let h2 = *h;
                    match fs.read(h2, offset, buf) {
                        Ok(n) => n,
                        Err(_) => return FdIo::Done(-5),
                    }
                },
                Some(FileNode::Proc(node)) => {
                    match node.read(offset, buf) {
                        Ok(n) => n,
                        Err(_) => return FdIo::Done(-5),
                    }
                },
                None => return FdIo::Done(-5),
            };
            proof {
                assert(n <= old(buf)@.len());
            }
            let mut f = files.files.remove(e);
            f.offset = offset + n;
            files.files.insert(e, f);
            proof {
                assert(files.files@ =~= old(files).files@.update(e as int, f));
            }
            FdIo::Done(n as i64)
        },
        FdKind::DevZero => {
            let mut k: usize = 0;
            while k < buf.len()
                invariant
                    k <= buf@.len(),
                    buf@.len() == old(buf)@.len(),
                    forall|j: int| 0 <= j < k ==> #[trigger] buf@[j] == 0u8,
                decreases buf@.len() - k,
            {
                buf[k] = 0;
                k = k + 1;
            }
            FdIo::Done(buf.len() as i64)
        },
        FdKind::DevNull => FdIo::Done(0),
        _ => FdIo::Done(-9),
    }
}


/// The offset at which a write through `f` lands: the end of the node's
/// data for a description opened to append, its own offset otherwise.
pub open spec fn write_offset(f: OpenFile, fs: Ramfs) -> int {
    if f.append { desc_data(f, fs).len() as int } else { f.offset as int }
}

/// Writes `buf` to descriptor `fd` of the current process: nothing for an
/// empty buffer; -1 without a current process, -9 for a free descriptor
/// or one not open for writing; the console for the serial line; for a
/// file of the ramfs, the bytes at its offset (at its end when appending)
/// with the description's offset moved past them; -5 for a procfs file;
/// -21 for a directory; the whole length for /dev/null and /dev/zero.
pub fn sys_write(sched: &Scheduler, files: &mut OpenFiles, fs: &mut Ramfs, fd: usize, buf: &[u8]) -> (r: FdIo)
    requires
        sched.wf(),
        old(fs).wf(),
        descs_ok(old(files).files@, *old(fs)),
        current_desc(*sched, fd) matches Some(e) ==> 0 <= e < old(files).files@.len()
            && old(files).files@[e].offset + buf@.len() <= usize::MAX
            && desc_data(old(files).files@[e], *old(fs)).len() + buf@.len() <= usize::MAX,
    ensures
        final(fs).wf(),
        final(files).files@.len() == old(files).files@.len(),
        ({
            let f0 = old(files).files@;
            let unchanged = final(files).files@ == f0 && *final(fs) == *old(fs);
            if buf@.len() == 0 {
                r == FdIo::Done(0) && unchanged
            } else {
                match current_desc(*sched, fd) {
                    None => {
                        let s = sched.procs();
                        let cur = sched.current_index();
                        r == FdIo::Done(if sched.started() && s[cur] is Some { -9i64 } else { -1i64 }) && unchanged
                    },
                    Some(e) => {
                        let f = f0[e];
                        if !f.writable {
                            r == FdIo::Done(-9i64) && unchanged
                        } else {
                            match f.kind {
                                FdKind::Serial => r == FdIo::Console && unchanged,
                                FdKind::File => match f.node {
                                    Some(FileNode::Ram(h)) => {
                                        &&& r == FdIo::Done(buf@.len() as i64)
                                        &&& final(files).files@ == f0.update(e, OpenFile { offset: (f.offset + buf@.len()) as usize, ..f })
                                        &&& final(fs).paths() == old(fs).paths()
                                        &&& final(fs).links() == old(fs).links()
                                        &&& final(fs).node_types() == old(fs).node_types()
                                        &&& final(fs).node_data() == old(fs).node_data().update(h.node(),
                                            written(old(fs).node_data()[h.node()], write_offset(f, *old(fs)), buf@))
                                    },
                                    _ => r == FdIo::Done(-5i64) && unchanged,
                                },
                                FdKind::Directory => r == FdIo::Done(-21i64) && unchanged,
                                FdKind::DevNull => r == FdIo::Done(buf@.len() as i64) && unchanged,
                                FdKind::DevZero => r == FdIo::Done(buf@.len() as i64) && unchanged,
                                FdKind::Pipe => r == FdIo::Done(-9i64) && unchanged,
                            }
                        }
                    },
                }
            }
        }),
{
    if buf.len() == 0 {
        return FdIo::Done(0);
    }
    let e = match lookup_desc(sched, fd) {
        Ok(e) => e,
        Err(code) => return FdIo::Done(code),
    };
    if !files.files[e].writable {
        return FdIo::Done(-9);
    }
    match files.files[e].kind {
        FdKind::Serial => FdIo::Console,
        FdKind::File => {
            let h = match &files.files[e].node {
                Some(FileNode::Ram(h)) => *h,
                _ => return FdIo::Done(-5),
            };
            let offset = if files.files[e].append {
                fs.stat(h).size
            } else {
                files.files[e].offset
            };
            let n = match fs.write(h, offset, buf) {
                Ok(n) => n,
                Err(_) => return FdIo::Done(-5),
            };
            let mut f = files.files.remove(e);
            f.offset = f.offset + n;
            files.files.insert(e, f);
            proof {
                assert(files.files@ =~= old(files).files@.update(e as int, f));
            }
            FdIo::Done(n as i64)
        },
        FdKind::Directory => FdIo::Done(-21),
        FdKind::DevNull => FdIo::Done(buf.len() as i64),
        FdKind::DevZero => FdIo::Done(buf.len() as i64),
        FdKind::Pipe => FdIo::Done(-9),
    }
}


// ----------------------------------------------------------------------
// descriptors: close, dup, dup2, fcntl
// ----------------------------------------------------------------------

/// The current process, once some process has been picked and its slot
/// holds one.
pub open spec fn current_proc(sched: Scheduler) -> Option<Process> {
    if sched.started() && sched.procs()[sched.current_index()] is Some {
        sched.procs()[sched.current_index()]
    } else {
        None
    }
}

/// `b` is `a` with the current process `p` given the descriptor slots
/// `slots` and nothing else changed.
pub open spec fn with_slots(a: Scheduler, b: Scheduler, p: Process, slots: Seq<Option<usize>>) -> bool {
    let cur = a.current_index();
    let p1 = b.procs()[cur]->0;
    &&& b.procs() == a.procs().update(cur, Some(p1))
    &&& p1 == (Process { fd_table: p1.fd_table, ..p })
    &&& p1.fd_table.slots() == slots
}

/// The scheduler's position is as it was.
pub open spec fn same_place(a: Scheduler, b: Scheduler) -> bool {
    &&& b.wf()
    &&& b.idle() == a.idle()
    &&& b.current_index() == a.current_index()
    &&& b.started() == a.started()
}

/// The descriptors of the current process name existing descriptions,
/// each pipe of which exists.
pub open spec fn current_ok(sched: Scheduler, files: OpenFiles, pipes: PipeTable) -> bool {
    &&& files.pipes_ok(&pipes)
    &&& current_proc(sched) matches Some(p) ==> p.fd_table.entries_ok(&files)
}

/// The description in slot `fd` of `p`.
pub open spec fn slot_of(p: Process, fd: usize) -> Option<usize> {
    if fd < FD_MAX { p.fd_table.slots()[fd as int] } else { None }
}

/// Closes descriptor `fd` of the current process: 0, or -9 when it is not
/// open, -1 without a current process. A pipe end it held has one
/// descriptor less.
pub fn sys_close(sched: &mut Scheduler, files: &OpenFiles, pipes: &mut PipeTable, fd: usize) -> (r: i64)
    requires
        old(sched).wf(),
        current_ok(*old(sched), *files, *old(pipes)),
    ensures
        same_place(*old(sched), *final(sched)),
        match current_proc(*old(sched)) {
            None => r == -1 && final(sched).procs() == old(sched).procs() && final(pipes).pipes@ == old(pipes).pipes@,
            Some(p) => match slot_of(p, fd) {
                Some(e) => {
                    &&& r == 0
                    &&& with_slots(*old(sched), *final(sched), p, p.fd_table.slots().update(fd as int, None))
                    &&& ends_moved(old(pipes).pipes@, final(pipes).pipes@, files.files@[e as int], false)
                },
                None => r == -9 && final(sched).procs() == old(sched).procs() && final(pipes).pipes@ == old(pipes).pipes@,
            },
        },
{
    if let Err(code) = lookup_desc(sched, fd) {
        return code;
    }
    match sched.current_mut() {
        Some(p) => {
            proof {
                p.fd_table.lemma_len();
            }
            p.fd_table.close(fd, files, pipes);
            0
        },
        None => -1,
    }
}

/// Gives the description of descriptor `oldfd` of the current process a
/// second descriptor, the lowest free one: that descriptor, or -24 when
/// none is free, -9 when `oldfd` is not open, -1 without a current
/// process. A pipe end it holds has one descriptor more.
pub fn sys_dup(sched: &mut Scheduler, files: &OpenFiles, pipes: &mut PipeTable, oldfd: usize) -> (r: i64)
    requires
        old(sched).wf(),
        current_ok(*old(sched), *files, *old(pipes)),
        match current_proc(*old(sched)) {
            Some(p) => slot_of(p, oldfd) matches Some(e) ==> room_for_one(old(pipes), files.files@[e as int]),
            None => true,
        },
    ensures
        same_place(*old(sched), *final(sched)),
        match current_proc(*old(sched)) {
            None => r == -1 && final(sched).procs() == old(sched).procs() && final(pipes).pipes@ == old(pipes).pipes@,
            Some(p) => match slot_of(p, oldfd) {
                Some(e) => match first_free(p.fd_table.slots(), 0) {
                    Some(i) => {
                        &&& r == i
                        &&& with_slots(*old(sched), *final(sched), p, p.fd_table.slots().update(i, Some(e)))
                        &&& ends_moved(old(pipes).pipes@, final(pipes).pipes@, files.files@[e as int], true)
                    },
                    None => r == -24 && with_slots(*old(sched), *final(sched), p, p.fd_table.slots()) && final(pipes).pipes@ == old(pipes).pipes@,
                },
                None => r == -9 && final(sched).procs() == old(sched).procs() && final(pipes).pipes@ == old(pipes).pipes@,
            },
        },
{
    let e = match lookup_desc(sched, oldfd) {
        Ok(e) => e,
        Err(code) => return code,
    };
    match sched.current_mut() {
        Some(p) => {
            proof {
                p.fd_table.lemma_len();
            }
            match p.fd_table.alloc_entry(e, files, pipes) {
                Some(fd) => {
                    proof {
                        assert(fd < 16);
                    }
                    fd as i64
                },
                None => -24,
            }
        },
        None => -1,
    }
}

/// The pipe table after the description in a slot (if any) lost that
/// slot and the description `f` took it.
pub open spec fn replaced_ends(t0: Seq<PipeInner>, t2: Seq<PipeInner>, gone: Option<OpenFile>, f: OpenFile) -> bool {
    match gone {
        Some(g) => exists|t1: Seq<PipeInner>| ends_moved(t0, t1, g, false) && #[trigger] ends_moved(t1, t2, f, true),
        None => ends_moved(t0, t2, f, true),
    }
}

/// Makes descriptor `newfd` of the current process name the description
/// of `oldfd`, closing what `newfd` named: `newfd`; -9 when `newfd` is out
/// of range or `oldfd` is not open, -1 without a current process; nothing
/// changes when the two are the same.
pub fn sys_dup2(sched: &mut Scheduler, files: &OpenFiles, pipes: &mut PipeTable, oldfd: usize, newfd: usize) -> (r: i64)
    requires
        old(sched).wf(),
        current_ok(*old(sched), *files, *old(pipes)),
        forall|q: int| 0 <= q < old(pipes).pipes@.len() ==> (#[trigger] old(pipes).pipes@[q]).write_ends < usize::MAX
            && old(pipes).pipes@[q].read_ends < usize::MAX,
    ensures
        same_place(*old(sched), *final(sched)),
        ({
            let unchanged = final(sched).procs() == old(sched).procs() && final(pipes).pipes@ == old(pipes).pipes@;
            if newfd >= FD_MAX {
                r == -9 && unchanged
            } else {
                match current_proc(*old(sched)) {
                    None => r == -1 && unchanged,
                    Some(p) => match slot_of(p, oldfd) {
                        None => r == -9 && unchanged,
                        Some(e) => if oldfd == newfd {
                            r == newfd && unchanged
                        } else {
                            let gone = match slot_of(p, newfd) {
                                Some(g) => Some(files.files@[g as int]),
                                None => None,
                            };
                            &&& r == newfd
                            &&& with_slots(*old(sched), *final(sched), p, p.fd_table.slots().update(newfd as int, Some(e)))
                            &&& replaced_ends(old(pipes).pipes@, final(pipes).pipes@, gone, files.files@[e as int])
                        },
                    },
                }
            }
        }),
{
    if newfd >= FD_MAX {
        return -9;
    }
    let e = match lookup_desc(sched, oldfd) {
        Ok(e) => e,
        Err(code) => return code,
    };
    if oldfd == newfd {
        return newfd as i64;
    }
    match sched.current_mut() {
        Some(p) => {
            proof {
                p.fd_table.lemma_len();
            }
            let ghost t0 = pipes.pipes@;
            let ghost s0 = p.fd_table.slots();
            let closed = p.fd_table.close(newfd, files, pipes);
            let ghost t1 = pipes.pipes@;
            let n_pipes = pipes.pipes.len();
            proof {
                assert forall|q: int| 0 <= q < t1.len() implies (#[trigger] t1[q]).write_ends <= t0[q].write_ends
                    && t1[q].read_ends <= t0[q].read_ends by {
                    if closed {
                        let g = files.files@[s0[newfd as int]->0 as int];
                        assert(ends_moved(t0, t1, g, false));
                        match g.pipe {
                            Some(pp) => {
                                if pp as int != q {
                                    assert(g.pipe != Some(q as usize));
                                    assert(t1[q] == t0[q]);
                                }
                            },
                            None => {
                                assert(t1[q] == t0[q]);
                            },
                        }
                    } else {
                        assert(t1 == t0);
                    }
                }
            }
            p.fd_table.put(newfd, e, files, pipes);
            proof {
                assert(p.fd_table.slots() =~= s0.update(newfd as int, Some(e)));
                if s0[newfd as int] is Some {
                    assert(ends_moved(t0, t1, files.files@[s0[newfd as int]->0 as int], false));
                    assert(ends_moved(t1, pipes.pipes@, files.files@[e as int], true));
                }
            }
            newfd as i64
        },
        None => -1,
    }
}

/// fcntl on descriptor `fd` of the current process: F_DUPFD (0) and
/// F_DUPFD_CLOEXEC (1030) give its description the lowest free descriptor
/// at or above `arg` (-24 when none, -9 when `fd` is not open, -1 without
/// a current process); every other command does nothing and returns 0.
pub fn sys_fcntl(sched: &mut Scheduler, fd: usize, cmd: u64, arg: usize) -> (r: i64)
    requires
        old(sched).wf(),
    ensures
        same_place(*old(sched), *final(sched)),
        !(cmd == 0 || cmd == 1030) ==> r == 0 && final(sched).procs() == old(sched).procs(),
        (cmd == 0 || cmd == 1030) ==> match current_proc(*old(sched)) {
            None => r == -1 && final(sched).procs() == old(sched).procs(),
            Some(p) => match slot_of(p, fd) {
                Some(e) => match first_free(p.fd_table.slots(), arg as int) {
                    Some(i) => r == i && with_slots(*old(sched), *final(sched), p, p.fd_table.slots().update(i, Some(e))),
                    None => r == -24 && with_slots(*old(sched), *final(sched), p, p.fd_table.slots()),
                },
                None => r == -9 && final(sched).procs() == old(sched).procs(),
            },
        },
{
    if !(cmd == 0 || cmd == 1030) {
        return 0;
    }
    let e = match lookup_desc(sched, fd) {
        Ok(e) => e,
        Err(code) => return code,
    };
    match sched.current_mut() {
        Some(p) => {
            proof {
                p.fd_table.lemma_len();
            }
            match p.fd_table.alloc_from(e, arg) {
                Some(n) => {
                    proof {
                        assert(n < 16);
                    }
                    n as i64
                },
                None => -24,
            }
        },
        None => -1,
    }
}


// ----------------------------------------------------------------------
// paths: stat, access, chdir, mkdir, rename, unlink
// ----------------------------------------------------------------------

/// The stat record that `fill_stat` gives for `t` and `size`.
pub open spec fn stat_spec(t: FileType, size: int) -> LinuxStat {
    LinuxStat {
        st_mode: match t {
            FileType::Directory => 0o040755u32,
            FileType::Regular => 0o100644u32,
        },
        st_nlink: 1,
        st_size: size as i64,
        st_blksize: 4096,
        st_blocks: ((size + 511) / 512) as i64,
    }
}

/// `path` is a directory: the root, or a directory with entries.
pub open spec fn is_dir_path(fs: Ramfs, path: Seq<char>) -> bool {
    path == seq!['/'] || dir_names(fs.paths(), dir_prefix(path)).len() > 0
}

/// Something is at `path`: a directory, or an entry.
pub open spec fn path_exists(fs: Ramfs, path: Seq<char>) -> bool {
    is_dir_path(fs, path) || fs.find_spec(path) is Some
}

/// The size of every file of `fs` leaves room for its block count.
pub open spec fn sizes_ok(fs: Ramfs) -> bool {
    forall|i: int| 0 <= i < fs.node_data().len() ==> (#[trigger] fs.node_data()[i]).len() <= i64::MAX - 511
        && fs.node_data()[i].len() <= usize::MAX
}

fn is_dir(fs: &Ramfs, path: &str) -> (r: bool)
    requires
        fs.wf(),
    ensures
        r == is_dir_path(*fs, path@),
{
    proof {
        reveal_strlit("/");
        assert("/"@ =~= seq!['/']);
    }
    if str_eq(path, "/") {
        return true;
    }
    let names = fs.list_dir(path);
    proof {
        assert(names@.map_values(|n: String| n@).len() == names@.len());
    }
    names.len() > 0
}

/// The stat record of the absolute `path`: a directory for the root or a
/// directory with entries, else the kind and size of the file there; -2
/// when nothing is there.
pub fn stat_path(fs: &Ramfs, path: &str) -> (r: Result<LinuxStat, i64>)
    requires
        fs.wf(),
        sizes_ok(*fs),
    ensures
        if is_dir_path(*fs, path@) {
            r == Ok::<LinuxStat, i64>(stat_spec(FileType::Directory, 0))
        } else {
            match fs.lookup(path@) {
                Some((t, d)) => r == Ok::<LinuxStat, i64>(stat_spec(t, d.len() as int)),
                None => r == Err::<LinuxStat, i64>(-2i64),
            }
        },
{
    if is_dir(fs, path) {
        return Ok(fill_stat(FileType::Directory, 0));
    }
    match fs.open(path) {
        Some(h) => {
            let st = fs.stat(h);
            proof {
                assert(fs.node_data()[h.node()].len() <= i64::MAX - 511);
                assert(fs.lookup(path@) == Some((st.file_type, fs.node_data()[h.node()])));
            }
            Ok(fill_stat(st.file_type, st.size))
        },
        None => Err(-2),
    }
}

/// The stat record of descriptor `fd` of the current process: a directory
/// listing is a directory of size 0, a file has its node's kind and size,
/// anything else is a regular file of size 0; -9 for a free descriptor,
/// -1 without a current process.
pub fn sys_fstat(sched: &Scheduler, files: &OpenFiles, fs: &Ramfs, fd: usize) -> (r: Result<LinuxStat, i64>)
    requires
        sched.wf(),
        fs.wf(),
        sizes_ok(*fs),
        descs_ok(files.files@, *fs),
        current_desc(*sched, fd) matches Some(e) ==> 0 <= e < files.files@.len()
            && desc_data(files.files@[e], *fs).len() <= i64::MAX - 511
            && desc_data(files.files@[e], *fs).len() <= usize::MAX,
    ensures
        match current_desc(*sched, fd) {
            None => {
                let s = sched.procs();
                let cur = sched.current_index();
                r == Err::<LinuxStat, i64>(if sched.started() && s[cur] is Some { -9i64 } else { -1i64 })
            },
            Some(e) => {
                let f = files.files@[e];
                r == Ok::<LinuxStat, i64>(match f.kind {
                    FdKind::Directory => stat_spec(FileType::Directory, 0),
                    FdKind::File => match f.node {
                        Some(FileNode::Ram(h)) => stat_spec(fs.node_types()[h.node()], desc_data(f, *fs).len() as int),
                        _ => stat_spec(FileType::Regular, desc_data(f, *fs).len() as int),
                    },
                    _ => stat_spec(FileType::Regular, 0),
                })
            },
        },
{
    let e = match lookup_desc(sched, fd) {
        Ok(e) => e,
        Err(code) => return Err(code),
    };
    let desc = &files.files[e];
    match desc.kind {
        FdKind::Directory => Ok(fill_stat(FileType::Directory, 0)),
        FdKind::File => match &desc.node {
            Some(FileNode::Ram(h)) => {
                let st = fs.stat(*h);
                Ok(fill_stat(st.file_type, st.size))
            },
            Some(FileNode::Proc(n)) => {
                let st = n.stat();
                Ok(fill_stat(st.file_type, st.size))
            },
            None => Ok(fill_stat(FileType::Regular, 0)),
        },
        _ => Ok(fill_stat(FileType::Regular, 0)),
    }
}

/// access: 0 when an entry is at the absolute `path`, else -2.
pub fn sys_access(fs: &Ramfs, path: &str) -> (r: i64)
    requires
        fs.wf(),
    ensures
        r == (if fs.find_spec(path@) is Some { 0i64 } else { -2i64 }),
{
    if fs.open(path).is_some() {
        0
    } else {
        -2
    }
}

/// faccessat: 0 when something is at the absolute `path`, directories
/// included, else -2.
pub fn sys_faccessat(fs: &Ramfs, path: &str) -> (r: i64)
    requires
        fs.wf(),
    ensures
        r == (if path_exists(*fs, path@) { 0i64 } else { -2i64 }),
{
    if is_dir(fs, path) || fs.open(path).is_some() {
        0
    } else {
        -2
    }
}

/// mkdir: -17 when something is at the absolute `path` already, else an
/// empty directory is added there and the result is 0.
pub fn sys_mkdir(fs: &mut Ramfs, path: &str) -> (r: i64)
    requires
        old(fs).wf(),
    ensures
        final(fs).wf(),
        path_exists(*old(fs), path@) ==> r == -17 && *final(fs) == *old(fs),
        !path_exists(*old(fs), path@) ==> {
            &&& r == 0
            &&& final(fs).paths() == old(fs).paths().push(path@)
            &&& final(fs).links() == old(fs).links().push(old(fs).node_data().len() as int)
            &&& final(fs).node_types() == old(fs).node_types().push(FileType::Directory)
            &&& final(fs).node_data() == old(fs).node_data().push(Seq::<u8>::empty())
        },
{
    if is_dir(fs, path) || fs.open(path).is_some() {
        return -17;
    }
    match fs.mkdir(path) {
        Ok(()) => 0,
        Err(_) => -1,
    }
}

/// rename: the first entry at `old_path` takes the path `new_path`: 0, or
/// -2 when there is none.
pub fn sys_rename(fs: &mut Ramfs, old_path: &str, new_path: &str) -> (r: i64)
    requires
        old(fs).wf(),
    ensures
        final(fs).wf(),
        final(fs).links() == old(fs).links(),
        final(fs).node_types() == old(fs).node_types(),
        final(fs).node_data() == old(fs).node_data(),
        match old(fs).find_spec(old_path@) {
            Some(i) => r == 0 && final(fs).paths() == old(fs).paths().update(i, new_path@),
            None => r == -2 && final(fs).paths() == old(fs).paths(),
        },
{
    match fs.rename(old_path, new_path) {
        Ok(()) => 0,
        Err(_) => -2,
    }
}

/// unlink: the first entry at `path` goes: 0, or -2 when there is none.
pub fn sys_unlink(fs: &mut Ramfs, path: &str) -> (r: i64)
    requires
        old(fs).wf(),
    ensures
        final(fs).wf(),
        final(fs).node_types() == old(fs).node_types(),
        final(fs).node_data() == old(fs).node_data(),
        match old(fs).find_spec(path@) {
            Some(i) => r == 0 && final(fs).paths() == old(fs).paths().remove(i) && final(fs).links() == old(fs).links().remove(i),
            None => r == -2 && final(fs).paths() == old(fs).paths() && final(fs).links() == old(fs).links(),
        },
{
    match fs.unlink(path) {
        Ok(()) => 0,
        Err(_) => -2,
    }
}

/// chdir: the current process moves to the directory that `raw_path`
/// names from its own: 0, or -2 when nothing is there, -1 without a
/// current process.
pub fn sys_chdir(sched: &mut Scheduler, fs: &Ramfs, raw_path: &str) -> (r: i64)
    requires
        old(sched).wf(),
        fs.wf(),
    ensures
        same_place(*old(sched), *final(sched)),
        match current_proc(*old(sched)) {
            None => r == -1 && final(sched).procs() == old(sched).procs(),
            Some(p) => {
                let target = resolve_spec(p.cwd@, raw_path@);
                if path_exists(*fs, target) {
                    let cur = old(sched).current_index();
                    let p1 = final(sched).procs()[cur]->0;
                    &&& r == 0
                    &&& final(sched).procs() == old(sched).procs().update(cur, Some(p1))
                    &&& p1 == (Process { cwd: p1.cwd, ..p })
                    &&& p1.cwd@ == target
                } else {
                    r == -2 && final(sched).procs() == old(sched).procs()
                }
            },
        },
{
    if !sched.is_started() {
        return -1;
    }
    let target = match sched.current() {
        Some(p) => resolve_path(p.cwd.as_str(), raw_path),
        None => return -1,
    };
    if !(is_dir(fs, target.as_str()) || fs.open(target.as_str()).is_some()) {
        return -2;
    }
    match sched.current_mut() {
        Some(p) => {
            p.cwd = target;
            0
        },
        None => -1,
    }
}

// ----------------------------------------------------------------------
// pread64, ioctl, arch_prctl
// ----------------------------------------------------------------------

/// pread64: reads the file of descriptor `fd` of the current process from
/// `offset` into `buf`, leaving the description's offset alone: the
/// number of bytes read; -9 for a free descriptor or one without a file,
/// -1 without a current process.
pub fn sys_pread(sched: &Scheduler, files: &OpenFiles, fs: &Ramfs, fd: usize, buf: &mut [u8], offset: usize) -> (r: i64)
    requires
        sched.wf(),
        fs.wf(),
        descs_ok(files.files@, *fs),
        current_desc(*sched, fd) matches Some(e) ==> 0 <= e < files.files@.len(),
    ensures
        final(buf)@.len() == old(buf)@.len(),
        match current_desc(*sched, fd) {
            None => {
                let s = sched.procs();
                let cur = sched.current_index();
                r == (if sched.started() && s[cur] is Some { -9i64 } else { -1i64 }) && final(buf)@ == old(buf)@
            },
            Some(e) => {
                let f = files.files@[e];
                if f.node is None {
                    r == -9 && final(buf)@ == old(buf)@
                } else {
                    let d = desc_data(f, *fs);
                    let n = read_count(d.len() as int, offset as int, old(buf)@.len() as int);
                    &&& r == n as i64
                    &&& forall|k: int| 0 <= k < n ==> #[trigger] final(buf)@[k] == d[offset + k]
                    &&& forall|k: int| n <= k < old(buf)@.len() ==> #[trigger] final(buf)@[k] == old(buf)@[k]
                }
            },
        },
{
    let e = match lookup_desc(sched, fd) {
        Ok(e) => e,
        Err(code) => return code,
    };
    let n = match &files.files[e].node {
        Some(FileNode::Ram(h)) => match fs.read(*h, offset, buf) {
            Ok(n) => n,
            Err(_) => return -5,
        },
        Some(FileNode::Proc(node)) => match node.read(offset, buf) {
            Ok(n) => n,
            Err(_) => return -5,
        },
        None => return -9,
    };
    proof {
        assert(n <= old(buf)@.len());
    }
    n as i64
}

/// The terminal size that TIOCGWINSZ reports: 24 rows, 80 columns, no
/// pixel sizes, as four little-endian 16-bit fields.
pub open spec fn winsize_bytes() -> Seq<u8> {
    seq![24u8, 0, 80, 0, 0, 0, 0, 0]
}

/// ioctl on descriptor `fd` of the current process: for TIOCGWINSZ
/// (0x5413) on the serial console, the bytes of the terminal size to hand
/// to the caller; -25 (not a terminal) for any other request or
/// descriptor; -9 for a free descriptor, -1 without a current process.
pub fn sys_ioctl(sched: &Scheduler, files: &OpenFiles, fd: usize, request: u64) -> (r: Result<Vec<u8>, i64>)
    requires
        sched.wf(),
        current_desc(*sched, fd) matches Some(e) ==> 0 <= e < files.files@.len(),
    ensures
        match current_desc(*sched, fd) {
            None => {
                let s = sched.procs();
                let cur = sched.current_index();
                r == Err::<Vec<u8>, i64>(if sched.started() && s[cur] is Some { -9i64 } else { -1i64 })
            },
            Some(e) => if request == 0x5413 && files.files@[e].kind == FdKind::Serial {
                r matches Ok(v) && v@ == winsize_bytes()
            } else {
                r == Err::<Vec<u8>, i64>(-25i64)
            },
        },
{
    let e = match lookup_desc(sched, fd) {
        Ok(e) => e,
        Err(code) => return Err(code),
    };
    if request == 0x5413 && files.files[e].kind == FdKind::Serial {
        let mut v: Vec<u8> = Vec::new();
        push_le(&mut v, 24, 2);
        push_le(&mut v, 80, 2);
        push_le(&mut v, 0, 2);
        push_le(&mut v, 0, 2);
        proof {
            reveal_with_fuel(le_bytes, 3);
            assert(v@ =~= winsize_bytes());
        }
        return Ok(v);
    }
    Err(-25)
}

/// arch_prctl: ARCH_SET_FS (0x1002) gives the current process the FS
/// base `value` and ARCH_GET_FS (0x1003) asks for it, both answered 0;
/// -22 for another code, -1 without a current process.
pub fn sys_arch_prctl(sched: &mut Scheduler, code: u64, value: u64) -> (r: i64)
    requires
        old(sched).wf(),
    ensures
        same_place(*old(sched), *final(sched)),
        match current_proc(*old(sched)) {
            None => r == -1 && final(sched).procs() == old(sched).procs(),
            Some(p) => if code == 0x1002 {
                let cur = old(sched).current_index();
                r == 0 && final(sched).procs() == old(sched).procs().update(cur, Some(Process { fs_base: value, ..p }))
            } else {
                r == (if code == 0x1003 { 0i64 } else { -22i64 }) && final(sched).procs() == old(sched).procs()
            },
        },
{
    if !sched.is_started() || sched.current().is_none() {
        return -1;
    }
    if code == 0x1003 {
        return 0;
    }
    if code != 0x1002 {
        return -22;
    }
    match sched.current_mut() {
        Some(p) => {
            p.fs_base = value;
            0
        },
        None => -1,
    }
}


// ----------------------------------------------------------------------
// writev
// ----------------------------------------------------------------------

/// The bytes of each buffer.
pub open spec fn buf_views(bufs: Seq<Vec<u8>>) -> Seq<Seq<u8>> {
    bufs.map_values(|b: Vec<u8>| b@)
}

/// Total length of the buffers `bufs`.
pub open spec fn total_len(bufs: Seq<Seq<u8>>) -> int
    decreases bufs.len(),
{
    if bufs.len() == 0 { 0 } else { total_len(bufs.drop_last()) + bufs.last().len() }
}

/// Some buffer of `bufs` is not empty.
pub open spec fn any_nonempty(bufs: Seq<Seq<u8>>) -> bool {
    exists|i: int| 0 <= i < bufs.len() && #[trigger] bufs[i].len() > 0
}

/// The file bytes and the description offset after the non-empty buffers
/// of `bufs`, one after another, were written to a file holding `data`
/// through a description at offset `off`: each at the offset, which moves
/// past it, or, when appending, at the end, the offset staying.
pub open spec fn writev_file(data: Seq<u8>, off: int, append: bool, bufs: Seq<Seq<u8>>) -> (Seq<u8>, int)
    decreases bufs.len(),
{
    if bufs.len() == 0 {
        (data, off)
    } else {
        let prev = writev_file(data, off, append, bufs.drop_last());
        let b = bufs.last();
        if b.len() == 0 {
            prev
        } else if append {
            (written(prev.0, prev.0.len() as int, b), prev.1)
        } else {
            (written(prev.0, prev.1, b), prev.1 + b.len())
        }
    }
}

proof fn lemma_total_step(bufs: Seq<Seq<u8>>, i: int)
    requires
        0 <= i < bufs.len(),
    ensures
        bufs.subrange(0, i + 1).drop_last() == bufs.subrange(0, i),
        bufs.subrange(0, i + 1).last() == bufs[i],
        total_len(bufs.subrange(0, i + 1)) == total_len(bufs.subrange(0, i)) + bufs[i].len(),
        0 <= total_len(bufs.subrange(0, i)),
{
    assert(bufs.subrange(0, i + 1).drop_last() =~= bufs.subrange(0, i));
    lemma_total_nonneg(bufs.subrange(0, i));
}

proof fn lemma_total_nonneg(bufs: Seq<Seq<u8>>)
    ensures
        0 <= total_len(bufs),
    decreases bufs.len(),
{
    if bufs.len() > 0 {
        lemma_total_nonneg(bufs.drop_last());
    }
}

proof fn lemma_total_prefix(bufs: Seq<Seq<u8>>, i: int)
    requires
        0 <= i <= bufs.len(),
    ensures
        total_len(bufs.subrange(0, i)) <= total_len(bufs),
    decreases bufs.len() - i,
{
    if i < bufs.len() {
        lemma_total_step(bufs, i);
        lemma_total_prefix(bufs, i + 1);
    } else {
        assert(bufs.subrange(0, i) =~= bufs);
    }
}

proof fn lemma_writev_bounds(data: Seq<u8>, off: int, append: bool, bufs: Seq<Seq<u8>>)
    requires
        0 <= off,
    ensures
        writev_file(data, off, append, bufs).0.len() <= (if data.len() > off { data.len() as int } else { off }) + total_len(bufs),
        writev_file(data, off, append, bufs).1 <= off + total_len(bufs),
        writev_file(data, off, append, bufs).1 >= off,
    decreases bufs.len(),
{
    if bufs.len() > 0 {
        lemma_writev_bounds(data, off, append, bufs.drop_last());
        lemma_total_nonneg(bufs.drop_last());
    }
}

/// Total length of the buffers.
fn total_of(bufs: &[Vec<u8>]) -> (r: usize)
    requires
        total_len(buf_views(bufs@)) <= usize::MAX,
    ensures
        r == total_len(buf_views(bufs@)),
{
    let ghost v = buf_views(bufs@);
    let mut t: usize = 0;
    let mut i: usize = 0;
    while i < bufs.len()
        invariant
            i <= bufs@.len(),
            v == buf_views(bufs@),
            v.len() == bufs@.len(),
            total_len(v) <= usize::MAX,
            t == total_len(v.subrange(0, i as int)),
        decreases bufs@.len() - i,
    {
        proof {
            lemma_total_step(v, i as int);
            lemma_total_prefix(v, i + 1);
            assert(v[i as int] == bufs@[i as int]@);
        }
        t = t + bufs[i].len();
        i = i + 1;
    }
    proof {
        assert(v.subrange(0, i as int) =~= v);
    }
    t
}

/// Whether some buffer is not empty.
fn has_nonempty(bufs: &[Vec<u8>]) -> (r: bool)
    ensures
        r == any_nonempty(buf_views(bufs@)),
{
    let ghost v = buf_views(bufs@);
    let mut i: usize = 0;
    while i < bufs.len()
        invariant
            i <= bufs@.len(),
            v == buf_views(bufs@),
            v.len() == bufs@.len(),
            forall|j: int| 0 <= j < i ==> #[trigger] v[j].len() == 0,
        decreases bufs@.len() - i,
    {
        proof {
            assert(v[i as int] == bufs@[i as int]@);
        }
        if bufs[i].len() > 0 {
            return true;
        }
        i = i + 1;
    }
    false
}

/// writev: writes the buffers `bufs` one after another to descriptor `fd`
/// of the current process, skipping empty ones: -1 without a current
/// process, -9 for a free descriptor or one not open for writing; the
/// console for the serial line; for a file of the ramfs, each buffer at
/// the offset (at the end when appending, where the offset stays), and the
/// total written; -5 for a procfs file and -21 for a directory once a
/// buffer is not empty; the total length for /dev/null and /dev/zero.
pub fn sys_writev(sched: &Scheduler, files: &mut OpenFiles, fs: &mut Ramfs, fd: usize, bufs: &[Vec<u8>]) -> (r: FdIo)
    requires
        sched.wf(),
        old(fs).wf(),
        descs_ok(old(files).files@, *old(fs)),
        total_len(buf_views(bufs@)) <= i64::MAX,
        current_desc(*sched, fd) matches Some(e) ==> 0 <= e < old(files).files@.len()
            && old(files).files@[e].offset + total_len(buf_views(bufs@)) <= usize::MAX
            && desc_data(old(files).files@[e], *old(fs)).len() + total_len(buf_views(bufs@)) <= usize::MAX,
    ensures
        final(fs).wf(),
        final(files).files@.len() == old(files).files@.len(),
        ({
            let f0 = old(files).files@;
            let v = buf_views(bufs@);
            let total = total_len(v);
            let unchanged = final(files).files@ == f0 && *final(fs) == *old(fs);
            match current_desc(*sched, fd) {
                None => {
                    let s = sched.procs();
                    let cur = sched.current_index();
                    r == FdIo::Done(if sched.started() && s[cur] is Some { -9i64 } else { -1i64 }) && unchanged
                },
                Some(e) => {
                    let f = f0[e];
                    if !f.writable {
                        r == FdIo::Done(-9i64) && unchanged
                    } else {
                        match f.kind {
                            FdKind::Serial => r == FdIo::Console && unchanged,
                            FdKind::File => match f.node {
                                Some(FileNode::Ram(h)) => {
                                    let out = writev_file(old(fs).node_data()[h.node()], f.offset as int, f.append, v);
                                    &&& r == FdIo::Done(total as i64)
                                    &&& final(files).files@ == f0.update(e, OpenFile { offset: out.1 as usize, ..f })
                                    &&& final(fs).paths() == old(fs).paths()
                                    &&& final(fs).links() == old(fs).links()
                                    &&& final(fs).node_types() == old(fs).node_types()
                                    &&& final(fs).node_data() == old(fs).node_data().update(h.node(), out.0)
                                },
                                _ => r == FdIo::Done(if any_nonempty(v) { -5i64 } else { 0i64 }) && unchanged,
                            },
                            FdKind::Directory => r == FdIo::Done(if any_nonempty(v) { -21i64 } else { 0i64 }) && unchanged,
                            FdKind::DevNull => r == FdIo::Done(total as i64) && unchanged,
                            FdKind::DevZero => r == FdIo::Done(total as i64) && unchanged,
                            FdKind::Pipe => r == FdIo::Done(if any_nonempty(v) { -9i64 } else { 0i64 }) && unchanged,
                        }
                    }
                },
            }
        }),
{
    let e = match lookup_desc(sched, fd) {
        Ok(e) => e,
        Err(code) => return FdIo::Done(code),
    };
    if !files.files[e].writable {
        return FdIo::Done(-9);
    }
    let ghost v = buf_views(bufs@);
    let kind = files.files[e].kind;
    match kind {
        FdKind::Serial => return FdIo::Console,
        FdKind::DevNull | FdKind::DevZero => {
            let t = total_of(bufs);
            return FdIo::Done(t as i64);
        },
        FdKind::Directory => {
            return FdIo::Done(if has_nonempty(bufs) { -21 } else { 0 });
        },
        FdKind::Pipe => {
            return FdIo::Done(if has_nonempty(bufs) { -9 } else { 0 });
        },
        FdKind::File => {},
    }
    let h = match &files.files[e].node {
        Some(FileNode::Ram(h)) => *h,
        _ => return FdIo::Done(if has_nonempty(bufs) { -5 } else { 0 }),
    };
    let append = files.files[e].append;
    let ghost f = files.files@[e as int];
    let ghost d0 = fs.node_data()[h.node()];
    let ghost o0 = f.offset as int;
    let mut offset = files.files[e].offset;
    let mut total: usize = 0;
    let mut i: usize = 0;
    proof {
        lemma_total_prefix(v, 0);
        assert(v.subrange(0, 0) =~= Seq::<Seq<u8>>::empty());
    }
    while i < bufs.len()
        invariant
            i <= bufs@.len(),
            v == buf_views(bufs@),
            v.len() == bufs@.len(),
            fs.wf(),
            old(fs).wf(),
            fs.handle_ok(h),
            old(fs).handle_ok(h),
            d0 == old(fs).node_data()[h.node()],
            o0 + total_len(v) <= usize::MAX,
            d0.len() + total_len(v) <= usize::MAX,
            total_len(v) <= i64::MAX,
            fs.paths() == old(fs).paths(),
            fs.links() == old(fs).links(),
            fs.node_types() == old(fs).node_types(),
            fs.node_data() == old(fs).node_data().update(h.node(), writev_file(d0, o0, append, v.subrange(0, i as int)).0),
            offset == writev_file(d0, o0, append, v.subrange(0, i as int)).1,
            total == total_len(v.subrange(0, i as int)),
            0 <= o0,
        decreases bufs@.len() - i,
    {
        proof {
            lemma_total_step(v, i as int);
            lemma_total_prefix(v, i + 1);
            lemma_writev_bounds(d0, o0, append, v.subrange(0, i as int));
            assert(v[i as int] == bufs@[i as int]@);
            assert(v.subrange(0, i + 1).drop_last() == v.subrange(0, i as int));
        }
        let b = &bufs[i];
        if b.len() > 0 {
            let at = if append { fs.stat(h).size } else { offset };
            fs.write(h, at, b.as_slice());
            if !append {
                offset = offset + b.len();
            }
        }
        total = total + b.len();
        i = i + 1;
        proof {
            assert(fs.node_data() =~= old(fs).node_data().update(h.node(), writev_file(d0, o0, append, v.subrange(0, i as int)).0));
        }
    }
    proof {
        assert(v.subrange(0, i as int) =~= v);
    }
    let mut fdesc = files.files.remove(e);
    fdesc.offset = offset;
    files.files.insert(e, fdesc);
    proof {
        assert(files.files@ =~= old(files).files@.update(e as int, fdesc));
    }
    FdIo::Done(total as i64)
}


// ----------------------------------------------------------------------
// time, randomness, futex, wait4
// ----------------------------------------------------------------------

/// Seconds since boot for `ticks` of the 100 Hz timer.
pub fn time_secs(ticks: u64) -> (r: u64)
    ensures
        r == ticks / 100,
{
    ticks / 100
}

/// The `struct timespec` for `ticks` of the 100 Hz timer: whole seconds
/// and the nanoseconds of the rest, at a resolution of 10 ms.
pub fn timespec_from_ticks(ticks: u64) -> (r: (i64, i64))
    requires
        ticks * 10 <= u64::MAX,
    ensures
        r.0 == ticks * 10 / 1000,
        r.1 == ticks * 10 % 1000 * 1_000_000,
{
    let ms = ticks * 10;
    let sec = ms / 1000;
    let rest = ms % 1000;
    proof {
        assert(sec <= i64::MAX) by (nonlinear_arith)
            requires
                sec == ms / 1000,
                ms <= u64::MAX;
    }
    ((sec as i64), (rest * 1_000_000) as i64)
}

/// The resolution of the clock: 10 ms.
pub fn clock_resolution() -> (r: (i64, i64))
    ensures
        r == (0i64, 10_000_000i64),
{
    (0, 10_000_000)
}

/// Byte `k` (least significant first) of `v`.
pub open spec fn byte_of(v: u64, k: int) -> u8 {
    ((v as int / pow256(k)) % 256) as u8
}

/// 256 to the power `k`.
pub open spec fn pow256(k: int) -> int
    decreases k,
{
    if k <= 0 { 1 } else { 256 * pow256(k - 1) }
}

/// The bytes that getrandom hands out for the seed `seed`: byte `i` is
/// seed byte `i mod 8`, plus `i`, times 0x6d, all modulo 256.
pub open spec fn random_byte(seed: u64, i: int) -> u8 {
    (((byte_of(seed, i % 8) as int + i % 256) % 256) * 0x6d % 256) as u8
}

/// `len` bytes for getrandom from the seed `seed`.
pub fn random_bytes(seed: u64, len: usize) -> (r: Vec<u8>)
    ensures
        r@.len() == len,
        forall|i: int| 0 <= i < len ==> #[trigger] r@[i] == random_byte(seed, i),
{
    let mut bytes: [u8; 8] = [0u8; 8];
    let mut v = seed;
    let mut k: usize = 0;
    while k < 8
        invariant
            k <= 8,
            v as int == seed as int / pow256(k as int),
            forall|j: int| 0 <= j < k ==> #[trigger] bytes@[j] == byte_of(seed, j),
        decreases 8 - k,
    {
        proof {
            reveal_with_fuel(pow256, 2);
            assert(pow256(k as int) > 0) by {
                lemma_pow256_pos(k as int);
            }
            lemma_div_div(seed as int, pow256(k as int), 256);
        }
        bytes[k] = (v % 256) as u8;
        v = v / 256;
        k = k + 1;
    }
    let mut out: Vec<u8> = Vec::new();
    let mut i: usize = 0;
    while i < len
        invariant
            i <= len,
            out@.len() == i,
            forall|j: int| 0 <= j < 8 ==> #[trigger] bytes@[j] == byte_of(seed, j),
            forall|j: int| 0 <= j < i ==> #[trigger] out@[j] == random_byte(seed, j),
        decreases len - i,
    {
        let b = bytes[i % 8];
        let x = b.wrapping_add((i % 256) as u8).wrapping_mul(0x6d);
        proof {
            assert(b == byte_of(seed, (i % 8) as int));
        }
        out.push(x);
        i = i + 1;
    }
    out
}

proof fn lemma_pow256_pos(k: int)
    ensures
        pow256(k) > 0,
    decreases k,
{
    if k > 0 {
        lemma_pow256_pos(k - 1);
    }
}

proof fn lemma_div_div(a: int, b: int, c: int)
    requires
        a >= 0,
        b > 0,
        c > 0,
    ensures
        a / b / c == a / (c * b),
{
    vstd::arithmetic::div_mod::lemma_div_denominator(a, b, c);
    vstd::arithmetic::mul::lemma_mul_is_commutative(b, c);
}

/// What a futex call comes to.
#[derive(Clone, Copy, Debug, PartialEq, Eq, Structural)]
pub enum FutexStep {
    /// FUTEX_WAIT: give the processor up once, then answer -11 (try again).
    YieldThenAgain,
    /// Answered at once with this value.
    Answer(i64),
}

/// The futex operation in the low seven bits of `op`: wait (0) yields once,
/// wake (1) is answered 0, any other -38 (not implemented).
pub fn futex_step(op: u64) -> (r: FutexStep)
    ensures
        r == (if (op as u32) & 0x7f == 0 {
            FutexStep::YieldThenAgain
        } else if (op as u32) & 0x7f == 1 {
            FutexStep::Answer(0)
        } else {
            FutexStep::Answer(-38i64)
        }),
{
    let code = (op as u32) & 0x7f;
    if code == 0 {
        FutexStep::YieldThenAgain
    } else if code == 1 {
        FutexStep::Answer(0)
    } else {
        FutexStep::Answer(-38)
    }
}

/// How wait4 goes on after one round.
#[derive(Clone, Copy, Debug, PartialEq, Eq, Structural)]
pub enum WaitReply {
    /// Return `ret`, after storing `status` where the caller asked for it.
    Done { ret: i64, status: Option<i32> },
    /// Give the processor up and look again.
    Block,
}

/// The answer of wait4 after the round `step` with the options `options`:
/// the pid and status of a reaped child, -10 when no child is waited for,
/// 0 at once with WNOHANG (bit 0), else block.
pub fn wait4_reply(step: WaitStep, options: u64) -> (r: WaitReply)
    ensures
        r == (match step {
            WaitStep::Reaped { pid, status } => WaitReply::Done { ret: pid as i64, status: Some(status) },
            WaitStep::NoChild => WaitReply::Done { ret: -10i64, status: None },
            WaitStep::NotYet => if options & 1 != 0 { WaitReply::Done { ret: 0i64, status: None } } else { WaitReply::Block },
        }),
{
    match step {
        WaitStep::Reaped { pid, status } => WaitReply::Done { ret: pid as i64, status: Some(status) },
        WaitStep::NoChild => WaitReply::Done { ret: -10, status: None },
        WaitStep::NotYet => if options & 1 != 0 { WaitReply::Done { ret: 0, status: None } } else { WaitReply::Block },
    }
}

} // verus!
