//! Read-only files whose contents are fixed when they are opened.

use vstd::prelude::*;
use vstd::string::StringExecFns;
use crate::fs::vfs::{FileType, Stat, read_at, read_count};
use crate::process::{Process, ProcessState};
use crate::text::string_push;
use crate::vma::{VMA, VMAKind, vmas_wf, all_proper};

verus! {

pub struct ProcfsNode {
    data: Vec<u8>,
}

impl ProcfsNode {
    pub closed spec fn contents(&self) -> Seq<u8> {
        self.data@
    }

    pub fn new(data: Vec<u8>) -> (r: Self)
        ensures
            r.contents() == data@,
    {
        Self { data }
    }

    pub fn stat(&self) -> (r: Stat)
        ensures
            r == (Stat { file_type: FileType::Regular, size: self.contents().len() as usize }),
    {
        Stat { file_type: FileType::Regular, size: self.data.len() }
    }

    /// Copies the contents from `offset` into `buf`, as many bytes as fit.
    pub fn read(&self, offset: usize, buf: &mut [u8]) -> (r: Result<usize, &'static str>)
        ensures
            r matches Ok(n) && n == read_count(self.contents().len() as int, offset as int, old(buf)@.len() as int),
            final(buf)@.len() == old(buf)@.len(),
            r matches Ok(n) ==> forall|k: int| 0 <= k < n ==> #[trigger] final(buf)@[k] == self.contents()[offset + k],
            r matches Ok(n) ==> forall|k: int| n <= k < final(buf)@.len() ==> #[trigger] final(buf)@[k] == old(buf)@[k],
    {
        Ok(read_at(self.data.as_slice(), offset, buf))
    }

    /// These files cannot be written.
    pub fn write(&mut self, offset: usize, buf: &[u8]) -> (r: Result<usize, &'static str>)
        ensures
            r matches Err(e) && e@ == "procfs is read-only"@,
            final(self).contents() == old(self).contents(),
    {
        let _ = (offset, buf);
        Err("procfs is read-only")
    }

    pub fn clone_node(&self) -> (r: Self)
        ensures
            r.contents() == self.contents(),
    {
        ProcfsNode { data: self.data.clone() }
    }
}

/// The character of a digit below 16, in lower case.
pub open spec fn hex_char(d: u64) -> char {
    if d < 10 {
        ((d + 48) as u8) as char
    } else {
        ((d + 87) as u8) as char
    }
}

/// `v` as 16 hexadecimal digits, most significant first.
pub open spec fn hex16(v: u64) -> Seq<char> {
    Seq::new(16, |i: int| hex_char((v >> ((60 - 4 * i) as u64)) & 0xf))
}

/// `n` in decimal, without leading zeros.
pub open spec fn dec(n: u64) -> Seq<char>
    decreases n,
{
    if n < 10 {
        seq![hex_char(n)]
    } else {
        dec(n / 10).push(hex_char(n % 10))
    }
}

fn digit_char(d: u64) -> (c: char)
    requires
        d < 16,
    ensures
        c == hex_char(d),
{
    if d < 10 {
        ((d + 48) as u8) as char
    } else {
        ((d + 87) as u8) as char
    }
}

fn push_hex16(s: &mut String, v: u64)
    ensures
        final(s)@ == old(s)@ + hex16(v),
{
    let mut i: u64 = 0;
    while i < 16
        invariant
            i <= 16,
            s@ == old(s)@ + hex16(v).subrange(0, i as int),
        decreases 16 - i,
    {
        let shift = 60 - 4 * i;
        let d = (v >> shift) & 0xf;
        proof {
            assert(d <= 0xf) by (bit_vector)
                requires d == (v >> shift) & 0xf;
        }
        string_push(s, digit_char(d));
        proof {
            assert(hex16(v).subrange(0, i + 1) =~= hex16(v).subrange(0, i as int).push(hex16(v)[i as int]));
        }
        i = i + 1;
    }
    proof {
        assert(hex16(v).subrange(0, 16) =~= hex16(v));
    }
}

fn push_dec(s: &mut String, n: u64)
    ensures
        final(s)@ == old(s)@ + dec(n),
    decreases n,
{
    if n >= 10 {
        push_dec(s, n / 10);
    }
    string_push(s, digit_char(n % 10));
    proof {
        if n >= 10 {
            assert(dec(n) == dec(n / 10).push(hex_char(n % 10)));
        } else {
            assert(n % 10 == n);
        }
    }
}

/// The label of an area of the given kind in the maps file.
pub open spec fn kind_label(k: VMAKind) -> Seq<char> {
    match k {
        VMAKind::Stack => "[stack]"@,
        VMAKind::Heap => "[heap]"@,
        VMAKind::Anonymous => ""@,
    }
}

/// One line of the maps file.
pub open spec fn maps_line(v: VMA) -> Seq<char> {
    hex16(v.start) + seq!['-'] + hex16(v.end) + seq![' ']
        + seq![if v.flags.read { 'r' } else { '-' }]
        + seq![if v.flags.write { 'w' } else { '-' }]
        + seq![if v.flags.execute { 'x' } else { '-' }]
        + "p 00000000 00:00 0          "@ + kind_label(v.kind) + seq!['\n']
}

/// The maps file of the areas `s`, one line per area.
pub open spec fn maps_text(s: Seq<VMA>) -> Seq<char>
    decreases s.len(),
{
    if s.len() == 0 {
        Seq::empty()
    } else {
        maps_text(s.drop_last()) + maps_line(s.last())
    }
}

fn push_maps_line(out: &mut String, vma: VMA)
    ensures
        final(out)@ == old(out)@ + maps_line(vma),
{
    let ghost s0 = out@;
    push_hex16(out, vma.start);
    string_push(out, '-');
    push_hex16(out, vma.end);
    string_push(out, ' ');
    let ghost s1 = out@;
    proof {
        assert(s1 =~= s0 + (hex16(vma.start) + seq!['-'] + hex16(vma.end) + seq![' ']));
    }
    string_push(out, if vma.flags.read { 'r' } else { '-' });
    string_push(out, if vma.flags.write { 'w' } else { '-' });
    string_push(out, if vma.flags.execute { 'x' } else { '-' });
    out.append("p 00000000 00:00 0          ");
    let label = match vma.kind {
        VMAKind::Stack => "[stack]",
        VMAKind::Heap => "[heap]",
        VMAKind::Anonymous => "",
    };
    out.append(label);
    string_push(out, '\n');
    proof {
        assert(out@ =~= s0 + maps_line(vma));
    }
}

/// The areas of the process, one line each in address order: range,
/// rights, and a label for stack and heap.
pub fn format_maps(p: &Process) -> (r: String)
    requires
        vmas_wf(p.address_space.vmas@),
    ensures
        r@ == maps_text(p.address_space.vmas@),
{
    let vmas = &p.address_space.vmas;
    let mut out = String::new();
    let mut i: usize = 0;
    while i < vmas.len()
        invariant
            i <= vmas@.len(),
            out@ == maps_text(vmas@.subrange(0, i as int)),
        decreases vmas@.len() - i,
    {
        let vma = vmas[i];
        push_maps_line(&mut out, vma);
        proof {
            let t = vmas@.subrange(0, i + 1);
            assert(t.drop_last() =~= vmas@.subrange(0, i as int));
            assert(t.last() == vma);
        }
        i = i + 1;
    }
    proof {
        assert(vmas@.subrange(0, vmas@.len() as int) =~= vmas@);
    }
    out
}

/// Total size in KiB of the areas `s`, each rounded down to whole KiB.
pub open spec fn mapped_kb(s: Seq<VMA>) -> int
    decreases s.len(),
{
    if s.len() == 0 {
        0
    } else {
        mapped_kb(s.drop_last()) + (s.last().end - s.last().start) / 1024
    }
}

proof fn lemma_mapped_kb_prefix(s: Seq<VMA>, i: int)
    requires
        all_proper(s),
        0 <= i <= s.len(),
    ensures
        0 <= mapped_kb(s.subrange(0, i)) <= mapped_kb(s),
    decreases s.len() - i,
{
    if i < s.len() {
        lemma_mapped_kb_prefix(s, i + 1);
        let t = s.subrange(0, i + 1);
        assert(t.drop_last() =~= s.subrange(0, i));
        assert(t.last() == s[i]);
        assert(s[i].start <= s[i].end);
        let u = s.subrange(0, i);
        assert(all_proper(u)) by {
            assert forall|k: int| 0 <= k < u.len() implies (#[trigger] u[k]).start <= u[k].end by {
                assert(u[k] == s[k]);
            }
        }
        lemma_mapped_kb_nonneg(u);
    } else {
        assert(s.subrange(0, i) =~= s);
        lemma_mapped_kb_nonneg(s);
    }
}

proof fn lemma_mapped_kb_nonneg(s: Seq<VMA>)
    requires
        all_proper(s),
    ensures
        mapped_kb(s) >= 0,
    decreases s.len(),
{
    if s.len() > 0 {
        assert(all_proper(s.drop_last())) by {
            assert forall|k: int| 0 <= k < s.drop_last().len() implies (#[trigger] s.drop_last()[k]).start <= s.drop_last()[k].end by {
                assert(s.drop_last()[k] == s[k]);
            }
        }
        lemma_mapped_kb_nonneg(s.drop_last());
        assert(s.last().start <= s.last().end);
    }
}

/// The state as the status file shows it.
pub open spec fn state_text(st: ProcessState) -> Seq<char> {
    match st {
        ProcessState::Running | ProcessState::Ready => "R (running)"@,
        ProcessState::Blocked => "S (sleeping)"@,
        ProcessState::Dead => "Z (zombie)"@,
    }
}

/// The status file: name, pid, parent pid, state, threads, mapped size and
/// heap size.
pub open spec fn status_text(p: Process) -> Seq<char> {
    let heap = (if p.brk_current >= p.brk_start { p.brk_current - p.brk_start } else { 0 }) / 1024;
    "Name:\tprocess\nPid:\t"@ + dec(p.pid) + "\nPPid:\t"@ + dec(p.parent_pid) + "\nState:\t"@ + state_text(p.state)
        + "\nThreads:\t1\nVmSize:\t"@ + dec(mapped_kb(p.address_space.vmas@) as u64) + " kB\nVmHeap:\t"@
        + dec(heap as u64) + " kB\n"@
}

/// The number that the decimal digits `s` write, most significant first.
pub open spec fn decimal_value(s: Seq<char>) -> int
    decreases s.len(),
{
    if s.len() == 0 {
        0
    } else {
        decimal_value(s.drop_last()) * 10 + (s.last() as u32 - 48)
    }
}

/// `dec(n)` is the decimal writing of `n`: digits only, none of them a
/// leading zero (but for 0 itself), worth `n`.
pub proof fn law_dec_is_decimal(n: u64)
    ensures
        dec(n).len() > 0,
        forall|i: int| 0 <= i < dec(n).len() ==> '0' <= #[trigger] dec(n)[i] <= '9',
        n > 0 ==> dec(n)[0] != '0',
        decimal_value(dec(n)) == n,
    decreases n,
{
    let d = n % 10;
    assert(((d + 48) as u8) as char as u32 == d + 48);
    if n < 10 {
        assert(dec(n) == seq![hex_char(n)]);
        assert(dec(n).drop_last() =~= Seq::<char>::empty());
        assert(((n + 48) as u8) as char as u32 == n + 48);
        assert(hex_char(n) as u32 == n + 48);
        assert(decimal_value(dec(n)) == decimal_value(Seq::<char>::empty()) * 10 + (hex_char(n) as u32 - 48));
    } else {
        law_dec_is_decimal(n / 10);
        let t = dec(n / 10);
        let c = hex_char(n % 10);
        assert(dec(n) == t.push(c));
        assert(dec(n).drop_last() =~= t);
        assert forall|i: int| 0 <= i < dec(n).len() implies '0' <= #[trigger] dec(n)[i] <= '9' by {
            if i < t.len() {
                assert(dec(n)[i] == t[i]);
            }
        }
        assert(dec(n)[0] == t[0]);
        assert(c as u32 == d + 48);
        assert(decimal_value(dec(n)) == decimal_value(t) * 10 + d);
        assert((n / 10) * 10 + n % 10 == n) by (nonlinear_arith);
    }
}

/// The state line of the status file tells the states apart: a running or
/// ready process shows "R (running)", a blocked one "S (sleeping)", a dead
/// one "Z (zombie)", each right after "State:\t" and followed by the end
/// of the line.
pub proof fn law_status_state_line(p: Process)
    ensures
        ({
            let head = "Name:\tprocess\nPid:\t"@ + dec(p.pid) + "\nPPid:\t"@ + dec(p.parent_pid) + "\nState:\t"@;
            let word = if p.state is Blocked {
                "S (sleeping)"@
            } else if p.state is Dead {
                "Z (zombie)"@
            } else {
                "R (running)"@
            };
            &&& status_text(p).subrange(0, head.len() as int) == head
            &&& status_text(p).subrange(head.len() as int, (head.len() + word.len() + 1) as int) == word.push('\n')
        }),
{
    reveal_strlit("S (sleeping)");
    reveal_strlit("Z (zombie)");
    reveal_strlit("R (running)");
    reveal_strlit("\nThreads:\t1\nVmSize:\t");
    let head = "Name:\tprocess\nPid:\t"@ + dec(p.pid) + "\nPPid:\t"@ + dec(p.parent_pid) + "\nState:\t"@;
    let word = state_text(p.state);
    let heap = (if p.brk_current >= p.brk_start { p.brk_current - p.brk_start } else { 0 }) / 1024;
    let tail = "\nThreads:\t1\nVmSize:\t"@ + dec(mapped_kb(p.address_space.vmas@) as u64) + " kB\nVmHeap:\t"@
        + dec(heap as u64) + " kB\n"@;
    assert(status_text(p) =~= head + word + tail);
    assert(tail[0] == '\n');
    assert((head + word + tail).subrange(0, head.len() as int) =~= head);
    assert((head + word + tail).subrange(head.len() as int, (head.len() + word.len() + 1) as int) =~= word.push('\n'));
}

pub fn format_status(p: &Process) -> (r: String)
    requires
        all_proper(p.address_space.vmas@),
        mapped_kb(p.address_space.vmas@) <= u64::MAX,
    ensures
        r@ == status_text(*p),
{
    let state_str = match p.state {
        ProcessState::Running | ProcessState::Ready => "R (running)",
        ProcessState::Blocked => "S (sleeping)",
        ProcessState::Dead => "Z (zombie)",
    };
    let heap_kb = p.brk_current.saturating_sub(p.brk_start) / 1024;
    let vmas = &p.address_space.vmas;
    let mut mapped: u64 = 0;
    let mut i: usize = 0;
    while i < vmas.len()
        invariant
            i <= vmas@.len(),
            all_proper(vmas@),
            mapped_kb(vmas@) <= u64::MAX,
            mapped == mapped_kb(vmas@.subrange(0, i as int)),
        decreases vmas@.len() - i,
    {
        proof {
            lemma_mapped_kb_prefix(vmas@, i + 1);
            let t = vmas@.subrange(0, i + 1);
            assert(t.drop_last() =~= vmas@.subrange(0, i as int));
            assert(t.last() == vmas@[i as int]);
        }
        let v = vmas[i];
        mapped = mapped + (v.end - v.start) / 1024;
        i = i + 1;
    }
    proof {
        assert(vmas@.subrange(0, vmas@.len() as int) =~= vmas@);
    }
    let mut out = String::new();
    out.append("Name:\tprocess\nPid:\t");
    push_dec(&mut out, p.pid);
    out.append("\nPPid:\t");
    push_dec(&mut out, p.parent_pid);
    out.append("\nState:\t");
    out.append(state_str);
    out.append("\nThreads:\t1\nVmSize:\t");
    push_dec(&mut out, mapped);
    out.append(" kB\nVmHeap:\t");
    push_dec(&mut out, heap_kb);
    out.append(" kB\n");
    proof {
        assert(out@ =~= status_text(*p));
    }
    out
}

} // verus!
