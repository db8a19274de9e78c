//! ELF64 executables: checking the file header and loading the loadable
//! segments into an address space.

use vstd::prelude::*;
use crate::vma::{VMAFlags, VMA, VMAKind, AddressSpace, add_vma_spec, add_conflict, vmas_wf, ends_fit, lemma_add_ends_fit_any,
    all_proper, covers, covers_as, holds_as, page_bits, law_add_vma_covers, law_add_vma_keeps_attributes, lemma_no_conflict_uncovered};
use crate::allocator::{BuddyAllocator, align_up, align_down, align_up_spec, align_down_spec, in_block};
use crate::paging::{PhysMemory, PageAllocator, PageTable, translate_spec, leaf_flags, is_tree, tree_ok, no_huge_low, huge_on_path};
use crate::page_owner::{PageOwner, PageOwners, track};

verus! {

/// Size of the ELF64 file header.
pub const EHDR_SIZE: usize = 64;

/// Size of an ELF64 program header.
pub const PHDR_SIZE: usize = 56;

/// The little-endian number in the `n` bytes of `s` from `off`.
pub open spec fn le(s: Seq<u8>, off: int, n: nat) -> int
    decreases n,
{
    if n == 0 {
        0
    } else {
        le(s, off, (n - 1) as nat) + s[off + n - 1] * pow256((n - 1) as nat)
    }
}

pub open spec fn pow256(n: nat) -> int
    decreases n,
{
    if n == 0 {
        1
    } else {
        256 * pow256((n - 1) as nat)
    }
}

pub proof fn lemma_le_bound(s: Seq<u8>, off: int, n: nat)
    ensures
        0 <= le(s, off, n) < pow256(n),
    decreases n,
{
    if n > 0 {
        lemma_le_bound(s, off, (n - 1) as nat);
        let p = pow256((n - 1) as nat);
        let b = s[off + n - 1] as int;
        assert(le(s, off, (n - 1) as nat) + b * p < 256 * p) by (nonlinear_arith)
            requires 0 <= le(s, off, (n - 1) as nat) < p, 0 <= b < 256;
        assert(b * p >= 0) by (nonlinear_arith)
            requires 0 <= b, 0 <= p;
    }
}

/// Reads the little-endian number in the `n` bytes of `data` from `off`.
fn read_le(data: &[u8], off: usize, n: usize) -> (r: u64)
    requires
        n <= 8,
        off + n <= data@.len(),
    ensures
        r == le(data@, off as int, n as nat),
{
    proof {
        reveal_with_fuel(pow256, 9);
    }
    let mut v: u64 = 0;
    let mut k: usize = n;
    while k > 0
        invariant
            k <= n <= 8,
            off + n <= data.len(),
            pow256(8) == 0x1_0000_0000_0000_0000,
            v as int * pow256(k as nat) + le(data@, off as int, k as nat) == le(data@, off as int, n as nat),
            v < pow256((n - k) as nat),
        decreases k,
    {
        let b = data[off + k - 1];
        proof {
            lemma_le_bound(data@, off as int, (k - 1) as nat);
            lemma_pow256_mono((n - k + 1) as nat, 8);
            let p = pow256((k - 1) as nat);
            assert(v as int * 256 + b < pow256((n - k + 1) as nat)) by (nonlinear_arith)
                requires v < pow256((n - k) as nat), b < 256, pow256((n - k + 1) as nat) == 256 * pow256((n - k) as nat);
            assert((v as int * 256 + b) * p + le(data@, off as int, (k - 1) as nat) == v as int * pow256(k as nat) + le(data@, off as int, k as nat)) by (nonlinear_arith)
                requires pow256(k as nat) == 256 * p, le(data@, off as int, k as nat) == le(data@, off as int, (k - 1) as nat) + b * p;
        }
        v = v * 256 + b as u64;
        k = k - 1;
    }
    proof {
        assert(pow256(0) == 1);
        assert(le(data@, off as int, 0) == 0);
        assert(v as int * 1 == v);
    }
    v
}

proof fn lemma_pow256_mono(i: nat, j: nat)
    requires
        i <= j,
    ensures
        1 <= pow256(i) <= pow256(j),
    decreases j,
{
    if j > 0 {
        if i < j {
            lemma_pow256_mono(i, (j - 1) as nat);
        } else {
            lemma_pow256_mono((j - 1) as nat, (j - 1) as nat);
        }
    }
}

/// Why the bytes `d` are not a loadable ELF64 file for x86-64, checked in
/// this order; `None` when they are.
pub open spec fn ehdr_error(d: Seq<u8>) -> Option<&'static str> {
    if d.len() < 64 {
        Some("ELF: data too small for header")
    } else if d.subrange(0, 4) != seq![0x7fu8, 0x45u8, 0x4cu8, 0x46u8] {
        Some("ELF: bad magic")
    } else if d[4] != 2 {
        Some("ELF: not ELF64")
    } else if d[5] != 1 {
        Some("ELF: not little-endian")
    } else if le(d, 16, 2) != 2 {
        Some("ELF: not ET_EXEC")
    } else if le(d, 18, 2) != 62 {
        Some("ELF: not x86-64")
    } else if le(d, 54, 2) < 56 {
        Some("ELF: e_phentsize too small")
    } else if le(d, 56, 2) * le(d, 54, 2) > usize::MAX {
        Some("ELF: phdr size overflow")
    } else if (le(d, 32, 8) as usize) + le(d, 56, 2) * le(d, 54, 2) > usize::MAX {
        Some("ELF: phdr offset overflow")
    } else if (le(d, 32, 8) as usize) + le(d, 56, 2) * le(d, 54, 2) > d.len() {
        Some("ELF: program header table out of bounds")
    } else {
        None
    }
}

/// A checked ELF64 executable and the header fields that loading reads.
pub struct ElfLoader<'a> {
    pub data: &'a [u8],
    pub entry: u64,
    pub phoff: usize,
    pub phnum: usize,
    pub phentsize: usize,
}

impl<'a> ElfLoader<'a> {
    /// Checks the file header of `data`: magic, 64-bit class, little
    /// endian, executable type, x86-64, and a program header table that
    /// lies inside the data.
    pub fn new(data: &'a [u8]) -> (r: Result<Self, &'static str>)
        ensures
            match ehdr_error(data@) {
                Some(msg) => r matches Err(e) && e@ == msg@,
                None => r matches Ok(l) && {
                    &&& l.data@ == data@
                    &&& l.entry == le(data@, 24, 8)
                    &&& l.phoff == le(data@, 32, 8) as usize
                    &&& l.phnum == le(data@, 56, 2)
                    &&& l.phentsize == le(data@, 54, 2)
                    &&& l.phoff + l.phnum * l.phentsize <= data@.len()
                },
            },
    {
        if data.len() < EHDR_SIZE {
            return Err("ELF: data too small for header");
        }
        if data[0] != 0x7f || data[1] != 0x45 || data[2] != 0x4c || data[3] != 0x46 {
            proof {
                assert(data@.subrange(0, 4) != seq![0x7fu8, 0x45u8, 0x4cu8, 0x46u8]) by {
                    if data@.subrange(0, 4) == seq![0x7fu8, 0x45u8, 0x4cu8, 0x46u8] {
                        assert(data@.subrange(0, 4)[0] == data@[0]);
                        assert(data@.subrange(0, 4)[1] == data@[1]);
                        assert(data@.subrange(0, 4)[2] == data@[2]);
                        assert(data@.subrange(0, 4)[3] == data@[3]);
                    }
                }
            }
            return Err("ELF: bad magic");
        }
        proof {
            assert(data@.subrange(0, 4) =~= seq![0x7fu8, 0x45u8, 0x4cu8, 0x46u8]);
        }
        if data[4] != 2 {
            return Err("ELF: not ELF64");
        }
        if data[5] != 1 {
            return Err("ELF: not little-endian");
        }
        if read_le(data, 16, 2) != 2 {
            return Err("ELF: not ET_EXEC");
        }
        if read_le(data, 18, 2) != 62 {
            return Err("ELF: not x86-64");
        }
        let phoff = read_le(data, 32, 8) as usize;
        let phnum = read_le(data, 56, 2) as usize;
        let phentsz = read_le(data, 54, 2) as usize;
        proof {
            lemma_le_bound(data@, 56, 2);
            lemma_le_bound(data@, 54, 2);
            reveal_with_fuel(pow256, 3);
        }
        if phentsz < PHDR_SIZE {
            return Err("ELF: e_phentsize too small");
        }
        let size = match phnum.checked_mul(phentsz) {
            Some(v) => v,
            None => return Err("ELF: phdr size overflow"),
        };
        let phdr_end = match phoff.checked_add(size) {
            Some(v) => v,
            None => return Err("ELF: phdr offset overflow"),
        };
        if phdr_end > data.len() {
            return Err("ELF: program header table out of bounds");
        }
        let entry = read_le(data, 24, 8);
        Ok(Self { data, entry, phoff, phnum, phentsize: phentsz })
    }
}

// ----------------------------------------------------------------------
// Program headers
// ----------------------------------------------------------------------

/// The fields of the program header at offset `o` of `d`.
pub open spec fn ph_type(d: Seq<u8>, o: int) -> int { le(d, o, 4) }
pub open spec fn ph_flags(d: Seq<u8>, o: int) -> int { le(d, o + 4, 4) }
pub open spec fn ph_offset(d: Seq<u8>, o: int) -> int { le(d, o + 8, 8) }
pub open spec fn ph_vaddr(d: Seq<u8>, o: int) -> int { le(d, o + 16, 8) }
pub open spec fn ph_filesz(d: Seq<u8>, o: int) -> int { le(d, o + 32, 8) }
pub open spec fn ph_memsz(d: Seq<u8>, o: int) -> int { le(d, o + 40, 8) }

/// The segment at `o` is loaded: of type PT_LOAD and taking memory.
pub open spec fn loadable(d: Seq<u8>, o: int) -> bool {
    ph_type(d, o) == 1 && ph_memsz(d, o) != 0
}

/// The area of the segment at `o`: its range widened to pages, with its
/// rights.
pub open spec fn segment_vma(d: Seq<u8>, o: int) -> VMA {
    VMA {
        start: align_down_spec(ph_vaddr(d, o), 4096) as u64,
        end: align_up_spec(ph_vaddr(d, o) + ph_memsz(d, o), 4096) as u64,
        flags: segment_rights(ph_flags(d, o) as u32),
        kind: VMAKind::Anonymous,
    }
}

/// Pages of the segment at `o` (0 unless loaded).
pub open spec fn segment_pages(d: Seq<u8>, o: int) -> int {
    if loadable(d, o) {
        (align_up_spec(ph_vaddr(d, o) + ph_memsz(d, o), 4096) - align_down_spec(ph_vaddr(d, o), 4096)) / 4096
    } else {
        0
    }
}

impl<'a> ElfLoader<'a> {
    /// Offset of program header `i`.
    pub open spec fn ph(&self, i: int) -> int {
        self.phoff + i * self.phentsize
    }

    /// Pages that the first `k` program headers take.
    pub open spec fn pages_of(&self, k: int) -> int
        decreases k,
    {
        if k <= 0 {
            0
        } else {
            self.pages_of(k - 1) + segment_pages(self.data@, self.ph(k - 1))
        }
    }

    /// The areas after the loaded segments among the first `k` headers
    /// were added to `s`.
    pub open spec fn areas_after(&self, s: Seq<VMA>, k: int) -> Seq<VMA>
        decreases k,
    {
        if k <= 0 {
            s
        } else {
            let prev = self.areas_after(s, k - 1);
            if loadable(self.data@, self.ph(k - 1)) {
                add_vma_spec(prev, segment_vma(self.data@, self.ph(k - 1)))
            } else {
                prev
            }
        }
    }

    /// Every loaded segment has addresses that stay below 2^64 when rounded
    /// up to a page.
    pub open spec fn ranges_fit(&self) -> bool {
        forall|i: int| 0 <= i < self.phnum && #[trigger] loadable(self.data@, self.ph(i)) ==> {
            &&& ph_vaddr(self.data@, self.ph(i)) + ph_memsz(self.data@, self.ph(i)) + 4096 <= u64::MAX
            &&& ph_vaddr(self.data@, self.ph(i)) + ph_filesz(self.data@, self.ph(i)) <= u64::MAX
        }
    }

    /// Every loaded segment's area ends at least a page below 2^64.
    pub open spec fn ends_ok(&self) -> bool {
        forall|i: int| 0 <= i < self.phnum && #[trigger] loadable(self.data@, self.ph(i)) ==>
            segment_vma(self.data@, self.ph(i)).end + 4095 <= u64::MAX
    }

    /// The header fields are those `new` accepted.
    /// Every segment that `load` loads into an address space with the areas
    /// `s` names file bytes inside the file, lies in the lower half, and
    /// overlaps none of the areas before it.
    pub open spec fn loads_cleanly(&self, s: Seq<VMA>) -> bool {
        forall|i: int| 0 <= i < self.phnum && #[trigger] loadable(self.data@, self.ph(i)) ==> {
            &&& ph_offset(self.data@, self.ph(i)) + ph_filesz(self.data@, self.ph(i)) <= self.data@.len()
            &&& segment_vma(self.data@, self.ph(i)).end <= 0x8000_0000_0000
            &&& !add_conflict(self.areas_after(s, i), segment_vma(self.data@, self.ph(i)))
        }
    }

    pub open spec fn checked(&self) -> bool {
        &&& self.phentsize >= PHDR_SIZE
        &&& self.phoff + self.phnum * self.phentsize <= self.data@.len()
    }
}

/// A copy that loading asks for: `len` bytes of the file from
/// `file_offset` into the page at `phys`, from `page_offset` on.
#[derive(Clone, Copy, Debug, PartialEq, Eq, Structural)]
pub struct SegmentCopy {
    pub phys: u64,
    pub page_offset: usize,
    pub file_offset: usize,
    pub len: usize,
}

/// Access rights of a segment with ELF flags `f` (execute 1, write 2,
/// read 4).
pub open spec fn segment_rights(f: u32) -> VMAFlags {
    VMAFlags { read: f & 4 != 0, write: f & 2 != 0, execute: f & 1 != 0 }
}

/// The area of every segment carries the rights of its ELF flags: read
/// for PF_R (4), write for PF_W (2), execute for PF_X (1), and no others.
pub proof fn law_segment_rights_follow_flags(d: Seq<u8>, o: int)
    ensures
        segment_vma(d, o).flags.read == ((ph_flags(d, o) as u32) & 4u32 != 0),
        segment_vma(d, o).flags.write == ((ph_flags(d, o) as u32) & 2u32 != 0),
        segment_vma(d, o).flags.execute == ((ph_flags(d, o) as u32) & 1u32 != 0),
{
}

fn pflags_to_vma(p_flags: u32) -> (r: VMAFlags)
    ensures
        r == segment_rights(p_flags),
{
    VMAFlags { read: (p_flags & 4) != 0, write: (p_flags & 2) != 0, execute: (p_flags & 1) != 0 }
}

/// The page at `v` is mapped through `pml4`, present and with the page
/// rights of an area with flags `f`, to a page that was free in `a0` and
/// is in use in `a1`.
pub open spec fn page_loaded(m: Map<u64, PageTable>, a0: BuddyAllocator, a1: BuddyAllocator, pml4: u64, v: u64, f: VMAFlags) -> bool {
    &&& translate_spec(m, pml4, v) matches Some(p) && p % 4096 == 0 && a0.is_free(p as int) && !a1.is_free(p as int)
    &&& leaf_flags(m, pml4, v) == Some(page_bits(f) | 1)
}

/// Every page of the lower half that an area of `s` holds, and no area of
/// `s0` does, is loaded (`page_loaded`) with the rights of its area.
pub open spec fn areas_loaded(m: Map<u64, PageTable>, a0: BuddyAllocator, a1: BuddyAllocator, pml4: u64, s0: Seq<VMA>, s: Seq<VMA>) -> bool {
    forall|v: u64, f: VMAFlags, kd: VMAKind| v % 4096 == 0 && v < 0x8000_0000_0000 && #[trigger] covers_as(s, v as int, f, kd)
        && !covers(s0, v as int) ==> page_loaded(m, a0, a1, pml4, v, f)
}

impl<'a> ElfLoader<'a> {
    /// Loads every PT_LOAD segment that takes memory: adds its area to
    /// `as_`, and for each of its pages takes a page, records it as
    /// "elf:segment" of the space's owner, zeroes it, notes in `copies`
    /// which file bytes belong in it, and maps it with the segment's
    /// rights. Returns the entry point.
    pub fn load(
        &self,
        as_: &mut AddressSpace,
        allocator: &mut BuddyAllocator,
        mem: &mut PhysMemory,
        owners: &mut PageOwners,
        copies: &mut Vec<SegmentCopy>,
    ) -> (r: Result<u64, &'static str>)
        requires
            usize::BITS == 64,
            self.checked(),
            self.ranges_fit(),
            old(as_).wf(),
            old(allocator).wf(),
            old(owners).owners@.len() + self.pages_of(self.phnum as int) <= old(owners).capacity,
        ensures
            final(as_).wf(),
            final(as_).owner_pid == old(as_).owner_pid,
            final(as_).page_table.pml4() == old(as_).page_table.pml4(),
            final(allocator).wf(),
            forall|q: u64| #[trigger] final(allocator).is_free(q as int) ==> old(allocator).is_free(q as int),
            final(owners).capacity == old(owners).capacity,
            final(owners).owners@.len() >= old(owners).owners@.len(),
            old(owners).owners@ == final(owners).owners@.subrange(0, old(owners).owners@.len() as int),
            forall|k: int| old(owners).owners@.len() <= k < final(owners).owners@.len() ==>
                (#[trigger] final(owners).owners@[k]).1.tag@ == "elf:segment"@ && final(owners).owners@[k].1.pid == old(as_).owner_pid
                && final(owners).owners@[k].1.order == 0,
            final(copies)@.len() >= old(copies)@.len(),
            old(copies)@ == final(copies)@.subrange(0, old(copies)@.len() as int),
            forall|k: int| old(copies)@.len() <= k < final(copies)@.len() ==>
                (#[trigger] final(copies)@[k]).file_offset + final(copies)@[k].len <= self.data@.len()
                && final(copies)@[k].page_offset + final(copies)@[k].len <= 4096,
            r matches Ok(e) ==> e == self.entry && final(as_).vmas@ == self.areas_after(old(as_).vmas@, self.phnum as int),
            ends_fit(old(as_).vmas@) && self.ends_ok() ==> ends_fit(final(as_).vmas@),
            (forall|i: int| 0 <= i < self.phnum ==> !#[trigger] loadable(self.data@, self.ph(i))) ==> {
                &&& r == Ok::<u64, &'static str>(self.entry)
                &&& final(mem)@ == old(mem)@
                &&& *final(allocator) == *old(allocator)
            },
            ({
                let pml4 = old(as_).page_table.pml4();
                is_tree(old(mem)@, *old(allocator), pml4) && no_huge_low(old(mem)@, pml4)
                    && self.loads_cleanly(old(as_).vmas@) && old(allocator).free_pages() >= 4 * self.pages_of(self.phnum as int)
            }) ==> {
                let pml4 = old(as_).page_table.pml4();
                &&& r == Ok::<u64, &'static str>(self.entry)
                &&& is_tree(final(mem)@, *final(allocator), pml4)
                &&& no_huge_low(final(mem)@, pml4)
                &&& final(allocator).free_pages() + 4 * self.pages_of(self.phnum as int) >= old(allocator).free_pages()
            },
            ({
                let pml4 = old(as_).page_table.pml4();
                is_tree(old(mem)@, *old(allocator), pml4) && no_huge_low(old(mem)@, pml4) && all_proper(old(as_).vmas@)
                    && self.loads_cleanly(old(as_).vmas@) && old(allocator).free_pages() >= 4 * self.pages_of(self.phnum as int)
            }) ==> areas_loaded(final(mem)@, *old(allocator), *final(allocator), old(as_).page_table.pml4(), old(as_).vmas@, final(as_).vmas@),
            r matches Err(e) ==> e@ == "ELF: p_filesz overflow"@ || e@ == "ELF: PT_LOAD file data out of bounds"@
                || e@ == "ELF: add_vma failed"@ || e@ == "ELF: out of memory for PT_LOAD page"@
                || e@ == "ELF: page table map failed"@,
    {
        let data = self.data;
        let dlen = data.len();
        let ghost pml4 = as_.page_table.pml4();
        let ghost good = is_tree(old(mem)@, *old(allocator), pml4) && no_huge_low(old(mem)@, pml4)
            && self.loads_cleanly(old(as_).vmas@) && old(allocator).free_pages() >= 4 * self.pages_of(self.phnum as int);
        let mut i: usize = 0;
        while i < self.phnum
            invariant
                usize::BITS == 64,
                dlen == data@.len(),
                self.checked(),
                self.ranges_fit(),
                data@ == self.data@,
                i <= self.phnum,
                as_.wf(),
                as_.owner_pid == old(as_).owner_pid,
                as_.page_table.pml4() == old(as_).page_table.pml4(),
                as_.vmas@ == self.areas_after(old(as_).vmas@, i as int),
                ends_fit(old(as_).vmas@) && self.ends_ok() ==> ends_fit(as_.vmas@),
                allocator.wf(),
                forall|q: u64| #[trigger] allocator.is_free(q as int) ==> old(allocator).is_free(q as int),
                owners.capacity == old(owners).capacity,
                owners.owners@.len() == old(owners).owners@.len() + self.pages_of(i as int),
                old(owners).owners@.len() + self.pages_of(self.phnum as int) <= old(owners).capacity,
                owners.owners@.len() >= old(owners).owners@.len(),
                old(owners).owners@ == owners.owners@.subrange(0, old(owners).owners@.len() as int),
                forall|k: int| old(owners).owners@.len() <= k < owners.owners@.len() ==>
                    (#[trigger] owners.owners@[k]).1.tag@ == "elf:segment"@ && owners.owners@[k].1.pid == old(as_).owner_pid
                    && owners.owners@[k].1.order == 0,
                copies@.len() >= old(copies)@.len(),
                old(copies)@ == copies@.subrange(0, old(copies)@.len() as int),
                forall|k: int| old(copies)@.len() <= k < copies@.len() ==>
                    (#[trigger] copies@[k]).file_offset + copies@[k].len <= data@.len()
                    && copies@[k].page_offset + copies@[k].len <= 4096,
                (forall|j: int| 0 <= j < self.phnum ==> !#[trigger] loadable(self.data@, self.ph(j))) ==> {
                    &&& mem@ == old(mem)@
                    &&& *allocator == *old(allocator)
                },
                pml4 == old(as_).page_table.pml4(),
                good == (is_tree(old(mem)@, *old(allocator), pml4) && no_huge_low(old(mem)@, pml4)
                    && self.loads_cleanly(old(as_).vmas@) && old(allocator).free_pages() >= 4 * self.pages_of(self.phnum as int)),
                good ==> is_tree(mem@, *allocator, pml4) && no_huge_low(mem@, pml4),
                good ==> allocator.free_pages() + 4 * self.pages_of(i as int) >= old(allocator).free_pages(),
                good && all_proper(old(as_).vmas@) ==> all_proper(as_.vmas@)
                    && areas_loaded(mem@, *old(allocator), *allocator, pml4, old(as_).vmas@, as_.vmas@),
            decreases self.phnum - i,
        {
            proof {
                lemma_ph_in_bounds(self.phoff as int, self.phnum as int, self.phentsize as int, i as int);
                lemma_pages_of_mono(*self, i as int + 1, self.phnum as int);
            }
            let offset = self.phoff + i * self.phentsize;
            let p_type = read_le(data, offset, 4);
            let p_memsz = read_le(data, offset + 40, 8);
            if p_type != 1 || p_memsz == 0 {
                proof {
                    assert(offset == self.ph(i as int));
                    assert(!loadable(self.data@, self.ph(i as int)));
                }
                i = i + 1;
                continue;
            }
            let p_flags = read_le(data, offset + 4, 4);
            let p_offset = read_le(data, offset + 8, 8);
            let p_vaddr = read_le(data, offset + 16, 8);
            let p_filesz = read_le(data, offset + 32, 8);
            proof {
                lemma_le_bound(data@, offset + 4, 4);
                reveal_with_fuel(pow256, 5);
                assert(loadable(self.data@, self.ph(i as int)));
                assert(!(forall|j: int| 0 <= j < self.phnum ==> !#[trigger] loadable(self.data@, self.ph(j))));
            }
            let file_start = p_offset as usize;
            let file_end = match file_start.checked_add(p_filesz as usize) {
                Some(v) => v,
                None => return Err("ELF: p_filesz overflow"),
            };
            if file_end > data.len() {
                return Err("ELF: PT_LOAD file data out of bounds");
            }
            let vma_flags = pflags_to_vma(p_flags as u32);
            let map_start = align_down(p_vaddr, 4096);
            let map_end = align_up(p_vaddr + p_memsz, 4096);
            proof {
                assert(map_start <= p_vaddr);
                assert(map_end >= p_vaddr + p_memsz);
                assert(map_start % 4096 == 0 && map_end % 4096 == 0);
            }
            let map_pages = (map_end - map_start) / 4096;
            proof {
                assert(offset == self.ph(i as int));
                assert(VMA { start: map_start, end: map_end, flags: vma_flags, kind: VMAKind::Anonymous } == segment_vma(self.data@, self.ph(i as int)));
                assert(map_pages == segment_pages(self.data@, self.ph(i as int)));
            }
            let ghost before_add = as_.vmas@;
            match as_.add_vma(VMA::new(map_start, map_end, vma_flags, VMAKind::Anonymous)) {
                Ok(()) => {},
                Err(_) => return Err("ELF: add_vma failed"),
            }
            proof {
                if ends_fit(old(as_).vmas@) && self.ends_ok() {
                    assert(loadable(self.data@, self.ph(i as int)));
                    lemma_add_ends_fit_any(before_add, segment_vma(self.data@, self.ph(i as int)));
                }
            }
            let ghost vm = as_.vmas@;
            let ghost l0 = owners.owners@.len();
            let ghost w = VMA { start: map_start, end: map_end, flags: vma_flags, kind: VMAKind::Anonymous };
            let ghost proper = good && all_proper(old(as_).vmas@);
            let mut page_idx: u64 = 0;
            while page_idx < map_pages
                invariant
                    usize::BITS == 64,
                    self.checked(),
                    data@ == self.data@,
                    map_pages == (map_end - map_start) / 4096,
                    map_start % 4096 == 0,
                    map_end <= u64::MAX,
                    map_start <= p_vaddr,
                    p_vaddr + p_filesz <= u64::MAX,
                    file_start + p_filesz <= data@.len(),
                    file_start == p_offset as usize,
                    file_end == file_start + p_filesz,
                    page_idx <= map_pages,
                    as_.vmas@ == vm,
                    ends_fit(old(as_).vmas@) && self.ends_ok() ==> ends_fit(vm),
                    owners.owners@.len() == l0 + page_idx,
                    as_.wf(),
                    as_.owner_pid == old(as_).owner_pid,
                    as_.page_table.pml4() == old(as_).page_table.pml4(),
                    allocator.wf(),
                    forall|q: u64| #[trigger] allocator.is_free(q as int) ==> old(allocator).is_free(q as int),
                    owners.capacity == old(owners).capacity,
                    owners.owners@.len() + map_pages - page_idx <= old(owners).owners@.len() + self.pages_of(self.phnum as int),
                    old(owners).owners@.len() + self.pages_of(self.phnum as int) <= old(owners).capacity,
                    owners.owners@.len() >= old(owners).owners@.len(),
                old(owners).owners@ == owners.owners@.subrange(0, old(owners).owners@.len() as int),
                    forall|k: int| old(owners).owners@.len() <= k < owners.owners@.len() ==>
                        (#[trigger] owners.owners@[k]).1.tag@ == "elf:segment"@ && owners.owners@[k].1.pid == old(as_).owner_pid
                        && owners.owners@[k].1.order == 0,
                    copies@.len() >= old(copies)@.len(),
                old(copies)@ == copies@.subrange(0, old(copies)@.len() as int),
                    forall|k: int| old(copies)@.len() <= k < copies@.len() ==>
                        (#[trigger] copies@[k]).file_offset + copies@[k].len <= data@.len()
                        && copies@[k].page_offset + copies@[k].len <= 4096,
                    !(forall|j: int| 0 <= j < self.phnum ==> !#[trigger] loadable(self.data@, self.ph(j))),
                    pml4 == old(as_).page_table.pml4(),
                    good == (is_tree(old(mem)@, *old(allocator), pml4) && no_huge_low(old(mem)@, pml4)
                        && self.loads_cleanly(old(as_).vmas@) && old(allocator).free_pages() >= 4 * self.pages_of(self.phnum as int)),
                    good ==> is_tree(mem@, *allocator, pml4) && no_huge_low(mem@, pml4),
                    good ==> allocator.free_pages() + 4 * (self.pages_of(i as int) + page_idx) >= old(allocator).free_pages(),
                    good ==> map_end <= 0x8000_0000_0000,
                    good ==> self.pages_of(i as int) + map_pages <= self.pages_of(self.phnum as int),
                    vm == add_vma_spec(before_add, w),
                    vmas_wf(before_add),
                    !add_conflict(before_add, w),
                    w == (VMA { start: map_start, end: map_end, flags: vma_flags, kind: VMAKind::Anonymous }),
                    map_start + map_pages * 4096 == map_end,
                    proper == (good && all_proper(old(as_).vmas@)),
                    proper ==> all_proper(before_add) && areas_loaded(mem@, *old(allocator), *allocator, pml4, old(as_).vmas@, before_add),
                    proper ==> forall|v: u64| map_start <= v < map_start + page_idx * 4096 && v % 4096 == 0
                        ==> #[trigger] page_loaded(mem@, *old(allocator), *allocator, pml4, v, vma_flags),
                decreases map_pages - page_idx,
            {
                proof {
                    assert(map_start + page_idx * 4096 + 4096 <= map_end) by (nonlinear_arith)
                        requires page_idx < map_pages, map_pages == (map_end - map_start) / 4096, map_start <= map_end;
                }
                let page_vaddr = map_start + page_idx * 4096;
                let ghost a0 = *allocator;
                let ghost m0 = mem@;
                proof {
                    if good && crate::allocator::first_nonempty(a0.lists(), 0) == crate::allocator::MAX_ORDER {
                        crate::allocator::lemma_first_nonempty_empty(a0.lists(), 0);
                        crate::allocator::lemma_pages_below_empty(a0.lists(), crate::allocator::MAX_ORDER as nat);
                    }
                }
                let phys = match allocator.allocate(0) {
                    Some(p) => p,
                    None => {
                        proof {
                            assert forall|q: u64| #[trigger] allocator.is_free(q as int) implies old(allocator).is_free(q as int) by {
                                assert(a0.is_free(q as int));
                            }
                        }
                        return Err("ELF: out of memory for PT_LOAD page");
                    },
                };
                let ghost o0 = owners.owners@;
                track(owners, phys.as_u64(), 0, "elf:segment", as_.owner_pid);
                proof {
                    assert(old(owners).owners@ == owners.owners@.subrange(0, old(owners).owners@.len() as int)) by {
                        assert(owners.owners@.subrange(0, old(owners).owners@.len() as int) =~= o0.subrange(0, old(owners).owners@.len() as int));
                    }
                    reveal_strlit("elf:segment");
                }
                mem.zero_page(phys.as_u64());
                let page_end = page_vaddr + 4096;
                let seg_end = p_vaddr + p_filesz;
                let copy_start = if page_vaddr >= p_vaddr { page_vaddr } else { p_vaddr };
                let copy_end = if page_end <= seg_end { page_end } else { seg_end };
                if copy_start < copy_end {
                    let len = (copy_end - copy_start) as usize;
                    let page_offset = (copy_start - page_vaddr) as usize;
                    let file_copy = file_start + (copy_start - p_vaddr) as usize;
                    let ghost c0 = copies@;
                    copies.push(SegmentCopy { phys: phys.as_u64(), page_offset, file_offset: file_copy, len });
                    proof {
                        assert(copies@.subrange(0, old(copies)@.len() as int) =~= c0.subrange(0, old(copies)@.len() as int));
                    }
                }
                let page_flags = vma_flags.to_page_flags();
                let ghost a1 = *allocator;
                proof {
                    if good {
                        vstd::arithmetic::power2::lemma2_to64();
                        assert(in_block(phys@ as int, phys@, 0));
                        let lv = choose|lv: Map<u64, int>| tree_ok(m0, a0, pml4, lv);
                        crate::paging::lemma_tree_zero_free(m0, mem@, a0, a1, pml4, lv, phys@);
                        crate::paging::lemma_tree_walk(mem@, a1, pml4, lv, page_vaddr);
                        assert(!huge_on_path(m0, pml4, page_vaddr, 3));
                        assert(a1.free_pages() + 1 == a0.free_pages());
                    }
                }
                let mapped = as_.page_table.map(page_vaddr, phys, page_flags, allocator, mem);
                proof {
                    assert forall|q: u64| #[trigger] allocator.is_free(q as int) implies old(allocator).is_free(q as int) by {
                        assert(allocator.page_free(q) ==> a1.page_free(q));
                        assert(a0.is_free(q as int));
                    }
                }
                match mapped {
                    Some(()) => {},
                    None => return Err("ELF: page table map failed"),
                }
                proof {
                    if proper {
                        let m1 = mem@;
                        assert(page_vaddr % 4096 == 0) by (nonlinear_arith)
                            requires
                                map_start % 4096 == 0,
                                page_vaddr == map_start + page_idx * 4096;
                        assert(phys@ % 4096 == 0 && phys@ < crate::allocator::PHYS_LIMIT);
                        crate::paging::lemma_page_leaf(m1, pml4, page_vaddr, phys@, page_flags.bits);
                        assert(a0.is_free(phys@ as int));
                        assert(!a1.is_free(phys@ as int));
                        if allocator.is_free(phys@ as int) {
                            assert(allocator.page_free(phys@));
                            assert(a1.page_free(phys@));
                        }
                        assert(page_loaded(m1, *old(allocator), *allocator, pml4, page_vaddr, vma_flags));
                        assert forall|v: u64, f: VMAFlags, kd: VMAKind| v % 4096 == 0 && v < 0x8000_0000_0000 && #[trigger] covers_as(before_add, v as int, f, kd)
                            && !covers(old(as_).vmas@, v as int) implies page_loaded(m1, *old(allocator), *allocator, pml4, v, f) by {
                            assert(page_loaded(m0, *old(allocator), a0, pml4, v, f));
                            let k = choose|k: int| 0 <= k < before_add.len() && #[trigger] holds_as(before_add[k], v as int, f, kd);
                            assert(covers(before_add, v as int)) by {
                                assert(before_add[k].contains_spec(v as int));
                            }
                            assert(w.contains_spec(page_vaddr as int));
                            lemma_no_conflict_uncovered(before_add, w, page_vaddr as int);
                            assert(v != page_vaddr);
                            if v < page_vaddr {
                                crate::paging::lemma_below_other_page(v, page_vaddr);
                            } else {
                                crate::paging::lemma_below_other_page(page_vaddr, v);
                            }
                            let q = translate_spec(m0, pml4, v)->0;
                            if allocator.is_free(q as int) {
                                assert(allocator.page_free(q));
                                assert(a1.page_free(q));
                                assert(a0.is_free(q as int));
                            }
                        }
                        assert forall|v: u64| map_start <= v < map_start + (page_idx + 1) * 4096 && v % 4096 == 0
                            implies #[trigger] page_loaded(m1, *old(allocator), *allocator, pml4, v, vma_flags) by {
                            if v < page_vaddr {
                                assert(page_loaded(m0, *old(allocator), a0, pml4, v, vma_flags));
                                crate::paging::lemma_below_other_page(v, page_vaddr);
                                let q = translate_spec(m0, pml4, v)->0;
                                if allocator.is_free(q as int) {
                                    assert(allocator.page_free(q));
                                    assert(a1.page_free(q));
                                    assert(a0.is_free(q as int));
                                }
                            } else {
                                assert(v == page_vaddr) by (nonlinear_arith)
                                    requires
                                        v % 4096 == 0,
                                        page_vaddr % 4096 == 0,
                                        page_vaddr <= v < page_vaddr + 4096;
                            }
                        }
                    }
                }
                page_idx = page_idx + 1;
            }
            proof {
                if proper {
                    law_add_vma_covers(before_add, w, 0);
                    assert forall|v: u64, f: VMAFlags, kd: VMAKind| v % 4096 == 0 && v < 0x8000_0000_0000 && #[trigger] covers_as(vm, v as int, f, kd)
                        && !covers(old(as_).vmas@, v as int) implies page_loaded(mem@, *old(allocator), *allocator, pml4, v, f) by {
                        law_add_vma_keeps_attributes(before_add, w, v as int, f, kd);
                        if !covers_as(before_add, v as int, f, kd) {
                            assert(holds_as(w, v as int, f, kd));
                            assert(map_start <= v < map_start + page_idx * 4096);
                        }
                    }
                }
            }
            proof {
                assert(map_pages == segment_pages(self.data@, self.ph(i as int)));
                assert(self.pages_of(i + 1) == self.pages_of(i as int) + map_pages);
            }
            i = i + 1;
        }
        Ok(self.entry)
    }
}

proof fn lemma_ph_in_bounds(phoff: int, phnum: int, phentsize: int, i: int)
    requires
        0 <= i < phnum,
        phentsize >= 56,
        phoff >= 0,
    ensures
        phoff + i * phentsize + 56 <= phoff + phnum * phentsize,
{
    assert(i * phentsize + 56 <= phnum * phentsize) by (nonlinear_arith)
        requires 0 <= i < phnum, phentsize >= 56;
}

proof fn lemma_pages_of_mono(l: ElfLoader, i: int, j: int)
    requires
        0 <= i <= j,
    ensures
        l.pages_of(i) <= l.pages_of(j),
    decreases j - i,
{
    if i < j {
        lemma_pages_of_mono(l, i, j - 1);
        let d = l.data@;
        let o = l.ph(j - 1);
        let x = ph_vaddr(d, o);
        let y = ph_vaddr(d, o) + ph_memsz(d, o);
        lemma_le_bound(d, o + 16, 8);
        lemma_le_bound(d, o + 40, 8);
        assert(align_down_spec(x, 4096) <= x);
        assert(align_up_spec(y, 4096) >= y);
        assert(segment_pages(d, o) >= 0);
    }
}

} // verus!
