//! Virtual memory areas of a user address space.
//!
//! An address space keeps its areas in a vector ordered by start address,
//! where every area ends at or before the start of each later one.

use vstd::prelude::*;
use crate::paging::{
    PageFlags, PageTableManager, PhysMemory, PageAllocator, PageTable, leaf_present, l1e, pte_addr, only_zeroed,
    entry_at, pte_present, translate_spec, path_ok, huge_on_path, lemma_zero_entry,
    lemma_unmapped, lemma_walk_stable, lemma_only_zeroed_refl, lemma_only_zeroed_trans,
    lemma_same_only_zeroed, l4e, l3e, l2e, pte_huge, tree_ok, is_tree, lemma_tree_walk, page_given_back,
    unmapped, mem_same, l4_index, l3_index, l2_index, l1_index,
};
use crate::page_owner::{Pid, PageOwner, PageOwners, track, untrack, kept_records, lemma_kept_refl, lemma_kept_trans};
use crate::allocator::{BuddyAllocator, PhysAddr, in_block, first_nonempty, MAX_ORDER};
use crate::allocator::{align_up, align_up_spec, PAGE_SIZE};

verus! {

// ----------------------------------------------------------------------
// Access rights and kinds
// ----------------------------------------------------------------------

#[derive(Debug, Clone, Copy, PartialEq, Eq, Structural)]
pub struct VMAFlags {
    pub read: bool,
    pub write: bool,
    pub execute: bool,
}

/// Page-table flag bits that the pages of an area with `f` receive.
pub open spec fn page_bits(f: VMAFlags) -> u64 {
    (5u64 | (if f.write { 2u64 } else { 0u64 })) | (if !f.execute { 0x8000_0000_0000_0000u64 } else { 0u64 })
}

impl VMAFlags {
    pub fn rw() -> (r: Self)
        ensures
            r == (VMAFlags { read: true, write: true, execute: false }),
    {
        Self { read: true, write: true, execute: false }
    }

    pub fn rx() -> (r: Self)
        ensures
            r == (VMAFlags { read: true, write: false, execute: true }),
    {
        Self { read: true, write: false, execute: true }
    }

    pub fn r() -> (r: Self)
        ensures
            r == (VMAFlags { read: true, write: false, execute: false }),
    {
        Self { read: true, write: false, execute: false }
    }

    /// Present and user-accessible; writable when the area is; not
    /// executable unless the area is.
    pub fn to_page_flags(self) -> (r: PageFlags)
        ensures
            r.bits == page_bits(self),
            r.valid(),
    {
        let mut flags = PageFlags::present().union(PageFlags::user());
        if self.write {
            flags = flags.union(PageFlags::writable());
        }
        if !self.execute {
            flags = flags.union(PageFlags::no_exec());
        }
        proof {
            crate::paging::lemma_bit_constants();
        }
        flags
    }
}

#[derive(Debug, Clone, Copy, PartialEq, Eq, Structural)]
pub enum VMAKind {
    Anonymous,
    Stack,
    Heap,
}

impl VMAKind {
    /// The owner tag that the pages of such an area are recorded under.
    pub fn owner_tag(self) -> (r: &'static str)
        ensures
            self == VMAKind::Anonymous ==> r@ == "vma:anon"@,
            self == VMAKind::Stack ==> r@ == "vma:stack"@,
            self == VMAKind::Heap ==> r@ == "vma:heap"@,
    {
        match self {
            VMAKind::Anonymous => "vma:anon",
            VMAKind::Stack => "vma:stack",
            VMAKind::Heap => "vma:heap",
        }
    }
}

// ----------------------------------------------------------------------
// Areas
// ----------------------------------------------------------------------

#[derive(Debug, Clone, Copy, PartialEq, Eq, Structural)]
pub struct VMA {
    pub start: u64,
    pub end: u64,
    pub flags: VMAFlags,
    pub kind: VMAKind,
}

impl VMA {
    pub fn new(start: u64, end: u64, flags: VMAFlags, kind: VMAKind) -> (r: Self)
        ensures
            r == (VMA { start, end, flags, kind }),
    {
        Self { start, end, flags, kind }
    }

    pub open spec fn contains_spec(&self, addr: int) -> bool {
        self.start <= addr < self.end
    }

    pub fn contains(&self, addr: u64) -> (r: bool)
        ensures
            r == self.contains_spec(addr as int),
    {
        self.start <= addr && addr < self.end
    }

    pub fn size(&self) -> (r: u64)
        requires
            self.start <= self.end,
        ensures
            r == self.end - self.start,
    {
        self.end - self.start
    }

    /// Two adjacent areas with these attributes may become one.
    fn mergeable_with(&self, other: &VMA) -> (r: bool)
        ensures
            r == mergeable(*self, *other),
    {
        self.flags == other.flags && self.kind == other.kind
    }
}

pub open spec fn mergeable(a: VMA, b: VMA) -> bool {
    a.flags == b.flags && a.kind == b.kind
}

/// Ordered by start, and every area ends at or before the start of each
/// later one.
#[verifier::opaque]
pub open spec fn vmas_wf(s: Seq<VMA>) -> bool {
    forall|i: int, j: int| 0 <= i < j < s.len() ==> (#[trigger] s[i]).start <= (#[trigger] s[j]).start && s[i].end <= s[j].start
}

/// Some area of `s` contains byte `a`.
pub open spec fn covers(s: Seq<VMA>, a: int) -> bool {
    exists|i: int| 0 <= i < s.len() && (#[trigger] s[i]).contains_spec(a)
}

/// Number of leading areas that start below `x`.
pub open spec fn lower_bound_spec(s: Seq<VMA>, x: u64) -> int
    decreases s.len(),
{
    if s.len() == 0 {
        0
    } else if s.last().start < x {
        s.len() as int
    } else {
        lower_bound_spec(s.drop_last(), x)
    }
}

pub proof fn lemma_lower_bound(s: Seq<VMA>, x: u64)
    requires
        vmas_wf(s),
    ensures
        0 <= lower_bound_spec(s, x) <= s.len(),
        forall|i: int| 0 <= i < lower_bound_spec(s, x) ==> (#[trigger] s[i]).start < x,
        forall|i: int| lower_bound_spec(s, x) <= i < s.len() ==> (#[trigger] s[i]).start >= x,
    decreases s.len(),
{
    reveal(vmas_wf);
    if s.len() > 0 {
        if s.last().start < x {
            assert forall|i: int| 0 <= i < s.len() implies (#[trigger] s[i]).start < x by {
                if i < s.len() - 1 {
                    assert(s[i].start <= s[s.len() - 1].start);
                }
            }
        } else {
            let t = s.drop_last();
            assert(vmas_wf(t)) by {
                assert forall|i: int, j: int| 0 <= i < j < t.len() implies (#[trigger] t[i]).start <= (#[trigger] t[j]).start && t[i].end <= t[j].start by {
                    assert(t[i] == s[i] && t[j] == s[j]);
                }
            }
            lemma_lower_bound(t, x);
            assert forall|i: int| lower_bound_spec(s, x) <= i < s.len() implies (#[trigger] s[i]).start >= x by {
                if i < s.len() - 1 {
                    assert(s[i] == t[i]);
                }
            }
            assert forall|i: int| 0 <= i < lower_bound_spec(s, x) implies (#[trigger] s[i]).start < x by {
                assert(s[i] == t[i]);
            }
        }
    }
}

/// An index with the two properties of the lower bound is the lower bound.
proof fn lemma_lower_bound_unique(s: Seq<VMA>, x: u64, k: int)
    requires
        vmas_wf(s),
        0 <= k <= s.len(),
        forall|i: int| 0 <= i < k ==> (#[trigger] s[i]).start < x,
        forall|i: int| k <= i < s.len() ==> (#[trigger] s[i]).start >= x,
    ensures
        k == lower_bound_spec(s, x),
{
    lemma_lower_bound(s, x);
    let lb = lower_bound_spec(s, x);
    if k < lb {
        assert(s[k].start >= x);
    }
    if lb < k {
        assert(s[lb].start < x);
    }
}

/// What `add_vma` refuses: `v` starts before the end of the area just below
/// its start, or ends after the start of the area at or above its start.
pub open spec fn add_conflict(s: Seq<VMA>, v: VMA) -> bool {
    let idx = lower_bound_spec(s, v.start);
    ||| idx > 0 && s[idx - 1].end > v.start
    ||| idx < s.len() && v.end > s[idx].start
}

/// The areas after `add_vma(v)`: `v` takes its place in order, joined with
/// the area ending where it starts and with the area starting where it
/// ends, each when their attributes agree.
pub open spec fn add_vma_spec(s: Seq<VMA>, v: VMA) -> Seq<VMA> {
    let idx = lower_bound_spec(s, v.start);
    let mp = idx > 0 && s[idx - 1].end == v.start && mergeable(s[idx - 1], v);
    let mn = idx < s.len() && v.end == s[idx].start && mergeable(v, s[idx]);
    let lo = if mp { idx - 1 } else { idx };
    let hi = if mn { idx + 1 } else { idx };
    let merged = VMA {
        start: if mp { s[idx - 1].start } else { v.start },
        end: if mn { s[idx].end } else { v.end },
        flags: v.flags,
        kind: v.kind,
    };
    s.subrange(0, lo).push(merged) + s.subrange(hi, s.len() as int)
}

/// The error of a failed operation carries `msg`.
pub open spec fn err_is<T>(r: Result<T, &'static str>, msg: &str) -> bool {
    r matches Err(e) && e@ == msg@
}

/// Adding an area that does not conflict keeps the areas ordered and
/// apart.
pub proof fn lemma_add_wf(s: Seq<VMA>, v: VMA)
    requires
        vmas_wf(s),
        !add_conflict(s, v),
    ensures
        vmas_wf(add_vma_spec(s, v)),
{
    reveal(vmas_wf);
    lemma_lower_bound(s, v.start);
    let t = add_vma_spec(s, v);
    let idx = lower_bound_spec(s, v.start);
    let mp = idx > 0 && s[idx - 1].end == v.start && mergeable(s[idx - 1], v);
    let mn = idx < s.len() && v.end == s[idx].start && mergeable(v, s[idx]);
    let lo = if mp { idx - 1 } else { idx };
    let hi = if mn { idx + 1 } else { idx };
    assert(t.len() == lo + 1 + s.len() - hi);
    assert forall|k: int| 0 <= k < lo implies #[trigger] t[k] == s[k] by {}
    assert forall|k: int| lo < k < t.len() implies #[trigger] t[k] == s[k - lo - 1 + hi] by {}
    let m = t[lo];
    assert forall|k: int| 0 <= k < lo implies (#[trigger] s[k]).start <= m.start && s[k].end <= m.start by {
        if idx > 0 && k < idx - 1 {
            assert(s[k].end <= s[idx - 1].start);
            assert(s[k].start <= s[idx - 1].start);
        }
    }
    assert forall|k: int| hi <= k < s.len() implies m.start <= (#[trigger] s[k]).start && m.end <= s[k].start by {
        if mp {
            assert(s[idx - 1].start <= s[k].start);
        }
        if mn {
            assert(s[idx].end <= s[k].start);
        } else if idx < s.len() {
            assert(s[idx].start <= s[k].start);
        }
    }
    assert forall|i: int, j: int| 0 <= i < j < t.len() implies (#[trigger] t[i]).start <= (#[trigger] t[j]).start && t[i].end <= t[j].start by {
        if j < lo {
        } else if j == lo {
            assert(t[i] == s[i]);
        } else if i < lo {
            assert(t[i] == s[i]);
            assert(t[j] == s[j - lo - 1 + hi]);
            assert(s[i].start <= m.start && s[i].end <= m.start);
            assert(m.start <= s[j - lo - 1 + hi].start);
        } else if i == lo {
            assert(t[j] == s[j - lo - 1 + hi]);
        } else {
            assert(t[i] == s[i - lo - 1 + hi]);
            assert(t[j] == s[j - lo - 1 + hi]);
        }
    }
}

proof fn lemma_align_zero(size: u64)
    requires
        align_up_spec(size as int, 4096) == 0,
    ensures
        size == 0,
{
}

pub proof fn lemma_remove_wf(s: Seq<VMA>, i: int)
    requires
        vmas_wf(s),
        0 <= i < s.len(),
    ensures
        vmas_wf(s.remove(i)),
{
    reveal(vmas_wf);
    let t = s.remove(i);
    assert forall|a: int, b: int| 0 <= a < b < t.len() implies (#[trigger] t[a]).start <= (#[trigger] t[b]).start && t[a].end <= t[b].start by {
        let a2 = if a < i { a } else { a + 1 };
        let b2 = if b < i { b } else { b + 1 };
        assert(t[a] == s[a2] && t[b] == s[b2]);
    }
}

/// Every area starts at or before its end.
pub open spec fn all_proper(s: Seq<VMA>) -> bool {
    forall|i: int| 0 <= i < s.len() ==> (#[trigger] s[i]).start <= s[i].end
}

/// Adding an area covers exactly the bytes covered before and the bytes of
/// the new area (when no area starts after its end).
#[verifier::spinoff_prover]
#[verifier::rlimit(40)]
pub proof fn law_add_vma_covers(s: Seq<VMA>, v: VMA, a: int)
    requires
        vmas_wf(s),
        all_proper(s),
        v.start <= v.end,
        !add_conflict(s, v),
    ensures
        covers(add_vma_spec(s, v), a) == (covers(s, a) || v.contains_spec(a)),
        all_proper(add_vma_spec(s, v)),
{
    reveal(vmas_wf);
    lemma_lower_bound(s, v.start);
    let t = add_vma_spec(s, v);
    let idx = lower_bound_spec(s, v.start);
    let mp = idx > 0 && s[idx - 1].end == v.start && mergeable(s[idx - 1], v);
    let mn = idx < s.len() && v.end == s[idx].start && mergeable(v, s[idx]);
    let lo = if mp { idx - 1 } else { idx };
    let hi = if mn { idx + 1 } else { idx };
    assert forall|k: int| 0 <= k < lo implies #[trigger] t[k] == s[k] by {}
    assert forall|k: int| lo < k < t.len() implies #[trigger] t[k] == s[k - lo - 1 + hi] by {}
    let m = t[lo];
    assert(m.start <= m.end);
    if covers(t, a) {
        let k = choose|k: int| 0 <= k < t.len() && (#[trigger] t[k]).contains_spec(a);
        if k < lo {
            assert(s[k].contains_spec(a));
        } else if k > lo {
            assert(s[k - lo - 1 + hi].contains_spec(a));
        } else {
            if mp && a < v.start {
                assert(s[idx - 1].contains_spec(a));
            } else if mn && a >= v.end {
                assert(s[idx].contains_spec(a));
            }
        }
    }
    if covers(s, a) {
        let k = choose|k: int| 0 <= k < s.len() && (#[trigger] s[k]).contains_spec(a);
        if k < lo {
            assert(t[k].contains_spec(a));
        } else if k >= hi {
            assert(t[k - hi + lo + 1] == s[k]);
            assert(t[k - hi + lo + 1].contains_spec(a));
        } else {
            assert(t[lo].contains_spec(a));
        }
    }
    if v.contains_spec(a) {
        assert(t[lo].contains_spec(a));
    }
    assert forall|k: int| 0 <= k < t.len() implies (#[trigger] t[k]).start <= t[k].end by {
        if k > lo {
            assert(t[k] == s[k - lo - 1 + hi]);
        }
    }
}

/// Adding an area keeps the access rights and kind of every byte covered
/// before, and gives the bytes of the new area its own (when no area starts
/// after its end).
#[verifier::spinoff_prover]
#[verifier::rlimit(40)]
pub proof fn law_add_vma_keeps_attributes(s: Seq<VMA>, v: VMA, a: int, f: VMAFlags, kd: VMAKind)
    requires
        vmas_wf(s),
        all_proper(s),
        v.start <= v.end,
        !add_conflict(s, v),
    ensures
        covers_as(add_vma_spec(s, v), a, f, kd) == (covers_as(s, a, f, kd) || holds_as(v, a, f, kd)),
{
    reveal(vmas_wf);
    lemma_lower_bound(s, v.start);
    let t = add_vma_spec(s, v);
    let idx = lower_bound_spec(s, v.start);
    let mp = idx > 0 && s[idx - 1].end == v.start && mergeable(s[idx - 1], v);
    let mn = idx < s.len() && v.end == s[idx].start && mergeable(v, s[idx]);
    let lo = if mp { idx - 1 } else { idx };
    let hi = if mn { idx + 1 } else { idx };
    assert forall|k: int| 0 <= k < lo implies #[trigger] t[k] == s[k] by {}
    assert forall|k: int| lo < k < t.len() implies #[trigger] t[k] == s[k - lo - 1 + hi] by {}
    if covers_as(t, a, f, kd) {
        let k = choose|k: int| 0 <= k < t.len() && #[trigger] holds_as(t[k], a, f, kd);
        if k < lo {
            assert(holds_as(s[k], a, f, kd));
        } else if k > lo {
            assert(holds_as(s[k - lo - 1 + hi], a, f, kd));
        } else {
            if mp && a < v.start {
                assert(holds_as(s[idx - 1], a, f, kd));
            } else if mn && a >= v.end {
                assert(holds_as(s[idx], a, f, kd));
            } else {
                assert(holds_as(v, a, f, kd));
            }
        }
    }
    if covers_as(s, a, f, kd) {
        let k = choose|k: int| 0 <= k < s.len() && #[trigger] holds_as(s[k], a, f, kd);
        if k < lo {
            assert(holds_as(t[k], a, f, kd));
        } else if k >= hi {
            assert(t[k - hi + lo + 1] == s[k]);
            assert(holds_as(t[k - hi + lo + 1], a, f, kd));
        } else {
            assert(holds_as(t[lo], a, f, kd));
        }
    }
    if holds_as(v, a, f, kd) {
        assert(holds_as(t[lo], a, f, kd));
    }
}

/// Lowest address of the zone where `mmap` places areas of its own choice.
pub const MMAP_ZONE_START: u64 = 0x0000_6000_0000_0000;

/// End of that zone.
pub const MMAP_ZONE_END: u64 = 0x0000_7000_0000_0000;

pub open spec fn sat_sub(a: u64, b: u64) -> u64 {
    if a >= b { (a - b) as u64 } else { 0 }
}

/// The first gap of at least `size` bytes in the zone, scanning the areas
/// from index `i` on with `cursor` the end of what was passed so far.
pub open spec fn free_area_from(s: Seq<VMA>, i: int, cursor: u64, size: u64) -> Option<u64>
    decreases s.len() - i,
{
    if i < 0 || i >= s.len() || s[i].start >= MMAP_ZONE_END {
        if sat_sub(MMAP_ZONE_END, cursor) >= size { Some(cursor) } else { None }
    } else if s[i].end <= MMAP_ZONE_START {
        free_area_from(s, i + 1, cursor, size)
    } else if sat_sub(s[i].start, cursor) >= size {
        Some(cursor)
    } else {
        free_area_from(s, i + 1, if cursor >= s[i].end { cursor } else { s[i].end }, size)
    }
}

/// Where `mmap` places an area of `size` bytes when the caller leaves the
/// choice to it.
pub open spec fn free_area_spec(s: Seq<VMA>, size: u64) -> Option<u64> {
    free_area_from(s, 0, MMAP_ZONE_START, size)
}

proof fn lemma_free_area_from(s: Seq<VMA>, i: int, cursor: u64, size: u64)
    requires
        vmas_wf(s),
        size > 0,
        0 <= i <= s.len(),
        cursor >= MMAP_ZONE_START,
        forall|j: int, a: int| 0 <= j < i && a >= cursor ==> !#[trigger] s[j].contains_spec(a),
    ensures
        free_area_from(s, i, cursor, size) matches Some(c) ==> {
            &&& MMAP_ZONE_START <= c
            &&& c + size <= MMAP_ZONE_END
            &&& forall|a: int| c <= a < c + size ==> !covers(s, a)
        },
    decreases s.len() - i,
{
    reveal(vmas_wf);
    if i >= s.len() || s[i].start >= MMAP_ZONE_END {
        if let Some(c) = free_area_from(s, i, cursor, size) {
            assert forall|a: int| c <= a < c + size implies !covers(s, a) by {
                assert forall|j: int| 0 <= j < s.len() implies !(#[trigger] s[j]).contains_spec(a) by {
                    if j >= i {
                        assert(s[i].start <= s[j].start);
                    }
                }
            }
        }
    } else if s[i].end <= MMAP_ZONE_START {
        lemma_free_area_from(s, i + 1, cursor, size);
    } else if sat_sub(s[i].start, cursor) >= size {
        let c = cursor;
        assert forall|a: int| c <= a < c + size implies !covers(s, a) by {
            assert forall|j: int| 0 <= j < s.len() implies !(#[trigger] s[j]).contains_spec(a) by {
                if j > i {
                    assert(s[i].start <= s[j].start);
                }
            }
        }
    } else {
        let nc = if cursor >= s[i].end { cursor } else { s[i].end };
        lemma_free_area_from(s, i + 1, nc, size);
    }
}

/// A place that `mmap` picks lies in its zone and overlaps no area.
pub proof fn law_free_area_is_free(s: Seq<VMA>, size: u64)
    requires
        vmas_wf(s),
        size > 0,
    ensures
        free_area_spec(s, size) matches Some(c) ==> {
            &&& MMAP_ZONE_START <= c
            &&& c + size <= MMAP_ZONE_END
            &&& forall|a: int| c <= a < c + size ==> !covers(s, a)
        },
{
    lemma_free_area_from(s, 0, MMAP_ZONE_START, size);
}

/// No area of `s` holds a byte of `[c, c + size)`.
pub open spec fn range_free(s: Seq<VMA>, c: int, size: int) -> bool {
    forall|a: int| c <= a < c + size ==> !covers(s, a)
}

proof fn lemma_free_area_first(s: Seq<VMA>, i: int, cursor: u64, size: u64)
    requires
        vmas_wf(s),
        all_nonempty(s),
        size > 0,
        0 <= i <= s.len(),
        cursor >= MMAP_ZONE_START,
        forall|c2: int| MMAP_ZONE_START <= c2 < cursor ==> !#[trigger] range_free(s, c2, size as int),
    ensures
        free_area_from(s, i, cursor, size) matches Some(c) ==>
            forall|c2: int| MMAP_ZONE_START <= c2 < c ==> !#[trigger] range_free(s, c2, size as int),
        free_area_from(s, i, cursor, size) is None ==>
            forall|c2: int| MMAP_ZONE_START <= c2 && c2 + size <= MMAP_ZONE_END ==> !#[trigger] range_free(s, c2, size as int),
    decreases s.len() - i,
{
    if i >= s.len() || s[i].start >= MMAP_ZONE_END {
        assert forall|c2: int| MMAP_ZONE_START <= c2 && c2 + size <= MMAP_ZONE_END && free_area_from(s, i, cursor, size) is None
            implies !#[trigger] range_free(s, c2, size as int) by {
            if c2 >= cursor {
                assert(false);
            }
        }
    } else if s[i].end <= MMAP_ZONE_START {
        lemma_free_area_first(s, i + 1, cursor, size);
    } else if sat_sub(s[i].start, cursor) >= size {
    } else {
        let nc: u64 = if cursor >= s[i].end { cursor } else { s[i].end };
        assert forall|c2: int| MMAP_ZONE_START <= c2 < nc implies !#[trigger] range_free(s, c2, size as int) by {
            if c2 >= cursor {
                let a: int = if c2 >= s[i].start { c2 } else { s[i].start as int };
                assert(s[i].contains_spec(a));
                assert(covers(s, a));
            }
        }
        lemma_free_area_first(s, i + 1, nc, size);
    }
}

/// The place that `mmap` picks is the lowest one of the zone where `size`
/// bytes overlap no area: every lower start in the zone overlaps some
/// area; and when it finds none, every start in the zone overlaps some
/// area (for areas that are not empty).
pub proof fn law_free_area_is_first(s: Seq<VMA>, size: u64)
    requires
        vmas_wf(s),
        all_nonempty(s),
        size > 0,
    ensures
        free_area_spec(s, size) matches Some(c) ==>
            forall|c2: int| MMAP_ZONE_START <= c2 < c ==> !#[trigger] range_free(s, c2, size as int),
        free_area_spec(s, size) is None ==>
            forall|c2: int| MMAP_ZONE_START <= c2 && c2 + size <= MMAP_ZONE_END ==> !#[trigger] range_free(s, c2, size as int),
{
    lemma_free_area_first(s, 0, MMAP_ZONE_START, size);
}

/// The heap area with the greatest end (the first of equals), when some
/// heap area ends above zero.
pub open spec fn is_heap_pick(s: Seq<VMA>, k: int) -> bool {
    &&& 0 <= k < s.len()
    &&& s[k].kind == VMAKind::Heap
    &&& s[k].end > 0
    &&& forall|j: int| 0 <= j < k && (#[trigger] s[j]).kind == VMAKind::Heap ==> s[j].end < s[k].end
    &&& forall|j: int| k < j < s.len() && (#[trigger] s[j]).kind == VMAKind::Heap ==> s[j].end <= s[k].end
}

pub open spec fn has_heap(s: Seq<VMA>) -> bool {
    exists|j: int| 0 <= j < s.len() && (#[trigger] s[j]).kind == VMAKind::Heap && s[j].end > 0
}

/// What growing the heap to `new_end` gives: whether it succeeded, and the
/// areas after. The heap area with the greatest end is taken out and put
/// back reaching `new_end`; without one, a read-write heap area
/// `[brk_start, new_end)` is added. When the new area conflicts, the areas
/// stay as they were once the old heap area is out.
pub open spec fn heap_outcome(s: Seq<VMA>, brk_start: u64, new_end: u64) -> (bool, Seq<VMA>) {
    if has_heap(s) {
        let k = choose|k: int| is_heap_pick(s, k);
        let i = lower_bound_spec(s, s[k].start);
        let s1 = s.remove(i);
        let v = VMA { start: s[k].start, end: new_end, flags: s[i].flags, kind: s[i].kind };
        if add_conflict(s1, v) { (false, s1) } else { (true, add_vma_spec(s1, v)) }
    } else {
        let v = VMA { start: brk_start, end: new_end, flags: VMAFlags { read: true, write: true, execute: false }, kind: VMAKind::Heap };
        if add_conflict(s, v) { (false, s) } else { (true, add_vma_spec(s, v)) }
    }
}

/// Growing the heap to an end that fits keeps every end in time.
pub proof fn lemma_heap_outcome_ends_fit(s: Seq<VMA>, brk_start: u64, new_end: u64)
    requires
        vmas_wf(s),
        ends_fit(s),
        new_end + 4095 <= u64::MAX,
        has_heap(s) ==> exists|k: int| is_heap_pick(s, k),
    ensures
        ends_fit(heap_outcome(s, brk_start, new_end).1),
{
    if has_heap(s) {
        let k = choose|k: int| is_heap_pick(s, k);
        lemma_lower_bound(s, s[k].start);
        let i = lower_bound_spec(s, s[k].start);
        assert(i <= k);
        let s1 = s.remove(i);
        assert forall|j: int| 0 <= j < s1.len() implies (#[trigger] s1[j]).end + 4095 <= u64::MAX by {
            if j < i {
                assert(s1[j] == s[j]);
            } else {
                assert(s1[j] == s[j + 1]);
            }
        }
        let v = VMA { start: s[k].start, end: new_end, flags: s[i].flags, kind: s[i].kind };
        lemma_add_ends_fit_any(s1, v);
    } else {
        let v = VMA { start: brk_start, end: new_end, flags: VMAFlags { read: true, write: true, execute: false }, kind: VMAKind::Heap };
        lemma_add_ends_fit_any(s, v);
    }
}

/// `va` is one of the page addresses `from`, `from + 4096`, ... below `to`.
pub open spec fn page_step(from: u64, to: int, va: u64) -> bool {
    from <= va < to && (va - from) % 4096 == 0
}

/// No page of the steps from `from` below `to` is mapped at the last level.
pub open spec fn range_unmapped(m: Map<u64, PageTable>, pml4: u64, from: u64, to: int) -> bool {
    forall|va: u64| #[trigger] page_step(from, to, va) ==> !leaf_present(m, pml4, va)
}

/// Every byte free in `a2` was free in `a1` or lies in a page that one of
/// the page steps from `from` below `to` mapped in `m`.
pub open spec fn freed_mapped_pages(
    a1: BuddyAllocator,
    a2: BuddyAllocator,
    m: Map<u64, PageTable>,
    pml4: u64,
    from: u64,
    to: int,
) -> bool {
    &&& forall|a: int| #[trigger] a1.is_free(a) ==> a2.is_free(a)
    &&& forall|a: int| #[trigger] a2.is_free(a) ==> a1.is_free(a) || exists|va: u64|
        #[trigger] page_step(from, to, va) && leaf_present(m, pml4, va) && in_block(a, pte_addr(l1e(m, pml4, va)), 0)
}

/// Zeroing a page that was free leaves the walk of every address through
/// tables that are in use unchanged, and those tables stay in use.
proof fn lemma_zero_walk(
    m0: Map<u64, PageTable>,
    m1: Map<u64, PageTable>,
    a0: BuddyAllocator,
    a1: BuddyAllocator,
    pml4: u64,
    v: u64,
    p: u64,
)
    requires
        forall|q: u64, j: int| 0 <= j < 512 ==> #[trigger] entry_at(m1, q, j) == (if q == p { 0 } else { entry_at(m0, q, j) }),
        a0.is_free(p as int),
        forall|a: int| #[trigger] a1.is_free(a) ==> a0.is_free(a),
    ensures
        path_ok(m0, a0, pml4, v) ==> path_ok(m1, a1, pml4, v),
        path_ok(m0, a0, pml4, v) ==> (huge_on_path(m1, pml4, v, 3) == huge_on_path(m0, pml4, v, 3)),
        path_ok(m0, a0, pml4, v) ==> translate_spec(m1, pml4, v) == translate_spec(m0, pml4, v),
{
    crate::paging::lemma_index_bounds(v);
}

/// Every entry of `m` that differs from `m0` is 0, lies in no table of
/// level 2 or above of `lv`, and, in a last-level table, mapped in `m0` a
/// page that is free again in `a`.
pub open spec fn zeroed_ok(m0: Map<u64, PageTable>, m: Map<u64, PageTable>, lv: Map<u64, int>, a: BuddyAllocator) -> bool {
    forall|p: u64, j: int| 0 <= j < 512 && #[trigger] entry_at(m, p, j) != entry_at(m0, p, j) ==> {
        &&& entry_at(m, p, j) == 0
        &&& !(lv.contains_key(p) && lv[p] >= 2)
        &&& lv.contains_key(p) ==> page_given_back(a, pte_addr(entry_at(m0, p, j)))
    }
}

/// No page step from `from` below `to` meets a 2 MiB entry in `m`.
pub open spec fn no_huge_leaf(m: Map<u64, PageTable>, pml4: u64, from: u64, to: int) -> bool {
    forall|va: u64| #[trigger] page_step(from, to, va) ==> !(pte_present(l2e(m, pml4, va)) && pte_huge(l2e(m, pml4, va)))
}

/// The page that each page step from `from` below `to` mapped in `m` is
/// free in `a`.
pub open spec fn pages_given(m: Map<u64, PageTable>, pml4: u64, from: u64, to: int, a: BuddyAllocator) -> bool {
    forall|va: u64| #[trigger] page_step(from, to, va) && leaf_present(m, pml4, va) ==> page_given_back(a, pte_addr(l1e(m, pml4, va)))
}

/// A page that is free stays free when the free bytes only grow.
proof fn lemma_given_mono(a1: BuddyAllocator, a2: BuddyAllocator, t: u64)
    requires
        page_given_back(a1, t),
        forall|x: int| #[trigger] a1.is_free(x) ==> a2.is_free(x),
    ensures
        page_given_back(a2, t),
{
}

/// The walk of `addr` reads the same entries at levels 4 to 2 in `m` as in
/// `m0` when `m` differs from `m0` only as `zeroed_ok` allows.
proof fn lemma_upper_same(
    m0: Map<u64, PageTable>,
    a0: BuddyAllocator,
    lv: Map<u64, int>,
    pml4: u64,
    addr: u64,
    m: Map<u64, PageTable>,
    a: BuddyAllocator,
)
    requires
        tree_ok(m0, a0, pml4, lv),
        zeroed_ok(m0, m, lv, a),
    ensures
        l4e(m, pml4, addr) == l4e(m0, pml4, addr),
        pte_present(l4e(m0, pml4, addr)) ==> l3e(m, pml4, addr) == l3e(m0, pml4, addr),
        pte_present(l4e(m0, pml4, addr)) && pte_present(l3e(m0, pml4, addr)) ==> l2e(m, pml4, addr) == l2e(m0, pml4, addr),
{
    lemma_tree_walk(m0, a0, pml4, lv, addr);
    crate::paging::lemma_index_bounds(addr);
    assert(lv[pml4] == 4);
    assert(entry_at(m, pml4, l4_index(addr) as int) == entry_at(m0, pml4, l4_index(addr) as int));
    if pte_present(l4e(m0, pml4, addr)) {
        let t3 = pte_addr(l4e(m0, pml4, addr));
        assert(entry_at(m, t3, l3_index(addr) as int) == entry_at(m0, t3, l3_index(addr) as int));
        if pte_present(l3e(m0, pml4, addr)) {
            let t2 = pte_addr(l3e(m0, pml4, addr));
            assert(entry_at(m, t2, l2_index(addr) as int) == entry_at(m0, t2, l2_index(addr) as int));
        }
    }
}

proof fn lemma_pages_given_mono(m: Map<u64, PageTable>, pml4: u64, from: u64, to: int, a1: BuddyAllocator, a2: BuddyAllocator)
    requires
        pages_given(m, pml4, from, to, a1),
        forall|x: int| #[trigger] a1.is_free(x) ==> a2.is_free(x),
    ensures
        pages_given(m, pml4, from, to, a2),
{
    assert forall|va: u64| #[trigger] page_step(from, to, va) && leaf_present(m, pml4, va) implies page_given_back(a2, pte_addr(l1e(m, pml4, va))) by {
        lemma_given_mono(a1, a2, pte_addr(l1e(m, pml4, va)));
    }
}

/// The pages that the pages of the first `k` areas of `s` mapped in `m`
/// are free in `a`.
pub open spec fn areas_given(m: Map<u64, PageTable>, pml4: u64, s: Seq<VMA>, k: int, a: BuddyAllocator) -> bool {
    forall|i: int| 0 <= i < k ==> pages_given(m, pml4, (#[trigger] s[i]).start, s[i].end as int, a)
}

/// Every area of `s` starts at a page boundary and meets no 2 MiB entry in `m`.
pub open spec fn areas_plain(m: Map<u64, PageTable>, pml4: u64, s: Seq<VMA>) -> bool {
    forall|i: int| 0 <= i < s.len() ==> (#[trigger] s[i]).start % 4096 == 0 && no_huge_leaf(m, pml4, s[i].start, s[i].end as int)
}

proof fn lemma_zeroed_refl(m: Map<u64, PageTable>, lv: Map<u64, int>, a: BuddyAllocator)
    ensures
        zeroed_ok(m, m, lv, a),
{
}

/// Where the part of area `v` inside a hole starting at `hs` starts.
pub open spec fn seg_from(v: VMA, hs: u64) -> u64 {
    if v.start >= hs { v.start } else { hs }
}

/// Where the part of area `v` inside a hole ending at `he` ends.
pub open spec fn seg_to(v: VMA, he: u64) -> u64 {
    if v.end <= he { v.end } else { he }
}

/// For every area of `s` that reaches into `[hs, he)`, the pages its part
/// inside the hole mapped in `m` are free in `a`.
pub open spec fn hole_given(m: Map<u64, PageTable>, pml4: u64, s: Seq<VMA>, hs: u64, he: u64, a: BuddyAllocator) -> bool {
    forall|j: int| 0 <= j < s.len() && (#[trigger] s[j]).start < he && hs < s[j].end ==>
        pages_given(m, pml4, seg_from(s[j], hs), seg_to(s[j], he) as int, a)
}

/// No part inside `[hs, he)` of an area of `s` meets a 2 MiB entry in `m`.
pub open spec fn hole_plain(m: Map<u64, PageTable>, pml4: u64, s: Seq<VMA>, hs: u64, he: u64) -> bool {
    forall|j: int| 0 <= j < s.len() && (#[trigger] s[j]).start < he && hs < s[j].end ==>
        no_huge_leaf(m, pml4, seg_from(s[j], hs), seg_to(s[j], he) as int)
}

/// One page of `unmap_pages`: unmapping `addr` (and giving back the page
/// it mapped) keeps `zeroed_ok`, and the page that `addr` mapped in `m0` is
/// free afterwards.
proof fn lemma_unmap_step(
    m0: Map<u64, PageTable>,
    a0: BuddyAllocator,
    lv: Map<u64, int>,
    pml4: u64,
    addr: u64,
    m1: Map<u64, PageTable>,
    a1: BuddyAllocator,
    m2: Map<u64, PageTable>,
    a2: BuddyAllocator,
)
    requires
        tree_ok(m0, a0, pml4, lv),
        !(pte_present(l2e(m0, pml4, addr)) && pte_huge(l2e(m0, pml4, addr))),
        zeroed_ok(m0, m1, lv, a1),
        forall|x: int| #[trigger] a1.is_free(x) ==> a2.is_free(x),
        leaf_present(m1, pml4, addr) ==> unmapped(m1, m2, pml4, addr) && page_given_back(a2, pte_addr(l1e(m1, pml4, addr))),
        !leaf_present(m1, pml4, addr) ==> mem_same(m1, m2),
    ensures
        zeroed_ok(m0, m2, lv, a2),
        leaf_present(m0, pml4, addr) ==> page_given_back(a2, pte_addr(l1e(m0, pml4, addr))),
{
    lemma_tree_walk(m0, a0, pml4, lv, addr);
    crate::paging::lemma_index_bounds(addr);
    lemma_zero_entry();
    let i4 = l4_index(addr) as int;
    let i3 = l3_index(addr) as int;
    let i2 = l2_index(addr) as int;
    let i1 = l1_index(addr) as int;
    assert(lv[pml4] == 4);
    assert(entry_at(m1, pml4, i4) == entry_at(m0, pml4, i4));
    if pte_present(l4e(m0, pml4, addr)) {
        let t3 = pte_addr(l4e(m0, pml4, addr));
        assert(entry_at(m1, t3, i3) == entry_at(m0, t3, i3));
        if pte_present(l3e(m0, pml4, addr)) {
            let t2 = pte_addr(l3e(m0, pml4, addr));
            assert(entry_at(m1, t2, i2) == entry_at(m0, t2, i2));
        }
    }
    if leaf_present(m1, pml4, addr) {
        let t1 = pte_addr(l2e(m1, pml4, addr));
        assert(l2e(m1, pml4, addr) == l2e(m0, pml4, addr));
        assert(lv.contains_key(t1) && lv[t1] == 1);
        assert(entry_at(m1, t1, i1) == entry_at(m0, t1, i1));
        assert forall|p: u64, j: int| 0 <= j < 512 && #[trigger] entry_at(m2, p, j) != entry_at(m0, p, j) implies {
            &&& entry_at(m2, p, j) == 0
            &&& !(lv.contains_key(p) && lv[p] >= 2)
            &&& lv.contains_key(p) ==> page_given_back(a2, pte_addr(entry_at(m0, p, j)))
        } by {
            if p == t1 && j == i1 {
            } else {
                assert(entry_at(m2, p, j) == entry_at(m1, p, j));
                if lv.contains_key(p) {
                    lemma_given_mono(a1, a2, pte_addr(entry_at(m0, p, j)));
                }
            }
        }
    } else {
        assert forall|p: u64, j: int| 0 <= j < 512 && #[trigger] entry_at(m2, p, j) != entry_at(m0, p, j) implies {
            &&& entry_at(m2, p, j) == 0
            &&& !(lv.contains_key(p) && lv[p] >= 2)
            &&& lv.contains_key(p) ==> page_given_back(a2, pte_addr(entry_at(m0, p, j)))
        } by {
            assert(entry_at(m2, p, j) == entry_at(m1, p, j));
            if lv.contains_key(p) {
                lemma_given_mono(a1, a2, pte_addr(entry_at(m0, p, j)));
            }
        }
        if leaf_present(m0, pml4, addr) {
            let t1 = pte_addr(l2e(m0, pml4, addr));
            assert(l2e(m1, pml4, addr) == l2e(m0, pml4, addr));
            assert(lv.contains_key(t1) && lv[t1] == 1);
            assert(entry_at(m1, t1, i1) != entry_at(m0, t1, i1));
            lemma_given_mono(a1, a2, pte_addr(entry_at(m0, t1, i1)));
        }
    }
}

/// Zeroing entries maps no page that was unmapped.
proof fn lemma_range_unmapped_stable(m1: Map<u64, PageTable>, m2: Map<u64, PageTable>, pml4: u64, from: u64, to: int)
    requires
        range_unmapped(m1, pml4, from, to),
        only_zeroed(m1, m2),
    ensures
        range_unmapped(m2, pml4, from, to),
{
    assert forall|va: u64| #[trigger] page_step(from, to, va) implies !leaf_present(m2, pml4, va) by {
        lemma_walk_stable(m1, m2, pml4, va);
    }
}

/// The pages of every area of `s` are unmapped in `m`.
pub open spec fn areas_unmapped(m: Map<u64, PageTable>, pml4: u64, s: Seq<VMA>) -> bool {
    forall|i: int| 0 <= i < s.len() ==> range_unmapped(m, pml4, (#[trigger] s[i]).start, s[i].end as int)
}

/// No area ends within the last page below 2^64.
pub open spec fn ends_fit(s: Seq<VMA>) -> bool {
    forall|i: int| 0 <= i < s.len() ==> (#[trigger] s[i]).end + 4095 <= u64::MAX
}

// ----------------------------------------------------------------------
// Punching holes
// ----------------------------------------------------------------------

/// Every area holds at least one byte.
pub open spec fn all_nonempty(s: Seq<VMA>) -> bool {
    forall|i: int| 0 <= i < s.len() ==> (#[trigger] s[i]).start < s[i].end
}

/// Area `x` holds byte `a` and carries the attributes `f` and `kd`.
pub open spec fn holds_as(x: VMA, a: int, f: VMAFlags, kd: VMAKind) -> bool {
    x.contains_spec(a) && x.flags == f && x.kind == kd
}

/// Some area of `s` holds byte `a` with the attributes `f` and `kd`.
pub open spec fn covers_as(s: Seq<VMA>, a: int, f: VMAFlags, kd: VMAKind) -> bool {
    exists|i: int| 0 <= i < s.len() && #[trigger] holds_as(s[i], a, f, kd)
}

/// No area of `s` reaches into `[lo, hi)`.
pub open spec fn apart(s: Seq<VMA>, lo: int, hi: int) -> bool {
    forall|i: int| 0 <= i < s.len() ==> (#[trigger] s[i]).end <= lo || s[i].start >= hi
}

/// `x` is one of the areas of `s`.
pub open spec fn has_area(s: Seq<VMA>, x: VMA) -> bool {
    exists|p: int| 0 <= p < s.len() && #[trigger] s[p] == x
}

/// One of the first `k` areas of `o` holds byte `a`.
pub open spec fn held_before(o: Seq<VMA>, k: int, a: int) -> bool {
    exists|j: int| 0 <= j < k && (#[trigger] o[j]).contains_spec(a)
}

/// The area of `s` that holds `a` alone decides the attributes at `a`.
proof fn lemma_covers_unique(s: Seq<VMA>, p: int, a: int, f: VMAFlags, kd: VMAKind)
    requires
        vmas_wf(s),
        0 <= p < s.len(),
        s[p].contains_spec(a),
    ensures
        covers_as(s, a, f, kd) == holds_as(s[p], a, f, kd),
{
    reveal(vmas_wf);
    if covers_as(s, a, f, kd) {
        let q = choose|q: int| 0 <= q < s.len() && #[trigger] holds_as(s[q], a, f, kd);
        if q < p {
            assert(s[q].end <= s[p].start);
        } else if p < q {
            assert(s[p].end <= s[q].start);
        }
    }
    if holds_as(s[p], a, f, kd) {
        assert(covers_as(s, a, f, kd));
    }
}

/// Among areas that hold a byte each, the one starting at `s[p].start` is
/// `s[p]`.
proof fn lemma_index_of_start(s: Seq<VMA>, p: int)
    requires
        vmas_wf(s),
        all_nonempty(s),
        0 <= p < s.len(),
    ensures
        lower_bound_spec(s, s[p].start) == p,
{
    reveal(vmas_wf);
    assert forall|i: int| 0 <= i < p implies (#[trigger] s[i]).start < s[p].start by {
        assert(s[i].start < s[i].end);
    }
    assert forall|i: int| p <= i < s.len() implies (#[trigger] s[i]).start >= s[p].start by {
        if p < i {
            assert(s[p].start <= s[i].start);
        }
    }
    lemma_lower_bound_unique(s, s[p].start, p);
}

/// An area that can be added without conflict holds no byte that the
/// areas already cover.
pub proof fn lemma_no_conflict_uncovered(s: Seq<VMA>, v: VMA, a: int)
    requires
        vmas_wf(s),
        !add_conflict(s, v),
        v.contains_spec(a),
    ensures
        !covers(s, a),
{
    reveal(vmas_wf);
    lemma_lower_bound(s, v.start);
    let idx = lower_bound_spec(s, v.start);
    if covers(s, a) {
        let i = choose|i: int| 0 <= i < s.len() && (#[trigger] s[i]).contains_spec(a);
        if i < idx - 1 {
            assert(s[i].end <= s[idx - 1].start);
        } else if i > idx {
            assert(s[idx].start <= s[i].start);
        }
    }
}

/// An area that keeps apart from every other is added without conflict.
proof fn lemma_apart_no_conflict(s: Seq<VMA>, v: VMA)
    requires
        vmas_wf(s),
        all_nonempty(s),
        v.start <= v.end,
        apart(s, v.start as int, v.end as int),
    ensures
        !add_conflict(s, v),
{
    lemma_lower_bound(s, v.start);
    let idx = lower_bound_spec(s, v.start);
    if idx > 0 {
        assert(s[idx - 1].start < v.start);
        assert(s[idx - 1].end <= v.start || s[idx - 1].start >= v.end);
    }
    if idx < s.len() {
        assert(s[idx].start >= v.start);
        assert(s[idx].start < s[idx].end);
        assert(s[idx].end <= v.start || s[idx].start >= v.end);
    }
}

/// Taking out area `p`: the rest stay ordered, hold bytes and keep apart
/// from it, and the bytes of `p` are no longer held.
#[verifier::spinoff_prover]
#[verifier::rlimit(40)]
proof fn lemma_remove_area(s: Seq<VMA>, p: int)
    requires
        vmas_wf(s),
        all_nonempty(s),
        0 <= p < s.len(),
    ensures
        vmas_wf(s.remove(p)),
        all_nonempty(s.remove(p)),
        apart(s.remove(p), s[p].start as int, s[p].end as int),
        forall|a: int, f: VMAFlags, kd: VMAKind| #[trigger] covers_as(s.remove(p), a, f, kd) == (covers_as(s, a, f, kd) && !s[p].contains_spec(a)),
        forall|x: VMA| has_area(s, x) && x != s[p] ==> #[trigger] has_area(s.remove(p), x),
{
    lemma_remove_wf(s, p);
    reveal(vmas_wf);
    let t = s.remove(p);
    assert forall|i: int| 0 <= i < t.len() implies (#[trigger] t[i]).start < t[i].end by {
        let i2 = if i < p { i } else { i + 1 };
        assert(t[i] == s[i2]);
    }
    assert forall|i: int| 0 <= i < t.len() implies (#[trigger] t[i]).end <= s[p].start || t[i].start >= s[p].end by {
        let i2 = if i < p { i } else { i + 1 };
        assert(t[i] == s[i2]);
    }
    assert forall|a: int, f: VMAFlags, kd: VMAKind| #[trigger] covers_as(t, a, f, kd) == (covers_as(s, a, f, kd) && !s[p].contains_spec(a)) by {
        if covers_as(t, a, f, kd) {
            let q = choose|q: int| 0 <= q < t.len() && #[trigger] holds_as(t[q], a, f, kd);
            let q2 = if q < p { q } else { q + 1 };
            assert(t[q] == s[q2]);
            assert(holds_as(s[q2], a, f, kd));
        }
        if covers_as(s, a, f, kd) && !s[p].contains_spec(a) {
            let q = choose|q: int| 0 <= q < s.len() && #[trigger] holds_as(s[q], a, f, kd);
            assert(q != p);
            let q2 = if q < p { q } else { q - 1 };
            assert(t[q2] == s[q]);
            assert(holds_as(t[q2], a, f, kd));
        }
    }
    assert forall|x: VMA| has_area(s, x) && x != s[p] implies #[trigger] has_area(t, x) by {
        let q = choose|q: int| 0 <= q < s.len() && #[trigger] s[q] == x;
        let q2 = if q < p { q } else { q - 1 };
        assert(t[q2] == s[q]);
    }
}

/// Adding an area that does not conflict: the attributes at each byte are
/// those of before, and those of the new area on its bytes.
#[verifier::spinoff_prover]
#[verifier::rlimit(40)]
proof fn lemma_add_area_covers(s: Seq<VMA>, v: VMA)
    requires
        vmas_wf(s),
        all_nonempty(s),
        v.start < v.end,
        !add_conflict(s, v),
    ensures
        forall|a: int, f: VMAFlags, kd: VMAKind| #[trigger] covers_as(add_vma_spec(s, v), a, f, kd) == (covers_as(s, a, f, kd) || holds_as(v, a, f, kd)),
{
    reveal(vmas_wf);
    lemma_lower_bound(s, v.start);
    let t = add_vma_spec(s, v);
    let idx = lower_bound_spec(s, v.start);
    let mp = idx > 0 && s[idx - 1].end == v.start && mergeable(s[idx - 1], v);
    let mn = idx < s.len() && v.end == s[idx].start && mergeable(v, s[idx]);
    let lo = if mp { idx - 1 } else { idx };
    let hi = if mn { idx + 1 } else { idx };
    assert forall|k: int| 0 <= k < lo implies #[trigger] t[k] == s[k] by {}
    assert forall|k: int| lo < k < t.len() implies #[trigger] t[k] == s[k - lo - 1 + hi] by {}
    assert forall|a: int, f: VMAFlags, kd: VMAKind| #[trigger] covers_as(t, a, f, kd) == (covers_as(s, a, f, kd) || holds_as(v, a, f, kd)) by {
        if covers_as(t, a, f, kd) {
            let k = choose|k: int| 0 <= k < t.len() && #[trigger] holds_as(t[k], a, f, kd);
            if k < lo {
                assert(holds_as(s[k], a, f, kd));
            } else if k > lo {
                assert(holds_as(s[k - lo - 1 + hi], a, f, kd));
            } else {
                if mp && a < v.start {
                    assert(holds_as(s[idx - 1], a, f, kd));
                } else if mn && a >= v.end {
                    assert(holds_as(s[idx], a, f, kd));
                }
            }
        }
        if covers_as(s, a, f, kd) {
            let k = choose|k: int| 0 <= k < s.len() && #[trigger] holds_as(s[k], a, f, kd);
            if k < lo {
                assert(holds_as(t[k], a, f, kd));
            } else if k >= hi {
                assert(t[k - hi + lo + 1] == s[k]);
                assert(holds_as(t[k - hi + lo + 1], a, f, kd));
            } else {
                assert(holds_as(t[lo], a, f, kd));
            }
        }
        if holds_as(v, a, f, kd) {
            assert(holds_as(t[lo], a, f, kd));
        }
    }
}

/// Adding an area that does not conflict: areas stay ordered and hold
/// bytes, every area starting after the new one ends is still there, and
/// a range above the new area that all kept apart from is still kept apart
/// from.
#[verifier::spinoff_prover]
#[verifier::rlimit(40)]
proof fn lemma_add_area(s: Seq<VMA>, v: VMA)
    requires
        vmas_wf(s),
        all_nonempty(s),
        v.start < v.end,
        !add_conflict(s, v),
    ensures
        vmas_wf(add_vma_spec(s, v)),
        all_nonempty(add_vma_spec(s, v)),
        forall|x: VMA| has_area(s, x) && x.start > v.end ==> #[trigger] has_area(add_vma_spec(s, v), x),
        forall|lo: int, hi: int| apart(s, lo, hi) && v.end <= lo < hi ==> #[trigger] apart(add_vma_spec(s, v), lo, hi),
{
    lemma_add_wf(s, v);
    reveal(vmas_wf);
    lemma_lower_bound(s, v.start);
    let t = add_vma_spec(s, v);
    let idx = lower_bound_spec(s, v.start);
    let mp = idx > 0 && s[idx - 1].end == v.start && mergeable(s[idx - 1], v);
    let mn = idx < s.len() && v.end == s[idx].start && mergeable(v, s[idx]);
    let lo = if mp { idx - 1 } else { idx };
    let hi = if mn { idx + 1 } else { idx };
    assert forall|k: int| 0 <= k < lo implies #[trigger] t[k] == s[k] by {}
    assert forall|k: int| lo < k < t.len() implies #[trigger] t[k] == s[k - lo - 1 + hi] by {}
    let m = t[lo];
    assert(m.start <= v.start && v.end <= m.end);
    assert forall|k: int| 0 <= k < t.len() implies (#[trigger] t[k]).start < t[k].end by {
        if k > lo {
            assert(t[k] == s[k - lo - 1 + hi]);
        }
    }
    assert forall|x: VMA| has_area(s, x) && x.start > v.end implies #[trigger] has_area(t, x) by {
        let q = choose|q: int| 0 <= q < s.len() && #[trigger] s[q] == x;
        if q < idx {
            assert(s[q].start < v.start);
        }
        assert(q >= hi);
        assert(t[q - hi + lo + 1] == s[q]);
    }
    assert forall|lo2: int, hi2: int| apart(s, lo2, hi2) && v.end <= lo2 < hi2 implies #[trigger] apart(t, lo2, hi2) by {
        assert forall|k: int| 0 <= k < t.len() implies (#[trigger] t[k]).end <= lo2 || t[k].start >= hi2 by {
            if k < lo {
                assert(t[k] == s[k]);
            } else if k > lo {
                assert(t[k] == s[k - lo - 1 + hi]);
            } else if mn {
                assert(s[idx].end <= lo2 || s[idx].start >= hi2);
            }
        }
    }
}

/// Bytes of `[c, d)` that no area holds leave every area apart from it.
proof fn lemma_apart_from_uncovered(s: Seq<VMA>, c: int, d: int)
    requires
        all_nonempty(s),
        c < d,
        forall|a: int, f: VMAFlags, kd: VMAKind| c <= a < d ==> !#[trigger] covers_as(s, a, f, kd),
    ensures
        apart(s, c, d),
{
    assert forall|i: int| 0 <= i < s.len() implies (#[trigger] s[i]).end <= c || s[i].start >= d by {
        if s[i].end > c && s[i].start < d {
            let x = s[i];
            let a: int = if x.start >= c { x.start as int } else { c };
            assert(x.start <= a < x.end);
            assert(holds_as(x, a, x.flags, x.kind));
            assert(covers_as(s, a, x.flags, x.kind));
        }
    }
}

/// A range inside `[lo, hi)` is kept apart from wherever `[lo, hi)` is.
proof fn lemma_apart_within(s: Seq<VMA>, lo: int, hi: int, lo2: int, hi2: int)
    requires
        apart(s, lo, hi),
        lo <= lo2,
        hi2 <= hi,
    ensures
        apart(s, lo2, hi2),
{
    assert forall|i: int| 0 <= i < s.len() implies (#[trigger] s[i]).end <= lo2 || s[i].start >= hi2 by {
        assert(s[i].end <= lo || s[i].start >= hi);
    }
}

/// `o` lists, in order, the areas of `s` that reach into `[hs, he)`.
pub open spec fn hole_areas(s: Seq<VMA>, o: Seq<VMA>, hs: u64, he: u64) -> bool {
    &&& vmas_wf(s)
    &&& all_nonempty(s)
    &&& hs <= he
    &&& forall|j: int| 0 <= j < o.len() ==> #[trigger] has_area(s, o[j])
    &&& forall|j: int| 0 <= j < o.len() ==> (#[trigger] o[j]).start < he && o[j].end > hs && o[j].start < o[j].end
    &&& forall|j1: int, j2: int| 0 <= j1 < j2 < o.len() ==> (#[trigger] o[j1]).end <= (#[trigger] o[j2]).start
}

/// The areas from `i0` up to `i1` are those that reach into the hole, and
/// every byte of the hole that some area holds is held by one of them.
#[verifier::spinoff_prover]
#[verifier::rlimit(40)]
proof fn lemma_hole_areas(s: Seq<VMA>, hs: u64, he: u64, i0: int, i1: int)
    requires
        vmas_wf(s),
        all_nonempty(s),
        hs <= he,
        0 <= i0 <= i1 <= s.len(),
        forall|i: int| 0 <= i < i0 ==> (#[trigger] s[i]).end <= hs,
        i0 < i1 ==> s[i0].end > hs || s[i0].start >= hs,
        forall|j: int| i0 <= j < i1 ==> (#[trigger] s[j]).start < he,
        i1 == s.len() || s[i1].start >= he,
    ensures
        hole_areas(s, s.subrange(i0, i1), hs, he),
        forall|a: int, f: VMAFlags, kd: VMAKind| hs <= a < he && #[trigger] covers_as(s, a, f, kd) ==> held_before(s.subrange(i0, i1), i1 - i0, a),
{
    reveal(vmas_wf);
    let o = s.subrange(i0, i1);
    assert forall|j: int| 0 <= j < o.len() implies #[trigger] has_area(s, o[j]) by {
        assert(s[i0 + j] == o[j]);
    }
    assert forall|j: int| 0 <= j < o.len() implies (#[trigger] o[j]).start < he && o[j].end > hs && o[j].start < o[j].end by {
        assert(o[j] == s[i0 + j]);
        if j > 0 {
            assert(s[i0].start <= s[i0 + j].start);
            assert(s[i0].end <= s[i0 + j].start);
            assert(s[i0].start < s[i0].end);
        }
    }
    assert forall|j1: int, j2: int| 0 <= j1 < j2 < o.len() implies (#[trigger] o[j1]).end <= (#[trigger] o[j2]).start by {
        assert(o[j1] == s[i0 + j1] && o[j2] == s[i0 + j2]);
    }
    assert forall|a: int, f: VMAFlags, kd: VMAKind| hs <= a < he && #[trigger] covers_as(s, a, f, kd) implies held_before(o, i1 - i0, a) by {
        let q = choose|q: int| 0 <= q < s.len() && #[trigger] holds_as(s[q], a, f, kd);
        if q < i0 {
            assert(s[q].end <= hs);
        } else if q >= i1 {
            if q > i1 {
                assert(s[i1].start <= s[q].start);
            }
        } else {
            assert(o[q - i0] == s[q]);
            assert(o[q - i0].contains_spec(a));
        }
    }
}

/// One area of the hole taken out and what lies outside the hole added
/// back: the bytes of that area inside the hole are no longer held, and
/// every other byte keeps its attributes.
#[verifier::spinoff_prover]
#[verifier::rlimit(40)]
proof fn lemma_punch_covers_step(
    s: Seq<VMA>,
    o: Seq<VMA>,
    k: int,
    hs: u64,
    he: u64,
    cur: Seq<VMA>,
    next: Seq<VMA>,
)
    requires
        hole_areas(s, o, hs, he),
        0 <= k < o.len(),
        forall|a: int, f: VMAFlags, kd: VMAKind| #[trigger] covers_as(cur, a, f, kd) == (covers_as(s, a, f, kd) && !(hs <= a < he && held_before(o, k, a))),
        forall|a: int, f: VMAFlags, kd: VMAKind| #[trigger] covers_as(next, a, f, kd) == (
            (covers_as(cur, a, f, kd) && !o[k].contains_spec(a))
            || (o[k].start <= a < hs && holds_as(o[k], a, f, kd))
            || (he <= a < o[k].end && holds_as(o[k], a, f, kd))),
    ensures
        forall|a: int, f: VMAFlags, kd: VMAKind| #[trigger] covers_as(next, a, f, kd) == (covers_as(s, a, f, kd) && !(hs <= a < he && held_before(o, k + 1, a))),
{
    let x = o[k];
    assert(has_area(s, x));
    let p = choose|p: int| 0 <= p < s.len() && #[trigger] s[p] == x;
    assert forall|a: int, f: VMAFlags, kd: VMAKind| #[trigger] covers_as(next, a, f, kd) == (covers_as(s, a, f, kd) && !(hs <= a < he && held_before(o, k + 1, a))) by {
        assert(covers_as(cur, a, f, kd) == (covers_as(s, a, f, kd) && !(hs <= a < he && held_before(o, k, a))));
        if x.contains_spec(a) {
            lemma_covers_unique(s, p, a, f, kd);
            assert(held_before(o, k + 1, a));
            if held_before(o, k, a) {
                let j = choose|j: int| 0 <= j < k && (#[trigger] o[j]).contains_spec(a);
                assert(o[j].end <= o[k].start);
            }
        } else {
            if held_before(o, k + 1, a) {
                let j = choose|j: int| 0 <= j < k + 1 && (#[trigger] o[j]).contains_spec(a);
                assert(held_before(o, k, a));
            }
            if held_before(o, k, a) {
                let j = choose|j: int| 0 <= j < k && (#[trigger] o[j]).contains_spec(a);
                assert(held_before(o, k + 1, a));
            }
        }
    }
}

/// Copying areas in order into a new space: once the first `i` areas of
/// `parent` are there (as far as the bytes they hold go), area `i` is
/// added without conflict and the bytes held are those of the first
/// `i + 1` areas.
pub proof fn lemma_copy_area(child: Seq<VMA>, parent: Seq<VMA>, i: int)
    requires
        vmas_wf(parent),
        all_nonempty(parent),
        vmas_wf(child),
        all_nonempty(child),
        0 <= i < parent.len(),
        forall|a: int, f: VMAFlags, kd: VMAKind| #[trigger] covers_as(child, a, f, kd) == covers_as(parent.subrange(0, i), a, f, kd),
    ensures
        !add_conflict(child, parent[i]),
        vmas_wf(add_vma_spec(child, parent[i])),
        all_nonempty(add_vma_spec(child, parent[i])),
        forall|a: int, f: VMAFlags, kd: VMAKind| #[trigger] covers_as(add_vma_spec(child, parent[i]), a, f, kd) == covers_as(parent.subrange(0, i + 1), a, f, kd),
{
    let v = parent[i];
    let pre = parent.subrange(0, i);
    assert forall|a: int, f: VMAFlags, kd: VMAKind| v.start <= a < v.end implies !#[trigger] covers_as(child, a, f, kd) by {
        if covers_as(pre, a, f, kd) {
            let q = choose|q: int| 0 <= q < pre.len() && #[trigger] holds_as(pre[q], a, f, kd);
            reveal(vmas_wf);
            assert(pre[q] == parent[q]);
            assert(parent[q].end <= parent[i].start);
        }
    }
    lemma_apart_from_uncovered(child, v.start as int, v.end as int);
    lemma_apart_no_conflict(child, v);
    lemma_add_area_covers(child, v);
    lemma_add_area(child, v);
    let pre1 = parent.subrange(0, i + 1);
    assert forall|a: int, f: VMAFlags, kd: VMAKind| #[trigger] covers_as(pre1, a, f, kd) == (covers_as(pre, a, f, kd) || holds_as(v, a, f, kd)) by {
        if covers_as(pre1, a, f, kd) {
            let q = choose|q: int| 0 <= q < pre1.len() && #[trigger] holds_as(pre1[q], a, f, kd);
            if q < i {
                assert(pre[q] == pre1[q]);
                assert(holds_as(pre[q], a, f, kd));
            }
        }
        if covers_as(pre, a, f, kd) {
            let q = choose|q: int| 0 <= q < pre.len() && #[trigger] holds_as(pre[q], a, f, kd);
            assert(pre1[q] == pre[q]);
            assert(holds_as(pre1[q], a, f, kd));
        }
        if holds_as(v, a, f, kd) {
            assert(pre1[i] == v);
            assert(holds_as(pre1[i], a, f, kd));
        }
    }
}

/// Adding an area that ends in time keeps every end in time.
pub proof fn lemma_add_ends_fit(s: Seq<VMA>, v: VMA)
    requires
        vmas_wf(s),
        ends_fit(s),
        v.end + 4095 <= u64::MAX,
        !add_conflict(s, v),
    ensures
        ends_fit(add_vma_spec(s, v)),
{
    lemma_lower_bound(s, v.start);
    let t = add_vma_spec(s, v);
    let idx = lower_bound_spec(s, v.start);
    let mp = idx > 0 && s[idx - 1].end == v.start && mergeable(s[idx - 1], v);
    let mn = idx < s.len() && v.end == s[idx].start && mergeable(v, s[idx]);
    let lo = if mp { idx - 1 } else { idx };
    let hi = if mn { idx + 1 } else { idx };
    assert forall|k: int| 0 <= k < t.len() implies (#[trigger] t[k]).end + 4095 <= u64::MAX by {
        if k < lo {
            assert(t[k] == s[k]);
        } else if k > lo {
            assert(t[k] == s[k - lo - 1 + hi]);
        }
    }
}

/// The lower bound is an index of `s` or its length, ordered or not.
pub proof fn lemma_lower_bound_range(s: Seq<VMA>, x: u64)
    ensures
        0 <= lower_bound_spec(s, x) <= s.len(),
    decreases s.len(),
{
    if s.len() > 0 && s.last().start >= x {
        lemma_lower_bound_range(s.drop_last(), x);
    }
}

/// Adding an area whose end fits keeps every end in time, whether it
/// conflicts or not: each area of the result ends where an area of `s`
/// or the new one ends.
pub proof fn lemma_add_ends_fit_any(s: Seq<VMA>, v: VMA)
    requires
        ends_fit(s),
        v.end + 4095 <= u64::MAX,
    ensures
        ends_fit(add_vma_spec(s, v)),
{
    lemma_lower_bound_range(s, v.start);
    let t = add_vma_spec(s, v);
    let idx = lower_bound_spec(s, v.start);
    let mp = idx > 0 && s[idx - 1].end == v.start && mergeable(s[idx - 1], v);
    let mn = idx < s.len() && v.end == s[idx].start && mergeable(v, s[idx]);
    let lo = if mp { idx - 1 } else { idx };
    let hi = if mn { idx + 1 } else { idx };
    assert forall|k: int| 0 <= k < t.len() implies (#[trigger] t[k]).end + 4095 <= u64::MAX by {
        if k < lo {
            assert(t[k] == s[k]);
        } else if k > lo {
            assert(t[k] == s[k - lo - 1 + hi]);
        }
    }
}

// ----------------------------------------------------------------------
// Address spaces
// ----------------------------------------------------------------------

pub struct AddressSpace {
    pub page_table: PageTableManager,
    pub vmas: Vec<VMA>,
    pub owner_pid: Pid,
}

impl AddressSpace {
    pub open spec fn wf(&self) -> bool {
        vmas_wf(self.vmas@)
    }

    pub fn new(page_table: PageTableManager, owner_pid: Pid) -> (r: Self)
        ensures
            r.wf(),
            r.vmas@ == Seq::<VMA>::empty(),
            r.page_table == page_table,
            r.owner_pid == owner_pid,
    {
        proof {
            reveal(vmas_wf);
        }
        Self { page_table, vmas: Vec::new(), owner_pid }
    }

    /// The smallest index whose area starts at or above `start`.
    fn lower_bound(&self, start: u64) -> (r: usize)
        requires
            self.wf(),
        ensures
            r == lower_bound_spec(self.vmas@, start),
    {
        let mut lo: usize = 0;
        let mut hi: usize = self.vmas.len();
        while lo < hi
            invariant
                0 <= lo <= hi <= self.vmas@.len(),
                vmas_wf(self.vmas@),
                forall|i: int| 0 <= i < lo ==> (#[trigger] self.vmas@[i]).start < start,
                forall|i: int| hi <= i < self.vmas@.len() ==> (#[trigger] self.vmas@[i]).start >= start,
            decreases hi - lo,
        {
            let mid = lo + (hi - lo) / 2;
            proof {
                reveal(vmas_wf);
            }
            if self.vmas[mid].start < start {
                proof {
                    assert forall|i: int| 0 <= i < mid + 1 implies (#[trigger] self.vmas@[i]).start < start by {
                        if i < mid {
                            assert(self.vmas@[i].start <= self.vmas@[mid as int].start);
                        }
                    }
                }
                lo = mid + 1;
            } else {
                proof {
                    assert forall|i: int| mid <= i < self.vmas@.len() implies (#[trigger] self.vmas@[i]).start >= start by {
                        if i > mid {
                            assert(self.vmas@[mid as int].start <= self.vmas@[i].start);
                        }
                    }
                }
                hi = mid;
            }
        }
        proof {
            lemma_lower_bound_unique(self.vmas@, start, lo as int);
        }
        lo
    }

    /// Inserts `v` in order, joined with its neighbours where they touch it
    /// and carry the same attributes.
    #[verifier::rlimit(60)]
    #[verifier::spinoff_prover]
    pub fn add_vma(&mut self, vma: VMA) -> (r: Result<(), &'static str>)
        requires
            old(self).wf(),
        ensures
            final(self).wf(),
            final(self).page_table == old(self).page_table,
            final(self).owner_pid == old(self).owner_pid,
            r is Err <==> add_conflict(old(self).vmas@, vma),
            r is Err ==> err_is(r, "VMA overlap") && final(self).vmas@ == old(self).vmas@,
            r is Ok ==> final(self).vmas@ == add_vma_spec(old(self).vmas@, vma),
    {
        let ghost s = self.vmas@;
        let idx = self.lower_bound(vma.start);
        proof {
            lemma_lower_bound(s, vma.start);
        }
        if idx > 0 {
            let prev = &self.vmas[idx - 1];
            if prev.end > vma.start {
                return Err("VMA overlap");
            }
        }
        if idx < self.vmas.len() {
            let next = &self.vmas[idx];
            if vma.end > next.start {
                return Err("VMA overlap");
            }
        }
        let mut merged = vma;
        let mut insert_idx = idx;
        let ghost lo: int = if idx > 0 && s[idx - 1].end == vma.start && mergeable(s[idx - 1], vma) { idx - 1 } else { idx as int };
        let ghost hi: int = if idx < s.len() && vma.end == s[idx as int].start && mergeable(vma, s[idx as int]) { idx + 1 } else { idx as int };
        if insert_idx > 0 {
            let prev = self.vmas[insert_idx - 1];
            if prev.end == merged.start && prev.mergeable_with(&merged) {
                merged.start = prev.start;
                self.vmas.remove(insert_idx - 1);
                insert_idx = insert_idx - 1;
                proof {
                    assert(self.vmas@ =~= s.subrange(0, lo) + s.subrange(idx as int, s.len() as int));
                }
            } else {
                proof {
                    assert(s =~= s.subrange(0, lo) + s.subrange(idx as int, s.len() as int));
                }
            }
        } else {
            proof {
                assert(s =~= s.subrange(0, lo) + s.subrange(idx as int, s.len() as int));
            }
        }
        let ghost s1 = self.vmas@;
        proof {
            assert(insert_idx == lo);
            assert(s1.len() == lo + s.len() - idx);
            assert forall|k: int| lo <= k < s1.len() implies #[trigger] s1[k] == s[k - lo + idx] by {}
        }
        if insert_idx < self.vmas.len() {
            let next = self.vmas[insert_idx];
            if merged.end == next.start && merged.mergeable_with(&next) {
                merged.end = next.end;
                self.vmas.remove(insert_idx);
                proof {
                    assert(self.vmas@ =~= s.subrange(0, lo) + s.subrange(hi, s.len() as int));
                }
            } else {
                proof {
                    assert(self.vmas@ =~= s.subrange(0, lo) + s.subrange(hi, s.len() as int));
                }
            }
        } else {
            proof {
                assert(self.vmas@ =~= s.subrange(0, lo) + s.subrange(hi, s.len() as int));
            }
        }
        proof {
            assert(merged == add_vma_spec(s, vma)[lo]);
        }
        self.vmas.insert(insert_idx, merged);
        proof {
            assert(self.vmas@ =~= add_vma_spec(s, vma));
            lemma_add_wf(s, vma);
        }
        Ok(())
    }

    /// The area that contains `addr`.
    pub fn find_vma(&self, addr: u64) -> (r: Option<&VMA>)
        requires
            self.wf(),
        ensures
            match r {
                Some(v) => exists|i: int| 0 <= i < self.vmas@.len() && self.vmas@[i] == *v && v.contains_spec(addr as int),
                None => !covers(self.vmas@, addr as int),
            },
    {
        let mut lo: usize = 0;
        let mut hi: usize = self.vmas.len();
        while lo < hi
            invariant
                0 <= lo <= hi <= self.vmas@.len(),
                vmas_wf(self.vmas@),
                forall|i: int| 0 <= i < lo ==> (#[trigger] self.vmas@[i]).start <= addr,
                forall|i: int| hi <= i < self.vmas@.len() ==> (#[trigger] self.vmas@[i]).start > addr,
            decreases hi - lo,
        {
            let mid = lo + (hi - lo) / 2;
            proof {
                reveal(vmas_wf);
            }
            if self.vmas[mid].start <= addr {
                proof {
                    assert forall|i: int| 0 <= i < mid + 1 implies (#[trigger] self.vmas@[i]).start <= addr by {
                        if i < mid {
                            assert(self.vmas@[i].start <= self.vmas@[mid as int].start);
                        }
                    }
                }
                lo = mid + 1;
            } else {
                proof {
                    assert forall|i: int| mid <= i < self.vmas@.len() implies (#[trigger] self.vmas@[i]).start > addr by {
                        if i > mid {
                            assert(self.vmas@[mid as int].start <= self.vmas@[i].start);
                        }
                    }
                }
                hi = mid;
            }
        }
        proof {
            reveal(vmas_wf);
        }
        if lo == 0 {
            proof {
                assert forall|i: int| 0 <= i < self.vmas@.len() implies !(#[trigger] self.vmas@[i]).contains_spec(addr as int) by {}
            }
            return None;
        }
        let candidate = &self.vmas[lo - 1];
        if candidate.contains(addr) {
            Some(candidate)
        } else {
            proof {
                assert forall|i: int| 0 <= i < self.vmas@.len() implies !(#[trigger] self.vmas@[i]).contains_spec(addr as int) by {
                    if i < lo - 1 {
                        assert(self.vmas@[i].end <= self.vmas@[lo - 1].start);
                    }
                }
            }
            None
        }
    }

    /// The first gap of the zone that holds `size` bytes.
    fn find_free_area(&self, size: u64) -> (r: Option<u64>)
        requires
            self.wf(),
        ensures
            r == free_area_spec(self.vmas@, size),
    {
        let ghost s = self.vmas@;
        let mut cursor: u64 = MMAP_ZONE_START;
        let mut i: usize = 0;
        while i < self.vmas.len()
            invariant
                i <= s.len(),
                s == self.vmas@,
                free_area_from(s, i as int, cursor, size) == free_area_spec(s, size),
            ensures
                i >= s.len() || s[i as int].start >= MMAP_ZONE_END,
                free_area_from(s, i as int, cursor, size) == free_area_spec(s, size),
            decreases s.len() - i,
        {
            let v = self.vmas[i];
            if v.start >= MMAP_ZONE_END {
                break;
            }
            if v.end > MMAP_ZONE_START {
                let gap = if v.start >= cursor { v.start - cursor } else { 0 };
                if gap >= size {
                    return Some(cursor);
                }
                cursor = if cursor >= v.end { cursor } else { v.end };
            }
            i = i + 1;
        }
        let room = if MMAP_ZONE_END >= cursor { MMAP_ZONE_END - cursor } else { 0 };
        if room >= size {
            Some(cursor)
        } else {
            None
        }
    }

    /// Adds an area of `size` bytes at `addr` rounded up to a page, or, for
    /// `addr == 0`, at the first gap of the zone; returns its start.
    pub fn mmap(&mut self, addr: u64, size: usize, flags: VMAFlags, kind: VMAKind) -> (r: Result<u64, &'static str>)
        requires
            old(self).wf(),
            size + 0x1000 <= u64::MAX,
            addr != 0 ==> addr + 0x1000 <= u64::MAX && align_up_spec(addr as int, 4096) + size + 0x1000 <= u64::MAX,
            addr == 0 && size == 0 ==> (free_area_spec(old(self).vmas@, 0) matches Some(c) ==> c + 0x1000 <= u64::MAX),
        ensures
            final(self).wf(),
            final(self).page_table == old(self).page_table,
            final(self).owner_pid == old(self).owner_pid,
            ({
                let s = old(self).vmas@;
                let start = if addr == 0 {
                    free_area_spec(s, align_up_spec(size as int, 4096) as u64)
                } else {
                    Some(align_up_spec(addr as int, 4096) as u64)
                };
                match start {
                    None => err_is(r, "No free area for mmap") && final(self).vmas@ == s,
                    Some(st) => {
                        let v = VMA { start: st, end: align_up_spec(st + size, 4096) as u64, flags, kind };
                        &&& add_conflict(s, v) ==> err_is(r, "VMA overlap") && final(self).vmas@ == s
                        &&& !add_conflict(s, v) ==> r == Ok::<u64, &'static str>(st) && final(self).vmas@ == add_vma_spec(s, v)
                    },
                }
            }),
    {
        let aligned_size = align_up(size as u64, PAGE_SIZE as u64);
        let start = if addr == 0 {
            match self.find_free_area(aligned_size) {
                Some(c) => {
                    proof {
                        if aligned_size > 0 {
                            law_free_area_is_free(self.vmas@, aligned_size);
                        } else {
                            lemma_align_zero(size as u64);
                        }
                    }
                    c
                },
                None => return Err("No free area for mmap"),
            }
        } else {
            align_up(addr, PAGE_SIZE as u64)
        };
        let end = align_up(start + (size as u64), PAGE_SIZE as u64);
        match self.add_vma(VMA::new(start, end, flags, kind)) {
            Ok(()) => Ok(start),
            Err(e) => Err(e),
        }
    }

    /// Grows (or sets) the heap: the heap area with the greatest end is
    /// replaced by one from its start to `new_end`; without a heap area a
    /// read-write heap area `[brk_start, new_end)` is added.
    pub fn extend_heap(&mut self, brk_start: u64, new_end: u64) -> (r: Result<(), &'static str>)
        requires
            old(self).wf(),
        ensures
            final(self).wf(),
            final(self).page_table == old(self).page_table,
            final(self).owner_pid == old(self).owner_pid,
            (r is Ok, final(self).vmas@) == heap_outcome(old(self).vmas@, brk_start, new_end),
            r is Err ==> err_is(r, "VMA overlap"),
            ({
                let s = old(self).vmas@;
                if has_heap(s) {
                    let k = choose|k: int| is_heap_pick(s, k);
                    let i = lower_bound_spec(s, s[k].start);
                    let s1 = s.remove(i);
                    let v = VMA { start: s[k].start, end: new_end, flags: s[i].flags, kind: s[i].kind };
                    &&& is_heap_pick(s, k)
                    &&& r is Err <==> add_conflict(s1, v)
                    &&& r is Err ==> err_is(r, "VMA overlap") && final(self).vmas@ == s1
                    &&& r is Ok ==> final(self).vmas@ == add_vma_spec(s1, v)
                } else {
                    let v = VMA { start: brk_start, end: new_end, flags: VMAFlags { read: true, write: true, execute: false }, kind: VMAKind::Heap };
                    &&& r is Err <==> add_conflict(s, v)
                    &&& r is Err ==> err_is(r, "VMA overlap") && final(self).vmas@ == s
                    &&& r is Ok ==> final(self).vmas@ == add_vma_spec(s, v)
                }
            }),
    {
        let ghost s = self.vmas@;
        let mut best_start: Option<u64> = None;
        let mut best_end: u64 = 0;
        let ghost mut best_k: int = -1;
        let mut i: usize = 0;
        while i < self.vmas.len()
            invariant
                i <= s.len(),
                s == self.vmas@,
                best_start is None <==> best_k == -1,
                best_start is None ==> best_end == 0 && forall|j: int| 0 <= j < i && (#[trigger] s[j]).kind == VMAKind::Heap ==> s[j].end == 0,
                best_start is Some ==> {
                    &&& 0 <= best_k < i
                    &&& best_start == Some(s[best_k].start)
                    &&& best_end == s[best_k].end
                    &&& s[best_k].kind == VMAKind::Heap
                    &&& s[best_k].end > 0
                    &&& forall|j: int| 0 <= j < best_k && (#[trigger] s[j]).kind == VMAKind::Heap ==> s[j].end < s[best_k].end
                    &&& forall|j: int| best_k < j < i && (#[trigger] s[j]).kind == VMAKind::Heap ==> s[j].end <= s[best_k].end
                },
            decreases s.len() - i,
        {
            let v = self.vmas[i];
            if v.kind == VMAKind::Heap && v.end > best_end {
                best_end = v.end;
                best_start = Some(v.start);
                proof {
                    best_k = i as int;
                }
            }
            i = i + 1;
        }
        match best_start {
            Some(start) => {
                proof {
                    assert(is_heap_pick(s, best_k));
                    assert(has_heap(s));
                    let k = choose|k: int| is_heap_pick(s, k);
                    if k < best_k {
                        assert(s[k].end < s[best_k].end);
                    } else if k > best_k {
                        assert(s[best_k].end < s[k].end);
                    }
                    assert(k == best_k);
                    assert(s[best_k].start == start);
                }
                let existing = self.remove_vma(start).unwrap();
                self.add_vma(VMA::new(start, new_end, existing.flags, existing.kind))
            },
            None => {
                proof {
                    if has_heap(s) {
                        let j = choose|j: int| 0 <= j < s.len() && (#[trigger] s[j]).kind == VMAKind::Heap && s[j].end > 0;
                        assert(s[j].end == 0);
                    }
                }
                self.add_vma(VMA::new(brk_start, new_end, VMAFlags::rw(), VMAKind::Heap))
            },
        }
    }

    /// Unmaps the pages `from`, `from + 4096`, ... below `to`, giving each
    /// mapped page back to the allocator and dropping its owner record.
    /// `base`, `base_alloc` and `lv` name an earlier state whose tables form
    /// a tree with levels `lv`; when only last-level entries have been
    /// cleared since then (each with its page given back), that stays so
    /// and every page the range mapped in `base` is free afterwards.
    fn unmap_pages(
        &mut self,
        from: u64,
        to: u64,
        alloc: &mut BuddyAllocator,
        mem: &mut PhysMemory,
        owners: &mut PageOwners,
        Ghost(base): Ghost<Map<u64, PageTable>>,
        Ghost(base_alloc): Ghost<BuddyAllocator>,
        Ghost(lv): Ghost<Map<u64, int>>,
    )
        requires
            old(alloc).wf(),
            to + 4095 <= u64::MAX,
        ensures
            final(self).vmas == old(self).vmas,
            final(self).owner_pid == old(self).owner_pid,
            final(self).page_table.pml4() == old(self).page_table.pml4(),
            final(alloc).wf(),
            only_zeroed(old(mem)@, final(mem)@),
            range_unmapped(final(mem)@, old(self).page_table.pml4(), from, to as int),
            freed_mapped_pages(*old(alloc), *final(alloc), old(mem)@, old(self).page_table.pml4(), from, to as int),
            kept_records(old(owners).owners@, final(owners).owners@),
            final(owners).capacity == old(owners).capacity,
            tree_ok(base, base_alloc, old(self).page_table.pml4(), lv)
                && no_huge_leaf(base, old(self).page_table.pml4(), from, to as int)
                && zeroed_ok(base, old(mem)@, lv, *old(alloc))
                ==> zeroed_ok(base, final(mem)@, lv, *final(alloc))
                    && pages_given(base, old(self).page_table.pml4(), from, to as int, *final(alloc)),
    {
        let ghost pml4 = self.page_table.pml4();
        let ghost m0 = mem@;
        let ghost a0 = *alloc;
        let ghost hyp = tree_ok(base, base_alloc, pml4, lv) && no_huge_leaf(base, pml4, from, to as int) && zeroed_ok(base, m0, lv, a0);
        proof {
            lemma_only_zeroed_refl(m0);
            lemma_kept_refl(owners.owners@);
        }
        let mut addr = from;
        while addr < to
            invariant
                from <= addr,
                addr == from || addr <= to + 4095,
                (addr - from) % 4096 == 0,
                to + 4095 <= u64::MAX,
                self.vmas == old(self).vmas,
                self.owner_pid == old(self).owner_pid,
                self.page_table.pml4() == pml4,
                alloc.wf(),
                only_zeroed(m0, mem@),
                range_unmapped(mem@, pml4, from, addr as int),
                freed_mapped_pages(a0, *alloc, m0, pml4, from, addr as int),
                kept_records(old(owners).owners@, owners.owners@),
                owners.capacity == old(owners).capacity,
                hyp ==> tree_ok(base, base_alloc, pml4, lv),
                hyp ==> no_huge_leaf(base, pml4, from, to as int),
                hyp ==> zeroed_ok(base, mem@, lv, *alloc),
                hyp ==> pages_given(base, pml4, from, addr as int, *alloc),
            decreases to + 4096 - addr,
        {
            let ghost m1 = mem@;
            let ghost a1 = *alloc;
            let ghost o1 = owners.owners@;
            let r = self.page_table.unmap(addr, mem);
            let ghost m2 = mem@;
            proof {
                lemma_walk_stable(m0, m1, pml4, addr);
                if leaf_present(m1, pml4, addr) {
                    lemma_unmapped(m1, mem@, pml4, addr);
                } else {
                    lemma_same_only_zeroed(m1, mem@);
                }
                lemma_only_zeroed_trans(m0, m1, mem@);
            }
            if let Some(phys) = r {
                let ghost a_pre = *alloc;
                let freed = alloc.release(phys, 0);
                proof {
                    if crate::allocator::block_ok(phys@, 0) {
                        vstd::arithmetic::power2::lemma2_to64();
                        if !freed {
                            let y = choose|y: int| #[trigger] in_block(y, phys@, 0) && a_pre.is_free(y);
                            crate::allocator::lemma_page_all_free(a_pre, phys@ as int, y);
                        }
                        assert forall|y: int| #[trigger] in_block(y, phys@, 0) implies alloc.is_free(y) by {
                            if !freed {
                                assert(a_pre.is_free(y));
                            }
                        }
                    }
                    assert(page_given_back(*alloc, phys@));
                }
                untrack(owners, phys.as_u64());
                proof {
                    lemma_kept_trans(old(owners).owners@, o1, owners.owners@);
                }
            }
            proof {
                if hyp {
                    assert(page_step(from, to as int, addr));
                    lemma_unmap_step(base, base_alloc, lv, pml4, addr, m1, a1, m2, *alloc);
                    assert forall|va: u64| #[trigger] page_step(from, addr + 4096, va) && leaf_present(base, pml4, va)
                        implies page_given_back(*alloc, pte_addr(l1e(base, pml4, va))) by {
                        if va != addr {
                            assert(page_step(from, addr as int, va));
                            lemma_given_mono(a1, *alloc, pte_addr(l1e(base, pml4, va)));
                        }
                    }
                }
            }
            proof {
                let m2 = mem@;
                assert forall|va: u64| #[trigger] page_step(from, addr + 4096, va) implies !leaf_present(m2, pml4, va) by {
                    if va != addr {
                        assert(page_step(from, addr as int, va));
                    }
                    lemma_walk_stable(m1, m2, pml4, va);
                }
                assert forall|a: int| #[trigger] alloc.is_free(a) implies a0.is_free(a) || exists|va: u64|
                    #[trigger] page_step(from, addr + 4096, va) && leaf_present(m0, pml4, va) && in_block(a, pte_addr(l1e(m0, pml4, va)), 0) by {
                    if a1.is_free(a) {
                        if !a0.is_free(a) {
                            let va = choose|va: u64| #[trigger] page_step(from, addr as int, va) && leaf_present(m0, pml4, va) && in_block(a, pte_addr(l1e(m0, pml4, va)), 0);
                            assert(page_step(from, addr + 4096, va));
                        }
                    } else {
                        assert(page_step(from, addr + 4096, addr));
                    }
                }
            }
            addr = addr + 4096;
        }
        proof {
            assert forall|va: u64| #[trigger] page_step(from, to as int, va) implies page_step(from, addr as int, va) by {}
            assert forall|a: int| #[trigger] alloc.is_free(a) implies a0.is_free(a) || exists|va: u64|
                #[trigger] page_step(from, to as int, va) && leaf_present(m0, pml4, va) && in_block(a, pte_addr(l1e(m0, pml4, va)), 0) by {
                if !a0.is_free(a) {
                    let va = choose|va: u64| #[trigger] page_step(from, addr as int, va) && leaf_present(m0, pml4, va) && in_block(a, pte_addr(l1e(m0, pml4, va)), 0);
                    assert(page_step(from, to as int, va));
                }
            }
        }
    }

    /// Removes the area that starts at `addr` rounded up to a page and
    /// unmaps the pages of `[start, start + size)` rounded up to pages,
    /// freeing them.
    pub fn munmap(
        &mut self,
        addr: u64,
        size: usize,
        allocator: &mut BuddyAllocator,
        mem: &mut PhysMemory,
        owners: &mut PageOwners,
    ) -> (r: Result<(), &'static str>)
        requires
            old(self).wf(),
            old(allocator).wf(),
            addr + 0x1000 <= u64::MAX,
            align_up_spec(addr as int, 4096) + size + 0x1000 <= u64::MAX,
        ensures
            final(self).wf(),
            final(self).page_table.pml4() == old(self).page_table.pml4(),
            final(self).owner_pid == old(self).owner_pid,
            final(allocator).wf(),
            ({
                let s = old(self).vmas@;
                let start = align_up_spec(addr as int, 4096) as u64;
                let end = align_up_spec(start + size, 4096);
                let pml4 = old(self).page_table.pml4();
                if exists|i: int| 0 <= i < s.len() && (#[trigger] s[i]).start == start {
                    &&& r is Ok
                    &&& final(self).vmas@ == s.remove(lower_bound_spec(s, start))
                    &&& only_zeroed(old(mem)@, final(mem)@)
                    &&& range_unmapped(final(mem)@, pml4, start, end)
                    &&& freed_mapped_pages(*old(allocator), *final(allocator), old(mem)@, pml4, start, end)
                    &&& is_tree(old(mem)@, *old(allocator), pml4) && no_huge_leaf(old(mem)@, pml4, start, end)
                        ==> pages_given(old(mem)@, pml4, start, end, *final(allocator))
                    &&& kept_records(old(owners).owners@, final(owners).owners@)
                } else {
                    &&& err_is(r, "VMA not found")
                    &&& final(self).vmas@ == s
                    &&& final(mem)@ == old(mem)@
                    &&& *final(allocator) == *old(allocator)
                    &&& *final(owners) == *old(owners)
                }
            }),
    {
        let start = align_up(addr, PAGE_SIZE as u64);
        let end = align_up(start + (size as u64), PAGE_SIZE as u64);
        match self.remove_vma(start) {
            Some(_) => {},
            None => return Err("VMA not found"),
        }
        let ghost m0 = mem@;
        let ghost a0 = *allocator;
        let ghost pml4 = self.page_table.pml4();
        let ghost lv: Map<u64, int> = choose|lv: Map<u64, int>| tree_ok(m0, a0, pml4, lv);
        self.unmap_pages(start, end, allocator, mem, owners, Ghost(m0), Ghost(a0), Ghost(lv));
        proof {
            if is_tree(m0, a0, pml4) {
                lemma_zeroed_refl(m0, lv, a0);
            }
        }
        Ok(())
    }

    /// Frees every page that an area maps, unmaps it and forgets all areas.
    pub fn clear_user(&mut self, alloc: &mut BuddyAllocator, mem: &mut PhysMemory, owners: &mut PageOwners)
        requires
            old(self).wf(),
            old(alloc).wf(),
            ends_fit(old(self).vmas@),
        ensures
            final(self).wf(),
            final(self).vmas@ == Seq::<VMA>::empty(),
            final(self).page_table.pml4() == old(self).page_table.pml4(),
            final(self).owner_pid == old(self).owner_pid,
            final(alloc).wf(),
            forall|a: int| #[trigger] old(alloc).is_free(a) ==> final(alloc).is_free(a),
            only_zeroed(old(mem)@, final(mem)@),
            areas_unmapped(final(mem)@, old(self).page_table.pml4(), old(self).vmas@),
            is_tree(old(mem)@, *old(alloc), old(self).page_table.pml4())
                && areas_plain(old(mem)@, old(self).page_table.pml4(), old(self).vmas@)
                ==> areas_given(old(mem)@, old(self).page_table.pml4(), old(self).vmas@, old(self).vmas@.len() as int, *final(alloc)),
            old(self).vmas@.len() == 0 ==> final(mem)@ == old(mem)@ && *final(alloc) == *old(alloc),
            kept_records(old(owners).owners@, final(owners).owners@),
            final(owners).capacity == old(owners).capacity,
    {
        let ghost m0 = mem@;
        let ghost a0 = *alloc;
        let ghost pml4 = self.page_table.pml4();
        let ghost hyp = is_tree(m0, a0, pml4) && areas_plain(m0, pml4, old(self).vmas@);
        let ghost lv: Map<u64, int> = if hyp { choose|lv: Map<u64, int>| tree_ok(m0, a0, pml4, lv) } else { Map::empty() };
        proof {
            lemma_only_zeroed_refl(m0);
            lemma_kept_refl(owners.owners@);
        }
        let mut k: usize = 0;
        while k < self.vmas.len()
            invariant
                old(self).vmas@.len() == 0 ==> mem@ == old(mem)@ && *alloc == *old(alloc),
                self.vmas@ == old(self).vmas@,
                ends_fit(self.vmas@),
                self.page_table.pml4() == old(self).page_table.pml4(),
                self.owner_pid == old(self).owner_pid,
                alloc.wf(),
                forall|a: int| #[trigger] old(alloc).is_free(a) ==> alloc.is_free(a),
                only_zeroed(m0, mem@),
                kept_records(old(owners).owners@, owners.owners@),
                owners.capacity == old(owners).capacity,
                pml4 == old(self).page_table.pml4(),
                k <= self.vmas@.len(),
                areas_unmapped(mem@, pml4, self.vmas@.subrange(0, k as int)),
                hyp == (is_tree(m0, a0, pml4) && areas_plain(m0, pml4, old(self).vmas@)),
                hyp ==> tree_ok(m0, a0, pml4, lv),
                hyp ==> zeroed_ok(m0, mem@, lv, *alloc),
                hyp ==> areas_given(m0, pml4, old(self).vmas@, k as int, *alloc),
            decreases self.vmas@.len() - k,
        {
            let vma = self.vmas[k];
            let ghost mk = mem@;
            let mut addr = vma.start;
            while addr < vma.end
                invariant
                    vma.end + 4095 <= u64::MAX,
                    addr == vma.start || addr <= vma.end + 4095,
                    vma.start <= addr,
                    (addr - vma.start) % 4096 == 0,
                    only_zeroed(mk, mem@),
                    range_unmapped(mem@, pml4, vma.start, addr as int),
                    pml4 == old(self).page_table.pml4(),
                    k < old(self).vmas@.len(),
                    vma == old(self).vmas@[k as int],
                    hyp == (is_tree(m0, a0, pml4) && areas_plain(m0, pml4, old(self).vmas@)),
                    hyp ==> tree_ok(m0, a0, pml4, lv),
                    hyp ==> zeroed_ok(m0, mem@, lv, *alloc),
                    hyp ==> areas_given(m0, pml4, old(self).vmas@, k as int, *alloc),
                    hyp ==> pages_given(m0, pml4, vma.start, addr as int, *alloc),
                    self.vmas@ == old(self).vmas@,
                    self.page_table.pml4() == old(self).page_table.pml4(),
                    self.owner_pid == old(self).owner_pid,
                    alloc.wf(),
                    forall|a: int| #[trigger] old(alloc).is_free(a) ==> alloc.is_free(a),
                    only_zeroed(m0, mem@),
                    kept_records(old(owners).owners@, owners.owners@),
                    owners.capacity == old(owners).capacity,
                decreases vma.end + 4096 - addr,
            {
                let ghost m1 = mem@;
                let ghost a1 = *alloc;
                proof {
                    if hyp {
                        lemma_upper_same(m0, a0, lv, pml4, addr, m1, a1);
                        assert(page_step(vma.start, vma.end as int, addr));
                        assert(old(self).vmas@[k as int].start % 4096 == 0 && no_huge_leaf(m0, pml4, vma.start, vma.end as int));
                        assert(!(pte_present(l2e(m0, pml4, addr)) && pte_huge(l2e(m0, pml4, addr))));
                        vstd::arithmetic::power2::lemma2_to64();
                        vstd::bits::lemma_u64_low_bits_mask_is_mod(addr, 12);
                        assert(addr % 4096 == 0);
                        assert(addr & 0xfffu64 == 0);
                    }
                }
                if let Some(phys) = self.page_table.translate(addr, mem) {
                    let ghost a_pre = *alloc;
                    let freed = alloc.release(phys, 0);
                    proof {
                        if crate::allocator::block_ok(phys@, 0) {
                            vstd::arithmetic::power2::lemma2_to64();
                            if !freed {
                                let y = choose|y: int| #[trigger] in_block(y, phys@, 0) && a_pre.is_free(y);
                                crate::allocator::lemma_page_all_free(a_pre, phys@ as int, y);
                            }
                            assert forall|y: int| #[trigger] in_block(y, phys@, 0) implies alloc.is_free(y) by {
                                if !freed {
                                    assert(a_pre.is_free(y));
                                }
                            }
                        }
                        assert(page_given_back(*alloc, phys@));
                        if hyp && leaf_present(m1, pml4, addr) {
                            assert(phys@ == pte_addr(l1e(m1, pml4, addr)));
                        }
                    }
                    let ghost o1 = owners.owners@;
                    untrack(owners, phys.as_u64());
                    let r = self.page_table.unmap(addr, mem);
                    proof {
                        lemma_kept_trans(old(owners).owners@, o1, owners.owners@);
                        if leaf_present(m1, self.page_table.pml4(), addr) {
                            lemma_unmapped(m1, mem@, self.page_table.pml4(), addr);
                        } else {
                            lemma_same_only_zeroed(m1, mem@);
                            lemma_walk_stable(m1, mem@, pml4, addr);
                        }
                        lemma_only_zeroed_trans(m0, m1, mem@);
                    }
                } else {
                    proof {
                        lemma_only_zeroed_refl(m1);
                    }
                }
                proof {
                    let m2 = mem@;
                    if hyp {
                        lemma_unmap_step(m0, a0, lv, pml4, addr, m1, a1, m2, *alloc);
                        lemma_pages_given_mono(m0, pml4, vma.start, addr as int, a1, *alloc);
                        assert forall|va: u64| #[trigger] page_step(vma.start, addr + 4096, va) && leaf_present(m0, pml4, va)
                            implies page_given_back(*alloc, pte_addr(l1e(m0, pml4, va))) by {
                            if va != addr {
                                assert(page_step(vma.start, addr as int, va));
                            }
                        }
                        let s0 = old(self).vmas@;
                        assert forall|i: int| 0 <= i < k implies pages_given(m0, pml4, (#[trigger] s0[i]).start, s0[i].end as int, *alloc) by {
                            lemma_pages_given_mono(m0, pml4, s0[i].start, s0[i].end as int, a1, *alloc);
                        }
                    }
                    lemma_only_zeroed_trans(mk, m1, m2);
                    lemma_range_unmapped_stable(m1, m2, pml4, vma.start, addr as int);
                    assert forall|va: u64| #[trigger] page_step(vma.start, addr + 4096, va) implies !leaf_present(m2, pml4, va) by {
                        if va != addr {
                            assert(page_step(vma.start, addr as int, va));
                        }
                    }
                }
                addr = addr + 4096;
            }
            proof {
                let s = self.vmas@;
                assert forall|va: u64| #[trigger] page_step(vma.start, vma.end as int, va) implies !leaf_present(mem@, pml4, va) by {
                    assert(page_step(vma.start, addr as int, va));
                }
                if hyp {
                    let s0 = old(self).vmas@;
                    assert forall|va: u64| #[trigger] page_step(vma.start, vma.end as int, va) && leaf_present(m0, pml4, va)
                        implies page_given_back(*alloc, pte_addr(l1e(m0, pml4, va))) by {
                        assert(page_step(vma.start, addr as int, va));
                    }
                    assert forall|i: int| 0 <= i < k + 1 implies pages_given(m0, pml4, (#[trigger] s0[i]).start, s0[i].end as int, *alloc) by {
                        if i == k {
                            assert(s0[i] == vma);
                        }
                    }
                }
                assert forall|i: int| 0 <= i < k + 1 implies range_unmapped(mem@, pml4, (#[trigger] s.subrange(0, k + 1)[i]).start, s.subrange(0, k + 1)[i].end as int) by {
                    if i < k {
                        assert(s.subrange(0, k + 1)[i] == s.subrange(0, k as int)[i]);
                        lemma_range_unmapped_stable(mk, mem@, pml4, s[i].start, s[i].end as int);
                    } else {
                        assert(s.subrange(0, k + 1)[i] == vma);
                    }
                }
            }
            k = k + 1;
        }
        proof {
            assert(self.vmas@.subrange(0, k as int) =~= old(self).vmas@);
        }
        self.vmas.clear();
        proof {
            reveal(vmas_wf);
        }
    }

    /// Unmaps and frees every page of every area, forgets the areas, frees
    /// the lower-half page tables and the PML4 itself.
    pub fn destroy(&mut self, alloc: &mut BuddyAllocator, mem: &mut PhysMemory, owners: &mut PageOwners)
        requires
            old(self).wf(),
            old(alloc).wf(),
            ends_fit(old(self).vmas@),
        ensures
            final(self).wf(),
            final(self).vmas@ == Seq::<VMA>::empty(),
            final(self).page_table.pml4() == old(self).page_table.pml4(),
            final(self).owner_pid == old(self).owner_pid,
            final(alloc).wf(),
            forall|a: int| #[trigger] old(alloc).is_free(a) ==> final(alloc).is_free(a),
            only_zeroed(old(mem)@, final(mem)@),
            forall|j: int| 0 <= j < 256 ==> !pte_present(#[trigger] entry_at(final(mem)@, old(self).page_table.pml4(), j)),
            page_given_back(*final(alloc), old(self).page_table.pml4()),
            is_tree(old(mem)@, *old(alloc), old(self).page_table.pml4())
                && areas_plain(old(mem)@, old(self).page_table.pml4(), old(self).vmas@)
                ==> areas_given(old(mem)@, old(self).page_table.pml4(), old(self).vmas@, old(self).vmas@.len() as int, *final(alloc)),
            kept_records(old(owners).owners@, final(owners).owners@),
    {
        let ghost m0 = mem@;
        let ghost a0 = *alloc;
        let ghost root = self.page_table.pml4();
        let ghost hyp = is_tree(m0, a0, root) && areas_plain(m0, root, old(self).vmas@);
        let ghost lv: Map<u64, int> = if hyp { choose|lv: Map<u64, int>| tree_ok(m0, a0, root, lv) } else { Map::empty() };
        proof {
            lemma_only_zeroed_refl(m0);
            lemma_kept_refl(owners.owners@);
            lemma_zeroed_refl(m0, lv, a0);
        }
        let mut k: usize = 0;
        while k < self.vmas.len()
            invariant
                self.vmas@ == old(self).vmas@,
                ends_fit(self.vmas@),
                self.page_table.pml4() == old(self).page_table.pml4(),
                self.owner_pid == old(self).owner_pid,
                alloc.wf(),
                forall|a: int| #[trigger] old(alloc).is_free(a) ==> alloc.is_free(a),
                only_zeroed(m0, mem@),
                kept_records(old(owners).owners@, owners.owners@),
                root == old(self).page_table.pml4(),
                k <= self.vmas@.len(),
                hyp == (is_tree(m0, a0, root) && areas_plain(m0, root, old(self).vmas@)),
                hyp ==> tree_ok(m0, a0, root, lv),
                hyp ==> zeroed_ok(m0, mem@, lv, *alloc),
                hyp ==> areas_given(m0, root, old(self).vmas@, k as int, *alloc),
            decreases self.vmas@.len() - k,
        {
            let vma = self.vmas[k];
            let ghost m1 = mem@;
            let ghost a1 = *alloc;
            let ghost o1 = owners.owners@;
            self.unmap_pages(vma.start, vma.end, alloc, mem, owners, Ghost(m0), Ghost(a0), Ghost(lv));
            proof {
                if hyp {
                    let s0 = old(self).vmas@;
                    assert(s0[k as int] == vma);
                    assert forall|i: int| 0 <= i < k + 1 implies pages_given(m0, root, (#[trigger] s0[i]).start, s0[i].end as int, *alloc) by {
                        if i < k {
                            lemma_pages_given_mono(m0, root, s0[i].start, s0[i].end as int, a1, *alloc);
                        }
                    }
                }
            }
            proof {
                lemma_only_zeroed_trans(m0, m1, mem@);
                lemma_kept_trans(old(owners).owners@, o1, owners.owners@);
            }
            k = k + 1;
        }
        self.vmas.clear();
        let ghost m2 = mem@;
        let ghost a_mid = *alloc;
        self.page_table.free_user_tables(alloc, mem);
        let pml4 = self.page_table.pml4_phys();
        let ghost a_pre = *alloc;
        let freed = alloc.release(pml4, 0);
        proof {
            if crate::allocator::block_ok(pml4@, 0) {
                vstd::arithmetic::power2::lemma2_to64();
                if !freed {
                    let y = choose|y: int| #[trigger] in_block(y, pml4@, 0) && a_pre.is_free(y);
                    crate::allocator::lemma_page_all_free(a_pre, pml4@ as int, y);
                }
                assert forall|y: int| #[trigger] in_block(y, pml4@, 0) implies alloc.is_free(y) by {
                    if !freed {
                        assert(a_pre.is_free(y));
                    }
                }
            }
        }
        let ghost o2 = owners.owners@;
        untrack(owners, pml4.as_u64());
        proof {
            if hyp {
                let s0 = old(self).vmas@;
                assert forall|i: int| 0 <= i < s0.len() implies pages_given(m0, root, (#[trigger] s0[i]).start, s0[i].end as int, *alloc) by {
                    lemma_pages_given_mono(m0, root, s0[i].start, s0[i].end as int, a_mid, *alloc);
                }
            }
            reveal(vmas_wf);
            lemma_only_zeroed_trans(m0, m2, mem@);
            lemma_kept_trans(old(owners).owners@, o2, owners.owners@);
        }
    }

    /// Resolves a fault at `fault_addr`: an address already mapped needs
    /// nothing; one inside an area gets a fresh zeroed page, recorded under
    /// the area's kind and the space's owner, mapped with the area's rights.
    pub fn handle_page_fault(
        &mut self,
        fault_addr: u64,
        allocator: &mut BuddyAllocator,
        mem: &mut PhysMemory,
        owners: &mut PageOwners,
    ) -> (r: Result<(), &'static str>)
        requires
            old(self).wf(),
            old(allocator).wf(),
            old(owners).has_room()
                || translate_spec(old(mem)@, old(self).page_table.pml4(), fault_addr & !0xfffu64) is Some
                || !covers(old(self).vmas@, fault_addr as int)
                || first_nonempty(old(allocator).lists(), 0) == MAX_ORDER,
        ensures
            final(self).vmas@ == old(self).vmas@,
            final(self).owner_pid == old(self).owner_pid,
            final(self).page_table.pml4() == old(self).page_table.pml4(),
            final(allocator).wf(),
            ({
                let page = fault_addr & !0xfffu64;
                let pml4 = old(self).page_table.pml4();
                let lists = old(allocator).lists();
                if translate_spec(old(mem)@, pml4, page) is Some {
                    &&& r is Ok
                    &&& final(mem)@ == old(mem)@ && *final(allocator) == *old(allocator) && *final(owners) == *old(owners)
                } else if !covers(old(self).vmas@, fault_addr as int) {
                    &&& err_is(r, "No VMA for fault address")
                    &&& final(mem)@ == old(mem)@ && *final(allocator) == *old(allocator) && *final(owners) == *old(owners)
                } else if first_nonempty(lists, 0) == MAX_ORDER {
                    &&& err_is(r, "Out of memory")
                    &&& final(mem)@ == old(mem)@ && final(allocator).lists() == lists && *final(owners) == *old(owners)
                } else {
                    let phys = lists[first_nonempty(lists, 0) as int].last();
                    let i = choose|i: int| 0 <= i < old(self).vmas@.len() && (#[trigger] old(self).vmas@[i]).contains_spec(fault_addr as int);
                    let v = old(self).vmas@[i];
                    &&& old(self).vmas@[i].contains_spec(fault_addr as int)
                    &&& final(owners).owners@.len() == old(owners).owners@.len() + 1
                    &&& final(owners).owners@.drop_last() == old(owners).owners@
                    &&& final(owners).owners@.last().0 == phys
                    &&& final(owners).owners@.last().1.pid == old(self).owner_pid
                    &&& final(owners).owners@.last().1.order == 0
                    &&& (v.kind == VMAKind::Anonymous ==> final(owners).owners@.last().1.tag@ == "vma:anon"@)
                    &&& (v.kind == VMAKind::Stack ==> final(owners).owners@.last().1.tag@ == "vma:stack"@)
                    &&& (v.kind == VMAKind::Heap ==> final(owners).owners@.last().1.tag@ == "vma:heap"@)
                    &&& forall|q: u64| #[trigger] final(allocator).is_free(q as int) ==> old(allocator).is_free(q as int) && !in_block(q as int, phys, 0)
                    &&& (path_ok(old(mem)@, *old(allocator), pml4, page) && r is Ok) ==>
                        forall|j: int| 0 <= j < 512 ==> #[trigger] entry_at(final(mem)@, phys, j) == 0
                    &&& (path_ok(old(mem)@, *old(allocator), pml4, page) && !huge_on_path(old(mem)@, pml4, page, 3)
                        && (old(allocator).free_pages() >= 4 || (pte_present(l4e(old(mem)@, pml4, page))
                            && pte_present(l3e(old(mem)@, pml4, page)) && pte_present(l2e(old(mem)@, pml4, page))))) ==> {
                        &&& r is Ok
                        &&& translate_spec(final(mem)@, pml4, page) == Some(phys)
                        &&& l1e(final(mem)@, pml4, page) == phys | (page_bits(v.flags) | 1)
                    }
                }
            }),
    {
        let page_addr = fault_addr & !0xfffu64;
        if self.page_table.translate(page_addr, mem).is_some() {
            return Ok(());
        }
        let vma = match self.find_vma(fault_addr) {
            Some(v) => *v,
            None => return Err("No VMA for fault address"),
        };
        proof {
            reveal(vmas_wf);
            let s = self.vmas@;
            let i = choose|i: int| 0 <= i < s.len() && (#[trigger] s[i]).contains_spec(fault_addr as int);
            let j = choose|j: int| 0 <= j < s.len() && s[j] == vma && vma.contains_spec(fault_addr as int);
            if i < j {
                assert(s[i].end <= s[j].start);
            } else if j < i {
                assert(s[j].end <= s[i].start);
            }
            assert(s[i] == vma);
        }
        let ghost a0 = *allocator;
        let phys = match allocator.allocate(0) {
            Some(p) => p,
            None => return Err("Out of memory"),
        };
        track(owners, phys.as_u64(), 0, vma.kind.owner_tag(), self.owner_pid);
        let ghost m0 = mem@;
        mem.zero_page(phys.as_u64());
        let ghost m1 = mem@;
        let ghost a1 = *allocator;
        let ghost pml4 = self.page_table.pml4();
        proof {
            vstd::arithmetic::power2::lemma2_to64();
            lemma_zero_walk(m0, m1, a0, a1, pml4, page_addr, phys@);
        }
        let res = self.page_table.map(page_addr, phys, vma.flags.to_page_flags(), allocator, mem);
        proof {
            let pv: u64 = phys@;
            assert(pv & 0x000f_ffff_ffff_f000u64 == pv) by (bit_vector)
                requires pv % 4096 == 0, pv < 0x10_0000_0000_0000u64;
            assert(page_addr & 0xfff == 0) by (bit_vector)
                requires page_addr == fault_addr & !0xfffu64;
        }
        proof {
            let lists = a0.lists();
            assert(phys@ == lists[first_nonempty(lists, 0) as int].last());
            assert(a1.free_pages() + 1 == a0.free_pages());
            if path_ok(old(mem)@, a0, pml4, page_addr) && !huge_on_path(old(mem)@, pml4, page_addr, 3) && (a0.free_pages() >= 4
                || (pte_present(l4e(old(mem)@, pml4, page_addr)) && pte_present(l3e(old(mem)@, pml4, page_addr)) && pte_present(l2e(old(mem)@, pml4, page_addr)))) {
                assert(path_ok(m1, a1, pml4, page_addr));
                assert(!huge_on_path(m1, pml4, page_addr, 3));
                if a0.free_pages() < 4 {
                    let m = old(mem)@;
                    let ph: u64 = phys@;
                    assert(in_block(ph as int, ph, 0));
                    assert(a0.is_free(ph as int));
                    assert(pml4 != ph);
                    crate::paging::lemma_index_bounds(page_addr);
                    assert(m0 == m);
                    assert(l4e(m1, pml4, page_addr) == l4e(m, pml4, page_addr));
                    assert(pte_addr(l4e(m, pml4, page_addr)) != ph);
                    assert(l3e(m1, pml4, page_addr) == l3e(m, pml4, page_addr));
                    assert(pte_addr(l3e(m, pml4, page_addr)) != ph);
                    assert(l2e(m1, pml4, page_addr) == l2e(m, pml4, page_addr));
                }
                assert(res is Some);
                assert(translate_spec(mem@, pml4, page_addr) == Some(phys@));
            }
            let v = vma;
            assert(owners.owners@.len() == old(owners).owners@.len() + 1);
            assert(owners.owners@.drop_last() == old(owners).owners@);
            assert(owners.owners@.last().0 == phys@);
            assert(owners.owners@.last().1.pid == old(self).owner_pid);
            assert(v.kind == VMAKind::Anonymous ==> owners.owners@.last().1.tag@ == "vma:anon"@);
            assert forall|q: u64| #[trigger] allocator.is_free(q as int) implies a0.is_free(q as int) && !in_block(q as int, phys@, 0) by {
                assert(allocator.page_free(q) ==> a1.page_free(q));
            }
            assert(translate_spec(old(mem)@, pml4, page_addr) is None);
            assert(covers(old(self).vmas@, fault_addr as int));
            if path_ok(old(mem)@, a0, pml4, page_addr) && res is Some {
                let ph: u64 = phys@;
                let m = old(mem)@;
                assert(in_block(ph as int, ph, 0));
                assert(a0.is_free(ph as int));
                assert(!a1.is_free(ph as int));
                assert(path_ok(m1, a1, pml4, page_addr));
                assert(pml4 != ph);
                crate::paging::lemma_index_bounds(page_addr);
                assert(m0 == m);
                assert(l4e(m1, pml4, page_addr) == l4e(m, pml4, page_addr));
                if pte_present(l4e(m, pml4, page_addr)) {
                    assert(pte_addr(l4e(m, pml4, page_addr)) != ph);
                    assert(l3e(m1, pml4, page_addr) == l3e(m, pml4, page_addr));
                    if pte_present(l3e(m, pml4, page_addr)) {
                        assert(pte_addr(l3e(m, pml4, page_addr)) != ph);
                        assert(l2e(m1, pml4, page_addr) == l2e(m, pml4, page_addr));
                    }
                }
                let mf = mem@;
                assert(pte_addr(l4e(mf, pml4, page_addr)) != ph);
                assert(pte_addr(l3e(mf, pml4, page_addr)) != ph);
                assert(pte_addr(l2e(mf, pml4, page_addr)) != ph);
                assert forall|j: int| 0 <= j < 512 implies #[trigger] entry_at(mem@, ph, j) == 0 by {
                    assert(entry_at(mem@, ph, j) == entry_at(m1, ph, j));
                }
            }
        }
        match res {
            Some(()) => Ok(()),
            None => Err("Failed to map page"),
        }
    }

    /// Takes `[hole_start, hole_end)` out of every area that overlaps it:
    /// such an area is removed, its pages inside the hole are unmapped and
    /// freed, and what lies left and right of the hole is added back.
    #[verifier::spinoff_prover]
    #[verifier::rlimit(40)]
    fn punch_hole(
        &mut self,
        hole_start: u64,
        hole_end: u64,
        alloc: &mut BuddyAllocator,
        mem: &mut PhysMemory,
        owners: &mut PageOwners,
    ) -> (r: Result<(), &'static str>)
        requires
            old(self).wf(),
            old(alloc).wf(),
            hole_end + 4095 <= u64::MAX,
        ensures
            final(self).wf(),
            final(self).page_table.pml4() == old(self).page_table.pml4(),
            final(self).owner_pid == old(self).owner_pid,
            final(alloc).wf(),
            forall|a: int| #[trigger] old(alloc).is_free(a) ==> final(alloc).is_free(a),
            only_zeroed(old(mem)@, final(mem)@),
            kept_records(old(owners).owners@, final(owners).owners@),
            r is Err ==> err_is(r, "VMA overlap"),
            all_nonempty(old(self).vmas@) && hole_start <= hole_end ==> {
                &&& r is Ok
                &&& all_nonempty(final(self).vmas@)
                &&& forall|a: int, f: VMAFlags, kd: VMAKind| #[trigger] covers_as(final(self).vmas@, a, f, kd)
                    == (covers_as(old(self).vmas@, a, f, kd) && !(hole_start <= a < hole_end))
            },
            r is Ok && is_tree(old(mem)@, *old(alloc), old(self).page_table.pml4())
                && hole_plain(old(mem)@, old(self).page_table.pml4(), old(self).vmas@, hole_start, hole_end)
                ==> hole_given(old(mem)@, old(self).page_table.pml4(), old(self).vmas@, hole_start, hole_end, *final(alloc)),
    {
        let ghost m0 = mem@;
        let ghost a0 = *alloc;
        let ghost root = self.page_table.pml4();
        let ghost s = self.vmas@;
        let ghost p = all_nonempty(s) && hole_start <= hole_end;
        let ghost hyp = is_tree(m0, a0, root) && hole_plain(m0, root, s, hole_start, hole_end);
        let ghost lv: Map<u64, int> = if hyp { choose|lv: Map<u64, int>| tree_ok(m0, a0, root, lv) } else { Map::empty() };
        proof {
            lemma_only_zeroed_refl(m0);
            lemma_kept_refl(owners.owners@);
            lemma_zeroed_refl(m0, lv, a0);
        }
        let mut i = self.lower_bound(hole_start);
        proof {
            lemma_lower_bound(s, hole_start);
            reveal(vmas_wf);
        }
        if i > 0 && self.vmas[i - 1].end > hole_start {
            i = i - 1;
        }
        let ghost i0 = i as int;
        proof {
            assert forall|j: int| 0 <= j < i0 implies (#[trigger] s[j]).end <= hole_start by {
                if i0 > 0 && j < i0 - 1 {
                    assert(s[j].end <= s[i0 - 1].start);
                }
            }
        }
        let mut overlapping: Vec<VMA> = Vec::new();
        while i < self.vmas.len() && self.vmas[i].start < hole_end
            invariant
                self.vmas@ == s,
                0 <= i0 <= i <= s.len(),
                overlapping@ == s.subrange(i0, i as int),
                forall|j: int| i0 <= j < i ==> (#[trigger] s[j]).start < hole_end,
            decreases s.len() - i,
        {
            overlapping.push(self.vmas[i]);
            i = i + 1;
            proof {
                assert(overlapping@ =~= s.subrange(i0, i as int));
            }
        }
        let ghost o = overlapping@;
        let ghost i1 = i as int;
        proof {
            if p {
                lemma_hole_areas(s, hole_start, hole_end, i0, i as int);
            }
            assert(i1 < s.len() ==> s[i1].start >= hole_end);
            assert forall|j: int| i1 <= j < s.len() implies (#[trigger] s[j]).start >= hole_end by {
                if j > i1 {
                    assert(s[i1].start <= s[j].start);
                }
            }
        }
        let mut k: usize = 0;
        while k < overlapping.len()
            invariant
                self.wf(),
                self.page_table.pml4() == old(self).page_table.pml4(),
                self.owner_pid == old(self).owner_pid,
                alloc.wf(),
                forall|a: int| #[trigger] old(alloc).is_free(a) ==> alloc.is_free(a),
                only_zeroed(m0, mem@),
                kept_records(old(owners).owners@, owners.owners@),
                hole_end + 4095 <= u64::MAX,
                m0 == old(mem)@,
                s == old(self).vmas@,
                overlapping@ == o,
                k <= o.len(),
                p == (all_nonempty(s) && hole_start <= hole_end),
                p ==> hole_areas(s, o, hole_start, hole_end),
                p ==> forall|a: int, f: VMAFlags, kd: VMAKind| hole_start <= a < hole_end && #[trigger] covers_as(s, a, f, kd) ==> held_before(o, o.len() as int, a),
                p ==> all_nonempty(self.vmas@),
                p ==> forall|j: int| k <= j < o.len() ==> #[trigger] has_area(self.vmas@, o[j]),
                p ==> forall|a: int, f: VMAFlags, kd: VMAKind| #[trigger] covers_as(self.vmas@, a, f, kd)
                    == (covers_as(s, a, f, kd) && !(hole_start <= a < hole_end && held_before(o, k as int, a))),
                root == old(self).page_table.pml4(),
                a0 == *old(alloc),
                o == s.subrange(i0, i1),
                0 <= i0 <= i1 <= s.len(),
                hyp == (is_tree(m0, a0, root) && hole_plain(m0, root, s, hole_start, hole_end)),
                hyp ==> tree_ok(m0, a0, root, lv),
                hyp ==> zeroed_ok(m0, mem@, lv, *alloc),
                hyp ==> forall|kk: int| 0 <= kk < k ==> pages_given(m0, root, seg_from(#[trigger] o[kk], hole_start), seg_to(o[kk], hole_end) as int, *alloc),
            decreases o.len() - k,
        {
            let vma = overlapping[k];
            let ghost cur = self.vmas@;
            proof {
                if p {
                    assert(has_area(cur, o[k as int]));
                    let q = choose|q: int| 0 <= q < cur.len() && #[trigger] cur[q] == vma;
                    lemma_index_of_start(cur, q);
                    lemma_remove_area(cur, q);
                    assert forall|j: int| k < j < o.len() implies #[trigger] has_area(cur.remove(q), o[j]) by {
                        assert(o[k as int].end <= o[j].start);
                        assert(has_area(cur, o[j]));
                    }
                }
            }
            self.remove_vma(vma.start);
            let ghost cur1 = self.vmas@;
            let from = if vma.start >= hole_start { vma.start } else { hole_start };
            let to = if vma.end <= hole_end { vma.end } else { hole_end };
            let ghost m1 = mem@;
            let ghost a1 = *alloc;
            let ghost o1 = owners.owners@;
            proof {
                if hyp {
                    assert(o[k as int] == s[i0 + k]);
                    assert(from == seg_from(o[k as int], hole_start) && to == seg_to(o[k as int], hole_end));
                    if s[i0 + k].start < hole_end && hole_start < s[i0 + k].end {
                        assert(no_huge_leaf(m0, root, from, to as int));
                    } else {
                        assert forall|va: u64| #[trigger] page_step(from, to as int, va) implies
                            !(pte_present(l2e(m0, root, va)) && pte_huge(l2e(m0, root, va))) by {
                        }
                    }
                }
            }
            self.unmap_pages(from, to, alloc, mem, owners, Ghost(m0), Ghost(a0), Ghost(lv));
            proof {
                if hyp {
                    assert forall|kk: int| 0 <= kk < k + 1 implies pages_given(m0, root, seg_from(#[trigger] o[kk], hole_start), seg_to(o[kk], hole_end) as int, *alloc) by {
                        if kk < k {
                            lemma_pages_given_mono(m0, root, seg_from(o[kk], hole_start), seg_to(o[kk], hole_end) as int, a1, *alloc);
                        }
                    }
                }
                lemma_only_zeroed_trans(m0, m1, mem@);
                lemma_kept_trans(old(owners).owners@, o1, owners.owners@);
                if p {
                    lemma_apart_within(cur1, vma.start as int, vma.end as int, hole_end as int, vma.end as int);
                }
            }
            if vma.start < hole_start {
                let left = VMA::new(vma.start, hole_start, vma.flags, vma.kind);
                proof {
                    if p {
                        lemma_apart_within(cur1, vma.start as int, vma.end as int, vma.start as int, hole_start as int);
                        lemma_apart_no_conflict(cur1, left);
                        lemma_add_area_covers(cur1, left);
                        lemma_add_area(cur1, left);
                        assert(apart(add_vma_spec(cur1, left), hole_end as int, vma.end as int) || vma.end <= hole_end);
                        assert forall|j: int| k < j < o.len() implies #[trigger] has_area(add_vma_spec(cur1, left), o[j]) by {
                            assert(o[k as int].end <= o[j].start);
                            assert(has_area(cur1, o[j]));
                        }
                    }
                }
                match self.add_vma(left) {
                    Ok(()) => {},
                    Err(e) => return Err(e),
                }
            }
            let ghost cur2 = self.vmas@;
            proof {
                if p {
                    assert forall|a: int, f: VMAFlags, kd: VMAKind| #[trigger] covers_as(cur2, a, f, kd) == (covers_as(cur1, a, f, kd)
                        || (vma.start <= a < hole_start && holds_as(vma, a, f, kd))) by {
                        if vma.start < hole_start {
                            let left = VMA { start: vma.start, end: hole_start, flags: vma.flags, kind: vma.kind };
                            assert(holds_as(left, a, f, kd) == (vma.start <= a < hole_start && holds_as(vma, a, f, kd)));
                        }
                    }
                }
            }
            if vma.end > hole_end {
                let right = VMA::new(hole_end, vma.end, vma.flags, vma.kind);
                proof {
                    if p {
                        assert forall|j: int| k < j < o.len() implies #[trigger] has_area(add_vma_spec(cur2, right), o[j]) by {
                            assert(o[k as int].end <= o[j].start);
                        }
                        lemma_apart_no_conflict(cur2, right);
                        lemma_add_area_covers(cur2, right);
                        lemma_add_area(cur2, right);
                    }
                }
                match self.add_vma(right) {
                    Ok(()) => {},
                    Err(e) => return Err(e),
                }
            }
            proof {
                if p {
                    let next = self.vmas@;
                    assert forall|a: int, f: VMAFlags, kd: VMAKind| #[trigger] covers_as(next, a, f, kd) == (
                        (covers_as(cur, a, f, kd) && !o[k as int].contains_spec(a))
                        || (o[k as int].start <= a < hole_start && holds_as(o[k as int], a, f, kd))
                        || (hole_end <= a < o[k as int].end && holds_as(o[k as int], a, f, kd))) by {
                        assert(covers_as(cur2, a, f, kd) == (covers_as(cur1, a, f, kd)
                            || (vma.start <= a < hole_start && holds_as(vma, a, f, kd))));
                        if vma.end > hole_end {
                            let right = VMA { start: hole_end, end: vma.end, flags: vma.flags, kind: vma.kind };
                            assert(holds_as(right, a, f, kd) == (hole_end <= a < vma.end && holds_as(vma, a, f, kd)));
                        }
                    }
                    lemma_punch_covers_step(s, o, k as int, hole_start, hole_end, cur, next);
                }
            }
            k = k + 1;
        }
        proof {
            if hyp {
                assert forall|j: int| 0 <= j < s.len() && (#[trigger] s[j]).start < hole_end && hole_start < s[j].end implies
                    pages_given(m0, root, seg_from(s[j], hole_start), seg_to(s[j], hole_end) as int, *alloc) by {
                    assert(i0 <= j < i1);
                    assert(o[j - i0] == s[j]);
                }
            }
            if p {
                assert forall|a: int, f: VMAFlags, kd: VMAKind| #[trigger] covers_as(self.vmas@, a, f, kd)
                    == (covers_as(s, a, f, kd) && !(hole_start <= a < hole_end)) by {
                    if covers_as(s, a, f, kd) && hole_start <= a < hole_end {
                        assert(held_before(o, o.len() as int, a));
                    }
                }
            }
        }
        Ok(())
    }

    /// Places an area exactly at `addr` rounded up to a page, first taking
    /// its range out of the areas already there; returns its start.
    pub fn mmap_fixed(
        &mut self,
        addr: u64,
        size: usize,
        flags: VMAFlags,
        kind: VMAKind,
        alloc: &mut BuddyAllocator,
        mem: &mut PhysMemory,
        owners: &mut PageOwners,
    ) -> (r: Result<u64, &'static str>)
        requires
            old(self).wf(),
            old(alloc).wf(),
            addr + 0x1000 <= u64::MAX,
            align_up_spec(addr as int, 4096) + size + 0x1000 <= u64::MAX,
        ensures
            final(self).wf(),
            final(self).page_table.pml4() == old(self).page_table.pml4(),
            final(self).owner_pid == old(self).owner_pid,
            final(alloc).wf(),
            forall|a: int| #[trigger] old(alloc).is_free(a) ==> final(alloc).is_free(a),
            only_zeroed(old(mem)@, final(mem)@),
            kept_records(old(owners).owners@, final(owners).owners@),
            r is Err ==> err_is(r, "VMA overlap"),
            r is Ok ==> r == Ok::<u64, &'static str>(align_up_spec(addr as int, 4096) as u64),
            all_nonempty(old(self).vmas@) && size > 0 ==> {
                let start = align_up_spec(addr as int, 4096);
                let end = align_up_spec(start + size, 4096);
                &&& r is Ok
                &&& all_nonempty(final(self).vmas@)
                &&& forall|a: int, f: VMAFlags, kd: VMAKind| #[trigger] covers_as(final(self).vmas@, a, f, kd)
                    == if start <= a < end { f == flags && kd == kind } else { covers_as(old(self).vmas@, a, f, kd) }
            },
            ({
                let start = align_up_spec(addr as int, 4096) as u64;
                let end = align_up_spec(start + size, 4096) as u64;
                let pml4 = old(self).page_table.pml4();
                r is Ok && is_tree(old(mem)@, *old(alloc), pml4) && hole_plain(old(mem)@, pml4, old(self).vmas@, start, end)
                    ==> hole_given(old(mem)@, pml4, old(self).vmas@, start, end, *final(alloc))
            }),
    {
        let start = align_up(addr, PAGE_SIZE as u64);
        let end = align_up(start + (size as u64), PAGE_SIZE as u64);
        match self.punch_hole(start, end, alloc, mem, owners) {
            Ok(()) => {},
            Err(e) => return Err(e),
        }
        let area = VMA::new(start, end, flags, kind);
        let ghost cur = self.vmas@;
        proof {
            if all_nonempty(old(self).vmas@) && size > 0 {
                lemma_apart_from_uncovered(cur, start as int, end as int);
                lemma_apart_no_conflict(cur, area);
                lemma_add_area_covers(cur, area);
                lemma_add_area(cur, area);
            }
        }
        match self.add_vma(area) {
            Ok(()) => Ok(start),
            Err(e) => Err(e),
        }
    }

    /// Removes the area that starts at `start`.
    pub fn remove_vma(&mut self, start: u64) -> (r: Option<VMA>)
        requires
            old(self).wf(),
        ensures
            final(self).wf(),
            final(self).page_table == old(self).page_table,
            final(self).owner_pid == old(self).owner_pid,
            r is Some <==> exists|i: int| 0 <= i < old(self).vmas@.len() && (#[trigger] old(self).vmas@[i]).start == start,
            ({
                let i = lower_bound_spec(old(self).vmas@, start);
                match r {
                    Some(v) => {
                        &&& i < old(self).vmas@.len()
                        &&& v == old(self).vmas@[i]
                        &&& final(self).vmas@ == old(self).vmas@.remove(i)
                    },
                    None => final(self).vmas@ == old(self).vmas@,
                }
            }),
    {
        let ghost s = self.vmas@;
        let idx = self.lower_bound(start);
        proof {
            lemma_lower_bound(s, start);
        }
        if idx < self.vmas.len() && self.vmas[idx].start == start {
            let v = self.vmas.remove(idx);
            proof {
                lemma_remove_wf(s, idx as int);
            }
            Some(v)
        } else {
            proof {
                assert forall|i: int| 0 <= i < s.len() implies (#[trigger] s[i]).start != start by {
                    if i > idx {
                        reveal(vmas_wf);
                        assert(s[idx as int].start <= s[i].start);
                    }
                }
            }
            None
        }
    }
}

} // verus!
