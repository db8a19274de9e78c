//! Four-level x86-64 page tables.
//!
//! Page-table pages live in `PhysMemory`, a sparse model of physical memory
//! in which a page that was never written reads as all zeros. A
//! `PageTableManager` names the physical address of its PML4 table.

use vstd::prelude::*;
use vstd::hash_map::HashMapWithView;
use crate::allocator::{BuddyAllocator, PhysAddr, PHYS_LIMIT, block_ok, in_block};
use crate::page_owner::{PageOwner, PageOwners, Pid, track};
use vstd::arithmetic::power2::*;

verus! {

broadcast use vstd::std_specs::hash::group_hash_axioms;

pub const PHYS_ADDR_MASK: u64 = 0x000f_ffff_ffff_f000;

pub const KERNEL_VIRT_BASE: u64 = 0xffff_8000_0000_0000;

pub const SIZE_2MB: u64 = 0x20_0000;

pub const SIZE_4KB: u64 = 0x1000;

/// Every flag bit that `PageFlags` knows of.
pub const ALL_FLAG_BITS: u64 = 0x8000_0000_0000_00e7;

// ----------------------------------------------------------------------
// Flags
// ----------------------------------------------------------------------

#[derive(Debug, Clone, Copy, PartialEq, Eq, Structural)]
pub struct PageFlags {
    pub bits: u64,
}

impl PageFlags {
    /// Only known flag bits are set.
    pub open spec fn valid(self) -> bool {
        self.bits & !ALL_FLAG_BITS == 0
    }

    pub fn empty() -> (r: Self)
        ensures
            r.bits == 0,
            r.valid(),
    {
        proof {
            lemma_bit_constants();
        }
        PageFlags { bits: 0 }
    }

    pub fn present() -> (r: Self)
        ensures
            r.bits == 1,
            r.valid(),
    {
        proof {
            lemma_bit_constants();
        }
        PageFlags { bits: 1 }
    }

    pub fn writable() -> (r: Self)
        ensures
            r.bits == 2,
            r.valid(),
    {
        proof {
            lemma_bit_constants();
        }
        PageFlags { bits: 2 }
    }

    pub fn user() -> (r: Self)
        ensures
            r.bits == 4,
            r.valid(),
    {
        proof {
            lemma_bit_constants();
        }
        PageFlags { bits: 4 }
    }

    pub fn accessed() -> (r: Self)
        ensures
            r.bits == 0x20,
            r.valid(),
    {
        proof {
            lemma_bit_constants();
        }
        PageFlags { bits: 0x20 }
    }

    pub fn dirty() -> (r: Self)
        ensures
            r.bits == 0x40,
            r.valid(),
    {
        proof {
            lemma_bit_constants();
        }
        PageFlags { bits: 0x40 }
    }

    pub fn huge() -> (r: Self)
        ensures
            r.bits == 0x80,
            r.valid(),
    {
        proof {
            lemma_bit_constants();
        }
        PageFlags { bits: 0x80 }
    }

    pub fn no_exec() -> (r: Self)
        ensures
            r.bits == 0x8000_0000_0000_0000,
            r.valid(),
    {
        proof {
            lemma_bit_constants();
        }
        PageFlags { bits: 0x8000_0000_0000_0000 }
    }

    pub fn bits(self) -> (r: u64)
        ensures
            r == self.bits,
    {
        self.bits
    }

    /// Keeps only the known flag bits of `bits`.
    pub fn from_bits_truncate(bits: u64) -> (r: Self)
        ensures
            r.bits == bits & ALL_FLAG_BITS,
            r.valid(),
    {
        proof {
            assert((bits & 0x8000_0000_0000_00e7u64) & !0x8000_0000_0000_00e7u64 == 0) by (bit_vector);
        }
        PageFlags { bits: bits & ALL_FLAG_BITS }
    }

    /// Every flag of `other` is set in `self`.
    pub fn contains(self, other: Self) -> (r: bool)
        ensures
            r == (self.bits & other.bits == other.bits),
    {
        self.bits & other.bits == other.bits
    }

    /// The flags of both sets.
    pub fn union(self, other: Self) -> (r: Self)
        ensures
            r.bits == self.bits | other.bits,
            self.valid() && other.valid() ==> r.valid(),
    {
        let a = self.bits;
        let b = other.bits;
        proof {
            assert((a & !0x8000_0000_0000_00e7u64 == 0 && b & !0x8000_0000_0000_00e7u64 == 0)
                ==> (a | b) & !0x8000_0000_0000_00e7u64 == 0) by (bit_vector);
        }
        PageFlags { bits: a | b }
    }
}

// ----------------------------------------------------------------------
// Entries and tables
// ----------------------------------------------------------------------

pub open spec fn pte_present(e: u64) -> bool {
    e & 1 != 0
}

pub open spec fn pte_huge(e: u64) -> bool {
    e & 0x80 != 0
}

pub open spec fn pte_addr(e: u64) -> u64 {
    e & PHYS_ADDR_MASK
}

#[derive(Clone, Copy)]
pub struct PageTableEntry(pub u64);

impl PageTableEntry {
    pub fn empty() -> (r: Self)
        ensures
            r.0 == 0,
    {
        Self(0)
    }

    pub fn is_present(&self) -> (r: bool)
        ensures
            r == pte_present(self.0),
    {
        (self.0 & PageFlags::present().bits()) != 0
    }

    pub fn phys_addr(&self) -> (r: PhysAddr)
        ensures
            r@ == pte_addr(self.0),
    {
        PhysAddr::new(self.0 & PHYS_ADDR_MASK)
    }

    pub fn flags(&self) -> (r: PageFlags)
        ensures
            r.bits == self.0 & ALL_FLAG_BITS,
            r.valid(),
    {
        PageFlags::from_bits_truncate(self.0)
    }

    pub fn new_table(phys: PhysAddr, flags: PageFlags) -> (r: Self)
        ensures
            r.0 == phys@ | flags.bits,
    {
        Self(phys.as_u64() | flags.bits())
    }

    pub fn new_page(phys: PhysAddr, flags: PageFlags) -> (r: Self)
        ensures
            r.0 == phys@ | flags.bits,
    {
        Self(phys.as_u64() | flags.bits())
    }
}

#[derive(Clone, Copy)]
pub struct PageTable {
    pub entries: [PageTableEntry; 512],
}

impl PageTable {
    pub open spec fn values(self) -> Seq<u64> {
        self.entries@.map_values(|e: PageTableEntry| e.0)
    }

    /// A table whose entries are all empty.
    pub fn new_zeroed() -> (r: Self)
        ensures
            forall|j: int| 0 <= j < 512 ==> #[trigger] r.values()[j] == 0,
    {
        let r = PageTable { entries: [PageTableEntry::empty(); 512] };
        proof {
            assert forall|j: int| 0 <= j < 512 implies #[trigger] r.values()[j] == 0 by {
                assert(r.entries@[j] == PageTableEntry(0));
            }
        }
        r
    }

    pub fn zero(&mut self)
        ensures
            forall|j: int| 0 <= j < 512 ==> #[trigger] final(self).values()[j] == 0,
    {
        let mut i: usize = 0;
        while i < 512
            invariant
                i <= 512,
                forall|j: int| 0 <= j < i ==> #[trigger] self.values()[j] == 0,
            decreases 512 - i,
        {
            let ghost prev = self.values();
            self.entries[i] = PageTableEntry::empty();
            proof {
                assert(self.values() =~= prev.update(i as int, 0));
            }
            i = i + 1;
        }
    }

    pub fn entry(&self, index: usize) -> (r: &PageTableEntry)
        requires
            index < 512,
        ensures
            r.0 == self.values()[index as int],
    {
        &self.entries[index]
    }

    pub fn entry_mut(&mut self, index: usize) -> (r: &mut PageTableEntry)
        requires
            index < 512,
        ensures
            r.0 == old(self).values()[index as int],
            final(self).entries@ == old(self).entries@.update(index as int, *final(r)),
    {
        &mut self.entries[index]
    }

    pub fn clear_entry(&mut self, index: usize)
        requires
            index < 512,
        ensures
            final(self).values() == old(self).values().update(index as int, 0),
    {
        self.entries[index] = PageTableEntry::empty();
        proof {
            assert(self.values() =~= old(self).values().update(index as int, 0));
        }
    }
}

// ----------------------------------------------------------------------
// Physical memory holding page tables
// ----------------------------------------------------------------------

pub struct PhysMemory {
    tables: HashMapWithView<u64, PageTable>,
}

impl View for PhysMemory {
    type V = Map<u64, PageTable>;

    closed spec fn view(&self) -> Map<u64, PageTable> {
        self.tables@
    }
}

/// Entry `i` of the page at `t`; a page never written reads as zeros.
pub open spec fn entry_at(m: Map<u64, PageTable>, t: u64, i: int) -> u64 {
    if m.contains_key(t) {
        m[t].values()[i]
    } else {
        0
    }
}

impl PhysMemory {
    pub fn new() -> (r: Self)
        ensures
            r@ == Map::<u64, PageTable>::empty(),
    {
        PhysMemory { tables: HashMapWithView::new() }
    }

    pub fn read_entry(&self, t: u64, i: usize) -> (r: PageTableEntry)
        requires
            i < 512,
        ensures
            r.0 == entry_at(self@, t, i as int),
    {
        match self.tables.get(&t) {
            Some(table) => table.entries[i],
            None => PageTableEntry::empty(),
        }
    }

    pub fn write_entry(&mut self, t: u64, i: usize, e: PageTableEntry)
        requires
            i < 512,
        ensures
            forall|p: u64, j: int| 0 <= j < 512 ==> #[trigger] entry_at(final(self)@, p, j) == (if p == t && j == i { e.0 } else { entry_at(old(self)@, p, j) }),
    {
        let mut table = match self.tables.get(&t) {
            Some(tb) => *tb,
            None => PageTable::new_zeroed(),
        };
        let ghost before = table;
        table.entries[i] = e;
        self.tables.insert(t, table);
        proof {
            assert forall|p: u64, j: int| 0 <= j < 512 implies #[trigger] entry_at(self@, p, j) == (if p == t && j == i { e.0 } else { entry_at(old(self)@, p, j) }) by {
                if p == t {
                    assert(table.values()[j] == (if j == i { e.0 } else { before.values()[j] }));
                }
            }
        }
    }

    /// Fills the page at `t` with zeros.
    pub fn zero_page(&mut self, t: u64)
        ensures
            forall|p: u64, j: int| 0 <= j < 512 ==> #[trigger] entry_at(final(self)@, p, j) == (if p == t { 0 } else { entry_at(old(self)@, p, j) }),
    {
        let table = PageTable::new_zeroed();
        self.tables.insert(t, table);
    }
}

// ----------------------------------------------------------------------
// Allocators of page-table pages
// ----------------------------------------------------------------------

pub trait PageAllocator {
    /// The allocator's own bookkeeping is consistent.
    spec fn ready(&self) -> bool;

    /// The page starting at `p` can be handed out.
    spec fn page_free(&self, p: u64) -> bool;

    /// How many pages can still be handed out.
    spec fn free_page_count(&self) -> nat;

    /// The address at which the kernel reaches physical address `p`.
    spec fn ptr_of(&self, p: u64) -> u64;

    /// The page `p` may be given back.
    spec fn can_free_page(&self, p: u64) -> bool;

    fn alloc_page(&mut self) -> (r: Option<PhysAddr>)
        requires
            old(self).ready(),
        ensures
            final(self).ready(),
            r is Some <==> old(self).free_page_count() > 0,
            match r {
                Some(p) => {
                    &&& p@ != 0
                    &&& p@ % 4096 == 0
                    &&& p@ + 4096 <= PHYS_LIMIT
                    &&& old(self).page_free(p@)
                    &&& !final(self).page_free(p@)
                    &&& final(self).free_page_count() + 1 == old(self).free_page_count()
                    &&& forall|q: u64| #[trigger] final(self).page_free(q) ==> old(self).page_free(q)
                },
                None => {
                    &&& final(self).free_page_count() == old(self).free_page_count()
                    &&& forall|q: u64| #[trigger] final(self).page_free(q) == old(self).page_free(q)
                },
            },
    ;

    fn free_page(&mut self, phys: PhysAddr)
        requires
            old(self).ready(),
            old(self).can_free_page(phys@),
        ensures
            final(self).ready(),
    ;

    fn phys_to_ptr(&self, phys: PhysAddr) -> (r: u64)
        requires
            phys@ <= u64::MAX - KERNEL_VIRT_BASE,
        ensures
            r == self.ptr_of(phys@),
    ;
}

/// Number of page-table pages reserved before the buddy allocator exists.
pub const EARLY_PT_COUNT: usize = 64;

/// Hands out the pages of a fixed storage area one after another and never
/// takes them back.
pub struct EarlyAllocator {
    pub base: u64,
    pub next: usize,
}

impl EarlyAllocator {
    pub open spec fn wf(&self) -> bool {
        &&& self.base % 4096 == 0
        &&& self.base != 0
        &&& self.base + EARLY_PT_COUNT * 4096 <= PHYS_LIMIT
    }
}

impl PageAllocator for EarlyAllocator {
    open spec fn ready(&self) -> bool {
        self.wf()
    }

    open spec fn page_free(&self, p: u64) -> bool {
        &&& self.base + self.next * 4096 <= p < self.base + EARLY_PT_COUNT * 4096
        &&& (p - self.base) % 4096 == 0
    }

    open spec fn free_page_count(&self) -> nat {
        if self.next < EARLY_PT_COUNT {
            (EARLY_PT_COUNT - self.next) as nat
        } else {
            0
        }
    }

    open spec fn ptr_of(&self, p: u64) -> u64 {
        p
    }

    open spec fn can_free_page(&self, p: u64) -> bool {
        true
    }

    /// Takes the next page of the storage area; `None` once all are taken.
    fn alloc_page(&mut self) -> (r: Option<PhysAddr>) {
        if self.next >= EARLY_PT_COUNT {
            return None;
        }
        let idx = self.next;
        self.next = idx + 1;
        Some(PhysAddr::new(self.base + (idx as u64) * 4096))
    }

    /// The early pages are never given back: nothing changes.
    fn free_page(&mut self, phys: PhysAddr)
        ensures
            *final(self) == *old(self),
    {
        let _ = phys;
    }

    fn phys_to_ptr(&self, phys: PhysAddr) -> (r: u64) {
        phys.as_u64()
    }
}

impl PageAllocator for BuddyAllocator {
    open spec fn ready(&self) -> bool {
        self.wf()
    }

    open spec fn page_free(&self, p: u64) -> bool {
        self.is_free(p as int)
    }

    open spec fn free_page_count(&self) -> nat {
        self.free_pages()
    }

    open spec fn ptr_of(&self, p: u64) -> u64 {
        (KERNEL_VIRT_BASE + p) as u64
    }

    open spec fn can_free_page(&self, p: u64) -> bool {
        &&& block_ok(p, 0)
        &&& forall|a: int| #[trigger] in_block(a, p, 0) ==> !self.is_free(a)
    }

    fn alloc_page(&mut self) -> (r: Option<PhysAddr>) {
        let r = self.allocate(0);
        proof {
            lemma2_to64();
            if let Some(p) = r {
                assert(in_block(p@ as int, p@, 0));
            } else {
                lemma_no_free_pages(*old(self));
            }
        }
        r
    }

    /// Gives the page back as a free block of order 0.
    fn free_page(&mut self, phys: PhysAddr)
        ensures
            forall|a: int| #[trigger] final(self).is_free(a) == (old(self).is_free(a) || in_block(a, phys@, 0)),
            final(self).free_pages() == old(self).free_pages() + 1,
    {
        self.free(phys, 0);
        proof {
            lemma2_to64();
        }
    }

    fn phys_to_ptr(&self, phys: PhysAddr) -> (r: u64) {
        phys_to_virt(phys.as_u64())
    }
}

// ----------------------------------------------------------------------
// Address conversions
// ----------------------------------------------------------------------

/// Higher-half virtual address of a physical address.
pub fn phys_to_virt(phys: u64) -> (r: u64)
    requires
        phys <= u64::MAX - KERNEL_VIRT_BASE,
    ensures
        r == KERNEL_VIRT_BASE + phys,
{
    KERNEL_VIRT_BASE + phys
}

/// Leaves higher-half addresses as they are and moves physical ones there.
pub fn ensure_virt(addr: u64) -> (r: u64)
    requires
        addr >= KERNEL_VIRT_BASE || addr <= u64::MAX - KERNEL_VIRT_BASE,
    ensures
        r == (if addr >= KERNEL_VIRT_BASE { addr } else { (KERNEL_VIRT_BASE + addr) as u64 }),
{
    if addr >= KERNEL_VIRT_BASE {
        addr
    } else {
        phys_to_virt(addr)
    }
}

pub fn virt_to_phys(virt: u64) -> (r: u64)
    requires
        virt >= KERNEL_VIRT_BASE,
    ensures
        r == virt - KERNEL_VIRT_BASE,
{
    virt - KERNEL_VIRT_BASE
}

// ----------------------------------------------------------------------
// Virtual address decomposition and walks
// ----------------------------------------------------------------------

pub open spec fn l4_index(v: u64) -> u64 {
    (v >> 39u64) & 0x1ff
}

pub open spec fn l3_index(v: u64) -> u64 {
    (v >> 30u64) & 0x1ff
}

pub open spec fn l2_index(v: u64) -> u64 {
    (v >> 21u64) & 0x1ff
}

pub open spec fn l1_index(v: u64) -> u64 {
    (v >> 12u64) & 0x1ff
}

pub struct VirtAddrParts {
    pub pml4: usize,
    pub pdpt: usize,
    pub pd: usize,
    pub pt: usize,
    pub offset: usize,
}

impl VirtAddrParts {
    pub fn from_u64(addr: u64) -> (r: Self)
        ensures
            r.pml4 == l4_index(addr),
            r.pdpt == l3_index(addr),
            r.pd == l2_index(addr),
            r.pt == l1_index(addr),
            r.offset == addr & 0xfff,
            r.pml4 < 512 && r.pdpt < 512 && r.pd < 512 && r.pt < 512 && r.offset < 4096,
    {
        proof {
            lemma_index_bounds(addr);
        }
        Self {
            pml4: ((addr >> 39) & 0x1ff) as usize,
            pdpt: ((addr >> 30) & 0x1ff) as usize,
            pd: ((addr >> 21) & 0x1ff) as usize,
            pt: ((addr >> 12) & 0x1ff) as usize,
            offset: (addr & 0xfff) as usize,
        }
    }
}

pub open spec fn l4e(m: Map<u64, PageTable>, pml4: u64, v: u64) -> u64 {
    entry_at(m, pml4, l4_index(v) as int)
}

pub open spec fn l3e(m: Map<u64, PageTable>, pml4: u64, v: u64) -> u64 {
    entry_at(m, pte_addr(l4e(m, pml4, v)), l3_index(v) as int)
}

pub open spec fn l2e(m: Map<u64, PageTable>, pml4: u64, v: u64) -> u64 {
    entry_at(m, pte_addr(l3e(m, pml4, v)), l2_index(v) as int)
}

pub open spec fn l1e(m: Map<u64, PageTable>, pml4: u64, v: u64) -> u64 {
    entry_at(m, pte_addr(l2e(m, pml4, v)), l1_index(v) as int)
}

/// The physical address that `v` translates to through the table at `pml4`.
pub open spec fn translate_spec(m: Map<u64, PageTable>, pml4: u64, v: u64) -> Option<u64> {
    if !pte_present(l4e(m, pml4, v)) {
        None
    } else if !pte_present(l3e(m, pml4, v)) {
        None
    } else if !pte_present(l2e(m, pml4, v)) {
        None
    } else if pte_huge(l2e(m, pml4, v)) {
        Some((pte_addr(l2e(m, pml4, v)) + (v & 0x1f_ffff)) as u64)
    } else if !pte_present(l1e(m, pml4, v)) {
        None
    } else {
        Some((pte_addr(l1e(m, pml4, v)) + (v & 0xfff)) as u64)
    }
}

/// The flag bits (all bits but the address) of the entry that maps `v`
/// through the table at `pml4`: the huge directory entry or the last-level
/// entry, where `v` is mapped.
pub open spec fn leaf_flags(m: Map<u64, PageTable>, pml4: u64, v: u64) -> Option<u64> {
    if !pte_present(l4e(m, pml4, v)) {
        None
    } else if !pte_present(l3e(m, pml4, v)) {
        None
    } else if !pte_present(l2e(m, pml4, v)) {
        None
    } else if pte_huge(l2e(m, pml4, v)) {
        Some(l2e(m, pml4, v) & !PHYS_ADDR_MASK)
    } else if !pte_present(l1e(m, pml4, v)) {
        None
    } else {
        Some(l1e(m, pml4, v) & !PHYS_ADDR_MASK)
    }
}

/// The walk of `v` reaches a present page-table entry at the last level
/// (the entry of the third level is followed even when it maps a huge page).
pub open spec fn leaf_present(m: Map<u64, PageTable>, pml4: u64, v: u64) -> bool {
    pte_present(l4e(m, pml4, v)) && pte_present(l3e(m, pml4, v)) && pte_present(l2e(m, pml4, v))
        && pte_present(l1e(m, pml4, v))
}

/// A present entry marked huge on the levels that `map` walks through.
pub open spec fn huge_on_path(m: Map<u64, PageTable>, pml4: u64, v: u64, levels: nat) -> bool {
    ||| pte_present(l4e(m, pml4, v)) && pte_huge(l4e(m, pml4, v))
    ||| levels >= 2 && pte_present(l4e(m, pml4, v)) && pte_present(l3e(m, pml4, v)) && pte_huge(l3e(m, pml4, v))
    ||| levels >= 3 && pte_present(l4e(m, pml4, v)) && pte_present(l3e(m, pml4, v)) && pte_present(l2e(m, pml4, v)) && pte_huge(l2e(m, pml4, v))
}

/// The tables that the walk of `v` goes through today are distinct pages
/// that the allocator does not hand out.
pub open spec fn path_ok<A: PageAllocator>(m: Map<u64, PageTable>, alloc: A, pml4: u64, v: u64) -> bool {
    let t3 = pte_addr(l4e(m, pml4, v));
    let t2 = pte_addr(l3e(m, pml4, v));
    let t1 = pte_addr(l2e(m, pml4, v));
    &&& !alloc.page_free(pml4)
    &&& pte_present(l4e(m, pml4, v)) ==> {
        &&& t3 != pml4
        &&& !alloc.page_free(t3)
        &&& pte_present(l3e(m, pml4, v)) ==> {
            &&& t2 != pml4 && t2 != t3
            &&& !alloc.page_free(t2)
            &&& pte_present(l2e(m, pml4, v)) && !pte_huge(l2e(m, pml4, v)) ==> {
                &&& t1 != pml4 && t1 != t3 && t1 != t2
                &&& !alloc.page_free(t1)
            }
        }
    }
}

/// Only entries of the tables on the walk of `v` in `m2` differ from `m1`.
pub open spec fn changed_only_on_path(m1: Map<u64, PageTable>, m2: Map<u64, PageTable>, pml4: u64, v: u64) -> bool {
    forall|p: u64, j: int|
        0 <= j < 512 && p != pml4 && p != pte_addr(l4e(m2, pml4, v)) && p != pte_addr(l3e(m2, pml4, v))
            && p != pte_addr(l2e(m2, pml4, v)) ==> #[trigger] entry_at(m2, p, j) == entry_at(m1, p, j)
}

/// Each table on the walk of `v` in `m2` below the root is the table that
/// the walk in `m1` went through at that level, or a page that was free in
/// `a1`.
pub open spec fn path_from<A: PageAllocator>(m1: Map<u64, PageTable>, a1: A, m2: Map<u64, PageTable>, pml4: u64, v: u64) -> bool {
    let n3 = pte_addr(l4e(m2, pml4, v));
    let n2 = pte_addr(l3e(m2, pml4, v));
    let n1 = pte_addr(l2e(m2, pml4, v));
    &&& (pte_present(l4e(m1, pml4, v)) && n3 == pte_addr(l4e(m1, pml4, v))) || a1.page_free(n3)
    &&& (pte_present(l4e(m1, pml4, v)) && pte_present(l3e(m1, pml4, v)) && n2 == pte_addr(l3e(m1, pml4, v))) || a1.page_free(n2)
    &&& (pte_present(l4e(m1, pml4, v)) && pte_present(l3e(m1, pml4, v)) && pte_present(l2e(m1, pml4, v))
        && !pte_huge(l2e(m1, pml4, v)) && n1 == pte_addr(l2e(m1, pml4, v))) || a1.page_free(n1)
}

// ----------------------------------------------------------------------
// Page-table trees
// ----------------------------------------------------------------------

/// A present entry of a table of level `level` that names a table of the
/// level below (a page-directory entry marked huge maps a 2 MiB page
/// instead; level 1 entries map pages).
pub open spec fn is_child(level: int, e: u64) -> bool {
    level >= 2 && pte_present(e) && !(level == 2 && pte_huge(e))
}

/// The tables reachable from `pml4` form a tree whose tables have the
/// levels `lv` (4 for the root, 1 for the last level): no table is a page
/// the allocator can hand out, every entry naming a table names one of
/// the level below, and no two such entries name the same table.
pub open spec fn tree_ok<A: PageAllocator>(m: Map<u64, PageTable>, a: A, pml4: u64, lv: Map<u64, int>) -> bool {
    &&& lv.contains_key(pml4) && lv[pml4] == 4
    &&& forall|t: u64| #[trigger] lv.contains_key(t) ==> !a.page_free(t) && 1 <= lv[t] <= 4 && (lv[t] == 4 ==> t == pml4)
    &&& forall|t: u64, j: int| #![trigger lv.contains_key(t), entry_at(m, t, j)]
        lv.contains_key(t) && 0 <= j < 512 && is_child(lv[t], entry_at(m, t, j)) ==>
            lv.contains_key(pte_addr(entry_at(m, t, j))) && lv[pte_addr(entry_at(m, t, j))] == lv[t] - 1
    &&& forall|t1: u64, j1: int, t2: u64, j2: int| #![trigger entry_at(m, t1, j1), entry_at(m, t2, j2)]
        lv.contains_key(t1) && lv.contains_key(t2) && 0 <= j1 < 512 && 0 <= j2 < 512
            && is_child(lv[t1], entry_at(m, t1, j1)) && is_child(lv[t2], entry_at(m, t2, j2))
            && pte_addr(entry_at(m, t1, j1)) == pte_addr(entry_at(m, t2, j2)) ==> t1 == t2 && j1 == j2
}

/// The tables reachable from `pml4` form a tree (see `tree_ok`).
pub open spec fn is_tree<A: PageAllocator>(m: Map<u64, PageTable>, a: A, pml4: u64) -> bool {
    exists|lv: Map<u64, int>| tree_ok(m, a, pml4, lv)
}

/// `w` and `v` lie in the same 4 KiB page of the walk (same table indices).
pub open spec fn same_page(w: u64, v: u64) -> bool {
    l4_index(w) == l4_index(v) && l3_index(w) == l3_index(v) && l2_index(w) == l2_index(v) && l1_index(w) == l1_index(v)
}

/// `w` and `v` lie in the same 2 MiB region of the walk.
pub open spec fn same_region(w: u64, v: u64) -> bool {
    l4_index(w) == l4_index(v) && l3_index(w) == l3_index(v) && l2_index(w) == l2_index(v)
}

/// Making entry `idx` of the tree table `table` name the table `n` (a
/// zeroed page that was free, when the entry was empty) adds no huge
/// entry to any walk.
proof fn lemma_step_no_huge<A: PageAllocator>(
    m1: Map<u64, PageTable>,
    m2: Map<u64, PageTable>,
    a1: A,
    a2: A,
    pml4: u64,
    lv: Map<u64, int>,
    table: u64,
    idx: int,
    n: u64,
)
    requires
        tree_ok(m1, a1, pml4, lv),
        lv.contains_key(table),
        0 <= idx < 512,
        linked(m1, m2, a1, a2, table, idx, n),
    ensures
        forall|w: u64| #[trigger] huge_on_path(m2, pml4, w, 3) ==> huge_on_path(m1, pml4, w, 3),
{
    lemma_zero_entry();
    assert forall|w: u64| #[trigger] huge_on_path(m2, pml4, w, 3) implies huge_on_path(m1, pml4, w, 3) by {
        lemma_index_bounds(w);
        lemma_tree_walk(m1, a1, pml4, lv, w);
        let fresh = !pte_present(entry_at(m1, table, idx));
        assert(fresh ==> a1.page_free(n) && !lv.contains_key(n));
        let i4 = l4_index(w) as int;
        let i3 = l3_index(w) as int;
        let i2 = l2_index(w) as int;
        assert(lv.contains_key(pml4));
        if pml4 == table && i4 == idx {
            if fresh {
                assert(entry_at(m2, n, i3) == 0);
            } else {
                let t3 = n;
                assert(lv.contains_key(t3) && lv[t3] == 3);
                assert(entry_at(m2, t3, i3) == entry_at(m1, t3, i3));
                if pte_present(entry_at(m1, t3, i3)) {
                    let t2 = pte_addr(entry_at(m1, t3, i3));
                    assert(lv.contains_key(t2) && lv[t2] == 2);
                    assert(entry_at(m2, t2, i2) == entry_at(m1, t2, i2));
                }
            }
        } else {
            assert(entry_at(m2, pml4, i4) == entry_at(m1, pml4, i4));
            if pte_present(entry_at(m1, pml4, i4)) {
                let t3 = pte_addr(entry_at(m1, pml4, i4));
                assert(lv.contains_key(t3) && lv[t3] == 3);
                if t3 == table && i3 == idx {
                    if fresh {
                        assert(entry_at(m2, n, i2) == 0);
                    } else {
                        let t2 = n;
                        assert(lv.contains_key(t2) && lv[t2] == 2);
                        assert(entry_at(m2, t2, i2) == entry_at(m1, t2, i2));
                    }
                } else {
                    assert(entry_at(m2, t3, i3) == entry_at(m1, t3, i3));
                    if pte_present(entry_at(m1, t3, i3)) {
                        let t2 = pte_addr(entry_at(m1, t3, i3));
                        assert(lv.contains_key(t2) && lv[t2] == 2);
                        if !(t2 == table && i2 == idx) {
                            assert(entry_at(m2, t2, i2) == entry_at(m1, t2, i2));
                        }
                    }
                }
            }
        }
    }
}

/// Writing an entry of a last-level table of the tree changes no entry
/// that a walk reads above the last level.
proof fn lemma_leaf_no_huge<A: PageAllocator>(
    m1: Map<u64, PageTable>,
    m2: Map<u64, PageTable>,
    a1: A,
    pml4: u64,
    lv: Map<u64, int>,
    t1: u64,
)
    requires
        tree_ok(m1, a1, pml4, lv),
        lv.contains_key(t1) && lv[t1] == 1,
        forall|p: u64, j: int| 0 <= j < 512 && p != t1 ==> #[trigger] entry_at(m2, p, j) == entry_at(m1, p, j),
    ensures
        forall|w: u64| #[trigger] huge_on_path(m2, pml4, w, 3) == huge_on_path(m1, pml4, w, 3),
{
    assert forall|w: u64| #[trigger] huge_on_path(m2, pml4, w, 3) == huge_on_path(m1, pml4, w, 3) by {
        lemma_index_bounds(w);
        lemma_tree_walk(m1, a1, pml4, lv, w);
        assert(lv[pml4] == 4);
        assert(entry_at(m2, pml4, l4_index(w) as int) == entry_at(m1, pml4, l4_index(w) as int));
        if pte_present(l4e(m1, pml4, w)) {
            let t3 = pte_addr(l4e(m1, pml4, w));
            assert(entry_at(m2, t3, l3_index(w) as int) == entry_at(m1, t3, l3_index(w) as int));
            if pte_present(l3e(m1, pml4, w)) {
                let t2 = pte_addr(l3e(m1, pml4, w));
                assert(entry_at(m2, t2, l2_index(w) as int) == entry_at(m1, t2, l2_index(w) as int));
            }
        }
    }
}

/// Zeroing a page that was free leaves a tree a tree (with fewer free
/// pages) and adds no huge entry to any walk.
pub proof fn lemma_tree_zero_free<A: PageAllocator>(m: Map<u64, PageTable>, m2: Map<u64, PageTable>, a: A, a2: A, pml4: u64, lv: Map<u64, int>, p: u64)
    requires
        tree_ok(m, a, pml4, lv),
        a.page_free(p),
        forall|q: u64| #[trigger] a2.page_free(q) ==> a.page_free(q),
        forall|q: u64, j: int| 0 <= j < 512 ==> #[trigger] entry_at(m2, q, j) == (if q == p { 0 } else { entry_at(m, q, j) }),
    ensures
        tree_ok(m2, a2, pml4, lv),
        forall|w: u64| #[trigger] huge_on_path(m2, pml4, w, 3) == huge_on_path(m, pml4, w, 3),
        forall|w: u64| #![trigger translate_spec(m2, pml4, w)] #![trigger leaf_flags(m2, pml4, w)]
            translate_spec(m2, pml4, w) == translate_spec(m, pml4, w) && leaf_flags(m2, pml4, w) == leaf_flags(m, pml4, w),
{
    assert(!lv.contains_key(p));
    assert forall|t: u64, j: int| #![trigger lv.contains_key(t), entry_at(m2, t, j)]
        lv.contains_key(t) && 0 <= j < 512 && is_child(lv[t], entry_at(m2, t, j)) implies
            lv.contains_key(pte_addr(entry_at(m2, t, j))) && lv[pte_addr(entry_at(m2, t, j))] == lv[t] - 1 by {
        assert(entry_at(m2, t, j) == entry_at(m, t, j));
    }
    assert forall|t1: u64, j1: int, t2: u64, j2: int| #![trigger entry_at(m2, t1, j1), entry_at(m2, t2, j2)]
        lv.contains_key(t1) && lv.contains_key(t2) && 0 <= j1 < 512 && 0 <= j2 < 512
            && is_child(lv[t1], entry_at(m2, t1, j1)) && is_child(lv[t2], entry_at(m2, t2, j2))
            && pte_addr(entry_at(m2, t1, j1)) == pte_addr(entry_at(m2, t2, j2)) implies t1 == t2 && j1 == j2 by {
        assert(entry_at(m2, t1, j1) == entry_at(m, t1, j1));
        assert(entry_at(m2, t2, j2) == entry_at(m, t2, j2));
    }
    assert forall|w: u64| #[trigger] huge_on_path(m2, pml4, w, 3) == huge_on_path(m, pml4, w, 3) by {
        lemma_index_bounds(w);
        lemma_tree_walk(m, a, pml4, lv, w);
        assert(entry_at(m2, pml4, l4_index(w) as int) == entry_at(m, pml4, l4_index(w) as int));
        if pte_present(l4e(m, pml4, w)) {
            let t3 = pte_addr(l4e(m, pml4, w));
            assert(entry_at(m2, t3, l3_index(w) as int) == entry_at(m, t3, l3_index(w) as int));
            if pte_present(l3e(m, pml4, w)) {
                let t2 = pte_addr(l3e(m, pml4, w));
                assert(entry_at(m2, t2, l2_index(w) as int) == entry_at(m, t2, l2_index(w) as int));
            }
        }
    }
    assert forall|w: u64| #![trigger translate_spec(m2, pml4, w)] #![trigger leaf_flags(m2, pml4, w)]
        translate_spec(m2, pml4, w) == translate_spec(m, pml4, w) && leaf_flags(m2, pml4, w) == leaf_flags(m, pml4, w) by {
        lemma_index_bounds(w);
        lemma_tree_walk(m, a, pml4, lv, w);
        assert(entry_at(m2, pml4, l4_index(w) as int) == entry_at(m, pml4, l4_index(w) as int));
        if pte_present(l4e(m, pml4, w)) {
            let t3 = pte_addr(l4e(m, pml4, w));
            assert(entry_at(m2, t3, l3_index(w) as int) == entry_at(m, t3, l3_index(w) as int));
            if pte_present(l3e(m, pml4, w)) {
                let t2 = pte_addr(l3e(m, pml4, w));
                assert(entry_at(m2, t2, l2_index(w) as int) == entry_at(m, t2, l2_index(w) as int));
                if pte_present(l2e(m, pml4, w)) && !pte_huge(l2e(m, pml4, w)) {
                    let t1 = pte_addr(l2e(m, pml4, w));
                    assert(entry_at(m2, t1, l1_index(w) as int) == entry_at(m, t1, l1_index(w) as int));
                }
            }
        }
    }
}

/// No walk of an address of the lower half meets a huge entry.
pub open spec fn no_huge_low(m: Map<u64, PageTable>, pml4: u64) -> bool {
    forall|w: u64| w < 0x8000_0000_0000 ==> !#[trigger] huge_on_path(m, pml4, w, 3)
}

/// A tree stays a tree when the allocator hands out pages.
pub proof fn lemma_tree_fewer_free<A: PageAllocator>(m: Map<u64, PageTable>, a: A, a2: A, pml4: u64, lv: Map<u64, int>)
    requires
        tree_ok(m, a, pml4, lv),
        forall|q: u64| #[trigger] a2.page_free(q) ==> a.page_free(q),
    ensures
        tree_ok(m, a2, pml4, lv),
{
}

/// Addresses with the same indices at levels 4 to 2 meet the same entries
/// at those levels.
pub proof fn lemma_same_region_huge(m: Map<u64, PageTable>, pml4: u64, w: u64, v: u64)
    requires
        l4_index(w) == l4_index(v),
        l3_index(w) == l3_index(v),
        l2_index(w) == l2_index(v),
    ensures
        huge_on_path(m, pml4, w, 3) == huge_on_path(m, pml4, v, 3),
{
}

/// In a tree the walk of every address goes through tables of levels 3,
/// 2 and 1, which the allocator does not hand out.
pub proof fn lemma_tree_walk<A: PageAllocator>(m: Map<u64, PageTable>, a: A, pml4: u64, lv: Map<u64, int>, v: u64)
    requires
        tree_ok(m, a, pml4, lv),
    ensures
        path_ok(m, a, pml4, v),
        pte_present(l4e(m, pml4, v)) ==> lv.contains_key(pte_addr(l4e(m, pml4, v))) && lv[pte_addr(l4e(m, pml4, v))] == 3,
        pte_present(l4e(m, pml4, v)) && pte_present(l3e(m, pml4, v)) ==>
            lv.contains_key(pte_addr(l3e(m, pml4, v))) && lv[pte_addr(l3e(m, pml4, v))] == 2,
        pte_present(l4e(m, pml4, v)) && pte_present(l3e(m, pml4, v)) && pte_present(l2e(m, pml4, v)) && !pte_huge(l2e(m, pml4, v)) ==>
            lv.contains_key(pte_addr(l2e(m, pml4, v))) && lv[pte_addr(l2e(m, pml4, v))] == 1,
{
    lemma_index_bounds(v);
    assert(lv.contains_key(pml4));
    let e4 = entry_at(m, pml4, l4_index(v) as int);
    if pte_present(e4) {
        assert(is_child(4, e4));
        let t3 = pte_addr(e4);
        assert(lv.contains_key(t3) && !a.page_free(t3) && lv[t3] == 3);
        let e3 = entry_at(m, t3, l3_index(v) as int);
        if pte_present(e3) {
            assert(is_child(3, e3));
            let t2 = pte_addr(e3);
            assert(lv.contains_key(t2) && !a.page_free(t2) && lv[t2] == 2);
            let e2 = entry_at(m, t2, l2_index(v) as int);
            if pte_present(e2) {
                if !pte_huge(e2) {
                    assert(is_child(2, e2));
                    let t1 = pte_addr(e2);
                    assert(lv.contains_key(t1) && !a.page_free(t1) && lv[t1] == 1);
                } else {
                }
            }
        }
    }
    assert(!a.page_free(pml4));
}

/// What `ensure_table` did to entry `idx` of table `t`, going from `m`,
/// `a` to `m2`, `a2` and returning the table `n`.
pub open spec fn linked<A: PageAllocator>(m: Map<u64, PageTable>, m2: Map<u64, PageTable>, a: A, a2: A, t: u64, idx: int, n: u64) -> bool {
    let e = entry_at(m, t, idx);
    let e2 = entry_at(m2, t, idx);
    &&& pte_present(e2) && !pte_huge(e2) && pte_addr(e2) == n
    &&& pte_present(e) ==> {
        &&& !pte_huge(e)
        &&& n == pte_addr(e)
        &&& alloc_same(a, a2)
        &&& forall|p: u64, j: int| 0 <= j < 512 && (p != t || j != idx) ==> #[trigger] entry_at(m2, p, j) == entry_at(m, p, j)
    }
    &&& !pte_present(e) ==> {
        &&& alloc_took(a, a2, n)
        &&& forall|p: u64, j: int| 0 <= j < 512 && (p != t || j != idx) ==> #[trigger] entry_at(m2, p, j) == (if p == n { 0 } else { entry_at(m, p, j) })
    }
}

/// Linking a table below an entry of a tree keeps it a tree (the new
/// table one level below) and changes the translation of no address.
proof fn lemma_link<A: PageAllocator>(
    m: Map<u64, PageTable>, m2: Map<u64, PageTable>, a: A, a2: A, pml4: u64, lv: Map<u64, int>, t: u64, idx: int, n: u64,
) -> (lv2: Map<u64, int>)
    requires
        tree_ok(m, a, pml4, lv),
        lv.contains_key(t),
        lv[t] >= 2,
        0 <= idx < 512,
        linked(m, m2, a, a2, t, idx, n),
    ensures
        tree_ok(m2, a2, pml4, lv2),
        lv2.contains_key(n),
        lv2[n] == lv[t] - 1,
        forall|k: u64| lv.contains_key(k) ==> #[trigger] lv2.contains_key(k) && lv2[k] == lv[k],
        forall|w: u64| #![trigger translate_spec(m2, pml4, w)] #![trigger leaf_flags(m2, pml4, w)]
            translate_spec(m2, pml4, w) == translate_spec(m, pml4, w) && leaf_flags(m2, pml4, w) == leaf_flags(m, pml4, w),
{
    let e = entry_at(m, t, idx);
    let fresh = !pte_present(e);
    let lv2 = if fresh { lv.insert(n, lv[t] - 1) } else { lv };
    lemma_zero_entry();
    if fresh {
        assert(a.page_free(n));
        assert(!lv.contains_key(n));
    } else {
        assert(is_child(lv[t], e));
    }
    // Entries of tables of the tree other than (t, idx) are unchanged.
    assert forall|p: u64, j: int| lv.contains_key(p) && 0 <= j < 512 && (p != t || j != idx) implies
        #[trigger] entry_at(m2, p, j) == entry_at(m, p, j) by {
        if fresh {
            assert(p != n);
        }
    }
    assert forall|k: u64| #[trigger] lv2.contains_key(k) implies !a2.page_free(k) && 1 <= lv2[k] <= 4 && (lv2[k] == 4 ==> k == pml4) by {
        if k != n || !fresh {
            assert(lv.contains_key(k));
            assert(!a.page_free(k));
        }
    }
    assert forall|p: u64, j: int| #![trigger lv2.contains_key(p), entry_at(m2, p, j)]
        lv2.contains_key(p) && 0 <= j < 512 && is_child(lv2[p], entry_at(m2, p, j)) implies
            lv2.contains_key(pte_addr(entry_at(m2, p, j))) && lv2[pte_addr(entry_at(m2, p, j))] == lv2[p] - 1 by {
        if fresh && p == n {
            assert(entry_at(m2, p, j) == 0);
        } else if p == t && j == idx {
        } else {
            assert(lv.contains_key(p));
            assert(entry_at(m2, p, j) == entry_at(m, p, j));
        }
    }
    assert forall|t1: u64, j1: int, t2: u64, j2: int| #![trigger entry_at(m2, t1, j1), entry_at(m2, t2, j2)]
        lv2.contains_key(t1) && lv2.contains_key(t2) && 0 <= j1 < 512 && 0 <= j2 < 512
            && is_child(lv2[t1], entry_at(m2, t1, j1)) && is_child(lv2[t2], entry_at(m2, t2, j2))
            && pte_addr(entry_at(m2, t1, j1)) == pte_addr(entry_at(m2, t2, j2)) implies t1 == t2 && j1 == j2 by {
        if fresh && t1 == n {
            assert(entry_at(m2, t1, j1) == 0);
        } else if fresh && t2 == n {
            assert(entry_at(m2, t2, j2) == 0);
        } else {
            assert(lv.contains_key(t1) && lv.contains_key(t2));
            let x1 = entry_at(m, t1, j1);
            let x2 = entry_at(m, t2, j2);
            if t1 == t && j1 == idx {
                if !(t2 == t && j2 == idx) {
                    assert(entry_at(m2, t2, j2) == x2);
                    if fresh {
                        assert(lv.contains_key(pte_addr(x2)));
                    } else {
                        assert(is_child(lv[t1], x1));
                    }
                }
            } else if t2 == t && j2 == idx {
                assert(entry_at(m2, t1, j1) == x1);
                if fresh {
                    assert(lv.contains_key(pte_addr(x1)));
                } else {
                    assert(is_child(lv[t2], x2));
                }
            } else {
                assert(entry_at(m2, t1, j1) == x1);
                assert(entry_at(m2, t2, j2) == x2);
            }
        }
    }
    assert(tree_ok(m2, a2, pml4, lv2));
    assert forall|w: u64| #![trigger translate_spec(m2, pml4, w)] #![trigger leaf_flags(m2, pml4, w)]
        translate_spec(m2, pml4, w) == translate_spec(m, pml4, w) && leaf_flags(m2, pml4, w) == leaf_flags(m, pml4, w) by {
        lemma_tree_walk(m, a, pml4, lv, w);
        lemma_index_bounds(w);
        let i4 = l4_index(w) as int;
        let i3 = l3_index(w) as int;
        let i2 = l2_index(w) as int;
        let i1 = l1_index(w) as int;
        let e4 = entry_at(m, pml4, i4);
        if pml4 == t && i4 == idx {
            if fresh {
                assert(entry_at(m2, n, i3) == 0);
            } else {
                let t3 = pte_addr(e4);
                assert(lv[t3] == 3);
                assert(entry_at(m2, t3, i3) == entry_at(m, t3, i3));
                let e3 = entry_at(m, t3, i3);
                if pte_present(e3) {
                    let t2 = pte_addr(e3);
                    assert(lv[t2] == 2);
                    assert(entry_at(m2, t2, i2) == entry_at(m, t2, i2));
                    let ee2 = entry_at(m, t2, i2);
                    if pte_present(ee2) && !pte_huge(ee2) {
                        let t1 = pte_addr(ee2);
                        assert(lv[t1] == 1);
                        assert(entry_at(m2, t1, i1) == entry_at(m, t1, i1));
                    }
                }
            }
        } else {
            assert(entry_at(m2, pml4, i4) == e4);
            if pte_present(e4) {
                let t3 = pte_addr(e4);
                assert(lv[t3] == 3);
                let e3 = entry_at(m, t3, i3);
                if t3 == t && i3 == idx {
                    if fresh {
                        assert(entry_at(m2, n, i2) == 0);
                    } else {
                        let t2 = pte_addr(e3);
                        assert(lv[t2] == 2);
                        assert(entry_at(m2, t2, i2) == entry_at(m, t2, i2));
                        let ee2 = entry_at(m, t2, i2);
                        if pte_present(ee2) && !pte_huge(ee2) {
                            let t1 = pte_addr(ee2);
                            assert(lv[t1] == 1);
                            assert(entry_at(m2, t1, i1) == entry_at(m, t1, i1));
                        }
                    }
                } else {
                    assert(entry_at(m2, t3, i3) == e3);
                    if pte_present(e3) {
                        let t2 = pte_addr(e3);
                        assert(lv[t2] == 2);
                        let ee2 = entry_at(m, t2, i2);
                        if t2 == t && i2 == idx {
                            if fresh {
                                assert(entry_at(m2, n, i1) == 0);
                            } else {
                                let t1 = pte_addr(ee2);
                                assert(lv[t1] == 1);
                                assert(entry_at(m2, t1, i1) == entry_at(m, t1, i1));
                            }
                        } else {
                            assert(entry_at(m2, t2, i2) == ee2);
                            if pte_present(ee2) && !pte_huge(ee2) {
                                let t1 = pte_addr(ee2);
                                assert(lv[t1] == 1);
                                assert(t1 != t);
                                assert(entry_at(m2, t1, i1) == entry_at(m, t1, i1));
                            }
                        }
                    }
                }
            }
        }
    }
    lv2
}

/// Writing the entry of the walk of `v` at the last level (`level` 1) or a
/// huge entry at the page-directory level (`level` 2) keeps a tree a
/// tree, and changes the translation of no address outside `v`'s page
/// (level 1) or 2 MiB region (level 2).
proof fn lemma_leaf_write<A: PageAllocator>(
    m: Map<u64, PageTable>, m2: Map<u64, PageTable>, a: A, pml4: u64, lv: Map<u64, int>, v: u64, level: int, newe: u64,
)
    requires
        tree_ok(m, a, pml4, lv),
        level == 1 || level == 2,
        pte_present(l4e(m, pml4, v)),
        pte_present(l3e(m, pml4, v)),
        level == 1 ==> pte_present(l2e(m, pml4, v)) && !pte_huge(l2e(m, pml4, v)),
        level == 2 ==> pte_present(newe) && pte_huge(newe),
        ({
            let t = if level == 1 { pte_addr(l2e(m, pml4, v)) } else { pte_addr(l3e(m, pml4, v)) };
            let idx = if level == 1 { l1_index(v) as int } else { l2_index(v) as int };
            forall|p: u64, j: int| 0 <= j < 512 ==> #[trigger] entry_at(m2, p, j) == (if p == t && j == idx { newe } else { entry_at(m, p, j) })
        }),
    ensures
        tree_ok(m2, a, pml4, lv),
        forall|w: u64| #![trigger translate_spec(m2, pml4, w)] #![trigger leaf_flags(m2, pml4, w)]
            (if level == 1 { !same_page(w, v) } else { !same_region(w, v) }) ==>
            translate_spec(m2, pml4, w) == translate_spec(m, pml4, w) && leaf_flags(m2, pml4, w) == leaf_flags(m, pml4, w),
{
    lemma_tree_walk(m, a, pml4, lv, v);
    lemma_index_bounds(v);
    let t = if level == 1 { pte_addr(l2e(m, pml4, v)) } else { pte_addr(l3e(m, pml4, v)) };
    let idx = if level == 1 { l1_index(v) as int } else { l2_index(v) as int };
    assert(lv.contains_key(t) && lv[t] == level);
    assert forall|p: u64, j: int| #![trigger lv.contains_key(p), entry_at(m2, p, j)]
        lv.contains_key(p) && 0 <= j < 512 && is_child(lv[p], entry_at(m2, p, j)) implies
            lv.contains_key(pte_addr(entry_at(m2, p, j))) && lv[pte_addr(entry_at(m2, p, j))] == lv[p] - 1 by {
        if p == t && j == idx {
        } else {
            assert(entry_at(m2, p, j) == entry_at(m, p, j));
        }
    }
    assert forall|t1: u64, j1: int, t2: u64, j2: int| #![trigger entry_at(m2, t1, j1), entry_at(m2, t2, j2)]
        lv.contains_key(t1) && lv.contains_key(t2) && 0 <= j1 < 512 && 0 <= j2 < 512
            && is_child(lv[t1], entry_at(m2, t1, j1)) && is_child(lv[t2], entry_at(m2, t2, j2))
            && pte_addr(entry_at(m2, t1, j1)) == pte_addr(entry_at(m2, t2, j2)) implies t1 == t2 && j1 == j2 by {
        if !(t1 == t && j1 == idx) && !(t2 == t && j2 == idx) {
            assert(entry_at(m2, t1, j1) == entry_at(m, t1, j1));
            assert(entry_at(m2, t2, j2) == entry_at(m, t2, j2));
        }
    }
    assert(tree_ok(m2, a, pml4, lv));
    let e4v = l4e(m, pml4, v);
    let e3v = l3e(m, pml4, v);
    let e2v = l2e(m, pml4, v);
    assert forall|w: u64| #![trigger translate_spec(m2, pml4, w)] #![trigger leaf_flags(m2, pml4, w)]
        (if level == 1 { !same_page(w, v) } else { !same_region(w, v) }) implies
        translate_spec(m2, pml4, w) == translate_spec(m, pml4, w) && leaf_flags(m2, pml4, w) == leaf_flags(m, pml4, w) by {
        lemma_tree_walk(m, a, pml4, lv, w);
        lemma_index_bounds(w);
        let i4 = l4_index(w) as int;
        let i3 = l3_index(w) as int;
        let i2 = l2_index(w) as int;
        let i1 = l1_index(w) as int;
        let e4 = entry_at(m, pml4, i4);
        assert(pml4 != t);
        assert(entry_at(m2, pml4, i4) == e4);
        if pte_present(e4) {
            let t3 = pte_addr(e4);
            assert(lv[t3] == 3 && t3 != t);
            let e3 = entry_at(m, t3, i3);
            assert(entry_at(m2, t3, i3) == e3);
            if pte_present(e3) {
                let t2 = pte_addr(e3);
                assert(lv[t2] == 2);
                let e2 = entry_at(m, t2, i2);
                if level == 2 && t2 == t && i2 == idx {
                    // the same directory at the same place: the same region
                    assert(is_child(3, e3) && is_child(3, e3v));
                    assert(t3 == pte_addr(e4v) && i3 == l3_index(v));
                    assert(is_child(4, e4) && is_child(4, e4v));
                    assert(i4 == l4_index(v));
                    assert(same_region(w, v));
                } else {
                    assert(entry_at(m2, t2, i2) == e2);
                    if pte_present(e2) && !pte_huge(e2) {
                        let t1 = pte_addr(e2);
                        assert(lv[t1] == 1);
                        if level == 1 && t1 == t && i1 == idx {
                            assert(is_child(2, e2) && is_child(2, e2v));
                            assert(t2 == pte_addr(e3v) && i2 == l2_index(v));
                            assert(is_child(3, e3) && is_child(3, e3v));
                            assert(t3 == pte_addr(e4v) && i3 == l3_index(v));
                            assert(is_child(4, e4) && is_child(4, e4v));
                            assert(i4 == l4_index(v));
                            assert(same_page(w, v));
                        } else {
                            assert(entry_at(m2, t1, i1) == entry_at(m, t1, i1));
                        }
                    }
                }
            }
        }
    }
}

/// Memory and allocator that look the same keep a tree a tree.
proof fn lemma_tree_same<A: PageAllocator>(m: Map<u64, PageTable>, m2: Map<u64, PageTable>, a: A, a2: A, pml4: u64, lv: Map<u64, int>)
    requires
        tree_ok(m, a, pml4, lv),
        mem_same(m, m2),
        alloc_same(a, a2),
    ensures
        tree_ok(m2, a2, pml4, lv),
        forall|w: u64| #![trigger translate_spec(m2, pml4, w)] #![trigger leaf_flags(m2, pml4, w)]
            translate_spec(m2, pml4, w) == translate_spec(m, pml4, w) && leaf_flags(m2, pml4, w) == leaf_flags(m, pml4, w),
{
    assert forall|p: u64, j: int| #![trigger lv.contains_key(p), entry_at(m2, p, j)]
        lv.contains_key(p) && 0 <= j < 512 && is_child(lv[p], entry_at(m2, p, j)) implies
            lv.contains_key(pte_addr(entry_at(m2, p, j))) && lv[pte_addr(entry_at(m2, p, j))] == lv[p] - 1 by {
        assert(entry_at(m2, p, j) == entry_at(m, p, j));
    }
    assert forall|t1: u64, j1: int, t2: u64, j2: int| #![trigger entry_at(m2, t1, j1), entry_at(m2, t2, j2)]
        lv.contains_key(t1) && lv.contains_key(t2) && 0 <= j1 < 512 && 0 <= j2 < 512
            && is_child(lv[t1], entry_at(m2, t1, j1)) && is_child(lv[t2], entry_at(m2, t2, j2))
            && pte_addr(entry_at(m2, t1, j1)) == pte_addr(entry_at(m2, t2, j2)) implies t1 == t2 && j1 == j2 by {
        assert(entry_at(m2, t1, j1) == entry_at(m, t1, j1));
        assert(entry_at(m2, t2, j2) == entry_at(m, t2, j2));
    }
    assert forall|w: u64| #![trigger translate_spec(m2, pml4, w)] #![trigger leaf_flags(m2, pml4, w)]
        translate_spec(m2, pml4, w) == translate_spec(m, pml4, w) && leaf_flags(m2, pml4, w) == leaf_flags(m, pml4, w) by {
        lemma_index_bounds(w);
        assert(l4e(m2, pml4, w) == l4e(m, pml4, w));
        assert(l3e(m2, pml4, w) == l3e(m, pml4, w));
        assert(l2e(m2, pml4, w) == l2e(m, pml4, w));
        assert(l1e(m2, pml4, w) == l1e(m, pml4, w));
    }
}

/// Addresses of one page walk the same entries; a present last-level
/// entry translates each of them to the entry's page plus the offset.
proof fn lemma_page_translate(m: Map<u64, PageTable>, pml4: u64, v: u64, w: u64)
    requires
        same_page(w, v),
        leaf_present(m, pml4, v),
        !pte_huge(l2e(m, pml4, v)),
    ensures
        translate_spec(m, pml4, w) == Some((pte_addr(l1e(m, pml4, v)) + (w & 0xfff)) as u64),
{
}

/// Addresses of one 2 MiB region walk the same entries; a huge present
/// directory entry translates each of them to its page plus the offset.
proof fn lemma_region_translate(m: Map<u64, PageTable>, pml4: u64, v: u64, w: u64)
    requires
        same_region(w, v),
        pte_present(l4e(m, pml4, v)),
        pte_present(l3e(m, pml4, v)),
        pte_present(l2e(m, pml4, v)),
        pte_huge(l2e(m, pml4, v)),
    ensures
        translate_spec(m, pml4, w) == Some((pte_addr(l2e(m, pml4, v)) + (w & 0x1f_ffff)) as u64),
{
}

/// An address below a page-aligned `v`, less than 2^47 below it, lies in
/// another page (another region when `v` is 2 MiB aligned).
pub proof fn lemma_below_other_page(w: u64, v: u64)
    requires
        w < v,
        v - w < 0x8000_0000_0000,
        v % 4096 == 0,
    ensures
        !same_page(w, v),
        v % 0x20_0000 == 0 ==> !same_region(w, v),
{
    assert(w < v && v - w < 0x8000_0000_0000u64 && v & 0xfffu64 == 0 ==> !(
        ((w >> 39u64) & 0x1ff) == ((v >> 39u64) & 0x1ff) && ((w >> 30u64) & 0x1ff) == ((v >> 30u64) & 0x1ff)
        && ((w >> 21u64) & 0x1ff) == ((v >> 21u64) & 0x1ff) && ((w >> 12u64) & 0x1ff) == ((v >> 12u64) & 0x1ff))) by (bit_vector);
    assert(w < v && v - w < 0x8000_0000_0000u64 && v & 0x1f_ffffu64 == 0 ==> !(
        ((w >> 39u64) & 0x1ff) == ((v >> 39u64) & 0x1ff) && ((w >> 30u64) & 0x1ff) == ((v >> 30u64) & 0x1ff)
        && ((w >> 21u64) & 0x1ff) == ((v >> 21u64) & 0x1ff))) by (bit_vector);
    assert(v % 4096 == 0 ==> v & 0xfffu64 == 0) by (bit_vector);
    assert(v % 0x20_0000 == 0 ==> v & 0x1f_ffffu64 == 0) by (bit_vector);
}

/// An address at most a page (region) above an aligned `v` lies in its
/// page (region), at offset `w - v`.
pub proof fn lemma_in_page(w: u64, v: u64)
    requires
        v <= w,
    ensures
        v % 4096 == 0 && w - v < 4096 ==> same_page(w, v) && w & 0xfff == w - v,
        v % 0x20_0000 == 0 && w - v < 0x20_0000 ==> same_region(w, v) && w & 0x1f_ffff == w - v,
{
    assert(v <= w && v & 0xfffu64 == 0 && w - v < 4096 ==>
        ((w >> 39u64) & 0x1ff) == ((v >> 39u64) & 0x1ff) && ((w >> 30u64) & 0x1ff) == ((v >> 30u64) & 0x1ff)
        && ((w >> 21u64) & 0x1ff) == ((v >> 21u64) & 0x1ff) && ((w >> 12u64) & 0x1ff) == ((v >> 12u64) & 0x1ff)
        && w & 0xfff == w - v) by (bit_vector);
    assert(v <= w && v & 0x1f_ffffu64 == 0 && w - v < 0x20_0000 ==>
        ((w >> 39u64) & 0x1ff) == ((v >> 39u64) & 0x1ff) && ((w >> 30u64) & 0x1ff) == ((v >> 30u64) & 0x1ff)
        && ((w >> 21u64) & 0x1ff) == ((v >> 21u64) & 0x1ff) && w & 0x1f_ffff == w - v) by (bit_vector);
    assert(v % 4096 == 0 ==> v & 0xfffu64 == 0) by (bit_vector);
    assert(v % 0x20_0000 == 0 ==> v & 0x1f_ffffu64 == 0) by (bit_vector);
}

/// Page-aligned physical addresses below the limit keep their bits under
/// the address mask.
pub proof fn lemma_mask_keeps(p: u64)
    requires
        p % 4096 == 0,
        p < PHYS_LIMIT,
    ensures
        p & PHYS_ADDR_MASK == p,
{
    assert(p & 0xfffu64 == 0 && p < 0x10_0000_0000_0000u64 ==> p & 0x000f_ffff_ffff_f000u64 == p) by (bit_vector);
    assert(p % 4096 == 0 ==> p & 0xfffu64 == 0) by (bit_vector);
}

/// Every address of `[virt_start, virt_start + n)` translates to the same
/// offset from `phys_start`.
pub open spec fn range_mapped(m: Map<u64, PageTable>, pml4: u64, virt_start: u64, phys_start: u64, n: int) -> bool {
    forall|w: u64| virt_start <= w < virt_start + n ==> #[trigger] translate_spec(m, pml4, w) == Some((phys_start + (w - virt_start)) as u64)
}

/// `map_range(virt_start, phys_start, size, ..)` maps the 2 MiB region of
/// `w` by one huge entry: the region lies inside the range, and the
/// physical addresses are 2 MiB aligned where the virtual ones are.
pub open spec fn maps_huge(virt_start: u64, phys_start: u64, size: u64, w: u64) -> bool {
    let r = w - w % 0x20_0000;
    &&& (phys_start - virt_start) % 0x20_0000 == 0
    &&& virt_start <= r
    &&& r + 0x20_0000 <= virt_start + size
}

/// Every address of `[virt_start, virt_start + n)` is mapped with the flags
/// `fl` and present, and with the huge flag exactly where `map_range` of
/// `size` bytes uses a 2 MiB page.
pub open spec fn range_flags(m: Map<u64, PageTable>, pml4: u64, virt_start: u64, phys_start: u64, size: u64, n: int, fl: u64) -> bool {
    forall|w: u64| virt_start <= w < virt_start + n ==> #[trigger] leaf_flags(m, pml4, w)
        == Some(if maps_huge(virt_start, phys_start, size, w) { (fl | 1) | 0x80 } else { fl | 1 })
}

/// Where `map_range` stands at an address `virt` that is not 2 MiB aligned
/// while the physical side would be, the region of `virt` starts before
/// the range or ends after it.
pub open spec fn unaligned_ok(virt_start: u64, phys_start: u64, end: u64, virt: u64) -> bool {
    (phys_start - virt_start) % 0x20_0000 == 0 && virt % 0x20_0000 != 0 ==>
        virt - virt % 0x20_0000 < virt_start || virt - virt % 0x20_0000 + 0x20_0000 > end
}

/// The 2 MiB region of an address of a range with 2 MiB aligned ends lies
/// inside the range.
proof fn lemma_region_inside(a: int, s: int, e: int)
    by (nonlinear_arith)
    requires
        s % 0x20_0000 == 0,
        e % 0x20_0000 == 0,
        s <= a < e,
    ensures
        s <= a - a % 0x20_0000,
        a - a % 0x20_0000 + 0x20_0000 <= e,
{
}

/// Addresses of one page, or of one 2 MiB region, share the region's start.
proof fn lemma_region_start(w: u64, v: u64)
    by (nonlinear_arith)
    requires
        v <= w,
    ensures
        v % 4096 == 0 && w - v < 4096 ==> w - w % 0x20_0000 == v - v % 0x20_0000,
        v % 0x20_0000 == 0 && w - v < 0x20_0000 ==> w - w % 0x20_0000 == v,
        v % 4096 == 0 && (v + 4096) % 0x20_0000 != 0 ==> (v + 4096) - (v + 4096) % 0x20_0000 == v - v % 0x20_0000,
        v % 0x20_0000 == 0 ==> (v + 0x20_0000) % 0x20_0000 == 0,
{
}

/// The walk of some address of `[virt_start, virt_start + n)` meets a
/// huge entry.
pub open spec fn huge_in_range(m: Map<u64, PageTable>, pml4: u64, virt_start: u64, n: int) -> bool {
    exists|w: u64| virt_start <= w < virt_start + n && #[trigger] huge_on_path(m, pml4, w, 3)
}

/// Every address whose translation differs between `m0` and `m1` lies in
/// the page (by the walk's indices) of some address of
/// `[virt_start, virt_start + n)`.
pub open spec fn changed_within(m0: Map<u64, PageTable>, m1: Map<u64, PageTable>, pml4: u64, virt_start: u64, n: int) -> bool {
    forall|w: u64| #[trigger] walk_changed(m0, m1, pml4, w) ==>
        exists|v: u64| virt_start <= v < virt_start + n && #[trigger] same_page(w, v)
}

/// The translation of `w`, or the flags it is mapped with, differ between
/// `m0` and `m1`.
pub open spec fn walk_changed(m0: Map<u64, PageTable>, m1: Map<u64, PageTable>, pml4: u64, w: u64) -> bool {
    translate_spec(m1, pml4, w) != translate_spec(m0, pml4, w) || leaf_flags(m1, pml4, w) != leaf_flags(m0, pml4, w)
}

/// An address of the 2 MiB region of an aligned `virt` shares its page
/// with the address of that region at the same page offset.
proof fn lemma_region_page(w: u64, virt: u64)
    requires
        same_region(w, virt),
        virt % 0x20_0000 == 0,
        virt + 0x20_0000 <= u64::MAX,
    ensures
        same_page(w, (virt + (w & 0x1f_f000)) as u64),
        virt <= virt + (w & 0x1f_f000) < virt + 0x20_0000,
{
    assert(virt % 0x20_0000 == 0 ==> virt & 0x1f_ffffu64 == 0) by (bit_vector);
    assert(virt & 0x1f_ffffu64 == 0 && virt + 0x20_0000 <= 0xffff_ffff_ffff_ffffu64 && ((w >> 39u64) & 0x1ff) == ((virt >> 39u64) & 0x1ff)
        && ((w >> 30u64) & 0x1ff) == ((virt >> 30u64) & 0x1ff) && ((w >> 21u64) & 0x1ff) == ((virt >> 21u64) & 0x1ff) ==> ({
            let v = (virt + (w & 0x1f_f000u64)) as u64;
            &&& ((w >> 39u64) & 0x1ff) == ((v >> 39u64) & 0x1ff)
            &&& ((w >> 30u64) & 0x1ff) == ((v >> 30u64) & 0x1ff)
            &&& ((w >> 21u64) & 0x1ff) == ((v >> 21u64) & 0x1ff)
            &&& ((w >> 12u64) & 0x1ff) == ((v >> 12u64) & 0x1ff)
            &&& (w & 0x1f_f000u64) < 0x20_0000
        })) by (bit_vector);
}

/// A 4 KiB step of `map_range` extends the mapped prefix by a page.
proof fn lemma_step_4kb(m0: Map<u64, PageTable>, m1: Map<u64, PageTable>, pml4: u64, virt_start: u64, phys_start: u64, virt: u64, phys: u64, fl: u64, size: u64)
    requires
        range_mapped(m0, pml4, virt_start, phys_start, virt - virt_start),
        virt_start <= virt < virt_start + size,
        virt + 4096 <= u64::MAX,
        size <= 0x8000_0000_0000,
        virt % 4096 == 0,
        virt_start % 4096 == 0,
        phys_start % 4096 == 0,
        phys - phys_start == virt - virt_start,
        phys_start + size <= PHYS_LIMIT,
        fl & !ALL_FLAG_BITS == 0,
        leaf_present(m1, pml4, virt),
        !pte_huge(l2e(m1, pml4, virt)),
        l1e(m1, pml4, virt) == phys | (fl | 1),
        forall|w: u64| !same_page(w, virt) ==> #[trigger] translate_spec(m1, pml4, w) == translate_spec(m0, pml4, w),
    ensures
        range_mapped(m1, pml4, virt_start, phys_start, virt + 4096 - virt_start),
{
    lemma_leaf_entry(phys, fl);
    assert(phys % 4096 == 0) by (nonlinear_arith)
        requires
            virt % 4096 == 0,
            virt_start % 4096 == 0,
            phys_start % 4096 == 0,
            phys - phys_start == virt - virt_start;
    lemma_mask_keeps(phys);
    assert forall|w: u64| virt_start <= w < virt_start + (virt + 4096 - virt_start) implies
        #[trigger] translate_spec(m1, pml4, w) == Some((phys_start + (w - virt_start)) as u64) by {
        if w < virt {
            lemma_below_other_page(w, virt);
            assert(translate_spec(m0, pml4, w) == Some((phys_start + (w - virt_start)) as u64));
        } else {
            lemma_in_page(w, virt);
            lemma_page_translate(m1, pml4, virt, w);
        }
    }
}

/// A 2 MiB step of `map_range` extends the mapped prefix by a region.
#[verifier::spinoff_prover]
#[verifier::rlimit(40)]
proof fn lemma_step_2mb(m0: Map<u64, PageTable>, m1: Map<u64, PageTable>, pml4: u64, virt_start: u64, phys_start: u64, virt: u64, phys: u64, fl: u64, size: u64)
    requires
        range_mapped(m0, pml4, virt_start, phys_start, virt - virt_start),
        virt_start <= virt,
        virt + 0x20_0000 <= virt_start + size,
        virt_start + size <= u64::MAX,
        size <= 0x8000_0000_0000,
        virt % 0x20_0000 == 0,
        phys % 0x20_0000 == 0,
        phys - phys_start == virt - virt_start,
        phys_start + size <= PHYS_LIMIT,
        fl & !ALL_FLAG_BITS == 0,
        translate_spec(m1, pml4, virt) is Some,
        l2e(m1, pml4, virt) == phys | ((fl | 1) | 0x80),
        forall|w: u64| !same_region(w, virt) ==> #[trigger] translate_spec(m1, pml4, w) == translate_spec(m0, pml4, w),
    ensures
        range_mapped(m1, pml4, virt_start, phys_start, virt + 0x20_0000 - virt_start),
{
    lemma_leaf_entry(phys, fl);
    assert(phys % 4096 == 0);
    lemma_mask_keeps(phys);
    assert(virt % 4096 == 0);
    assert forall|w: u64| virt_start <= w < virt_start + (virt + 0x20_0000 - virt_start) implies
        #[trigger] translate_spec(m1, pml4, w) == Some((phys_start + (w - virt_start)) as u64) by {
        if w < virt {
            lemma_below_other_page(w, virt);
            assert(translate_spec(m0, pml4, w) == Some((phys_start + (w - virt_start)) as u64));
        } else {
            lemma_in_page(w, virt);
            lemma_region_translate(m1, pml4, virt, w);
        }
    }
}

/// A page-aligned `virt` whose last-level entry maps the page-aligned
/// `phys` with the flags `fl` translates to `phys`, with those flags and
/// the present bit.
pub proof fn lemma_page_leaf(m: Map<u64, PageTable>, pml4: u64, virt: u64, phys: u64, fl: u64)
    requires
        virt % 4096 == 0,
        phys % 4096 == 0,
        phys < PHYS_LIMIT,
        fl & !ALL_FLAG_BITS == 0,
        leaf_present(m, pml4, virt),
        !pte_huge(l2e(m, pml4, virt)),
        l1e(m, pml4, virt) == phys | (fl | 1),
    ensures
        translate_spec(m, pml4, virt) == Some(phys),
        leaf_flags(m, pml4, virt) == Some(fl | 1),
{
    lemma_leaf_entry(phys, fl);
    lemma_mask_keeps(phys);
    lemma_in_page(virt, virt);
}

/// A 4 KiB step of `map_range` extends the prefix mapped with the right
/// flags by a page, and keeps the bookkeeping of unaligned positions.
proof fn lemma_flags_4kb(m0: Map<u64, PageTable>, m1: Map<u64, PageTable>, pml4: u64, virt_start: u64, phys_start: u64, size: u64, virt: u64, phys: u64, fl: u64)
    requires
        range_flags(m0, pml4, virt_start, phys_start, size, virt - virt_start, fl),
        unaligned_ok(virt_start, phys_start, (virt_start + size) as u64, virt),
        virt_start <= virt < virt_start + size,
        virt_start + size + 4096 <= u64::MAX,
        size <= 0x8000_0000_0000,
        virt % 4096 == 0,
        virt_start % 4096 == 0,
        phys_start % 4096 == 0,
        phys - phys_start == virt - virt_start,
        phys_start + size <= PHYS_LIMIT,
        !(virt % 0x20_0000 == 0 && phys % 0x20_0000 == 0 && virt_start + size - virt >= 0x20_0000),
        fl & !ALL_FLAG_BITS == 0,
        leaf_present(m1, pml4, virt),
        !pte_huge(l2e(m1, pml4, virt)),
        l1e(m1, pml4, virt) == phys | (fl | 1),
        forall|w: u64| !same_page(w, virt) ==> #[trigger] leaf_flags(m1, pml4, w) == leaf_flags(m0, pml4, w),
    ensures
        range_flags(m1, pml4, virt_start, phys_start, size, virt + 4096 - virt_start, fl),
{
    lemma_leaf_entry(phys, fl);
    assert(phys % 4096 == 0) by (nonlinear_arith)
        requires
            virt % 4096 == 0,
            virt_start % 4096 == 0,
            phys_start % 4096 == 0,
            phys - phys_start == virt - virt_start;
    assert(virt % 0x20_0000 == 0 && (phys_start - virt_start) % 0x20_0000 == 0 ==> phys % 0x20_0000 == 0) by (nonlinear_arith)
        requires
            phys - phys_start == virt - virt_start;
    lemma_region_start(virt, virt);
    assert forall|w: u64| virt_start <= w < virt_start + (virt + 4096 - virt_start) implies
        #[trigger] leaf_flags(m1, pml4, w) == Some(if maps_huge(virt_start, phys_start, size, w) { (fl | 1) | 0x80 } else { fl | 1 }) by {
        if w < virt {
            lemma_below_other_page(w, virt);
            assert(leaf_flags(m0, pml4, w) == Some(if maps_huge(virt_start, phys_start, size, w) { (fl | 1) | 0x80 } else { fl | 1 }));
        } else {
            lemma_in_page(w, virt);
            lemma_region_start(w, virt);
            assert(leaf_flags(m1, pml4, w) == leaf_flags(m1, pml4, virt));
            assert(!maps_huge(virt_start, phys_start, size, w));
        }
    }
}

/// After a 4 KiB step of `map_range`, an unaligned position still lies in
/// a region that starts before the range or ends after it.
proof fn lemma_unaligned_4kb(virt_start: u64, phys_start: u64, size: u64, virt: u64, phys: u64)
    requires
        unaligned_ok(virt_start, phys_start, (virt_start + size) as u64, virt),
        virt_start <= virt < virt_start + size,
        virt_start + size + 4096 <= u64::MAX,
        virt % 4096 == 0,
        phys - phys_start == virt - virt_start,
        !(virt % 0x20_0000 == 0 && phys % 0x20_0000 == 0 && virt_start + size - virt >= 0x20_0000),
    ensures
        unaligned_ok(virt_start, phys_start, (virt_start + size) as u64, (virt + 4096) as u64),
{
    assert(virt % 0x20_0000 == 0 && (phys_start - virt_start) % 0x20_0000 == 0 ==> phys % 0x20_0000 == 0) by (nonlinear_arith)
        requires
            phys - phys_start == virt - virt_start;
    lemma_region_start(virt, virt);
}

/// A 2 MiB step of `map_range` extends the prefix mapped with the right
/// flags by a region, mapped huge.
proof fn lemma_flags_2mb(m0: Map<u64, PageTable>, m1: Map<u64, PageTable>, pml4: u64, virt_start: u64, phys_start: u64, size: u64, virt: u64, phys: u64, fl: u64)
    requires
        range_flags(m0, pml4, virt_start, phys_start, size, virt - virt_start, fl),
        virt_start <= virt,
        virt + 0x20_0000 <= virt_start + size,
        virt_start + size <= u64::MAX,
        size <= 0x8000_0000_0000,
        virt % 0x20_0000 == 0,
        phys % 0x20_0000 == 0,
        phys - phys_start == virt - virt_start,
        phys_start + size <= PHYS_LIMIT,
        fl & !ALL_FLAG_BITS == 0,
        pte_present(l4e(m1, pml4, virt)),
        pte_present(l3e(m1, pml4, virt)),
        l2e(m1, pml4, virt) == phys | ((fl | 1) | 0x80),
        forall|w: u64| !same_region(w, virt) ==> #[trigger] leaf_flags(m1, pml4, w) == leaf_flags(m0, pml4, w),
    ensures
        range_flags(m1, pml4, virt_start, phys_start, size, virt + 0x20_0000 - virt_start, fl),
        unaligned_ok(virt_start, phys_start, (virt_start + size) as u64, (virt + 0x20_0000) as u64),
{
    lemma_leaf_entry(phys, fl);
    assert((phys_start - virt_start) % 0x20_0000 == 0) by (nonlinear_arith)
        requires
            virt % 0x20_0000 == 0,
            phys % 0x20_0000 == 0,
            phys - phys_start == virt - virt_start;
    assert(virt % 4096 == 0) by (nonlinear_arith)
        requires
            virt % 0x20_0000 == 0;
    lemma_region_start(virt, virt);
    assert forall|w: u64| virt_start <= w < virt_start + (virt + 0x20_0000 - virt_start) implies
        #[trigger] leaf_flags(m1, pml4, w) == Some(if maps_huge(virt_start, phys_start, size, w) { (fl | 1) | 0x80 } else { fl | 1 }) by {
        if w < virt {
            lemma_below_other_page(w, virt);
            assert(leaf_flags(m0, pml4, w) == Some(if maps_huge(virt_start, phys_start, size, w) { (fl | 1) | 0x80 } else { fl | 1 }));
        } else {
            lemma_in_page(w, virt);
            lemma_region_start(w, virt);
            assert(leaf_flags(m1, pml4, w) == leaf_flags(m1, pml4, virt));
            assert(maps_huge(virt_start, phys_start, size, w));
        }
    }
}

/// A fresh PML4 `dst` whose upper half repeats the PML4 `src` of a tree
/// (and whose lower half is empty) is the root of a tree.
proof fn lemma_user_tree<A: PageAllocator>(m: Map<u64, PageTable>, m2: Map<u64, PageTable>, a: A, a2: A, src: u64, dst: u64)
    requires
        alloc_took(a, a2, dst),
        forall|j: int| 0 <= j < 256 ==> #[trigger] entry_at(m2, dst, j) == 0,
        forall|j: int| 256 <= j < 512 ==> #[trigger] entry_at(m2, dst, j) == entry_at(m, src, j),
        forall|p: u64, j: int| 0 <= j < 512 && p != dst ==> #[trigger] entry_at(m2, p, j) == entry_at(m, p, j),
    ensures
        is_tree(m, a, src) ==> is_tree(m2, a2, dst),
{
    if is_tree(m, a, src) {
        lemma_zero_entry();
        let lv = choose|lv: Map<u64, int>| tree_ok(m, a, src, lv);
        let lv2 = lv.remove(src).insert(dst, 4);
        assert(!lv.contains_key(dst)) by {
            if lv.contains_key(dst) {
                assert(!a.page_free(dst));
            }
        }
        assert forall|t: u64| #[trigger] lv2.contains_key(t) implies !a2.page_free(t) && 1 <= lv2[t] <= 4 && (lv2[t] == 4 ==> t == dst) by {
            if t != dst {
                assert(lv.contains_key(t) && t != src);
                assert(!a.page_free(t));
            }
        }
        assert forall|p: u64, j: int| #![trigger lv2.contains_key(p), entry_at(m2, p, j)]
            lv2.contains_key(p) && 0 <= j < 512 && is_child(lv2[p], entry_at(m2, p, j)) implies
                lv2.contains_key(pte_addr(entry_at(m2, p, j))) && lv2[pte_addr(entry_at(m2, p, j))] == lv2[p] - 1 by {
            if p == dst {
                if j < 256 {
                    assert(entry_at(m2, p, j) == 0);
                } else {
                    assert(entry_at(m2, dst, j) == entry_at(m, src, j));
                    assert(is_child(lv[src], entry_at(m, src, j)));
                }
            } else {
                assert(entry_at(m2, p, j) == entry_at(m, p, j));
                assert(lv.contains_key(p));
            }
        }
        assert forall|t1: u64, j1: int, t2: u64, j2: int| #![trigger entry_at(m2, t1, j1), entry_at(m2, t2, j2)]
            lv2.contains_key(t1) && lv2.contains_key(t2) && 0 <= j1 < 512 && 0 <= j2 < 512
                && is_child(lv2[t1], entry_at(m2, t1, j1)) && is_child(lv2[t2], entry_at(m2, t2, j2))
                && pte_addr(entry_at(m2, t1, j1)) == pte_addr(entry_at(m2, t2, j2)) implies t1 == t2 && j1 == j2 by {
            let s1 = if t1 == dst { src } else { t1 };
            let s2 = if t2 == dst { src } else { t2 };
            if t1 == dst && j1 < 256 {
                assert(entry_at(m2, t1, j1) == 0);
            } else if t2 == dst && j2 < 256 {
                assert(entry_at(m2, t2, j2) == 0);
            } else {
                assert(entry_at(m2, t1, j1) == entry_at(m, s1, j1));
                assert(entry_at(m2, t2, j2) == entry_at(m, s2, j2));
                assert(lv.contains_key(s1) && lv.contains_key(s2));
                assert(is_child(lv[s1], entry_at(m, s1, j1)));
                assert(is_child(lv[s2], entry_at(m, s2, j2)));
            }
        }
        assert(tree_ok(m2, a2, dst, lv2));
    }
}

/// Flags that intermediate tables receive when a page with `flags` is mapped.
pub open spec fn table_flags_for(flags: PageFlags) -> u64 {
    if flags.bits & 4 == 4 {
        7
    } else {
        3
    }
}

// ----------------------------------------------------------------------
// Page table manager
// ----------------------------------------------------------------------

pub struct PageTableManager {
    pml4_phys: PhysAddr,
}

impl PageTableManager {
    pub closed spec fn pml4(&self) -> u64 {
        self.pml4_phys@
    }

    pub fn pml4_phys(&self) -> (r: PhysAddr)
        ensures
            r@ == self.pml4(),
    {
        self.pml4_phys
    }

    pub fn from_phys(pml4_phys: PhysAddr) -> (r: Self)
        ensures
            r.pml4() == pml4_phys@,
    {
        Self { pml4_phys }
    }

    /// Physical address that `virt` translates to.
    pub fn translate(&self, virt: u64, mem: &PhysMemory) -> (r: Option<PhysAddr>)
        ensures
            r matches Some(p) ==> translate_spec(mem@, self.pml4(), virt) == Some(p@),
            r is None <==> translate_spec(mem@, self.pml4(), virt) is None,
    {
        let parts = VirtAddrParts::from_u64(virt);
        let e = mem.read_entry(self.pml4_phys.as_u64(), parts.pml4);
        if !e.is_present() {
            return None;
        }
        let e = mem.read_entry(e.phys_addr().as_u64(), parts.pdpt);
        if !e.is_present() {
            return None;
        }
        let e = mem.read_entry(e.phys_addr().as_u64(), parts.pd);
        if !e.is_present() {
            return None;
        }
        if e.flags().contains(PageFlags::huge()) {
            let offset = virt & (SIZE_2MB - 1);
            proof {
                lemma_huge_flag(e.0);
                lemma_addr_bound(e.0);
                assert(offset == virt & 0x1f_ffff);
                lemma_index_bounds(virt);
            }
            return Some(PhysAddr::new(e.phys_addr().as_u64() + offset));
        }
        proof {
            lemma_huge_flag(e.0);
        }
        let e = mem.read_entry(e.phys_addr().as_u64(), parts.pt);
        if !e.is_present() {
            return None;
        }
        proof {
            lemma_addr_bound(e.0);
        }
        Some(PhysAddr::new(e.phys_addr().as_u64() + (parts.offset as u64)))
    }
}

/// The allocator hands out nothing and keeps its free pages.
pub open spec fn alloc_same<A: PageAllocator>(a1: A, a2: A) -> bool {
    &&& a2.free_page_count() == a1.free_page_count()
    &&& forall|q: u64| #[trigger] a2.page_free(q) == a1.page_free(q)
}

/// The allocator handed out page `p` and nothing else.
pub open spec fn alloc_took<A: PageAllocator>(a1: A, a2: A, p: u64) -> bool {
    &&& a1.page_free(p)
    &&& !a2.page_free(p)
    &&& a2.free_page_count() + 1 == a1.free_page_count()
    &&& forall|q: u64| #[trigger] a2.page_free(q) ==> a1.page_free(q)
}

pub open spec fn mem_same(m1: Map<u64, PageTable>, m2: Map<u64, PageTable>) -> bool {
    forall|p: u64, j: int| 0 <= j < 512 ==> #[trigger] entry_at(m2, p, j) == entry_at(m1, p, j)
}

/// Makes entry `idx` of the table at `table` point to a table and returns
/// that table's address; a zeroed page is taken from the allocator when the
/// entry is empty. Fails on an entry that maps a huge page.
fn ensure_table<A: PageAllocator>(
    mem: &mut PhysMemory,
    table: u64,
    idx: usize,
    allocator: &mut A,
    table_flags: PageFlags,
) -> (r: Option<PhysAddr>)
    requires
        idx < 512,
        old(allocator).ready(),
        table_flags.bits == 3 || table_flags.bits == 7,
    ensures
        final(allocator).ready(),
        ({
            let e = entry_at(old(mem)@, table, idx as int);
            match r {
                None => {
                    &&& (pte_present(e) && pte_huge(e)) || (!pte_present(e) && old(allocator).free_page_count() == 0)
                    &&& mem_same(old(mem)@, final(mem)@)
                    &&& alloc_same(*old(allocator), *final(allocator))
                },
                Some(n) => {
                    let e2 = entry_at(final(mem)@, table, idx as int);
                    &&& pte_present(e2) && !pte_huge(e2) && pte_addr(e2) == n@
                    &&& table_flags.bits == 7 ==> e2 & 4 != 0
                    &&& n@ % 4096 == 0 && n@ < PHYS_LIMIT
                    &&& pte_present(e) ==> {
                        &&& !pte_huge(e)
                        &&& n@ == pte_addr(e)
                        &&& alloc_same(*old(allocator), *final(allocator))
                        &&& forall|p: u64, j: int| 0 <= j < 512 && (p != table || j != idx) ==> #[trigger] entry_at(final(mem)@, p, j) == entry_at(old(mem)@, p, j)
                    }
                    &&& !pte_present(e) ==> {
                        &&& alloc_took(*old(allocator), *final(allocator), n@)
                        &&& forall|p: u64, j: int| 0 <= j < 512 && (p != table || j != idx) ==> #[trigger] entry_at(final(mem)@, p, j) == (if p == n@ { 0 } else { entry_at(old(mem)@, p, j) })
                    }
                },
            }
        }),
{
    let e = mem.read_entry(table, idx);
    if e.is_present() {
        proof {
            lemma_huge_flag(e.0);
        }
        if e.flags().contains(PageFlags::huge()) {
            return None;
        }
        let user = PageFlags::user();
        if table_flags.contains(user) && !e.flags().contains(user) {
            let phys = e.phys_addr();
            let ne = PageTableEntry::new_table(phys, e.flags().union(user));
            proof {
                lemma_upgrade_user(e.0);
                lemma_user_bit(e.0);
            }
            mem.write_entry(table, idx, ne);
        }
        proof {
            lemma_user_bit(e.0);
        }
        proof {
            lemma_addr_bound(e.0);
        }
        Some(e.phys_addr())
    } else {
        let phys = match allocator.alloc_page() {
            Some(p) => p,
            None => return None,
        };
        mem.zero_page(phys.as_u64());
        let ne = PageTableEntry::new_table(phys, table_flags);
        proof {
            lemma_new_table_entry(phys@, table_flags.bits);
            lemma_user_bit(phys@);
        }
        mem.write_entry(table, idx, ne);
        Some(phys)
    }
}

impl PageTableManager {
    /// Maps the 4 KiB page at `virt` to `phys`, creating the intermediate
    /// tables that are missing.
    fn map_4kb<A: PageAllocator>(
        &mut self,
        virt: u64,
        phys: PhysAddr,
        flags: PageFlags,
        allocator: &mut A,
        mem: &mut PhysMemory,
    ) -> (r: Option<()>)
        requires
            old(allocator).ready(),
            flags.valid(),
        ensures
            final(self).pml4() == old(self).pml4(),
            final(allocator).ready(),
            forall|q: u64| #[trigger] final(allocator).page_free(q) ==> old(allocator).page_free(q),
            final(allocator).free_page_count() + 3 >= old(allocator).free_page_count(),
            path_ok(old(mem)@, *old(allocator), old(self).pml4(), virt) ==> {
                &&& changed_only_on_path(old(mem)@, final(mem)@, old(self).pml4(), virt)
                &&& r is Some ==> translate_spec(final(mem)@, old(self).pml4(), virt) == Some(((phys@ & PHYS_ADDR_MASK) + (virt & 0xfff)) as u64)
                &&& r is Some ==> leaf_present(final(mem)@, old(self).pml4(), virt) && !pte_huge(l2e(final(mem)@, old(self).pml4(), virt))
                    && l1e(final(mem)@, old(self).pml4(), virt) == phys@ | (flags.bits | 1)
                &&& r is Some && flags.bits & 4 != 0 ==> l4e(final(mem)@, old(self).pml4(), virt) & 4 != 0
                    && l3e(final(mem)@, old(self).pml4(), virt) & 4 != 0 && l2e(final(mem)@, old(self).pml4(), virt) & 4 != 0
                &&& r is Some ==> path_from(old(mem)@, *old(allocator), final(mem)@, old(self).pml4(), virt)
                &&& r is Some ==> !huge_on_path(final(mem)@, old(self).pml4(), virt, 3)
                &&& r is Some ==> forall|j: int| 0 <= j < 512 && j != l4_index(virt) ==> #[trigger] entry_at(final(mem)@, old(self).pml4(), j) == entry_at(old(mem)@, old(self).pml4(), j)
                &&& r is None ==> huge_on_path(old(mem)@, old(self).pml4(), virt, 3) || final(allocator).free_page_count() == 0
                &&& r is None ==> huge_on_path(final(mem)@, old(self).pml4(), virt, 3) || final(allocator).free_page_count() == 0
                &&& !huge_on_path(old(mem)@, old(self).pml4(), virt, 3) && old(allocator).free_page_count() >= 3 ==> r is Some
                &&& !huge_on_path(old(mem)@, old(self).pml4(), virt, 3) && pte_present(l4e(old(mem)@, old(self).pml4(), virt))
                    && pte_present(l3e(old(mem)@, old(self).pml4(), virt)) && pte_present(l2e(old(mem)@, old(self).pml4(), virt)) ==> r is Some
            },
            is_tree(old(mem)@, *old(allocator), old(self).pml4()) ==> {
                &&& is_tree(final(mem)@, *final(allocator), old(self).pml4())
                &&& forall|w: u64| !same_page(w, virt) ==> #[trigger] translate_spec(final(mem)@, old(self).pml4(), w) == translate_spec(old(mem)@, old(self).pml4(), w)
                &&& forall|w: u64| !same_page(w, virt) ==> #[trigger] leaf_flags(final(mem)@, old(self).pml4(), w) == leaf_flags(old(mem)@, old(self).pml4(), w)
                &&& r is Some ==> forall|w: u64| #[trigger] huge_on_path(final(mem)@, old(self).pml4(), w, 3) ==> huge_on_path(old(mem)@, old(self).pml4(), w, 3)
            },
    {
        let parts = VirtAddrParts::from_u64(virt);
        let table_flags = if flags.contains(PageFlags::user()) {
            PageFlags::present().union(PageFlags::writable()).union(PageFlags::user())
        } else {
            PageFlags::present().union(PageFlags::writable())
        };
        proof {
            lemma_bit_constants();
        }
        let t4 = self.pml4_phys.as_u64();
        proof {
            lemma_zero_entry();
        }
        let ghost m0 = mem@;
        let ghost a0 = *allocator;
        let ghost tree = is_tree(m0, a0, t4);
        let ghost mut lv: Map<u64, int> = if tree { choose|lv: Map<u64, int>| tree_ok(m0, a0, t4, lv) } else { Map::empty() };
        proof {
            if tree {
                lemma_tree_walk(m0, a0, t4, lv, virt);
            }
        }
        let t3 = match ensure_table(mem, t4, parts.pml4, allocator, table_flags) {
            Some(p) => p,
            None => {
                proof {
                    if tree {
                        lemma_tree_same(m0, mem@, a0, *allocator, t4, lv);
                    }
                }
                return None;
            },
        };
        let ghost m1 = mem@;
        let ghost a1 = *allocator;
        proof {
            if tree {
                assert(linked(m0, m1, a0, a1, t4, l4_index(virt) as int, t3@));
                lemma_index_bounds(virt);
                lemma_step_no_huge(m0, m1, a0, a1, t4, lv, t4, l4_index(virt) as int, t3@);
                lv = lemma_link(m0, m1, a0, a1, t4, lv, t4, l4_index(virt) as int, t3@);
            }
        }
        proof {
            if path_ok(m0, a0, t4, virt) {
            assert(t3@ != t4);
                assert(!a1.page_free(t4));
                assert(!a1.page_free(t3@));
                assert(pte_addr(l4e(m1, t4, virt)) == t3@);
            }
        }
        let t2 = match ensure_table(mem, t3.as_u64(), parts.pdpt, allocator, table_flags) {
            Some(p) => p,
            None => {
                proof {
                    if tree {
                        lemma_tree_same(m1, mem@, a1, *allocator, t4, lv);
                    }
                    if path_ok(m0, a0, t4, virt) {
                    assert(mem_same(m1, mem@));
                        assert forall|p: u64, j: int| 0 <= j < 512 && p != t4 && p != pte_addr(l4e(mem@, t4, virt)) && p != pte_addr(l3e(mem@, t4, virt))
                            && p != pte_addr(l2e(mem@, t4, virt)) implies #[trigger] entry_at(mem@, p, j) == entry_at(m0, p, j) by {
                            assert(entry_at(mem@, t4, l4_index(virt) as int) == entry_at(m1, t4, l4_index(virt) as int));
                        }
                        let e = entry_at(m1, t3@, parts.pdpt as int);
                        if pte_present(l4e(m0, t4, virt)) {
                            assert(entry_at(m1, t3@, l3_index(virt) as int) == l3e(m0, t4, virt));
                            if pte_present(e) {
                                assert(pte_huge(e));
                                assert(huge_on_path(m0, t4, virt, 3));
                            } else {
                                assert(a1.free_page_count() == 0);
                                assert(allocator.free_page_count() == 0);
                            }
                        } else {
                            assert(entry_at(m1, t3@, l3_index(virt) as int) == 0);
                            assert(!pte_present(e));
                            assert(a1.free_page_count() == 0);
                        }
                    }
                }
                return None;
            },
        };
        let ghost m2 = mem@;
        let ghost a2 = *allocator;
        proof {
            if tree {
                assert(linked(m1, m2, a1, a2, t3@, l3_index(virt) as int, t2@));
                lemma_index_bounds(virt);
                lemma_step_no_huge(m1, m2, a1, a2, t4, lv, t3@, l3_index(virt) as int, t2@);
                lv = lemma_link(m1, m2, a1, a2, t4, lv, t3@, l3_index(virt) as int, t2@);
            }
        }
        proof {
            if path_ok(m0, a0, t4, virt) {
            assert(entry_at(m2, t4, l4_index(virt) as int) == entry_at(m1, t4, l4_index(virt) as int));
                if pte_present(l4e(m0, t4, virt)) {
                    assert(entry_at(m1, t3@, l3_index(virt) as int) == l3e(m0, t4, virt));
                }
                assert(t2@ != t4);
                assert(t2@ != t3@);
                assert(!a2.page_free(t4));
                assert(!a2.page_free(t3@));
                assert(!a2.page_free(t2@));
            }
        }
        let t1 = match ensure_table(mem, t2.as_u64(), parts.pd, allocator, table_flags) {
            Some(p) => p,
            None => {
                proof {
                    if tree {
                        lemma_tree_same(m2, mem@, a2, *allocator, t4, lv);
                    }
                    if path_ok(m0, a0, t4, virt) {
                    assert(mem_same(m2, mem@));
                        assert(entry_at(mem@, t4, l4_index(virt) as int) == entry_at(m1, t4, l4_index(virt) as int));
                        assert(entry_at(mem@, t3@, l3_index(virt) as int) == entry_at(m2, t3@, l3_index(virt) as int));
                        if pte_present(l4e(m0, t4, virt)) && pte_present(l3e(m0, t4, virt)) {
                            assert(entry_at(m2, t2@, l2_index(virt) as int) == l2e(m0, t4, virt));
                        } else if pte_present(l4e(m0, t4, virt)) {
                            assert(entry_at(m1, t3@, l3_index(virt) as int) == l3e(m0, t4, virt));
                            assert(entry_at(m2, t2@, l2_index(virt) as int) == 0);
                        } else {
                            assert(entry_at(m1, t3@, l3_index(virt) as int) == 0);
                            assert(entry_at(m2, t2@, l2_index(virt) as int) == 0);
                        }
                    }
                }
                return None;
            },
        };
        let ghost m3 = mem@;
        let ghost a3 = *allocator;
        proof {
            if tree {
                assert(linked(m2, m3, a2, a3, t2@, l2_index(virt) as int, t1@));
                lemma_index_bounds(virt);
                lemma_step_no_huge(m2, m3, a2, a3, t4, lv, t2@, l2_index(virt) as int, t1@);
                lv = lemma_link(m2, m3, a2, a3, t4, lv, t2@, l2_index(virt) as int, t1@);
            }
        }
        proof {
            if path_ok(m0, a0, t4, virt) {
            assert(entry_at(m3, t4, l4_index(virt) as int) == entry_at(m1, t4, l4_index(virt) as int));
                assert(entry_at(m3, t3@, l3_index(virt) as int) == entry_at(m2, t3@, l3_index(virt) as int));
                if pte_present(l4e(m0, t4, virt)) && pte_present(l3e(m0, t4, virt)) {
                    assert(entry_at(m2, t2@, l2_index(virt) as int) == l2e(m0, t4, virt));
                } else if pte_present(l4e(m0, t4, virt)) {
                    assert(entry_at(m1, t3@, l3_index(virt) as int) == l3e(m0, t4, virt));
                    assert(entry_at(m2, t2@, l2_index(virt) as int) == 0);
                } else {
                    assert(entry_at(m1, t3@, l3_index(virt) as int) == 0);
                    assert(entry_at(m2, t2@, l2_index(virt) as int) == 0);
                }
                assert(t1@ != t4);
                assert(t1@ != t3@);
                assert(t1@ != t2@);
            }
        }
        let leaf = PageTableEntry::new_page(phys, flags.union(PageFlags::present()));
        mem.write_entry(t1.as_u64(), parts.pt, leaf);
        proof {
            if path_ok(m0, a0, t4, virt) && flags.bits & 4 != 0 {
                lemma_user_bit(flags.bits);
                assert(table_flags.bits == 7);
                lemma_index_bounds(virt);
                let m4 = mem@;
                assert(entry_at(m4, t4, l4_index(virt) as int) == entry_at(m1, t4, l4_index(virt) as int));
                assert(entry_at(m4, t3@, l3_index(virt) as int) == entry_at(m2, t3@, l3_index(virt) as int));
                assert(entry_at(m4, t2@, l2_index(virt) as int) == entry_at(m3, t2@, l2_index(virt) as int));
            }
        }
        proof {
            if tree {
                lemma_index_bounds(virt);
                assert(entry_at(m3, t4, l4_index(virt) as int) == entry_at(m1, t4, l4_index(virt) as int));
                assert(entry_at(m3, t3@, l3_index(virt) as int) == entry_at(m2, t3@, l3_index(virt) as int));
                assert(pte_addr(l2e(m3, t4, virt)) == t1@);
                assert(lv.contains_key(t1@) && lv[t1@] == 1);
                lemma_leaf_no_huge(m3, mem@, a3, t4, lv, t1@);
                lemma_leaf_write(m3, mem@, a3, t4, lv, virt, 1, leaf.0);
                assert(tree_ok(mem@, *allocator, t4, lv));
            }
        }
        proof {
            if path_ok(m0, a0, t4, virt) {
            let m4 = mem@;
                assert(entry_at(m4, t4, l4_index(virt) as int) == entry_at(m1, t4, l4_index(virt) as int));
                assert(entry_at(m4, t3@, l3_index(virt) as int) == entry_at(m2, t3@, l3_index(virt) as int));
                assert(entry_at(m4, t2@, l2_index(virt) as int) == entry_at(m3, t2@, l2_index(virt) as int));
                assert(l1e(m4, t4, virt) == phys@ | (flags.bits | 1));
                lemma_leaf_entry(phys@, flags.bits);
                assert(pte_addr(l4e(m4, t4, virt)) == t3@);
                assert(pte_addr(l3e(m4, t4, virt)) == t2@);
                assert(pte_addr(l2e(m4, t4, virt)) == t1@);
                if !pte_present(l4e(m0, t4, virt)) {
                    assert(a0.page_free(t3@));
                    assert(entry_at(m1, t3@, l3_index(virt) as int) == 0);
                }
                if !(pte_present(l4e(m0, t4, virt)) && pte_present(l3e(m0, t4, virt))) {
                    assert(a1.page_free(t2@));
                    assert(a0.page_free(t2@));
                    assert(entry_at(m2, t2@, l2_index(virt) as int) == 0);
                }
                if !(pte_present(l4e(m0, t4, virt)) && pte_present(l3e(m0, t4, virt)) && pte_present(l2e(m0, t4, virt))
                    && !pte_huge(l2e(m0, t4, virt))) {
                    assert(a2.page_free(t1@));
                    assert(a0.page_free(t1@));
                }
                assert(path_from(m0, a0, m4, t4, virt));
                assert forall|j: int| 0 <= j < 512 && j != l4_index(virt) implies #[trigger] entry_at(m4, t4, j) == entry_at(m0, t4, j) by {
                    assert(entry_at(m1, t4, j) == entry_at(m0, t4, j));
                    assert(entry_at(m2, t4, j) == entry_at(m1, t4, j));
                    assert(entry_at(m3, t4, j) == entry_at(m2, t4, j));
                }
            }
        }
        Some(())
    }

    /// Maps the 2 MiB page at `virt` to `phys` with an entry of the page
    /// directory, creating the tables above it that are missing.
    fn map_2mb<A: PageAllocator>(
        &mut self,
        virt: u64,
        phys: PhysAddr,
        flags: PageFlags,
        allocator: &mut A,
        mem: &mut PhysMemory,
    ) -> (r: Option<()>)
        requires
            old(allocator).ready(),
            flags.valid(),
        ensures
            final(self).pml4() == old(self).pml4(),
            final(allocator).ready(),
            forall|q: u64| #[trigger] final(allocator).page_free(q) ==> old(allocator).page_free(q),
            final(allocator).free_page_count() + 3 >= old(allocator).free_page_count(),
            path_ok(old(mem)@, *old(allocator), old(self).pml4(), virt) ==> {
                &&& changed_only_on_path(old(mem)@, final(mem)@, old(self).pml4(), virt)
                &&& r is Some ==> translate_spec(final(mem)@, old(self).pml4(), virt) == Some(((phys@ & PHYS_ADDR_MASK) + (virt & 0x1f_ffff)) as u64)
                &&& r is Some ==> l2e(final(mem)@, old(self).pml4(), virt) == phys@ | ((flags.bits | 1) | 0x80)
                &&& r is None ==> huge_on_path(old(mem)@, old(self).pml4(), virt, 2) || final(allocator).free_page_count() == 0
                &&& r is None ==> huge_on_path(final(mem)@, old(self).pml4(), virt, 2) || final(allocator).free_page_count() == 0
                &&& !huge_on_path(old(mem)@, old(self).pml4(), virt, 2) && old(allocator).free_page_count() >= 2 ==> r is Some
            },
            is_tree(old(mem)@, *old(allocator), old(self).pml4()) ==> {
                &&& is_tree(final(mem)@, *final(allocator), old(self).pml4())
                &&& forall|w: u64| !same_region(w, virt) ==> #[trigger] translate_spec(final(mem)@, old(self).pml4(), w) == translate_spec(old(mem)@, old(self).pml4(), w)
                &&& forall|w: u64| !same_region(w, virt) ==> #[trigger] leaf_flags(final(mem)@, old(self).pml4(), w) == leaf_flags(old(mem)@, old(self).pml4(), w)
            },

    {
        let parts = VirtAddrParts::from_u64(virt);
        let table_flags = if flags.contains(PageFlags::user()) {
            PageFlags::present().union(PageFlags::writable()).union(PageFlags::user())
        } else {
            PageFlags::present().union(PageFlags::writable())
        };
        proof {
            lemma_bit_constants();
        }
        let t4 = self.pml4_phys.as_u64();
        proof {
            lemma_zero_entry();
        }
        let ghost m0 = mem@;
        let ghost a0 = *allocator;
        let ghost tree = is_tree(m0, a0, t4);
        let ghost mut lv: Map<u64, int> = if tree { choose|lv: Map<u64, int>| tree_ok(m0, a0, t4, lv) } else { Map::empty() };
        proof {
            if tree {
                lemma_tree_walk(m0, a0, t4, lv, virt);
            }
        }
        let t3 = match ensure_table(mem, t4, parts.pml4, allocator, table_flags) {
            Some(p) => p,
            None => {
                proof {
                    if tree {
                        lemma_tree_same(m0, mem@, a0, *allocator, t4, lv);
                    }
                }
                return None;
            },
        };
        let ghost m1 = mem@;
        let ghost a1 = *allocator;
        proof {
            if tree {
                assert(linked(m0, m1, a0, a1, t4, l4_index(virt) as int, t3@));
                lv = lemma_link(m0, m1, a0, a1, t4, lv, t4, l4_index(virt) as int, t3@);
            }
        }
        proof {
            if path_ok(m0, a0, t4, virt) {
            assert(t3@ != t4);
                assert(!a1.page_free(t4));
                assert(!a1.page_free(t3@));
                assert(pte_addr(l4e(m1, t4, virt)) == t3@);
            }
        }
        let t2 = match ensure_table(mem, t3.as_u64(), parts.pdpt, allocator, table_flags) {
            Some(p) => p,
            None => {
                proof {
                    if tree {
                        lemma_tree_same(m1, mem@, a1, *allocator, t4, lv);
                    }
                    if path_ok(m0, a0, t4, virt) {
                    assert(mem_same(m1, mem@));
                        assert forall|p: u64, j: int| 0 <= j < 512 && p != t4 && p != pte_addr(l4e(mem@, t4, virt)) && p != pte_addr(l3e(mem@, t4, virt))
                            && p != pte_addr(l2e(mem@, t4, virt)) implies #[trigger] entry_at(mem@, p, j) == entry_at(m0, p, j) by {
                            assert(entry_at(mem@, t4, l4_index(virt) as int) == entry_at(m1, t4, l4_index(virt) as int));
                        }
                        let e = entry_at(m1, t3@, parts.pdpt as int);
                        if pte_present(l4e(m0, t4, virt)) {
                            assert(entry_at(m1, t3@, l3_index(virt) as int) == l3e(m0, t4, virt));
                            if pte_present(e) {
                                assert(pte_huge(e));
                                assert(huge_on_path(m0, t4, virt, 3));
                            } else {
                                assert(a1.free_page_count() == 0);
                                assert(allocator.free_page_count() == 0);
                            }
                        } else {
                            assert(entry_at(m1, t3@, l3_index(virt) as int) == 0);
                            assert(!pte_present(e));
                            assert(a1.free_page_count() == 0);
                        }
                    }
                }
                return None;
            },
        };
        let ghost m2 = mem@;
        let ghost a2 = *allocator;
        proof {
            if tree {
                assert(linked(m1, m2, a1, a2, t3@, l3_index(virt) as int, t2@));
                lv = lemma_link(m1, m2, a1, a2, t4, lv, t3@, l3_index(virt) as int, t2@);
            }
        }
        proof {
            if path_ok(m0, a0, t4, virt) {
            assert(entry_at(m2, t4, l4_index(virt) as int) == entry_at(m1, t4, l4_index(virt) as int));
                if pte_present(l4e(m0, t4, virt)) {
                    assert(entry_at(m1, t3@, l3_index(virt) as int) == l3e(m0, t4, virt));
                }
                assert(t2@ != t4);
                assert(t2@ != t3@);
                assert(!a2.page_free(t4));
                assert(!a2.page_free(t3@));
                assert(!a2.page_free(t2@));
            }
        }
        let leaf = PageTableEntry::new_page(phys, flags.union(PageFlags::present()).union(PageFlags::huge()));
        mem.write_entry(t2.as_u64(), parts.pd, leaf);
        proof {
            if tree {
                lemma_index_bounds(virt);
                lemma_leaf_entry(phys@, flags.bits);
                assert(entry_at(m2, t4, l4_index(virt) as int) == entry_at(m1, t4, l4_index(virt) as int));
                assert(pte_addr(l3e(m2, t4, virt)) == t2@);
                lemma_leaf_write(m2, mem@, a2, t4, lv, virt, 2, leaf.0);
                assert(tree_ok(mem@, *allocator, t4, lv));
            }
        }
        proof {
            if path_ok(m0, a0, t4, virt) {
            let m3 = mem@;
                assert(entry_at(m3, t4, l4_index(virt) as int) == entry_at(m1, t4, l4_index(virt) as int));
                assert(entry_at(m3, t3@, l3_index(virt) as int) == entry_at(m2, t3@, l3_index(virt) as int));
                assert(l2e(m3, t4, virt) == phys@ | ((flags.bits | 1) | 0x80));
                lemma_leaf_entry(phys@, flags.bits);
            }
        }
        Some(())
    }
}

impl PageTableManager {
    /// A manager with a fresh, empty PML4 table taken from the allocator.
    pub fn new<A: PageAllocator>(allocator: &mut A, mem: &mut PhysMemory) -> (r: Option<Self>)
        requires
            old(allocator).ready(),
        ensures
            final(allocator).ready(),
            r is Some <==> old(allocator).free_page_count() > 0,
            match r {
                Some(m) => {
                    &&& alloc_took(*old(allocator), *final(allocator), m.pml4())
                    &&& m.pml4() % 4096 == 0 && m.pml4() != 0
                    &&& forall|p: u64, j: int| 0 <= j < 512 ==> #[trigger] entry_at(final(mem)@, p, j) == (if p == m.pml4() { 0 } else { entry_at(old(mem)@, p, j) })
                    &&& is_tree(final(mem)@, *final(allocator), m.pml4())
                },
                None => {
                    &&& alloc_same(*old(allocator), *final(allocator))
                    &&& mem_same(old(mem)@, final(mem)@)
                },
            },
    {
        let pml4_phys = match allocator.alloc_page() {
            Some(p) => p,
            None => return None,
        };
        mem.zero_page(pml4_phys.as_u64());
        proof {
            let t = pml4_phys@;
            let lv = Map::<u64, int>::empty().insert(t, 4);
            lemma_zero_entry();
            assert forall|p: u64, j: int| #![trigger lv.contains_key(p), entry_at(mem@, p, j)]
                lv.contains_key(p) && 0 <= j < 512 && is_child(lv[p], entry_at(mem@, p, j)) implies
                    lv.contains_key(pte_addr(entry_at(mem@, p, j))) && lv[pte_addr(entry_at(mem@, p, j))] == lv[p] - 1 by {
                assert(entry_at(mem@, p, j) == 0);
            }
            assert forall|t1: u64, j1: int, t2: u64, j2: int| #![trigger entry_at(mem@, t1, j1), entry_at(mem@, t2, j2)]
                lv.contains_key(t1) && lv.contains_key(t2) && 0 <= j1 < 512 && 0 <= j2 < 512
                    && is_child(lv[t1], entry_at(mem@, t1, j1)) && is_child(lv[t2], entry_at(mem@, t2, j2))
                    && pte_addr(entry_at(mem@, t1, j1)) == pte_addr(entry_at(mem@, t2, j2)) implies t1 == t2 && j1 == j2 by {
                assert(entry_at(mem@, t1, j1) == 0);
            }
            assert(tree_ok(mem@, *allocator, t, lv));
        }
        Some(Self { pml4_phys })
    }

    /// A manager for a user address space: a fresh PML4 whose upper half
    /// (entries 256 to 511) repeats the kernel's PML4.
    pub fn new_user<A: PageAllocator>(
        kernel_pml4_phys: PhysAddr,
        allocator: &mut A,
        owner_pid: Pid,
        owners: &mut PageOwners,
        mem: &mut PhysMemory,
    ) -> (r: Option<Self>)
        requires
            old(allocator).ready(),
            !old(allocator).page_free(kernel_pml4_phys@),
            old(owners).has_room(),
        ensures
            final(allocator).ready(),
            r is Some <==> old(allocator).free_page_count() > 0,
            match r {
                Some(m) => {
                    &&& alloc_took(*old(allocator), *final(allocator), m.pml4())
                    &&& m.pml4() != kernel_pml4_phys@
                    &&& final(owners).owners@ == old(owners).owners@.push((m.pml4(), PageOwner { tag: "page-table:pml4", pid: owner_pid, order: 0 }))
                    &&& forall|j: int| 0 <= j < 256 ==> #[trigger] entry_at(final(mem)@, m.pml4(), j) == 0
                    &&& forall|j: int| 256 <= j < 512 ==> #[trigger] entry_at(final(mem)@, m.pml4(), j) == entry_at(old(mem)@, kernel_pml4_phys@, j)
                    &&& forall|p: u64, j: int| 0 <= j < 512 && p != m.pml4() ==> #[trigger] entry_at(final(mem)@, p, j) == entry_at(old(mem)@, p, j)
                    &&& is_tree(old(mem)@, *old(allocator), kernel_pml4_phys@) ==> is_tree(final(mem)@, *final(allocator), m.pml4())
                },
                None => {
                    &&& alloc_same(*old(allocator), *final(allocator))
                    &&& mem_same(old(mem)@, final(mem)@)
                    &&& final(owners).owners@ == old(owners).owners@
                },
            },
    {
        let new_pml4_phys = match allocator.alloc_page() {
            Some(p) => p,
            None => return None,
        };
        track(owners, new_pml4_phys.as_u64(), 0, "page-table:pml4", owner_pid);
        let dst = new_pml4_phys.as_u64();
        let src = kernel_pml4_phys.as_u64();
        mem.zero_page(dst);
        let ghost m1 = mem@;
        let mut i: usize = 256;
        while i < 512
            invariant
                256 <= i <= 512,
                dst != src,
                forall|j: int| 0 <= j < 256 ==> #[trigger] entry_at(mem@, dst, j) == 0,
                forall|j: int| 256 <= j < i ==> #[trigger] entry_at(mem@, dst, j) == entry_at(old(mem)@, src, j),
                forall|p: u64, j: int| 0 <= j < 512 && p != dst ==> #[trigger] entry_at(mem@, p, j) == entry_at(old(mem)@, p, j),
            decreases 512 - i,
        {
            let e = mem.read_entry(src, i);
            mem.write_entry(dst, i, e);
            i = i + 1;
        }
        proof {
            lemma_user_tree(old(mem)@, mem@, *old(allocator), *allocator, src, dst);
        }
        Some(Self { pml4_phys: new_pml4_phys })
    }

    /// Maps the 4 KiB page at `virt` to `phys`.
    pub fn map<A: PageAllocator>(
        &mut self,
        virt: u64,
        phys: PhysAddr,
        flags: PageFlags,
        allocator: &mut A,
        mem: &mut PhysMemory,
    ) -> (r: Option<()>)
        requires
            old(allocator).ready(),
            flags.valid(),
        ensures
            final(self).pml4() == old(self).pml4(),
            final(allocator).ready(),
            forall|q: u64| #[trigger] final(allocator).page_free(q) ==> old(allocator).page_free(q),
            final(allocator).free_page_count() + 3 >= old(allocator).free_page_count(),
            path_ok(old(mem)@, *old(allocator), old(self).pml4(), virt) ==> {
                &&& changed_only_on_path(old(mem)@, final(mem)@, old(self).pml4(), virt)
                &&& r is Some ==> translate_spec(final(mem)@, old(self).pml4(), virt) == Some(((phys@ & PHYS_ADDR_MASK) + (virt & 0xfff)) as u64)
                &&& r is Some ==> leaf_present(final(mem)@, old(self).pml4(), virt) && !pte_huge(l2e(final(mem)@, old(self).pml4(), virt))
                    && l1e(final(mem)@, old(self).pml4(), virt) == phys@ | (flags.bits | 1)
                &&& r is Some && flags.bits & 4 != 0 ==> l4e(final(mem)@, old(self).pml4(), virt) & 4 != 0
                    && l3e(final(mem)@, old(self).pml4(), virt) & 4 != 0 && l2e(final(mem)@, old(self).pml4(), virt) & 4 != 0
                &&& r is Some ==> path_from(old(mem)@, *old(allocator), final(mem)@, old(self).pml4(), virt)
                &&& r is Some ==> !huge_on_path(final(mem)@, old(self).pml4(), virt, 3)
                &&& r is Some ==> forall|j: int| 0 <= j < 512 && j != l4_index(virt) ==> #[trigger] entry_at(final(mem)@, old(self).pml4(), j) == entry_at(old(mem)@, old(self).pml4(), j)
                &&& r is None ==> huge_on_path(old(mem)@, old(self).pml4(), virt, 3) || final(allocator).free_page_count() == 0
                &&& r is None ==> huge_on_path(final(mem)@, old(self).pml4(), virt, 3) || final(allocator).free_page_count() == 0
                &&& !huge_on_path(old(mem)@, old(self).pml4(), virt, 3) && old(allocator).free_page_count() >= 3 ==> r is Some
                &&& !huge_on_path(old(mem)@, old(self).pml4(), virt, 3) && pte_present(l4e(old(mem)@, old(self).pml4(), virt))
                    && pte_present(l3e(old(mem)@, old(self).pml4(), virt)) && pte_present(l2e(old(mem)@, old(self).pml4(), virt)) ==> r is Some
            },
            is_tree(old(mem)@, *old(allocator), old(self).pml4()) ==> {
                &&& is_tree(final(mem)@, *final(allocator), old(self).pml4())
                &&& forall|w: u64| !same_page(w, virt) ==> #[trigger] translate_spec(final(mem)@, old(self).pml4(), w) == translate_spec(old(mem)@, old(self).pml4(), w)
                &&& forall|w: u64| !same_page(w, virt) ==> #[trigger] leaf_flags(final(mem)@, old(self).pml4(), w) == leaf_flags(old(mem)@, old(self).pml4(), w)
                &&& r is Some ==> forall|w: u64| #[trigger] huge_on_path(final(mem)@, old(self).pml4(), w, 3) ==> huge_on_path(old(mem)@, old(self).pml4(), w, 3)
            },
    {
        self.map_4kb(virt, phys, flags, allocator, mem)
    }

    /// Clears the last-level entry that maps `virt` and returns the physical
    /// page it mapped.
    pub fn unmap(&mut self, virt: u64, mem: &mut PhysMemory) -> (r: Option<PhysAddr>)
        ensures
            final(self).pml4() == old(self).pml4(),
            r is Some <==> leaf_present(old(mem)@, old(self).pml4(), virt),
            r matches Some(p) ==> p@ == pte_addr(l1e(old(mem)@, old(self).pml4(), virt)),
            leaf_present(old(mem)@, old(self).pml4(), virt) ==> unmapped(old(mem)@, final(mem)@, old(self).pml4(), virt),
            !leaf_present(old(mem)@, old(self).pml4(), virt) ==> mem_same(old(mem)@, final(mem)@),
    {
        let parts = VirtAddrParts::from_u64(virt);
        let e = mem.read_entry(self.pml4_phys.as_u64(), parts.pml4);
        if !e.is_present() {
            return None;
        }
        let e = mem.read_entry(e.phys_addr().as_u64(), parts.pdpt);
        if !e.is_present() {
            return None;
        }
        let e = mem.read_entry(e.phys_addr().as_u64(), parts.pd);
        if !e.is_present() {
            return None;
        }
        let pt = e.phys_addr().as_u64();
        let e = mem.read_entry(pt, parts.pt);
        if !e.is_present() {
            return None;
        }
        let phys = e.phys_addr();
        mem.write_entry(pt, parts.pt, PageTableEntry::empty());
        Some(phys)
    }
}

impl PageTableManager {
    /// Maps `[virt_start, virt_start + size)` to the physical range starting
    /// at `phys_start`, with 2 MiB pages where both addresses are 2 MiB
    /// aligned and at least 2 MiB remain, and 4 KiB pages elsewhere. `None`
    /// when the range wraps around, or when a step fails (for want of a
    /// page for a table, or on a huge page in the way).
    pub fn map_range<A: PageAllocator>(
        &mut self,
        virt_start: u64,
        phys_start: u64,
        size: u64,
        flags: PageFlags,
        allocator: &mut A,
        mem: &mut PhysMemory,
    ) -> (r: Option<()>)
        requires
            old(allocator).ready(),
            flags.valid(),
            virt_start + size > u64::MAX || virt_start + size + SIZE_4KB <= u64::MAX,
            phys_start + size + SIZE_2MB <= u64::MAX,
        ensures
            final(self).pml4() == old(self).pml4(),
            final(allocator).ready(),
            forall|q: u64| #[trigger] final(allocator).page_free(q) ==> old(allocator).page_free(q),
            size == 0 ==> r is Some && mem_same(old(mem)@, final(mem)@),
            size > 0 && virt_start + size > u64::MAX ==> r is None && mem_same(old(mem)@, final(mem)@)
                && alloc_same(*old(allocator), *final(allocator)),
            is_tree(old(mem)@, *old(allocator), old(self).pml4()) ==> {
                &&& is_tree(final(mem)@, *final(allocator), old(self).pml4())
                &&& r is None && virt_start + size <= u64::MAX ==> final(allocator).free_page_count() == 0
                    || huge_in_range(final(mem)@, old(self).pml4(), virt_start, size as int)
                &&& r is Some && virt_start % 4096 == 0 && phys_start % 4096 == 0 && size <= 0x8000_0000_0000
                    && phys_start + size <= PHYS_LIMIT ==> range_mapped(final(mem)@, old(self).pml4(), virt_start, phys_start, size as int)
                        && range_flags(final(mem)@, old(self).pml4(), virt_start, phys_start, size, size as int, flags.bits)
                &&& changed_within(old(mem)@, final(mem)@, old(self).pml4(), virt_start, size as int)
            },
    {
        if size == 0 {
            return Some(());
        }
        if virt_start > u64::MAX - size {
            return None;
        }
        let ghost pml4 = self.pml4();
        let ghost tree = is_tree(mem@, *allocator, pml4);
        let ghost hyp = virt_start % 4096 == 0 && phys_start % 4096 == 0 && size <= 0x8000_0000_0000 && phys_start + size <= PHYS_LIMIT;
        let mut virt = virt_start;
        let mut phys = phys_start;
        let end = virt_start + size;
        while virt < end
            invariant
                self.pml4() == pml4,
                pml4 == old(self).pml4(),
                allocator.ready(),
                flags.valid(),
                forall|q: u64| #[trigger] allocator.page_free(q) ==> old(allocator).page_free(q),
                virt_start <= virt,
                virt < end + SIZE_4KB,
                end == virt_start + size,
                end + SIZE_4KB <= u64::MAX,
                phys - phys_start == virt - virt_start,
                phys_start + size + SIZE_2MB <= u64::MAX,
                tree == is_tree(old(mem)@, *old(allocator), pml4),
                hyp == (virt_start % 4096 == 0 && phys_start % 4096 == 0 && size <= 0x8000_0000_0000 && phys_start + size <= PHYS_LIMIT),
                hyp ==> virt % 4096 == 0,
                tree ==> is_tree(mem@, *allocator, pml4),
                tree && hyp ==> range_mapped(mem@, pml4, virt_start, phys_start, virt - virt_start),
                tree && hyp ==> range_flags(mem@, pml4, virt_start, phys_start, size, virt - virt_start, flags.bits),
                hyp ==> unaligned_ok(virt_start, phys_start, end, virt),
                tree ==> changed_within(old(mem)@, mem@, pml4, virt_start, size as int),
            decreases end + SIZE_4KB - virt,
        {
            let ghost m0 = mem@;
            let ghost a0 = *allocator;
            proof {
                if tree {
                    let lv = choose|lv: Map<u64, int>| tree_ok(m0, a0, pml4, lv);
                    lemma_tree_walk(m0, a0, pml4, lv, virt);
                }
            }
            let remaining = end - virt;
            if virt % SIZE_2MB == 0 && phys % SIZE_2MB == 0 && remaining >= SIZE_2MB {
                let res = self.map_2mb(virt, PhysAddr::new(phys), flags, allocator, mem);
                if res.is_none() {
                    proof {
                        if tree {
                            assert(huge_on_path(mem@, pml4, virt, 3) || allocator.free_page_count() == 0);
                            assert(virt_start <= virt < virt_start + size);
                            assert forall|w: u64| #[trigger] walk_changed(old(mem)@, mem@, pml4, w) implies
                                exists|v: u64| virt_start <= v < virt_start + size && #[trigger] same_page(w, v) by {
                                if walk_changed(m0, mem@, pml4, w) {
                                    if same_page(w, virt) {
                                    } else {
                                        assert(same_region(w, virt));
                                        lemma_region_page(w, virt);
                                        let v = (virt + (w & 0x1f_f000)) as u64;
                                        assert(same_page(w, v));
                                    }
                                } else {
                                    assert(walk_changed(old(mem)@, m0, pml4, w));
                                    let v = choose|v: u64| virt_start <= v < virt_start + size && #[trigger] same_page(w, v);
                                    assert(same_page(w, v));
                                }
                            }
                        }
                    }
                    return None;
                }
                proof {
                    if tree && hyp {
                        lemma_step_2mb(m0, mem@, pml4, virt_start, phys_start, virt, phys, flags.bits, size);
                        lemma_flags_2mb(m0, mem@, pml4, virt_start, phys_start, size, virt, phys, flags.bits);
                    }
                    if hyp {
                        lemma_region_start(virt, virt);
                    }
                    if tree {
                        assert forall|w: u64| #[trigger] walk_changed(old(mem)@, mem@, pml4, w) implies
                            exists|v: u64| virt_start <= v < virt_start + size && #[trigger] same_page(w, v) by {
                            if walk_changed(m0, mem@, pml4, w) {
                                assert(same_region(w, virt));
                                lemma_region_page(w, virt);
                                let v = (virt + (w & 0x1f_f000)) as u64;
                                assert(same_page(w, v));
                            } else {
                                assert(walk_changed(old(mem)@, m0, pml4, w));
                                let v = choose|v: u64| virt_start <= v < virt_start + size && #[trigger] same_page(w, v);
                                assert(same_page(w, v));
                            }
                        }
                    }
                }
                virt = virt + SIZE_2MB;
                phys = phys + SIZE_2MB;
            } else {
                let res = self.map_4kb(virt, PhysAddr::new(phys), flags, allocator, mem);
                if res.is_none() {
                    proof {
                        if tree {
                            assert(huge_on_path(mem@, pml4, virt, 3) || allocator.free_page_count() == 0);
                            assert(virt_start <= virt < virt_start + size);
                            assert forall|w: u64| #[trigger] walk_changed(old(mem)@, mem@, pml4, w) implies
                                exists|v: u64| virt_start <= v < virt_start + size && #[trigger] same_page(w, v) by {
                                if walk_changed(m0, mem@, pml4, w) {
                                    if same_page(w, virt) {
                                    } else {
                                        assert(same_region(w, virt));
                                        lemma_region_page(w, virt);
                                        let v = (virt + (w & 0x1f_f000)) as u64;
                                        assert(same_page(w, v));
                                    }
                                } else {
                                    assert(walk_changed(old(mem)@, m0, pml4, w));
                                    let v = choose|v: u64| virt_start <= v < virt_start + size && #[trigger] same_page(w, v);
                                    assert(same_page(w, v));
                                }
                            }
                        }
                    }
                    return None;
                }
                proof {
                    if tree && hyp {
                        lemma_step_4kb(m0, mem@, pml4, virt_start, phys_start, virt, phys, flags.bits, size);
                        lemma_flags_4kb(m0, mem@, pml4, virt_start, phys_start, size, virt, phys, flags.bits);
                    }
                    if hyp {
                        lemma_unaligned_4kb(virt_start, phys_start, size, virt, phys);
                    }
                    if tree {
                        assert forall|w: u64| #[trigger] walk_changed(old(mem)@, mem@, pml4, w) implies
                            exists|v: u64| virt_start <= v < virt_start + size && #[trigger] same_page(w, v) by {
                            if walk_changed(m0, mem@, pml4, w) {
                                assert(same_page(w, virt));
                            } else {
                                assert(walk_changed(old(mem)@, m0, pml4, w));
                                let v = choose|v: u64| virt_start <= v < virt_start + size && #[trigger] same_page(w, v);
                                assert(same_page(w, v));
                            }
                        }
                    }
                }
                virt = virt + SIZE_4KB;
                phys = phys + SIZE_4KB;
            }
        }
        proof {
            if tree && hyp {
                assert forall|w: u64| virt_start <= w < virt_start + size implies
                    #[trigger] translate_spec(mem@, pml4, w) == Some((phys_start + (w - virt_start)) as u64) by {
                    assert(w < virt_start + (virt - virt_start));
                }
                assert forall|w: u64| virt_start <= w < virt_start + size implies
                    #[trigger] leaf_flags(mem@, pml4, w) == Some(if maps_huge(virt_start, phys_start, size, w) { (flags.bits | 1) | 0x80 } else { flags.bits | 1 }) by {
                    assert(w < virt_start + (virt - virt_start));
                }
            }
        }
        Some(())
    }

    /// Gives every table of the lower half (PML4 entries 0 to 255) back to
    /// the allocator and clears those PML4 entries.
    pub fn free_user_tables(&mut self, alloc: &mut BuddyAllocator, mem: &mut PhysMemory)
        requires
            old(alloc).wf(),
        ensures
            final(self).pml4() == old(self).pml4(),
            final(alloc).wf(),
            forall|a: int| #[trigger] old(alloc).is_free(a) ==> final(alloc).is_free(a),
            forall|j: int| 0 <= j < 256 ==> !pte_present(#[trigger] entry_at(final(mem)@, old(self).pml4(), j)),
            only_zeroed(old(mem)@, final(mem)@),
            is_tree(old(mem)@, *old(alloc), old(self).pml4()) ==> forall|j: int| 0 <= j < 256
                && pte_present(#[trigger] entry_at(old(mem)@, old(self).pml4(), j))
                ==> page_given_back(*final(alloc), pte_addr(entry_at(old(mem)@, old(self).pml4(), j))),
    {
        let pml4 = self.pml4_phys.as_u64();
        let ghost m0 = mem@;
        let ghost a0 = *alloc;
        let ghost tree = is_tree(m0, a0, pml4);
        let ghost lv: Map<u64, int> = if tree { choose|lv: Map<u64, int>| tree_ok(m0, a0, pml4, lv) } else { Map::empty() };
        let mut i: usize = 0;
        while i < 256
            invariant
                i <= 256,
                self.pml4() == old(self).pml4(),
                pml4 == self.pml4(),
                alloc.wf(),
                forall|a: int| #[trigger] old(alloc).is_free(a) ==> alloc.is_free(a),
                forall|j: int| 0 <= j < i ==> !pte_present(#[trigger] entry_at(mem@, pml4, j)),
                only_zeroed(old(mem)@, mem@),
                m0 == old(mem)@,
                a0 == *old(alloc),
                tree == is_tree(m0, a0, pml4),
                tree ==> tree_ok(m0, a0, pml4, lv),
                tree ==> forall|p: u64, j: int| 0 <= j < 512 && #[trigger] entry_at(mem@, p, j) != entry_at(m0, p, j)
                    ==> (p == pml4 && j < i) || (lv.contains_key(p) && lv[p] == 1),
                tree ==> forall|j: int| 0 <= j < i && pte_present(#[trigger] entry_at(m0, pml4, j))
                    ==> page_given_back(*alloc, pte_addr(entry_at(m0, pml4, j))),
            decreases 256 - i,
        {
            let e = mem.read_entry(pml4, i);
            let ghost a_before = *alloc;
            if e.is_present() {
                let ghost m_before = mem@;
                free_pdpt(e.phys_addr(), alloc, mem);
                let ghost m_mid = mem@;
                proof {
                    if tree {
                        assert(lv[pml4] == 4);
                        assert(entry_at(m_before, pml4, i as int) == entry_at(m0, pml4, i as int));
                        let t3 = pte_addr(e.0);
                        assert(is_child(4, entry_at(m0, pml4, i as int)));
                        assert(lv.contains_key(t3) && lv[t3] == 3);
                        assert forall|p: u64, j: int| 0 <= j < 512 && #[trigger] entry_at(m_mid, p, j) != entry_at(m_before, p, j)
                            implies lv.contains_key(p) && lv[p] == 1 by {
                            assert(grandchild_of(m_before, t3, p));
                            let k = choose|k: int| 0 <= k < 512 && pte_present(#[trigger] entry_at(m_before, t3, k)) && !pte_huge(entry_at(m_before, t3, k))
                                && child_of(m_before, pte_addr(entry_at(m_before, t3, k)), p);
                            assert(entry_at(m_before, t3, k) == entry_at(m0, t3, k));
                            let t2 = pte_addr(entry_at(m0, t3, k));
                            assert(is_child(3, entry_at(m0, t3, k)));
                            assert(lv.contains_key(t2) && lv[t2] == 2);
                            let k2 = choose|k2: int| 0 <= k2 < 512 && pte_present(#[trigger] entry_at(m_before, t2, k2)) && !pte_huge(entry_at(m_before, t2, k2))
                                && p == pte_addr(entry_at(m_before, t2, k2));
                            assert(entry_at(m_before, t2, k2) == entry_at(m0, t2, k2));
                            assert(is_child(2, entry_at(m0, t2, k2)));
                        }
                    }
                }
                mem.write_entry(pml4, i, PageTableEntry::empty());
                proof {
                    lemma_zero_entry();
                    assert forall|j: int| 0 <= j < i + 1 implies !pte_present(#[trigger] entry_at(mem@, pml4, j)) by {
                        if j < i {
                            assert(!pte_present(entry_at(m_before, pml4, j)));
                        }
                    }
                    if tree {
                        assert forall|p: u64, j: int| 0 <= j < 512 && #[trigger] entry_at(mem@, p, j) != entry_at(m0, p, j)
                            implies (p == pml4 && j < i + 1) || (lv.contains_key(p) && lv[p] == 1) by {
                            if !(p == pml4 && j == i) {
                                assert(entry_at(mem@, p, j) == entry_at(m_mid, p, j));
                                if entry_at(m_mid, p, j) == entry_at(m_before, p, j) {
                                } else {
                                    assert(lv.contains_key(p) && lv[p] == 1);
                                }
                            }
                        }
                        assert forall|j: int| 0 <= j < i + 1 && pte_present(#[trigger] entry_at(m0, pml4, j))
                            implies page_given_back(*alloc, pte_addr(entry_at(m0, pml4, j))) by {
                            if j < i {
                                assert forall|x: int| #[trigger] in_block(x, pte_addr(entry_at(m0, pml4, j)), 0) && block_ok(pte_addr(entry_at(m0, pml4, j)), 0)
                                    implies alloc.is_free(x) by {
                                    assert(a_before.is_free(x));
                                }
                            }
                        }
                    }
                }
            } else {
                proof {
                    if tree {
                        assert(entry_at(mem@, pml4, i as int) == entry_at(m0, pml4, i as int));
                    }
                }
            }
            i = i + 1;
        }
    }
}

/// Every entry of `m2` equals the entry of `m1` or is zero.
pub open spec fn only_zeroed(m1: Map<u64, PageTable>, m2: Map<u64, PageTable>) -> bool {
    forall|p: u64, j: int| 0 <= j < 512 ==> #[trigger] entry_at(m2, p, j) == entry_at(m1, p, j) || entry_at(m2, p, j) == 0
}

/// The page of the table `t`, when it is a page the allocator can hold,
/// is free in `a`.
pub open spec fn page_given_back(a: BuddyAllocator, t: u64) -> bool {
    block_ok(t, 0) ==> forall|x: int| #[trigger] in_block(x, t, 0) ==> a.is_free(x)
}

/// Entry `j` of table `t` in `m0` names a next-level table at a page the
/// allocator can hold, and still does in `m1`.
pub open spec fn kept_child(m0: Map<u64, PageTable>, m1: Map<u64, PageTable>, t: u64, j: int) -> bool {
    let e = entry_at(m0, t, j);
    &&& pte_present(e)
    &&& !pte_huge(e)
    &&& block_ok(pte_addr(e), 0)
    &&& entry_at(m1, t, j) == e
}

/// No entry of the table `t` is present in `m`.
pub open spec fn table_cleared(m: Map<u64, PageTable>, t: u64) -> bool {
    forall|k: int| 0 <= k < 512 ==> !pte_present(#[trigger] entry_at(m, t, k))
}

/// The page `t` given back with `release`: free afterwards when it may be
/// held, whether it was free before or not.
proof fn lemma_released(a0: BuddyAllocator, a1: BuddyAllocator, t: u64, freed: bool)
    requires
        a0.wf(),
        freed == (block_ok(t, 0) && forall|x: int| #[trigger] in_block(x, t, 0) ==> !a0.is_free(x)),
        freed ==> forall|x: int| #[trigger] a1.is_free(x) == (a0.is_free(x) || in_block(x, t, 0)),
        !freed ==> a1.lists() == a0.lists(),
    ensures
        forall|x: int| #[trigger] a1.is_free(x) == (a0.is_free(x) || (block_ok(t, 0) && in_block(x, t, 0))),
{
    if !freed && block_ok(t, 0) {
        let w = choose|x: int| in_block(x, t, 0) && a0.is_free(x);
        assert(in_block(w, t, 0) && a0.is_free(w));
        lemma2_to64();
        assert(crate::allocator::block_size(0) == 4096);
        crate::allocator::lemma_page_all_free(a0, t as int, w);
        assert forall|x: int| #[trigger] a1.is_free(x) == (a0.is_free(x) || (block_ok(t, 0) && in_block(x, t, 0))) by {
            if in_block(x, t, 0) {
                assert(a0.is_free(x));
            }
        }
    }
}

/// `p` is a table that a present entry of `t` (not a huge page) names in `m`.
pub open spec fn child_of(m: Map<u64, PageTable>, t: u64, p: u64) -> bool {
    exists|k: int| 0 <= k < 512 && pte_present(#[trigger] entry_at(m, t, k)) && !pte_huge(entry_at(m, t, k)) && p == pte_addr(entry_at(m, t, k))
}

/// `p` is a child in `m` of a child of `t`.
pub open spec fn grandchild_of(m: Map<u64, PageTable>, t: u64, p: u64) -> bool {
    exists|k: int| 0 <= k < 512 && pte_present(#[trigger] entry_at(m, t, k)) && !pte_huge(entry_at(m, t, k))
        && child_of(m, pte_addr(entry_at(m, t, k)), p)
}

/// Frees the page directories under a page-directory-pointer table, then
/// the table: every directory that a present entry (not a huge page)
/// names, and the table itself, is free afterwards.
fn free_pdpt(phys: PhysAddr, alloc: &mut BuddyAllocator, mem: &mut PhysMemory)
    requires
        old(alloc).wf(),
    ensures
        final(alloc).wf(),
        forall|a: int| #[trigger] old(alloc).is_free(a) ==> final(alloc).is_free(a),
        only_zeroed(old(mem)@, final(mem)@),
        page_given_back(*final(alloc), phys@),
        forall|j: int| 0 <= j < 512 && #[trigger] kept_child(old(mem)@, final(mem)@, phys@, j)
            ==> page_given_back(*final(alloc), pte_addr(entry_at(old(mem)@, phys@, j))),
        forall|p: u64, j: int| 0 <= j < 512 && #[trigger] entry_at(final(mem)@, p, j) != entry_at(old(mem)@, p, j)
            ==> grandchild_of(old(mem)@, phys@, p),
{
    let t = phys.as_u64();
    let mut i: usize = 0;
    while i < 512
        invariant
            i <= 512,
            t == phys@,
            alloc.wf(),
            forall|a: int| #[trigger] old(alloc).is_free(a) ==> alloc.is_free(a),
            only_zeroed(old(mem)@, mem@),
            forall|j: int| 0 <= j < i && #[trigger] kept_child(old(mem)@, mem@, t, j)
                ==> page_given_back(*alloc, pte_addr(entry_at(old(mem)@, t, j))),
            forall|p: u64, j: int| 0 <= j < 512 && #[trigger] entry_at(mem@, p, j) != entry_at(old(mem)@, p, j)
                ==> grandchild_of(old(mem)@, t, p),
        decreases 512 - i,
    {
        let e = mem.read_entry(t, i);
        let ghost m1 = mem@;
        let ghost a1 = *alloc;
        proof {
            lemma_huge_flag(e.0);
            lemma_zero_entry();
        }
        if e.is_present() && !e.flags().contains(PageFlags::huge()) {
            free_pd(e.phys_addr(), alloc, mem);
            proof {
                let c = pte_addr(e.0);
                assert(entry_at(m1, t, i as int) == entry_at(old(mem)@, t, i as int));
                assert forall|p: u64, j: int| 0 <= j < 512 && #[trigger] entry_at(mem@, p, j) != entry_at(old(mem)@, p, j)
                    implies grandchild_of(old(mem)@, t, p) by {
                    if entry_at(mem@, p, j) != entry_at(m1, p, j) {
                        assert(child_of(m1, c, p));
                        let k = choose|k: int| 0 <= k < 512 && pte_present(#[trigger] entry_at(m1, c, k)) && !pte_huge(entry_at(m1, c, k)) && p == pte_addr(entry_at(m1, c, k));
                        assert(entry_at(m1, c, k) == entry_at(old(mem)@, c, k));
                        assert(child_of(old(mem)@, c, p));
                        assert(pte_present(entry_at(old(mem)@, t, i as int)) && !pte_huge(entry_at(old(mem)@, t, i as int)));
                    }
                }
            }
        }
        proof {
            assert forall|j: int| 0 <= j < i + 1 && #[trigger] kept_child(old(mem)@, mem@, t, j)
                implies page_given_back(*alloc, pte_addr(entry_at(old(mem)@, t, j))) by {
                assert(entry_at(m1, t, j) == entry_at(old(mem)@, t, j));
                if j < i {
                    assert(kept_child(old(mem)@, m1, t, j));
                    assert forall|x: int| #[trigger] in_block(x, pte_addr(entry_at(old(mem)@, t, j)), 0) implies alloc.is_free(x) by {
                        assert(a1.is_free(x));
                    }
                }
            }
        }
        i = i + 1;
    }
    let ghost a2 = *alloc;
    let freed = alloc.release(phys, 0);
    proof {
        lemma_released(a2, *alloc, t, freed);
    }
}

/// Frees the page tables under a page directory, then the directory: every
/// table that a present entry (not a huge page) names is cleared and free
/// afterwards, and so is the directory itself.
fn free_pd(phys: PhysAddr, alloc: &mut BuddyAllocator, mem: &mut PhysMemory)
    requires
        old(alloc).wf(),
    ensures
        final(alloc).wf(),
        forall|a: int| #[trigger] old(alloc).is_free(a) ==> final(alloc).is_free(a),
        only_zeroed(old(mem)@, final(mem)@),
        page_given_back(*final(alloc), phys@),
        forall|j: int| 0 <= j < 512 && #[trigger] kept_child(old(mem)@, final(mem)@, phys@, j) ==> {
            &&& page_given_back(*final(alloc), pte_addr(entry_at(old(mem)@, phys@, j)))
            &&& table_cleared(final(mem)@, pte_addr(entry_at(old(mem)@, phys@, j)))
        },
        forall|p: u64, j: int| 0 <= j < 512 && #[trigger] entry_at(final(mem)@, p, j) != entry_at(old(mem)@, p, j)
            ==> child_of(old(mem)@, phys@, p),
{
    let t = phys.as_u64();
    let mut i: usize = 0;
    while i < 512
        invariant
            i <= 512,
            t == phys@,
            alloc.wf(),
            forall|a: int| #[trigger] old(alloc).is_free(a) ==> alloc.is_free(a),
            only_zeroed(old(mem)@, mem@),
            forall|j: int| 0 <= j < i && #[trigger] kept_child(old(mem)@, mem@, t, j) ==> {
                &&& page_given_back(*alloc, pte_addr(entry_at(old(mem)@, t, j)))
                &&& table_cleared(mem@, pte_addr(entry_at(old(mem)@, t, j)))
            },
            forall|p: u64, j: int| 0 <= j < 512 && #[trigger] entry_at(mem@, p, j) != entry_at(old(mem)@, p, j)
                ==> child_of(old(mem)@, t, p),
        decreases 512 - i,
    {
        let e = mem.read_entry(t, i);
        let ghost m1 = mem@;
        let ghost a1 = *alloc;
        proof {
            lemma_huge_flag(e.0);
            lemma_zero_entry();
        }
        if e.is_present() && !e.flags().contains(PageFlags::huge()) {
            free_pt(e.phys_addr(), alloc, mem);
            proof {
                let c = pte_addr(e.0);
                assert(entry_at(m1, t, i as int) == entry_at(old(mem)@, t, i as int));
                assert(child_of(old(mem)@, t, c));
                assert forall|p: u64, j: int| 0 <= j < 512 && #[trigger] entry_at(mem@, p, j) != entry_at(old(mem)@, p, j)
                    implies child_of(old(mem)@, t, p) by {
                    if p != c {
                        assert(entry_at(mem@, p, j) == entry_at(m1, p, j));
                    }
                }
            }
        }
        proof {
            assert forall|j: int| 0 <= j < i + 1 && #[trigger] kept_child(old(mem)@, mem@, t, j) implies {
                &&& page_given_back(*alloc, pte_addr(entry_at(old(mem)@, t, j)))
                &&& table_cleared(mem@, pte_addr(entry_at(old(mem)@, t, j)))
            } by {
                assert(entry_at(m1, t, j) == entry_at(old(mem)@, t, j));
                let c = pte_addr(entry_at(old(mem)@, t, j));
                if j < i {
                    assert(kept_child(old(mem)@, m1, t, j));
                    assert forall|x: int| #[trigger] in_block(x, c, 0) implies alloc.is_free(x) by {
                        assert(a1.is_free(x));
                    }
                    assert forall|k: int| 0 <= k < 512 implies !pte_present(#[trigger] entry_at(mem@, c, k)) by {
                        assert(!pte_present(entry_at(m1, c, k)));
                    }
                }
            }
        }
        i = i + 1;
    }
    let ghost a2 = *alloc;
    let freed = alloc.release(phys, 0);
    proof {
        lemma_released(a2, *alloc, t, freed);
    }
}

/// Clears the present entries of a page table and frees the table.
fn free_pt(phys: PhysAddr, alloc: &mut BuddyAllocator, mem: &mut PhysMemory)
    requires
        old(alloc).wf(),
    ensures
        final(alloc).wf(),
        forall|a: int| #[trigger] final(alloc).is_free(a) == (old(alloc).is_free(a) || (block_ok(phys@, 0) && in_block(a, phys@, 0))),
        only_zeroed(old(mem)@, final(mem)@),
        table_cleared(final(mem)@, phys@),
        forall|p: u64, j: int| 0 <= j < 512 && p != phys@ ==> #[trigger] entry_at(final(mem)@, p, j) == entry_at(old(mem)@, p, j),
{
    let t = phys.as_u64();
    let mut i: usize = 0;
    while i < 512
        invariant
            i <= 512,
            t == phys@,
            only_zeroed(old(mem)@, mem@),
            forall|k: int| 0 <= k < i ==> !pte_present(#[trigger] entry_at(mem@, t, k)),
            forall|p: u64, j: int| 0 <= j < 512 && p != t ==> #[trigger] entry_at(mem@, p, j) == entry_at(old(mem)@, p, j),
        decreases 512 - i,
    {
        let e = mem.read_entry(t, i);
        proof {
            lemma_zero_entry();
        }
        if e.is_present() {
            mem.write_entry(t, i, PageTableEntry::empty());
        }
        i = i + 1;
    }
    let ghost a0 = *alloc;
    let freed = alloc.release(phys, 0);
    proof {
        lemma_released(a0, *alloc, t, freed);
    }
}

/// Copies the upper half (entries 256 to 511) of the PML4 at `src` into the
/// PML4 at `dst`.
pub fn sync_higher_half(dst_pml4_phys: u64, src_pml4_phys: u64, mem: &mut PhysMemory)
    requires
        dst_pml4_phys != src_pml4_phys,
    ensures
        forall|j: int| 256 <= j < 512 ==> #[trigger] entry_at(final(mem)@, dst_pml4_phys, j) == entry_at(old(mem)@, src_pml4_phys, j),
        forall|p: u64, j: int| 0 <= j < 512 && !(p == dst_pml4_phys && 256 <= j) ==> #[trigger] entry_at(final(mem)@, p, j) == entry_at(old(mem)@, p, j),
{
    let mut i: usize = 256;
    while i < 512
        invariant
            256 <= i <= 512,
            dst_pml4_phys != src_pml4_phys,
            forall|j: int| 256 <= j < i ==> #[trigger] entry_at(mem@, dst_pml4_phys, j) == entry_at(old(mem)@, src_pml4_phys, j),
            forall|p: u64, j: int| 0 <= j < 512 && !(p == dst_pml4_phys && 256 <= j < i) ==> #[trigger] entry_at(mem@, p, j) == entry_at(old(mem)@, p, j),
        decreases 512 - i,
    {
        let e = mem.read_entry(src_pml4_phys, i);
        mem.write_entry(dst_pml4_phys, i, e);
        i = i + 1;
    }
}

#[derive(Clone, Copy, Default)]
pub struct MemoryRegion {
    pub start: u64,
    pub size: u64,
}

/// Highest physical address that the higher half can reach.
pub const HIGHER_HALF_PHYS_LIMIT: u64 = 0x7fff_0000_0000;

/// The address `a` lies in region `r` widened to 2 MiB boundaries.
pub open spec fn in_widened(r: MemoryRegion, a: u64) -> bool {
    down_2mb(r.start) <= a < up_2mb((r.start + r.size) as u64)
}

/// Two addresses of the lower half in the same page by the walk's indices
/// are in the same page.
proof fn lemma_low_same_page(a: u64, v: u64)
    requires
        a < 0x8000_0000_0000,
        v < 0x8000_0000_0000,
        same_page(a, v),
    ensures
        a & !0xfffu64 == v & !0xfffu64,
{
    assert(a < 0x8000_0000_0000u64 && v < 0x8000_0000_0000u64 && ((a >> 39u64) & 0x1ff) == ((v >> 39u64) & 0x1ff)
        && ((a >> 30u64) & 0x1ff) == ((v >> 30u64) & 0x1ff) && ((a >> 21u64) & 0x1ff) == ((v >> 21u64) & 0x1ff)
        && ((a >> 12u64) & 0x1ff) == ((v >> 12u64) & 0x1ff) ==> a & !0xfffu64 == v & !0xfffu64) by (bit_vector);
}

/// An address in the page of an address of a page-aligned range is in it.
proof fn lemma_page_in_range(a: u64, v: u64, s: u64, e: u64)
    requires
        a & !0xfffu64 == v & !0xfffu64,
        s <= v < e,
        s % 4096 == 0,
        e % 4096 == 0,
    ensures
        s <= a < e,
{
    assert(s % 4096 == 0 ==> s & 0xfffu64 == 0) by (bit_vector);
    assert(e % 4096 == 0 ==> e & 0xfffu64 == 0) by (bit_vector);
    assert(a & !0xfffu64 == v & !0xfffu64 && s <= v && v < e && s & 0xfffu64 == 0 && e & 0xfffu64 == 0 ==> s <= a && a < e) by (bit_vector);
}

/// Identity-maps every region, widened to 2 MiB boundaries, writable. On
/// success (and when every widened region lies in the lower half) every
/// address of every widened region translates to itself; on failure a page
/// for a table was missing or a huge entry stood in the way of a region.
pub fn map_identity<A: PageAllocator>(
    pt_manager: &mut PageTableManager,
    allocator: &mut A,
    mmap: &[MemoryRegion],
    mem: &mut PhysMemory,
) -> (r: Option<()>)
    requires
        old(allocator).ready(),
        forall|i: int| 0 <= i < mmap@.len() ==> (#[trigger] mmap@[i]).start + mmap@[i].size <= PHYS_LIMIT,
    ensures
        final(pt_manager).pml4() == old(pt_manager).pml4(),
        final(allocator).ready(),
        forall|q: u64| #[trigger] final(allocator).page_free(q) ==> old(allocator).page_free(q),
        mmap@.len() == 0 ==> r is Some && mem_same(old(mem)@, final(mem)@),
        is_tree(old(mem)@, *old(allocator), old(pt_manager).pml4()) ==> {
            let pml4 = old(pt_manager).pml4();
            &&& is_tree(final(mem)@, *final(allocator), pml4)
            &&& r is Some && (forall|i: int| 0 <= i < mmap@.len() ==> up_2mb(((#[trigger] mmap@[i]).start + mmap@[i].size) as u64) <= 0x8000_0000_0000)
                ==> forall|i: int, a: u64| 0 <= i < mmap@.len() && #[trigger] in_widened(mmap@[i], a) ==>
                    #[trigger] translate_spec(final(mem)@, pml4, a) == Some(a) && leaf_flags(final(mem)@, pml4, a) == Some(0x83u64)
            &&& r is None ==> final(allocator).free_page_count() == 0 || exists|i: int| 0 <= i < mmap@.len()
                && #[trigger] huge_in_range(final(mem)@, pml4, down_2mb(mmap@[i].start), up_2mb((mmap@[i].start + mmap@[i].size) as u64) - down_2mb(mmap@[i].start))
        },
{
    let flags = PageFlags::present().union(PageFlags::writable());
    proof {
        lemma_bit_constants();
    }
    let ghost pml4 = pt_manager.pml4();
    let ghost tree = is_tree(mem@, *allocator, pml4);
    let ghost low = forall|i: int| 0 <= i < mmap@.len() ==> up_2mb(((#[trigger] mmap@[i]).start + mmap@[i].size) as u64) <= 0x8000_0000_0000;
    let mut k: usize = 0;
    while k < mmap.len()
        invariant
            k <= mmap@.len(),
            pt_manager.pml4() == pml4,
            pml4 == old(pt_manager).pml4(),
            allocator.ready(),
            flags.valid(),
            forall|q: u64| #[trigger] allocator.page_free(q) ==> old(allocator).page_free(q),
            forall|i: int| 0 <= i < mmap@.len() ==> (#[trigger] mmap@[i]).start + mmap@[i].size <= PHYS_LIMIT,
            mmap@.len() == 0 ==> mem_same(old(mem)@, mem@),
            tree == is_tree(old(mem)@, *old(allocator), pml4),
            low == (forall|i: int| 0 <= i < mmap@.len() ==> up_2mb(((#[trigger] mmap@[i]).start + mmap@[i].size) as u64) <= 0x8000_0000_0000),
            tree ==> is_tree(mem@, *allocator, pml4),
            tree && low ==> forall|i: int, a: u64| 0 <= i < k && #[trigger] in_widened(mmap@[i], a) ==>
                #[trigger] translate_spec(mem@, pml4, a) == Some(a) && leaf_flags(mem@, pml4, a) == Some(0x83u64),
            flags.bits == 3,
        decreases mmap@.len() - k,
    {
        let region = mmap[k];
        let start = region.start & !(SIZE_2MB - 1);
        let end = (region.start + region.size + SIZE_2MB - 1) & !(SIZE_2MB - 1);
        proof {
            lemma_align_2mb(region.start, (region.start + region.size) as u64);
            lemma_round_2mb(region.start, (region.start + region.size) as u64);
            assert(start == down_2mb(region.start));
            assert(end == up_2mb((region.start + region.size) as u64));
        }
        let ghost m0 = mem@;
        let res = pt_manager.map_range(start, start, end - start, flags, allocator, mem);
        if res.is_none() {
            proof {
                if tree {
                    assert(huge_in_range(mem@, pml4, down_2mb(mmap@[k as int].start), up_2mb((mmap@[k as int].start + mmap@[k as int].size) as u64) - down_2mb(mmap@[k as int].start))
                        || allocator.free_page_count() == 0);
                }
            }
            return None;
        }
        proof {
            if tree && low {
                assert(up_2mb((mmap@[k as int].start + mmap@[k as int].size) as u64) <= 0x8000_0000_0000);
                lemma_bit_constants();
                assert forall|i: int, a: u64| 0 <= i < k + 1 && #[trigger] in_widened(mmap@[i], a) implies
                    #[trigger] translate_spec(mem@, pml4, a) == Some(a) && leaf_flags(mem@, pml4, a) == Some(0x83u64) by {
                    if i == k {
                        assert(start <= a < start + (end - start));
                        lemma_region_inside(a as int, start as int, end as int);
                        assert(maps_huge(start, start, (end - start) as u64, a));
                    } else {
                        assert(translate_spec(m0, pml4, a) == Some(a) && leaf_flags(m0, pml4, a) == Some(0x83u64));
                        if walk_changed(m0, mem@, pml4, a) {
                            let v = choose|v: u64| start <= v < start + (end - start) && #[trigger] same_page(a, v);
                            assert(up_2mb((mmap@[i].start + mmap@[i].size) as u64) <= 0x8000_0000_0000);
                            lemma_low_same_page(a, v);
                            lemma_page_in_range(a, v, start, end);
                            lemma_region_inside(a as int, start as int, end as int);
                            assert(maps_huge(start, start, (end - start) as u64, a));
                        }
                    }
                }
            }
        }
        k = k + 1;
    }
    Some(())
}

/// Maps `[phys_start, phys_start + size)`, widened to 2 MiB boundaries, at
/// `KERNEL_VIRT_BASE` plus its physical address.
pub fn map_higher_half_region<A: PageAllocator>(
    pt_manager: &mut PageTableManager,
    allocator: &mut A,
    phys_start: u64,
    size: u64,
    mem: &mut PhysMemory,
) -> (r: Option<()>)
    requires
        old(allocator).ready(),
        phys_start + size <= HIGHER_HALF_PHYS_LIMIT,
    ensures
        final(pt_manager).pml4() == old(pt_manager).pml4(),
        final(allocator).ready(),
        forall|q: u64| #[trigger] final(allocator).page_free(q) ==> old(allocator).page_free(q),
        is_tree(old(mem)@, *old(allocator), old(pt_manager).pml4()) ==> higher_half_mapped(
            old(mem)@, final(mem)@, *final(allocator), old(pt_manager).pml4(), phys_start, size, r is Some),
{
    let phys = phys_start & !(SIZE_2MB - 1);
    let end = (phys_start + size + SIZE_2MB - 1) & !(SIZE_2MB - 1);
    proof {
        lemma_align_2mb(phys_start, (phys_start + size) as u64);
        lemma_round_2mb(phys_start, (phys_start + size) as u64);
        assert(phys == down_2mb(phys_start));
        assert(end == up_2mb((phys_start + size) as u64));
        lemma_bit_constants();
    }
    let r = pt_manager.map_range(KERNEL_VIRT_BASE + phys, phys, end - phys, PageFlags::present().union(PageFlags::writable()), allocator, mem);
    proof {
        if r is Some && is_tree(old(mem)@, *old(allocator), old(pt_manager).pml4()) {
            let vs = (KERNEL_VIRT_BASE + phys) as u64;
            assert((vs as int) % 0x20_0000 == 0 && (vs + (end - phys)) % 0x20_0000 == 0) by (nonlinear_arith)
                requires
                    vs == KERNEL_VIRT_BASE + phys,
                    phys % 0x20_0000 == 0,
                    end % 0x20_0000 == 0,
                    KERNEL_VIRT_BASE == 0xffff_8000_0000_0000u64;
            assert forall|p: u64| phys <= p < end implies
                #[trigger] leaf_flags(mem@, old(pt_manager).pml4(), (KERNEL_VIRT_BASE + p) as u64) == Some(0x83u64) by {
                let w = (KERNEL_VIRT_BASE + p) as u64;
                assert(vs <= w < vs + (end - phys));
                lemma_region_inside(w as int, vs as int, vs + (end - phys));
                assert(maps_huge(vs, phys, (end - phys) as u64, w));
            }
        }
    }
    r
}

/// After the higher-half mapping of `[phys_start, phys_start + size)` went
/// from `m0` to `m1`: the tables still form a tree; on success every
/// address of the range widened to 2 MiB boundaries is reached at
/// `KERNEL_VIRT_BASE` plus itself; on failure a page for a table was
/// missing or a huge entry stood in the way.
pub open spec fn higher_half_mapped<A: PageAllocator>(m0: Map<u64, PageTable>, m1: Map<u64, PageTable>, a1: A, pml4: u64, phys_start: u64, size: u64, ok: bool) -> bool {
    let lo = down_2mb(phys_start);
    let hi = up_2mb((phys_start + size) as u64);
    &&& is_tree(m1, a1, pml4)
    &&& ok ==> forall|p: u64| lo <= p < hi ==> #[trigger] translate_spec(m1, pml4, (KERNEL_VIRT_BASE + p) as u64) == Some(p)
        && leaf_flags(m1, pml4, (KERNEL_VIRT_BASE + p) as u64) == Some(0x83u64)
    &&& !ok ==> a1.free_page_count() == 0 || huge_in_range(m1, pml4, (KERNEL_VIRT_BASE + lo) as u64, hi - lo)
    &&& changed_within(m0, m1, pml4, (KERNEL_VIRT_BASE + lo) as u64, hi - lo)
}

pub fn map_higher_half<A: PageAllocator>(
    pt_manager: &mut PageTableManager,
    allocator: &mut A,
    image_base: u64,
    image_size: u64,
    mem: &mut PhysMemory,
) -> (r: Option<()>)
    requires
        old(allocator).ready(),
        image_base + image_size <= HIGHER_HALF_PHYS_LIMIT,
    ensures
        final(pt_manager).pml4() == old(pt_manager).pml4(),
        final(allocator).ready(),
        forall|q: u64| #[trigger] final(allocator).page_free(q) ==> old(allocator).page_free(q),
        is_tree(old(mem)@, *old(allocator), old(pt_manager).pml4()) ==> higher_half_mapped(
            old(mem)@, final(mem)@, *final(allocator), old(pt_manager).pml4(), image_base, image_size, r is Some),
{
    map_higher_half_region(pt_manager, allocator, image_base, image_size, mem)
}

/// Identity-maps the kernel image, page by page, writable and supervisor-only.
/// On success (for an image in the lower half) every address of its pages
/// translates to itself; on failure a page for a table was missing or a
/// huge entry stood in the way.
pub fn map_kernel_image(
    pt: &mut PageTableManager,
    image_base_phys: u64,
    image_size: u64,
    alloc: &mut BuddyAllocator,
    mem: &mut PhysMemory,
) -> (r: Option<()>)
    requires
        old(alloc).wf(),
        image_base_phys + image_size <= PHYS_LIMIT,
    ensures
        final(pt).pml4() == old(pt).pml4(),
        final(alloc).wf(),
        forall|q: u64| #[trigger] final(alloc).page_free(q) ==> old(alloc).page_free(q),
        is_tree(old(mem)@, *old(alloc), old(pt).pml4()) ==> {
            let pml4 = old(pt).pml4();
            let lo = image_base_phys & !0xfffu64;
            let hi = (image_base_phys + image_size + 0xfff) as u64 & !0xfffu64;
            &&& is_tree(final(mem)@, *final(alloc), pml4)
            &&& r is Some && image_base_phys + image_size + 0xfff <= 0x8000_0000_0000 ==>
                range_mapped(final(mem)@, pml4, lo, lo, hi - lo)
                && forall|w: u64| lo <= w < hi ==> #[trigger] leaf_flags(final(mem)@, pml4, w) == Some(3u64)
            &&& r is None ==> final(alloc).free_pages() == 0 || huge_in_range(final(mem)@, pml4, lo, hi - lo)
            &&& changed_within(old(mem)@, final(mem)@, pml4, lo, hi - lo)
        },
{
    let flags = PageFlags::present().union(PageFlags::writable());
    proof {
        lemma_bit_constants();
    }
    let start = image_base_phys & !0xfff;
    let end = (image_base_phys + image_size + 0xfff) & !0xfff;
    proof {
        lemma_align_4k(image_base_phys, (image_base_phys + image_size) as u64);
        assert(start & 0xfffu64 == 0 && end & 0xfffu64 == 0) by (bit_vector)
            requires
                start == image_base_phys & !0xfffu64,
                end == (image_base_phys + image_size + 0xfff) as u64 & !0xfffu64;
        assert(start & 0xfffu64 == 0 ==> start % 4096 == 0) by (bit_vector);
    }
    let ghost pml4 = pt.pml4();
    let ghost tree = is_tree(mem@, *alloc, pml4);
    let ghost hyp = image_base_phys + image_size + 0xfff <= 0x8000_0000_0000;
    let mut addr = start;
    while addr < end
        invariant
            pt.pml4() == pml4,
            pml4 == old(pt).pml4(),
            alloc.wf(),
            flags.valid(),
            forall|q: u64| #[trigger] alloc.page_free(q) ==> old(alloc).page_free(q),
            end <= PHYS_LIMIT + 0x1000,
            addr < end + 0x1000,
            start <= addr,
            start == image_base_phys & !0xfffu64,
            start % 4096 == 0,
            addr % 4096 == 0,
            end == (image_base_phys + image_size + 0xfff) as u64 & !0xfffu64,
            end >= image_base_phys + image_size,
            hyp == (image_base_phys + image_size + 0xfff <= 0x8000_0000_0000),
            hyp ==> end <= 0x8000_0000_0000,
            tree == is_tree(old(mem)@, *old(alloc), pml4),
            tree ==> is_tree(mem@, *alloc, pml4),
            tree && hyp ==> range_mapped(mem@, pml4, start, start, addr - start),
            tree && hyp ==> forall|w: u64| start <= w < addr ==> #[trigger] leaf_flags(mem@, pml4, w) == Some(3u64),
            tree ==> changed_within(old(mem)@, mem@, pml4, start, end - start),
            flags.bits == 3,
        decreases end + 0x1000 - addr,
    {
        let ghost m0 = mem@;
        let ghost a0 = *alloc;
        proof {
            if tree {
                let lv = choose|lv: Map<u64, int>| tree_ok(m0, a0, pml4, lv);
                lemma_tree_walk(m0, a0, pml4, lv, addr);
            }
        }
        let res = pt.map(addr, PhysAddr::new(addr), flags, alloc, mem);
        proof {
            if tree {
                assert forall|w: u64| #[trigger] walk_changed(old(mem)@, mem@, pml4, w) implies
                    exists|v: u64| start <= v < start + (end - start) && #[trigger] same_page(w, v) by {
                    if walk_changed(m0, mem@, pml4, w) {
                        assert(same_page(w, addr));
                    } else {
                        assert(walk_changed(old(mem)@, m0, pml4, w));
                        let v = choose|v: u64| start <= v < start + (end - start) && #[trigger] same_page(w, v);
                        assert(same_page(w, v));
                    }
                }
            }
        }
        if res.is_none() {
            proof {
                if tree {
                    assert(huge_on_path(mem@, pml4, addr, 3) || alloc.free_page_count() == 0);
                    if huge_on_path(mem@, pml4, addr, 3) {
                        assert(start <= addr < start + (end - start));
                        assert(huge_in_range(mem@, pml4, start, end - start));
                    } else {
                        assert(alloc.free_pages() == 0);
                    }
                }
            }
            return None;
        }
        proof {
            if tree && hyp {
                lemma_step_4kb(m0, mem@, pml4, start, start, addr, addr, flags.bits, (end - start) as u64);
                lemma_leaf_entry(addr, flags.bits);
                lemma_bit_constants();
                assert forall|w: u64| start <= w < addr + 0x1000 implies #[trigger] leaf_flags(mem@, pml4, w) == Some(3u64) by {
                    if w < addr {
                        lemma_below_other_page(w, addr);
                        assert(leaf_flags(m0, pml4, w) == Some(3u64));
                    } else {
                        lemma_in_page(w, addr);
                        assert(leaf_flags(mem@, pml4, w) == leaf_flags(mem@, pml4, addr));
                    }
                }
            }
        }
        addr = addr + 0x1000;
    }
    proof {
        if tree && hyp {
            assert forall|w: u64| start <= w < start + (end - start) implies
                #[trigger] translate_spec(mem@, pml4, w) == Some((start + (w - start)) as u64) by {
                assert(w < start + (addr - start));
            }
            assert forall|w: u64| start <= w < end implies #[trigger] leaf_flags(mem@, pml4, w) == Some(3u64) by {
                assert(w < addr);
            }
        }
    }
    Some(())
}

/// `m2` is `m1` with the last-level entry of the walk of `v` cleared.
pub open spec fn unmapped(m1: Map<u64, PageTable>, m2: Map<u64, PageTable>, pml4: u64, v: u64) -> bool {
    forall|p: u64, j: int| 0 <= j < 512 ==> #[trigger] entry_at(m2, p, j) == (if p == pte_addr(l2e(m1, pml4, v)) && j == l1_index(v) { 0 } else { entry_at(m1, p, j) })
}

/// Unmapping an address that `map` mapped hands back the frame given to
/// `map`, cut to its page address.
pub proof fn law_unmap_returns_mapped_frame(m: Map<u64, PageTable>, pml4: u64, v: u64, phys: u64, flags: PageFlags)
    requires
        flags.valid(),
        l1e(m, pml4, v) == phys | (flags.bits | 1),
    ensures
        leaf_present(m, pml4, v) <==> pte_present(l4e(m, pml4, v)) && pte_present(l3e(m, pml4, v)) && pte_present(l2e(m, pml4, v)),
        pte_addr(l1e(m, pml4, v)) == phys & PHYS_ADDR_MASK,
{
    lemma_leaf_entry(phys, flags.bits);
}

/// After `unmap` cleared the 4 KiB entry of `v`, `v` translates to nothing,
/// provided the tables on its walk are four distinct pages.
pub proof fn law_unmap_clears_translation(m1: Map<u64, PageTable>, m2: Map<u64, PageTable>, pml4: u64, v: u64)
    requires
        unmapped(m1, m2, pml4, v),
        leaf_present(m1, pml4, v),
        !pte_huge(l2e(m1, pml4, v)),
        ({
            let t3 = pte_addr(l4e(m1, pml4, v));
            let t2 = pte_addr(l3e(m1, pml4, v));
            let t1 = pte_addr(l2e(m1, pml4, v));
            t1 != pml4 && t1 != t3 && t1 != t2
        }),
    ensures
        translate_spec(m2, pml4, v) is None,
{
    lemma_zero_entry();
    lemma_index_bounds(v);
    let t3 = pte_addr(l4e(m1, pml4, v));
    let t2 = pte_addr(l3e(m1, pml4, v));
    let t1 = pte_addr(l2e(m1, pml4, v));
    assert(entry_at(m2, pml4, l4_index(v) as int) == entry_at(m1, pml4, l4_index(v) as int));
    assert(entry_at(m2, t3, l3_index(v) as int) == entry_at(m1, t3, l3_index(v) as int));
    assert(entry_at(m2, t2, l2_index(v) as int) == entry_at(m1, t2, l2_index(v) as int));
    assert(entry_at(m2, t1, l1_index(v) as int) == 0);
}

/// The tables that the walk of `w` from `root` reads: the root and the
/// tables that its first three entries point to.
pub open spec fn walk_tables(m: Map<u64, PageTable>, root: u64, w: u64) -> Set<u64> {
    set![root, pte_addr(l4e(m, root, w)), pte_addr(l3e(m, root, w)), pte_addr(l2e(m, root, w))]
}

/// Isolation of address spaces: a change made on the walk of `v` from
/// `pml4` leaves every translation through another hierarchy whose walk
/// reads none of those tables as it was.
pub proof fn law_other_space_unchanged(
    m1: Map<u64, PageTable>,
    m2: Map<u64, PageTable>,
    pml4: u64,
    v: u64,
    other: u64,
    w: u64,
)
    requires
        changed_only_on_path(m1, m2, pml4, v),
        walk_tables(m1, other, w).disjoint(walk_tables(m2, pml4, v)),
    ensures
        translate_spec(m2, other, w) == translate_spec(m1, other, w),
{
    lemma_index_bounds(w);
    let ta = walk_tables(m1, other, w);
    let tb = walk_tables(m2, pml4, v);
    assert(ta.contains(other) && !tb.contains(other));
    assert(entry_at(m2, other, l4_index(w) as int) == entry_at(m1, other, l4_index(w) as int));
    let t3 = pte_addr(l4e(m1, other, w));
    assert(ta.contains(t3) && !tb.contains(t3));
    assert(entry_at(m2, t3, l3_index(w) as int) == entry_at(m1, t3, l3_index(w) as int));
    let t2 = pte_addr(l3e(m1, other, w));
    assert(ta.contains(t2) && !tb.contains(t2));
    assert(entry_at(m2, t2, l2_index(w) as int) == entry_at(m1, t2, l2_index(w) as int));
    let t1 = pte_addr(l2e(m1, other, w));
    assert(ta.contains(t1) && !tb.contains(t1));
    assert(entry_at(m2, t1, l1_index(w) as int) == entry_at(m1, t1, l1_index(w) as int));
}


pub proof fn lemma_only_zeroed_refl(m: Map<u64, PageTable>)
    ensures
        only_zeroed(m, m),
{
}

pub proof fn lemma_only_zeroed_trans(m1: Map<u64, PageTable>, m2: Map<u64, PageTable>, m3: Map<u64, PageTable>)
    requires
        only_zeroed(m1, m2),
        only_zeroed(m2, m3),
    ensures
        only_zeroed(m1, m3),
{
    assert forall|p: u64, j: int| 0 <= j < 512 implies #[trigger] entry_at(m3, p, j) == entry_at(m1, p, j) || entry_at(m3, p, j) == 0 by {
        assert(entry_at(m2, p, j) == entry_at(m1, p, j) || entry_at(m2, p, j) == 0);
    }
}

/// What `unmap` leaves behind differs from before only by a cleared entry,
/// and the page it unmapped is no longer mapped.
pub proof fn lemma_unmapped(m1: Map<u64, PageTable>, m2: Map<u64, PageTable>, pml4: u64, v: u64)
    requires
        unmapped(m1, m2, pml4, v),
    ensures
        only_zeroed(m1, m2),
        !leaf_present(m2, pml4, v),
{
    lemma_zero_entry();
    lemma_index_bounds(v);
    assert forall|p: u64, j: int| 0 <= j < 512 implies #[trigger] entry_at(m2, p, j) == entry_at(m1, p, j) || entry_at(m2, p, j) == 0 by {}
    lemma_walk_stable(m1, m2, pml4, v);
    if leaf_present(m2, pml4, v) {
        assert(entry_at(m2, pte_addr(l2e(m1, pml4, v)), l1_index(v) as int) == 0);
    }
}

pub proof fn lemma_same_only_zeroed(m1: Map<u64, PageTable>, m2: Map<u64, PageTable>)
    requires
        mem_same(m1, m2),
    ensures
        only_zeroed(m1, m2),
{
    assert forall|p: u64, j: int| 0 <= j < 512 implies #[trigger] entry_at(m2, p, j) == entry_at(m1, p, j) || entry_at(m2, p, j) == 0 by {}
}

/// A walk that still reaches a present last-level entry after entries were
/// only cleared went through the same entries before.
pub proof fn lemma_walk_stable(m1: Map<u64, PageTable>, m2: Map<u64, PageTable>, pml4: u64, v: u64)
    requires
        only_zeroed(m1, m2),
    ensures
        leaf_present(m2, pml4, v) ==> {
            &&& leaf_present(m1, pml4, v)
            &&& l4e(m2, pml4, v) == l4e(m1, pml4, v)
            &&& l3e(m2, pml4, v) == l3e(m1, pml4, v)
            &&& l2e(m2, pml4, v) == l2e(m1, pml4, v)
            &&& l1e(m2, pml4, v) == l1e(m1, pml4, v)
        },
{
    lemma_zero_entry();
    lemma_index_bounds(v);
    if leaf_present(m2, pml4, v) {
        assert(entry_at(m2, pml4, l4_index(v) as int) == entry_at(m1, pml4, l4_index(v) as int));
        let t3 = pte_addr(l4e(m1, pml4, v));
        assert(entry_at(m2, t3, l3_index(v) as int) == entry_at(m1, t3, l3_index(v) as int));
        let t2 = pte_addr(l3e(m1, pml4, v));
        assert(entry_at(m2, t2, l2_index(v) as int) == entry_at(m1, t2, l2_index(v) as int));
        let t1 = pte_addr(l2e(m1, pml4, v));
        assert(entry_at(m2, t1, l1_index(v) as int) == entry_at(m1, t1, l1_index(v) as int));
    }
}

// ----------------------------------------------------------------------
// Bit-level lemmas
// ----------------------------------------------------------------------

proof fn lemma_upgrade_user(e: u64)
    by (bit_vector)
    ensures
        ({
            let ne = (e & 0x000f_ffff_ffff_f000u64) | ((e & 0x8000_0000_0000_00e7u64) | 4u64);
            &&& pte_present(ne) == pte_present(e)
            &&& pte_huge(ne) == pte_huge(e)
            &&& pte_addr(ne) == pte_addr(e)
        }),
{
}

proof fn lemma_user_bit(e: u64)
    by (bit_vector)
    ensures
        ((e & 0x000f_ffff_ffff_f000u64) | ((e & 0x8000_0000_0000_00e7u64) | 4u64)) & 4 != 0,
        ((e & 0x8000_0000_0000_00e7u64) & 4u64 == 4u64) ==> e & 4 != 0,
        (e | 7u64) & 4 != 0,
        (e & 4 != 0) ==> (e & 4u64 == 4u64),
        (7u64 & 4u64 == 4u64),
        (3u64 & 4u64 != 4u64),
{
}

proof fn lemma_new_table_entry(n: u64, tf: u64)
    by (bit_vector)
    requires
        n % 4096 == 0,
        n < 0x10_0000_0000_0000u64,
        tf == 3 || tf == 7,
    ensures
        pte_present(n | tf),
        !pte_huge(n | tf),
        pte_addr(n | tf) == n,
{
}

pub proof fn lemma_leaf_entry(phys: u64, fl: u64)
    by (bit_vector)
    requires
        fl & !0x8000_0000_0000_00e7u64 == 0,
    ensures
        pte_present(phys | (fl | 1)),
        pte_addr(phys | (fl | 1)) == phys & PHYS_ADDR_MASK,
        pte_addr(phys | ((fl | 1) | 0x80)) == phys & PHYS_ADDR_MASK,
        pte_present(phys | ((fl | 1) | 0x80)),
        pte_huge(phys | ((fl | 1) | 0x80)),
        phys % 4096 == 0 && phys < 0x10_0000_0000_0000u64 ==> (phys | (fl | 1)) & !PHYS_ADDR_MASK == fl | 1,
        phys % 0x20_0000 == 0 && phys < 0x10_0000_0000_0000u64 ==> (phys | ((fl | 1) | 0x80)) & !PHYS_ADDR_MASK == (fl | 1) | 0x80,
{
}

pub proof fn lemma_zero_entry()
    ensures
        !pte_present(0),
        !pte_huge(0),
        pte_addr(0) == 0,
{
    lemma_bit_constants();
}

/// Facts about the constants that the flag and entry code uses.
pub proof fn lemma_bit_constants()
    by (bit_vector)
    ensures
        0u64 & !0x8000_0000_0000_00e7u64 == 0,
        1u64 & !0x8000_0000_0000_00e7u64 == 0,
        2u64 & !0x8000_0000_0000_00e7u64 == 0,
        4u64 & !0x8000_0000_0000_00e7u64 == 0,
        0x20u64 & !0x8000_0000_0000_00e7u64 == 0,
        0x40u64 & !0x8000_0000_0000_00e7u64 == 0,
        0x80u64 & !0x8000_0000_0000_00e7u64 == 0,
        0x8000_0000_0000_0000u64 & !0x8000_0000_0000_00e7u64 == 0,
        1u64 | 2u64 | 4u64 == 7u64,
        1u64 | 2u64 == 3u64,
        3u64 | 1u64 == 3u64,
        (3u64 | 1u64) | 0x80u64 == 0x83u64,
        ((1u64 | 2u64) | 4u64) | 0x8000_0000_0000_0000u64 == 0x8000_0000_0000_0007u64,
        0x8000_0000_0000_0007u64 | 1u64 == 0x8000_0000_0000_0007u64,
        1u64 | 4u64 == 5u64,
        5u64 | 0u64 == 5u64,
        (5u64 | 2u64) | 0u64 == 5u64 | 2u64,
        0u64 & 1 == 0,
        0u64 & 0x80 == 0,
        0u64 & 0x000f_ffff_ffff_f000u64 == 0,
        0x8000u64 >> 12u64 == 8,
{
}

/// `a` rounded down to a 2 MiB boundary.
pub open spec fn down_2mb(a: u64) -> u64 {
    a & !0x1f_ffffu64
}

/// `b` rounded up to a 2 MiB boundary.
pub open spec fn up_2mb(b: u64) -> u64 {
    (b + 0x1f_ffff) as u64 & !0x1f_ffffu64
}

proof fn lemma_round_2mb(a: u64, b: u64)
    requires
        a <= b,
        b <= 0x10_0000_0000_0000u64,
    ensures
        down_2mb(a) <= a,
        b <= up_2mb(b) <= b + 0x1f_ffff,
        down_2mb(a) % 0x20_0000 == 0,
        down_2mb(a) % 4096 == 0,
        up_2mb(b) % 4096 == 0,
        up_2mb(b) % 0x20_0000 == 0,
{
    lemma_align_2mb(a, b);
    assert((a & !0x1f_ffffu64) & 0x1f_ffffu64 == 0 && (a & !0x1f_ffffu64) & 0xfffu64 == 0) by (bit_vector);
    assert(b <= 0x10_0000_0000_0000u64 ==> ((b + 0x1f_ffff) as u64 & !0x1f_ffffu64) & 0xfffu64 == 0
        && ((b + 0x1f_ffff) as u64 & !0x1f_ffffu64) & 0x1f_ffffu64 == 0) by (bit_vector);
    let d = a & !0x1f_ffffu64;
    let u = (b + 0x1f_ffff) as u64 & !0x1f_ffffu64;
    assert(d & 0x1f_ffffu64 == 0 ==> d % 0x20_0000 == 0) by (bit_vector);
    assert(d & 0xfffu64 == 0 ==> d % 4096 == 0) by (bit_vector);
    assert((u & 0xfffu64 == 0 ==> u % 4096 == 0) && (u & 0x1f_ffffu64 == 0 ==> u % 0x20_0000 == 0)) by (bit_vector);
}

proof fn lemma_align_2mb(a: u64, b: u64)
    by (bit_vector)
    requires
        a <= b,
        b <= 0x10_0000_0000_0000u64,
    ensures
        a & !0x1f_ffffu64 <= a,
        (b + 0x1f_ffff) as u64 & !0x1f_ffffu64 >= b,
        (b + 0x1f_ffff) as u64 & !0x1f_ffffu64 <= b + 0x1f_ffff,
{
}

proof fn lemma_align_4k(a: u64, b: u64)
    by (bit_vector)
    requires
        a <= b,
        b <= 0x10_0000_0000_0000u64,
    ensures
        a & !0xfffu64 <= a,
        (b + 0xfff) as u64 & !0xfffu64 >= b,
        (b + 0xfff) as u64 & !0xfffu64 <= b + 0xfff,
{
}

pub proof fn lemma_index_bounds(v: u64)
    by (bit_vector)
    ensures
        (0x7fe0_0000u64 <= v && v < 0x8000_0000u64) ==> (l4_index(v) == 0 && l3_index(v) == 1 && l2_index(v) == 511),
        v < 0x8000_0000_0000u64 ==> l4_index(v) < 256,
        l4_index(v) < 512,
        l3_index(v) < 512,
        l2_index(v) < 512,
        l1_index(v) < 512,
        v & 0xfff < 4096,
        v & 0x1f_ffffu64 <= 0x1f_ffff,
{
}

proof fn lemma_huge_flag(e: u64)
    by (bit_vector)
    ensures
        ((e & 0x8000_0000_0000_00e7u64) & 0x80 == 0x80) == pte_huge(e),
{
}

proof fn lemma_addr_bound(e: u64)
    by (bit_vector)
    ensures
        pte_addr(e) < 0x10_0000_0000_0000u64,
        pte_addr(e) % 4096 == 0,
{
}

/// With every free list empty there are no free pages.
proof fn lemma_no_free_pages(s: BuddyAllocator)
    requires
        s.wf(),
        crate::allocator::first_nonempty(s.lists(), 0) == crate::allocator::MAX_ORDER,
    ensures
        s.free_pages() == 0,
{
    crate::allocator::lemma_first_nonempty_empty(s.lists(), 0);
    crate::allocator::lemma_pages_below_empty(s.lists(), crate::allocator::MAX_ORDER as nat);
}

// ----------------------------------------------------------------------
// The boot mapping plan
// ----------------------------------------------------------------------

/// Physical address of the local APIC's registers.
pub const LAPIC_PHYS: u64 = 0xfee0_0000;

/// How a region is mapped at boot.
#[derive(Clone, Copy, Debug, PartialEq, Eq, Structural)]
pub enum MappingKind {
    /// Each address to itself.
    Identity,
    /// Each physical address `p` at `KERNEL_VIRT_BASE + p`.
    HigherHalf,
}

/// One mapping of the boot plan.
#[derive(Clone, Copy)]
pub struct Mapping {
    pub kind: MappingKind,
    pub start: u64,
    pub size: u64,
}

/// The 2 MiB around the boot stack: from 1 MiB below the stack pointer
/// (saturating at 0), rounded down to a page.
pub open spec fn boot_stack_base(rsp: u64) -> u64 {
    (if rsp >= 0x10_0000 { (rsp - 0x10_0000) as u64 } else { 0u64 }) & !0xfffu64
}

pub open spec fn identity_of(r: MemoryRegion) -> Mapping {
    Mapping { kind: MappingKind::Identity, start: r.start, size: r.size }
}

pub open spec fn higher_half_of(r: MemoryRegion) -> Mapping {
    Mapping { kind: MappingKind::HigherHalf, start: r.start, size: r.size }
}

/// The mappings the boot page table gets, in order: every firmware region
/// identity-mapped, then the local APIC page and the low 64 KiB; then every
/// firmware region in the higher half, the local APIC page, and the 2 MiB
/// around the boot stack.
pub open spec fn paging_plan_spec(regions: Seq<MemoryRegion>, rsp: u64) -> Seq<Mapping> {
    regions.map_values(|r: MemoryRegion| identity_of(r))
        + seq![
            Mapping { kind: MappingKind::Identity, start: LAPIC_PHYS, size: 0x1000 },
            Mapping { kind: MappingKind::Identity, start: 0, size: 0x1_0000 },
        ]
        + regions.map_values(|r: MemoryRegion| higher_half_of(r))
        + seq![
            Mapping { kind: MappingKind::HigherHalf, start: LAPIC_PHYS, size: 0x1000 },
            Mapping { kind: MappingKind::HigherHalf, start: boot_stack_base(rsp), size: 0x20_0000 },
        ]
}

/// The base of the boot stack's 2 MiB, from the stack pointer.
pub fn boot_stack_phys_base(rsp: u64) -> (r: u64)
    ensures
        r == boot_stack_base(rsp),
{
    let below = if rsp >= 0x10_0000 { rsp - 0x10_0000 } else { 0 };
    below & !0xfffu64
}

/// The mappings that the boot page table is built from (see
/// `paging_plan_spec`), for the firmware's regions and the boot stack
/// pointer `rsp`.
pub fn paging_plan(regions: &[MemoryRegion], rsp: u64) -> (r: Vec<Mapping>)
    ensures
        r@ == paging_plan_spec(regions@, rsp),
{
    let mut v: Vec<Mapping> = Vec::new();
    let mut i: usize = 0;
    while i < regions.len()
        invariant
            i <= regions@.len(),
            v@ == regions@.subrange(0, i as int).map_values(|r: MemoryRegion| identity_of(r)),
        decreases regions@.len() - i,
    {
        let r = regions[i];
        v.push(Mapping { kind: MappingKind::Identity, start: r.start, size: r.size });
        proof {
            assert(regions@.subrange(0, i + 1).map_values(|r: MemoryRegion| identity_of(r))
                =~= regions@.subrange(0, i as int).map_values(|r: MemoryRegion| identity_of(r)).push(identity_of(regions@[i as int])));
        }
        i = i + 1;
    }
    v.push(Mapping { kind: MappingKind::Identity, start: LAPIC_PHYS, size: 0x1000 });
    v.push(Mapping { kind: MappingKind::Identity, start: 0, size: 0x1_0000 });
    let ghost n = v@.len();
    let mut j: usize = 0;
    while j < regions.len()
        invariant
            j <= regions@.len(),
            n == regions@.len() + 2,
            v@.len() == n + j,
            v@.subrange(0, n as int) == regions@.map_values(|r: MemoryRegion| identity_of(r))
                + seq![
                    Mapping { kind: MappingKind::Identity, start: LAPIC_PHYS, size: 0x1000 },
                    Mapping { kind: MappingKind::Identity, start: 0, size: 0x1_0000 },
                ],
            v@.subrange(n as int, v@.len() as int) == regions@.subrange(0, j as int).map_values(|r: MemoryRegion| higher_half_of(r)),
        decreases regions@.len() - j,
    {
        let r = regions[j];
        let ghost before = v@;
        v.push(Mapping { kind: MappingKind::HigherHalf, start: r.start, size: r.size });
        proof {
            assert(v@.subrange(0, n as int) =~= before.subrange(0, n as int));
            assert(regions@.subrange(0, j + 1).map_values(|r: MemoryRegion| higher_half_of(r))
                =~= regions@.subrange(0, j as int).map_values(|r: MemoryRegion| higher_half_of(r)).push(higher_half_of(regions@[j as int])));
            assert(v@.subrange(n as int, v@.len() as int) =~= before.subrange(n as int, before.len() as int).push(higher_half_of(regions@[j as int])));
        }
        j = j + 1;
    }
    let base = boot_stack_phys_base(rsp);
    let ghost mid = v@;
    v.push(Mapping { kind: MappingKind::HigherHalf, start: LAPIC_PHYS, size: 0x1000 });
    v.push(Mapping { kind: MappingKind::HigherHalf, start: base, size: 0x20_0000 });
    proof {
        assert(regions@.subrange(0, regions@.len() as int) =~= regions@);
        assert(mid =~= mid.subrange(0, n as int) + mid.subrange(n as int, mid.len() as int));
        assert(v@ =~= paging_plan_spec(regions@, rsp));
    }
    v
}

} // verus!
