//! Buddy allocator for physical pages.
//!
//! Free blocks of order `o` span `PAGE_SIZE << o` bytes. Each order keeps a
//! stack of free block addresses; the last element is the head of the list.

use vstd::prelude::*;
use vstd::arithmetic::power2::*;
use vstd::bits::*;

verus! {

pub const PAGE_SIZE: usize = 4096;

pub const MAX_ORDER: usize = 11;

/// Upper bound of physical addresses (52-bit physical address space).
pub const PHYS_LIMIT: u64 = 0x10_0000_0000_0000;

#[derive(Debug, Clone, Copy, PartialEq, Eq, Structural)]
pub struct PhysAddr(u64);

impl View for PhysAddr {
    type V = u64;

    closed spec fn view(&self) -> u64 {
        self.0
    }
}

impl PhysAddr {
    pub fn new(addr: u64) -> (r: Self)
        ensures
            r@ == addr,
    {
        Self(addr)
    }

    pub fn as_u64(self) -> (r: u64)
        ensures
            r == self@,
    {
        self.0
    }

    pub fn as_usize(self) -> (r: usize)
        requires
            self@ <= usize::MAX,
        ensures
            r == self@,
    {
        self.0 as usize
    }
}

/// Size in bytes of a block of the given order.
pub open spec fn block_size(order: nat) -> int {
    4096 * pow2(order) as int
}

/// Byte `a` lies in the block of the given order starting at `start`.
pub open spec fn in_block(a: int, start: u64, order: nat) -> bool {
    start <= a < start + block_size(order)
}

/// Low-bit mask of `order` bits, as the allocator computes it.
pub open spec fn order_mask(order: nat) -> u64 {
    ((1u64 << (order as u64)) - 1) as u64
}

/// The page frame number `pfn` is aligned to a block of the given order.
pub open spec fn pfn_aligned(pfn: u64, order: nat) -> bool {
    pfn & order_mask(order) == 0
}

/// A block that may stand in the free list of the given order.
pub open spec fn block_ok(addr: u64, order: nat) -> bool {
    &&& order < MAX_ORDER
    &&& addr != 0
    &&& addr % (PAGE_SIZE as u64) == 0
    &&& pfn_aligned(addr / (PAGE_SIZE as u64), order)
    &&& addr + block_size(order) <= PHYS_LIMIT
}

pub open spec fn blocks_disjoint(a1: u64, o1: nat, a2: u64, o2: nat) -> bool {
    a1 + block_size(o1) <= a2 || a2 + block_size(o2) <= a1
}

/// Well-formed free lists: one list per order, every block valid for its
/// order, and no two listed blocks overlap.
pub open spec fn lists_wf(l: Seq<Seq<u64>>) -> bool {
    &&& l.len() == MAX_ORDER
    &&& forall|o: nat, i: int|
        o < MAX_ORDER && 0 <= i < l[o as int].len() ==> #[trigger] block_ok(l[o as int][i], o)
    &&& forall|o1: nat, i1: int, o2: nat, i2: int|
        o1 < MAX_ORDER && 0 <= i1 < l[o1 as int].len() && o2 < MAX_ORDER && 0 <= i2
            < l[o2 as int].len() && (o1 != o2 || i1 != i2) ==> #[trigger] blocks_disjoint(
            l[o1 as int][i1],
            o1,
            l[o2 as int][i2],
            o2,
        )
}

/// Byte `a` is free: some listed block contains it.
pub open spec fn covered(l: Seq<Seq<u64>>, a: int) -> bool {
    exists|o: nat, i: int|
        o < l.len() && 0 <= i < l[o as int].len() && #[trigger] in_block(a, l[o as int][i], o)
}

/// Number of free pages held in the lists of orders below `n`.
pub open spec fn pages_below(l: Seq<Seq<u64>>, n: nat) -> nat
    decreases n,
{
    if n == 0 {
        0
    } else {
        pages_below(l, (n - 1) as nat) + l[n - 1].len() * pow2((n - 1) as nat)
    }
}

/// When no list at or above order `o` holds a block, every such list is empty.
pub proof fn lemma_first_nonempty_empty(l: Seq<Seq<u64>>, o: nat)
    requires
        l.len() == MAX_ORDER,
        first_nonempty(l, o) == MAX_ORDER,
    ensures
        forall|k: int| o <= k < MAX_ORDER ==> #[trigger] l[k].len() == 0,
    decreases MAX_ORDER - o,
{
    if o < MAX_ORDER {
        lemma_first_nonempty_empty(l, o + 1);
    }
}

/// Smallest order at or above `o` whose list is not empty, or `MAX_ORDER`.
pub open spec fn first_nonempty(l: Seq<Seq<u64>>, o: nat) -> nat
    decreases MAX_ORDER - o,
{
    if o >= MAX_ORDER {
        MAX_ORDER as nat
    } else if l[o as int].len() > 0 {
        o
    } else {
        first_nonempty(l, o + 1)
    }
}

pub open spec fn align_up_spec(addr: int, align: int) -> int {
    if addr % align == 0 {
        addr
    } else {
        addr - addr % align + align
    }
}

pub open spec fn align_down_spec(addr: int, align: int) -> int {
    addr - addr % align
}

pub struct BuddyAllocator {
    free_lists: Vec<Vec<u64>>,
    free_counts: Vec<usize>,
}

impl BuddyAllocator {
    /// The free lists, one sequence of block addresses per order.
    pub closed spec fn lists(&self) -> Seq<Seq<u64>> {
        self.free_lists@.map_values(|v: Vec<u64>| v@)
    }

    /// The per-order block counts kept beside the lists.
    pub closed spec fn counts(&self) -> Seq<usize> {
        self.free_counts@
    }

    /// One free list and one count per order.
    pub closed spec fn shape_ok(&self) -> bool {
        self.free_counts@.len() == MAX_ORDER && self.free_lists@.len() == MAX_ORDER
    }

    pub closed spec fn counts_match(&self) -> bool {
        &&& self.free_counts@.len() == MAX_ORDER
        &&& self.free_lists@.len() == MAX_ORDER
        &&& forall|o: int| 0 <= o < MAX_ORDER ==> #[trigger] self.free_counts@[o] == self.free_lists@[o]@.len()
    }

    pub open spec fn wf(&self) -> bool {
        &&& self.counts_match()
        &&& lists_wf(self.lists())
    }

    /// Byte `a` lies in a free block.
    pub open spec fn is_free(&self, a: int) -> bool {
        covered(self.lists(), a)
    }

    /// Total number of free pages.
    pub open spec fn free_pages(&self) -> nat {
        pages_below(self.lists(), MAX_ORDER as nat)
    }

    pub fn new() -> (r: Self)
        ensures
            r.wf(),
            r.free_pages() == 0,
            forall|a: int| !r.is_free(a),
    {
        let mut free_lists: Vec<Vec<u64>> = Vec::new();
        let mut free_counts: Vec<usize> = Vec::new();
        let mut o: usize = 0;
        while o < MAX_ORDER
            invariant
                o <= MAX_ORDER,
                free_lists@.len() == o,
                free_counts@.len() == o,
                forall|k: int| 0 <= k < o ==> #[trigger] free_lists@[k]@.len() == 0,
                forall|k: int| 0 <= k < o ==> #[trigger] free_counts@[k] == 0,
            decreases MAX_ORDER - o,
        {
            free_lists.push(Vec::new());
            free_counts.push(0);
            o = o + 1;
        }
        let r = Self { free_lists, free_counts };
        proof {
            assert forall|k: int| 0 <= k < MAX_ORDER implies #[trigger] r.lists()[k].len() == 0 by {}
            lemma_pages_below_empty(r.lists(), MAX_ORDER as nat);
        }
        r
    }

    /// Walks every free list and compares its length with the recorded
    /// count; a well-kept allocator (the only kind there is) passes.
    pub fn check_metadata_integrity(&self, caller: &str)
        requires
            self.wf(),
    {
        let _ = caller;
        let mut order: usize = 0;
        while order < MAX_ORDER
            invariant
                order <= MAX_ORDER,
                self.counts_match(),
            decreases MAX_ORDER - order,
        {
            let len = self.free_lists[order].len();
            let count = self.free_counts[order];
            assert(len == count);
            order = order + 1;
        }
    }

    fn push_block(&mut self, addr: PhysAddr, order: usize)
        requires
            old(self).wf(),
            block_ok(addr@, order as nat),
            forall|a: int| #[trigger] in_block(a, addr@, order as nat) ==> !old(self).is_free(a),
        ensures
            final(self).wf(),
            final(self).lists() == old(self).lists().update(
                order as int,
                old(self).lists()[order as int].push(addr@),
            ),
            forall|a: int| #[trigger] final(self).is_free(a) == (old(self).is_free(a) || in_block(a, addr@, order as nat)),
            final(self).free_pages() == old(self).free_pages() + pow2(order as nat),
    {
        let ghost l0 = self.lists();
        self.free_lists[order].push(addr.as_u64());
        let n = self.free_lists[order].len();
        self.free_counts.set(order, n);
        proof {
            let l1 = l0.update(order as int, l0[order as int].push(addr@));
            assert(self.lists() =~= l1);
            lemma_push_wf(l0, order as nat, addr@);
            assert forall|a: int| #[trigger] covered(l1, a) == (covered(l0, a) || in_block(a, addr@, order as nat)) by {
                lemma_covered_push(l0, order as nat, addr@, a);
            }
            lemma_pages_below_update(l0, order as nat, l1[order as int], MAX_ORDER as nat);
            let n = l0[order as int].len();
            let p = pow2(order as nat);
            assert((n + 1) * p == n * p + p) by (nonlinear_arith);
        }
    }

    fn pop_block(&mut self, order: usize) -> (r: PhysAddr)
        requires
            old(self).wf(),
            order < MAX_ORDER,
            old(self).lists()[order as int].len() > 0,
        ensures
            final(self).wf(),
            r@ == old(self).lists()[order as int].last(),
            block_ok(r@, order as nat),
            final(self).lists() == old(self).lists().update(
                order as int,
                old(self).lists()[order as int].drop_last(),
            ),
            forall|a: int| #[trigger] final(self).is_free(a) == (old(self).is_free(a) && !in_block(a, r@, order as nat)),
            forall|a: int| in_block(a, r@, order as nat) ==> old(self).is_free(a),
            final(self).free_pages() + pow2(order as nat) == old(self).free_pages(),
    {
        let ghost l0 = self.lists();
        let ghost j = l0[order as int].len() - 1;
        proof {
            assert(block_ok(l0[order as int][j], order as nat));
        }
        let addr = self.free_lists[order].pop().unwrap();
        let c = self.free_counts[order];
        self.free_counts.set(order, c - 1);
        proof {
            assert(l0[order as int].drop_last() =~= l0[order as int].remove(j));
            let l1 = l0.update(order as int, l0[order as int].remove(j));
            assert(self.lists() =~= l1);
            lemma_remove_wf(l0, order as nat, j);
            assert forall|a: int| #[trigger] covered(l1, a) == (covered(l0, a) && !in_block(a, addr, order as nat)) by {
                lemma_covered_remove(l0, order as nat, j, a);
            }
            assert forall|a: int| in_block(a, addr, order as nat) implies covered(l0, a) by {
                assert(in_block(a, l0[order as int][j], order as nat));
            }
            lemma_pages_below_update(l0, order as nat, l1[order as int], MAX_ORDER as nat);
            let n = l1[order as int].len();
            let p = pow2(order as nat);
            assert((n + 1) * p == n * p + p) by (nonlinear_arith);
        }
        PhysAddr::new(addr)
    }

    /// Removes the block at `addr` from the list of `order`, if it is listed.
    fn remove_from_list(&mut self, addr: PhysAddr, order: usize) -> (found: bool)
        requires
            old(self).wf(),
            order < MAX_ORDER,
        ensures
            final(self).wf(),
            found == old(self).lists()[order as int].contains(addr@),
            !found ==> final(self).lists() == old(self).lists(),
            found ==> forall|a: int| #[trigger] final(self).is_free(a) == (old(self).is_free(a) && !in_block(a, addr@, order as nat)),
            found ==> forall|a: int| in_block(a, addr@, order as nat) ==> old(self).is_free(a),
            found ==> block_ok(addr@, order as nat),
            found ==> final(self).free_pages() + pow2(order as nat) == old(self).free_pages(),
            found ==> forall|k: int| 0 <= k < MAX_ORDER && k != order ==> #[trigger] final(self).lists()[k] == old(self).lists()[k],
    {
        let ghost l0 = self.lists();
        let target = addr.as_u64();
        let len = self.free_lists[order].len();
        let mut k: usize = len;
        while k > 0
            invariant
                k <= len,
                self.wf(),
                l0 == old(self).lists(),
                target == addr@,
                len == l0[order as int].len(),
                self.lists() == l0,
                order < MAX_ORDER,
                self.free_lists@.len() == MAX_ORDER,
                forall|i: int| k <= i < len ==> l0[order as int][i] != target,
            decreases k,
        {
            let idx = k - 1;
            let cur = self.free_lists[order][idx];
            if cur == target {
                proof {
                    assert(block_ok(l0[order as int][idx as int], order as nat));
                }
                self.free_lists[order].remove(idx);
                let c = self.free_counts[order];
                self.free_counts.set(order, c - 1);
                proof {
                    let l1 = l0.update(order as int, l0[order as int].remove(idx as int));
                    assert(self.lists() =~= l1);
                    lemma_remove_wf(l0, order as nat, idx as int);
                    assert forall|a: int| #[trigger] covered(l1, a) == (covered(l0, a) && !in_block(a, target, order as nat)) by {
                        lemma_covered_remove(l0, order as nat, idx as int, a);
                    }
                    assert forall|a: int| in_block(a, target, order as nat) implies covered(l0, a) by {
                        assert(in_block(a, l0[order as int][idx as int], order as nat));
                    }
                    lemma_pages_below_update(l0, order as nat, l1[order as int], MAX_ORDER as nat);
                    let n = l1[order as int].len();
                    let p = pow2(order as nat);
                    assert((n + 1) * p == n * p + p) by (nonlinear_arith);
                    assert(l0[order as int][idx as int] == target);
                }
                return true;
            }
            k = idx;
        }
        false
    }

    /// Adds the page-aligned part of `[base, base + size)` to the free lists,
    /// cut into the largest aligned blocks that fit.
    pub fn add_region(&mut self, base: PhysAddr, size: usize)
        requires
            old(self).wf(),
            base@ + size <= PHYS_LIMIT,
            base@ != 0 || size < PAGE_SIZE,
            forall|a: int|
                region_start(base@) <= a < region_end(base@, size) ==> !old(self).is_free(a),
        ensures
            final(self).wf(),
            forall|a: int| #[trigger] final(self).is_free(a) == (old(self).is_free(a) || region_start(base@) <= a < region_end(base@, size)),
            final(self).free_pages() == old(self).free_pages() + region_pages(base@, size),
            forall|k: int| 0 <= k < MAX_ORDER ==> old(self).lists()[k].len() <= #[trigger] final(self).lists()[k].len()
                && final(self).lists()[k].subrange(0, old(self).lists()[k].len() as int) == old(self).lists()[k],
            forall|k: int, i: int| 0 <= k < MAX_ORDER && old(self).lists()[k].len() <= i < final(self).lists()[k].len()
                ==> greedy_block(#[trigger] final(self).lists()[k][i], k as nat, region_start(base@), region_end(base@, size)),
    {
        let ghost l0 = self.lists();
        let start = align_up(base.as_u64(), PAGE_SIZE as u64);
        let end = align_down(base.as_u64() + (size as u64), PAGE_SIZE as u64);
        if start >= end {
            proof {
                assert forall|a: int| #[trigger] self.is_free(a) == (old(self).is_free(a) || region_start(base@) <= a < region_end(base@, size)) by {}
            }
            return;
        }
        let mut addr = start;
        while addr + (PAGE_SIZE as u64) <= end
            invariant
                self.wf(),
                start <= addr <= end,
                start > 0,
                end <= PHYS_LIMIT,
                start % 4096 == 0,
                addr % 4096 == 0,
                end % 4096 == 0,
                start == region_start(base@),
                end == region_end(base@, size),
                forall|a: int| addr <= a < end ==> !old(self).is_free(a),
                forall|a: int| #[trigger] self.is_free(a) == (old(self).is_free(a) || start <= a < addr),
                self.free_pages() * 4096 == old(self).free_pages() * 4096 + (addr - start),
                l0 == old(self).lists(),
                forall|k: int| 0 <= k < MAX_ORDER ==> l0[k].len() <= #[trigger] self.lists()[k].len()
                    && self.lists()[k].subrange(0, l0[k].len() as int) == l0[k],
                forall|k: int, i: int| 0 <= k < MAX_ORDER && l0[k].len() <= i < self.lists()[k].len()
                    ==> greedy_block(#[trigger] self.lists()[k][i], k as nat, start as int, end as int),
            decreases end - addr,
        {
            let remaining = (end - addr) as usize;
            let order = max_order_for(addr, remaining);
            proof {
                lemma_order_fits(order as nat);
            }
            let sz = order_to_size(order);
            proof {
                assert forall|a: int| in_block(a, addr, order as nat) implies !self.is_free(a) by {}
            }
            let ghost pre = self.lists();
            self.push_block(PhysAddr::new(addr), order);
            proof {
                assert(greedy_block(addr, order as nat, start as int, end as int));
                assert forall|k: int| 0 <= k < MAX_ORDER implies l0[k].len() <= #[trigger] self.lists()[k].len()
                    && self.lists()[k].subrange(0, l0[k].len() as int) == l0[k] by {
                    if k == order {
                        assert(self.lists()[k].subrange(0, l0[k].len() as int) =~= pre[k].subrange(0, l0[k].len() as int));
                    }
                }
                assert forall|k: int, i: int| 0 <= k < MAX_ORDER && l0[k].len() <= i < self.lists()[k].len()
                    implies greedy_block(#[trigger] self.lists()[k][i], k as nat, start as int, end as int) by {
                    if k == order && i == pre[k].len() {
                    } else {
                        assert(self.lists()[k][i] == pre[k][i]);
                    }
                }
                lemma_pow2_pos(order as nat);
                vstd::arithmetic::div_mod::lemma_mod_multiples_vanish(pow2(order as nat) as int, addr as int, 4096);
                assert forall|a: int| #[trigger] self.is_free(a) == (old(self).is_free(a) || start <= a < addr + sz) by {}
            }
            addr = addr + sz as u64;
        }
        proof {
            assert(addr == end);
            assert(region_pages(base@, size) * 4096 == end - start);
        }
    }

    /// Takes a block of the requested order, splitting a larger block when
    /// the list of that order is empty.
    pub fn allocate(&mut self, order: usize) -> (res: Option<PhysAddr>)
        requires
            old(self).wf(),
        ensures
            final(self).wf(),
            match res {
                None => {
                    &&& first_nonempty(old(self).lists(), order as nat) == MAX_ORDER
                    &&& final(self).lists() == old(self).lists()
                },
                Some(b) => {
                    &&& order < MAX_ORDER
                    &&& first_nonempty(old(self).lists(), order as nat) < MAX_ORDER
                    &&& b@ == old(self).lists()[first_nonempty(old(self).lists(), order as nat) as int].last()
                    &&& block_ok(b@, order as nat)
                    &&& forall|a: int| in_block(a, b@, order as nat) ==> old(self).is_free(a)
                    &&& forall|a: int| #[trigger] final(self).is_free(a) == (old(self).is_free(a) && !in_block(a, b@, order as nat))
                    &&& final(self).free_pages() + pow2(order as nat) == old(self).free_pages()
                    &&& ({
                        let f = first_nonempty(old(self).lists(), order as nat) as int;
                        &&& final(self).lists()[f] == old(self).lists()[f].drop_last()
                        &&& forall|k: int| order <= k < f ==> #[trigger] final(self).lists()[k]
                            == old(self).lists()[k].push((b@ + block_size(k as nat)) as u64)
                        &&& forall|k: int| (0 <= k < order || f < k < MAX_ORDER) ==> #[trigger] final(self).lists()[k] == old(self).lists()[k]
                    })
                },
            },
    {
        let ghost l0 = self.lists();
        if order >= MAX_ORDER {
            return None;
        }
        let mut found = order;
        while found < MAX_ORDER && self.free_counts[found] == 0
            invariant
                self.wf(),
                self.lists() == l0,
                order <= found <= MAX_ORDER,
                first_nonempty(l0, order as nat) == first_nonempty(l0, found as nat),
            decreases MAX_ORDER - found,
        {
            found = found + 1;
        }
        if found >= MAX_ORDER {
            return None;
        }
        let block = self.pop_block(found);
        let ghost old_self = *old(self);
        let mut current_order = found;
        while current_order > order
            invariant
                self.wf(),
                order <= current_order <= found < MAX_ORDER,
                block_ok(block@, found as nat),
                forall|a: int| in_block(a, block@, found as nat) ==> old_self.is_free(a),
                forall|a: int| in_block(a, block@, current_order as nat) ==> !self.is_free(a),
                forall|a: int| #[trigger] self.is_free(a) == ((old_self.is_free(a) && !in_block(a, block@, found as nat))
                    || (block@ + block_size(current_order as nat) <= a < block@ + block_size(found as nat))),
                self.free_pages() + pow2(current_order as nat) == old_self.free_pages(),
                l0 == old_self.lists(),
                self.lists()[found as int] == l0[found as int].drop_last(),
                forall|k: int| current_order <= k < found ==> #[trigger] self.lists()[k] == l0[k].push((block@ + block_size(k as nat)) as u64),
                forall|k: int| (0 <= k < current_order || found < k < MAX_ORDER) ==> #[trigger] self.lists()[k] == l0[k],
            decreases current_order,
        {
            current_order = current_order - 1;
            proof {
                lemma_order_fits(current_order as nat);
            }
            let sz = order_to_size(current_order);
            proof {
                lemma_pow2_unfold((current_order + 1) as nat);
                lemma_block_split(block@, found as nat, current_order as nat);
            }
            let buddy = PhysAddr::new(block.as_u64() + sz as u64);
            proof {
                assert forall|a: int| in_block(a, buddy@, current_order as nat) implies !self.is_free(a) by {}
            }
            let ghost pre = self.lists();
            self.push_block(buddy, current_order);
            proof {
                assert forall|k: int| current_order <= k < found implies #[trigger] self.lists()[k] == l0[k].push((block@ + block_size(k as nat)) as u64) by {
                    if k > current_order {
                        assert(pre[k] == l0[k].push((block@ + block_size(k as nat)) as u64));
                    } else {
                        assert(pre[k] == l0[k]);
                    }
                }
                assert forall|k: int| (0 <= k < current_order || found < k < MAX_ORDER) implies #[trigger] self.lists()[k] == l0[k] by {
                    assert(pre[k] == l0[k]);
                }
                assert(self.lists()[found as int] == pre[found as int]);
            }
        }
        proof {
            lemma_block_split_align(block@, found as nat, order as nat);
            assert forall|a: int| #[trigger] self.is_free(a) == (old_self.is_free(a) && !in_block(a, block@, order as nat)) by {}
        }
        Some(block)
    }

    /// Returns a block to the allocator, merging it with its free buddy as
    /// long as the buddy is free at the same order.
    pub fn free(&mut self, addr: PhysAddr, order: usize)
        requires
            old(self).wf(),
            block_ok(addr@, order as nat),
            forall|a: int| #[trigger] in_block(a, addr@, order as nat) ==> !old(self).is_free(a),
        ensures
            final(self).wf(),
            forall|a: int| #[trigger] final(self).is_free(a) == (old(self).is_free(a) || in_block(a, addr@, order as nat)),
            final(self).free_pages() == old(self).free_pages() + pow2(order as nat),
            ({
                let (c, co) = merged(old(self).lists(), addr@, order as nat);
                &&& order <= co < MAX_ORDER
                &&& final(self).lists()[co as int] == old(self).lists()[co as int].push(c)
                &&& forall|k: int| (0 <= k < order || co < k < MAX_ORDER) ==> #[trigger] final(self).lists()[k] == old(self).lists()[k]
                &&& co + 1 < MAX_ORDER ==> !old(self).lists()[co as int].contains(buddy_spec(c, co))
            }),
    {
        let ghost old_self = *old(self);
        let ghost l0 = old_self.lists();
        let mut current_addr = addr;
        let mut current_order = order;
        let mut merging = true;
        while merging && current_order < MAX_ORDER - 1
            invariant
                self.wf(),
                block_ok(current_addr@, current_order as nat),
                forall|a: int| #[trigger] in_block(a, current_addr@, current_order as nat) ==> !self.is_free(a),
                same_union(*self, current_addr@, current_order as nat, old_self, addr@, order as nat),
                self.free_pages() + pow2(current_order as nat) == old_self.free_pages() + pow2(order as nat),
                order <= current_order < MAX_ORDER,
                l0 == old_self.lists(),
                merged(l0, current_addr@, current_order as nat) == merged(l0, addr@, order as nat),
                !merging ==> merged(l0, current_addr@, current_order as nat) == (current_addr@, current_order as nat),
                forall|k: int| (0 <= k < order || current_order <= k < MAX_ORDER) ==> #[trigger] self.lists()[k] == l0[k],
            decreases MAX_ORDER - current_order + (if merging { 1int } else { 0int }),
        {
            let buddy = buddy_of(current_addr, current_order);
            let ghost before = *self;
            assert(forall|a: int| (#[trigger] before.is_free(a) || in_block(a, current_addr@, current_order as nat))
                == (old_self.is_free(a) || in_block(a, addr@, order as nat)));
            if self.remove_from_list(buddy, current_order) {
                let joined = if current_addr.as_u64() < buddy.as_u64() {
                    current_addr.as_u64()
                } else {
                    buddy.as_u64()
                };
                proof {
                    lemma_merge(current_addr@, buddy@, current_order as nat);
                    lemma_pow2_unfold((current_order + 1) as nat);
                    assert forall|a: int| in_block(a, joined, (current_order + 1) as nat) implies !self.is_free(a) by {
                        assert(in_block(a, current_addr@, current_order as nat) || in_block(a, buddy@, current_order as nat));
                    }
                    assert forall|a: int| (#[trigger] self.is_free(a) || in_block(a, joined, (current_order + 1) as nat))
                        == (old_self.is_free(a) || in_block(a, addr@, order as nat)) by {
                        assert(in_block(a, joined, (current_order + 1) as nat) <==> (in_block(a, current_addr@, current_order as nat) || in_block(a, buddy@, current_order as nat)));
                        assert((before.is_free(a) || in_block(a, current_addr@, current_order as nat))
                            == (old_self.is_free(a) || in_block(a, addr@, order as nat)));
                    }
                    assert(same_union(*self, joined, (current_order + 1) as nat, old_self, addr@, order as nat));
                }
                proof {
                    assert(before.lists()[current_order as int] == l0[current_order as int]);
                    assert(merged(l0, current_addr@, current_order as nat) == merged(l0, joined, (current_order + 1) as nat));
                    assert forall|k: int| (0 <= k < order || current_order < k < MAX_ORDER) implies #[trigger] self.lists()[k] == l0[k] by {
                        assert(before.lists()[k] == l0[k]);
                    }
                }
                current_addr = PhysAddr::new(joined);
                current_order = current_order + 1;
                proof {
                    assert(current_addr@ == joined);
                    assert(same_union(*self, current_addr@, current_order as nat, old_self, addr@, order as nat));
                }
            } else {
                merging = false;
                proof {
                    assert(before.lists()[current_order as int] == l0[current_order as int]);
                    assert(!l0[current_order as int].contains(buddy_spec(current_addr@, current_order as nat)));
                    assert forall|a: int| (#[trigger] self.is_free(a) || in_block(a, current_addr@, current_order as nat))
                        == (old_self.is_free(a) || in_block(a, addr@, order as nat)) by {
                        assert(self.is_free(a) == before.is_free(a));
                    }
                    assert(same_union(*self, current_addr@, current_order as nat, old_self, addr@, order as nat));
                }
            }
        }
        proof {
            assert(merged(l0, current_addr@, current_order as nat) == (current_addr@, current_order as nat));
            if current_order + 1 < MAX_ORDER && l0[current_order as int].contains(buddy_spec(current_addr@, current_order as nat)) {
                let b = buddy_spec(current_addr@, current_order as nat);
                lemma_merged_order(l0, if current_addr@ < b { current_addr@ } else { b }, (current_order + 1) as nat);
            }
        }
        let ghost mid = self.lists();
        self.push_block(current_addr, current_order);
        proof {
            assert forall|a: int| #[trigger] self.is_free(a) == (old_self.is_free(a) || in_block(a, addr@, order as nat)) by {}
            assert forall|k: int| (0 <= k < order || current_order < k < MAX_ORDER) implies #[trigger] self.lists()[k] == l0[k] by {
                assert(mid[k] == l0[k]);
            }
            assert(mid[current_order as int] == l0[current_order as int]);
        }
    }

    /// Some listed free block shares a byte with the block of `order` at `addr`.
    fn overlaps_free(&self, addr: u64, order: usize) -> (r: bool)
        requires
            self.wf(),
            order < MAX_ORDER,
            addr + block_size(order as nat) <= PHYS_LIMIT,
        ensures
            r == exists|a: int| #[trigger] in_block(a, addr, order as nat) && self.is_free(a),
    {
        proof {
            lemma_order_fits(order as nat);
        }
        let size = order_to_size(order) as u64;
        let mut o: usize = 0;
        while o < MAX_ORDER
            invariant
                self.wf(),
                o <= MAX_ORDER,
                order < MAX_ORDER,
                size == block_size(order as nat),
                addr + size <= PHYS_LIMIT,
                forall|k: nat, i: int| k < o && 0 <= i < self.lists()[k as int].len() ==> #[trigger] blocks_disjoint(self.lists()[k as int][i], k, addr, order as nat),
            decreases MAX_ORDER - o,
        {
            proof {
                lemma_order_fits(o as nat);
            }
            let bsize = order_to_size(o) as u64;
            let n = self.free_lists[o].len();
            let mut i: usize = 0;
            while i < n
                invariant
                    self.wf(),
                    o < MAX_ORDER,
                    i <= n,
                    n == self.lists()[o as int].len(),
                    order < MAX_ORDER,
                    size == block_size(order as nat),
                    bsize == block_size(o as nat),
                    addr + size <= PHYS_LIMIT,
                    forall|k: nat, j: int| k < o && 0 <= j < self.lists()[k as int].len() ==> #[trigger] blocks_disjoint(self.lists()[k as int][j], k, addr, order as nat),
                    forall|j: int| 0 <= j < i ==> #[trigger] blocks_disjoint(self.lists()[o as int][j], o as nat, addr, order as nat),
                decreases n - i,
            {
                let b = self.free_lists[o][i];
                proof {
                    assert(self.lists()[o as int][i as int] == b);
                    assert(block_ok(b, o as nat));
                }
                if b < addr + size && addr < b + bsize {
                    proof {
                        let a = if b < addr { addr as int } else { b as int };
                        lemma_pow2_pos(order as nat);
                        lemma_pow2_pos(o as nat);
                        assert(in_block(a, b, o as nat));
                        assert(in_block(a, addr, order as nat));
                        assert(self.is_free(a));
                    }
                    return true;
                }
                i = i + 1;
            }
            o = o + 1;
        }
        proof {
            assert forall|a: int| #[trigger] in_block(a, addr, order as nat) implies !self.is_free(a) by {
                if self.is_free(a) {
                    let (k, j) = choose|k: nat, j: int| k < self.lists().len() && 0 <= j < self.lists()[k as int].len() && #[trigger] in_block(a, self.lists()[k as int][j], k);
                    assert(blocks_disjoint(self.lists()[k as int][j], k, addr, order as nat));
                }
            }
        }
        false
    }

    /// Gives back a block when it is a valid block of `order` none of whose
    /// bytes is free already; reports whether it did.
    pub fn release(&mut self, addr: PhysAddr, order: usize) -> (freed: bool)
        requires
            old(self).wf(),
        ensures
            final(self).wf(),
            freed == (block_ok(addr@, order as nat) && forall|a: int| #[trigger] in_block(a, addr@, order as nat) ==> !old(self).is_free(a)),
            freed ==> forall|a: int| #[trigger] final(self).is_free(a) == (old(self).is_free(a) || in_block(a, addr@, order as nat)),
            freed ==> final(self).free_pages() == old(self).free_pages() + pow2(order as nat),
            !freed ==> final(self).lists() == old(self).lists(),
    {
        let a = addr.as_u64();
        if order >= MAX_ORDER || a == 0 || a % (PAGE_SIZE as u64) != 0 {
            return false;
        }
        proof {
            lemma_order_fits(order as nat);
        }
        let size = order_to_size(order) as u64;
        if a > PHYS_LIMIT - size {
            return false;
        }
        proof {
            lemma_order_shift(order as nat);
        }
        if ((a / (PAGE_SIZE as u64)) & ((1u64 << (order as u64)) - 1)) != 0 {
            return false;
        }
        if self.overlaps_free(a, order) {
            return false;
        }
        self.free(addr, order);
        true
    }

    /// The orders whose lists are not empty, each with its block count.
    pub fn dump(&self) -> (r: Vec<(usize, usize)>)
        requires
            self.counts_match(),
        ensures
            forall|i: int| 0 <= i < r@.len() ==> {
                &&& (#[trigger] r@[i]).0 < MAX_ORDER
                &&& r@[i].1 == self.counts()[r@[i].0 as int]
                &&& r@[i].1 > 0
            },
            forall|i: int, j: int| 0 <= i < j < r@.len() ==> (#[trigger] r@[i]).0 < (#[trigger] r@[j]).0,
            forall|o: int| 0 <= o < MAX_ORDER && #[trigger] self.counts()[o] > 0 ==> exists|i: int| 0 <= i < r@.len() && (#[trigger] r@[i]).0 == o,
    {
        let mut r: Vec<(usize, usize)> = Vec::new();
        let mut order: usize = 0;
        while order < MAX_ORDER
            invariant
                order <= MAX_ORDER,
                self.counts_match(),
                forall|i: int| 0 <= i < r@.len() ==> {
                    &&& (#[trigger] r@[i]).0 < order
                    &&& r@[i].1 == self.counts()[r@[i].0 as int]
                    &&& r@[i].1 > 0
                },
                forall|i: int, j: int| 0 <= i < j < r@.len() ==> (#[trigger] r@[i]).0 < (#[trigger] r@[j]).0,
                forall|o: int| 0 <= o < order && #[trigger] self.counts()[o] > 0 ==> exists|i: int| 0 <= i < r@.len() && (#[trigger] r@[i]).0 == o,
            decreases MAX_ORDER - order,
        {
            let c = self.free_counts[order];
            if c > 0 {
                let ghost r0 = r@;
                r.push((order, c));
                proof {
                    assert forall|o: int| 0 <= o < order + 1 && #[trigger] self.counts()[o] > 0 implies exists|i: int| 0 <= i < r@.len() && (#[trigger] r@[i]).0 == o by {
                        if o < order {
                            let i = choose|i: int| 0 <= i < r0.len() && (#[trigger] r0[i]).0 == o;
                            assert(r@[i] == r0[i]);
                        } else {
                            assert(r@[r0.len() as int].0 == o);
                        }
                    }
                }
            }
            order = order + 1;
        }
        r
    }
}

/// The free bytes of `s` together with the block `(cur, co)` are those of
/// `s0` together with the block `(addr, order)`.
/// A block that `allocate` hands out may be given to `free`, and freeing it
/// restores the free bytes and the free-page count from before.
pub proof fn law_free_undoes_allocate(s0: BuddyAllocator, s1: BuddyAllocator, s2: BuddyAllocator, b: u64, order: nat)
    requires
        block_ok(b, order),
        forall|a: int| in_block(a, b, order) ==> s0.is_free(a),
        forall|a: int| #[trigger] s1.is_free(a) == (s0.is_free(a) && !in_block(a, b, order)),
        s1.free_pages() + pow2(order) == s0.free_pages(),
        forall|a: int| #[trigger] s2.is_free(a) == (s1.is_free(a) || in_block(a, b, order)),
        s2.free_pages() == s1.free_pages() + pow2(order),
    ensures
        forall|a: int| #[trigger] in_block(a, b, order) ==> !s1.is_free(a),
        forall|a: int| #[trigger] s2.is_free(a) == s0.is_free(a),
        s2.free_pages() == s0.free_pages(),
{
    assert forall|a: int| #[trigger] s2.is_free(a) == s0.is_free(a) by {
        if in_block(a, b, order) {
            assert(s0.is_free(a));
        }
    }
}

pub open spec fn same_union(s: BuddyAllocator, cur: u64, co: nat, s0: BuddyAllocator, addr: u64, order: nat) -> bool {
    forall|a: int| (#[trigger] s.is_free(a) || in_block(a, cur, co)) == (s0.is_free(a) || in_block(a, addr, order))
}

/// A block of `order` at `b` that `add_region` of `[s, e)` may cut: it
/// lies in `[s, e)` and no larger aligned block starting at `b` fits.
pub open spec fn greedy_block(b: u64, order: nat, s: int, e: int) -> bool {
    &&& s <= b
    &&& b + block_size(order) <= e
    &&& forall|o: nat| order < o < MAX_ORDER ==> !(block_size(o) <= e - b && pfn_aligned(b / 4096, o))
}

pub open spec fn region_start(base: u64) -> int {
    align_up_spec(base as int, PAGE_SIZE as int)
}

pub open spec fn region_end(base: u64, size: usize) -> int {
    align_down_spec(base + size, PAGE_SIZE as int)
}

/// Pages that `add_region(base, size)` hands to the allocator.
pub open spec fn region_pages(base: u64, size: usize) -> nat {
    if region_start(base) < region_end(base, size) {
        ((region_end(base, size) - region_start(base)) / PAGE_SIZE as int) as nat
    } else {
        0
    }
}

/// Sizes of the allocator's orders fit in a `usize`.
proof fn lemma_order_fits(order: nat)
    requires
        order < MAX_ORDER,
    ensures
        order < usize::BITS,
        4096 * pow2(order) <= usize::MAX,
{
    lemma_order_shift(order);
}

pub fn order_to_size(order: usize) -> (r: usize)
    requires
        order < usize::BITS,
        4096 * pow2(order as nat) <= usize::MAX,
    ensures
        r == block_size(order as nat),
        order < MAX_ORDER ==> r <= 0x40_0000,
{
    proof {
        if order < MAX_ORDER {
            lemma_order_shift(order as nat);
        }
        lemma_usize_shl_is_mul(PAGE_SIZE, order);
    }
    PAGE_SIZE << order
}

/// The buddy of a block: the other half of the block of the next order.
fn buddy_of(addr: PhysAddr, order: usize) -> (r: PhysAddr)
    requires
        block_ok(addr@, order as nat),
        order + 1 < MAX_ORDER,
    ensures
        r@ == buddy_spec(addr@, order as nat),
{
    let p = addr.as_u64() / (PAGE_SIZE as u64);
    let bit = 1u64 << (order as u64);
    proof {
        lemma_order_shift(order as nat);
        assert(p < 0x100_0000_0000) by (nonlinear_arith)
            requires
                addr@ < 0x10_0000_0000_0000,
                p == addr@ / 4096,
        ;
        let oo = order as u64;
        assert((p ^ (1u64 << oo)) < 0x100_0000_0000) by (bit_vector)
            requires
                p < 0x100_0000_0000,
                oo < 11,
        ;
    }
    PhysAddr::new((p ^ bit) * (PAGE_SIZE as u64))
}

pub open spec fn buddy_spec(addr: u64, order: nat) -> u64 {
    (((addr / 4096) ^ (1u64 << (order as u64))) * 4096) as u64
}

proof fn lemma_merged_order(l: Seq<Seq<u64>>, addr: u64, order: nat)
    requires
        order < MAX_ORDER,
    ensures
        order <= merged(l, addr, order).1 < MAX_ORDER,
    decreases MAX_ORDER - order,
{
    if order + 1 < MAX_ORDER && l[order as int].contains(buddy_spec(addr, order)) {
        let b = buddy_spec(addr, order);
        lemma_merged_order(l, if addr < b { addr } else { b }, order + 1);
    }
}

/// The block that freeing the block of `order` at `addr` ends in, with
/// its order: while the buddy is listed at the current order (and a
/// larger order exists), the two merge into the block of the next order.
pub open spec fn merged(l: Seq<Seq<u64>>, addr: u64, order: nat) -> (u64, nat)
    decreases MAX_ORDER - order,
{
    if order + 1 < MAX_ORDER && l[order as int].contains(buddy_spec(addr, order)) {
        let b = buddy_spec(addr, order);
        merged(l, if addr < b { addr } else { b }, order + 1)
    } else {
        (addr, order)
    }
}

/// Largest order whose block fits in `remaining` bytes and is aligned at
/// `addr`; order 0 when none is.
fn max_order_for(addr: u64, remaining: usize) -> (r: usize)
    requires
        addr % 4096 == 0,
    ensures
        r < MAX_ORDER,
        remaining >= PAGE_SIZE ==> block_size(r as nat) <= remaining,
        r > 0 ==> block_size(r as nat) <= remaining,
        remaining >= PAGE_SIZE ==> pfn_aligned(addr / 4096, r as nat),
        r > 0 ==> pfn_aligned(addr / 4096, r as nat),
        forall|o: nat| r < o < MAX_ORDER ==> !(block_size(o) <= remaining && pfn_aligned(addr / 4096, o)),
{
    let mut o: usize = MAX_ORDER;
    while o > 0
        invariant
            o <= MAX_ORDER,
            forall|k: nat| o <= k < MAX_ORDER ==> !(block_size(k) <= remaining && pfn_aligned(addr / 4096, k)),
        decreases o,
    {
        let k = o - 1;
        proof {
            lemma_order_fits(k as nat);
        }
        let sz = order_to_size(k);
        proof {
            lemma_order_shift(k as nat);
        }
        if sz <= remaining && ((addr / (PAGE_SIZE as u64)) & ((1u64 << (k as u64)) - 1)) == 0 {
            return k;
        }
        o = k;
    }
    proof {
        lemma_pow2_0();
        assert(pfn_aligned(addr / 4096, 0)) by {
            let p = addr / 4096;
            assert(p & ((1u64 << 0u64) - 1) as u64 == 0) by (bit_vector);
        }
    }
    0
}

pub(crate) fn align_up(addr: u64, align: u64) -> (r: u64)
    requires
        align == 4096,
        addr + align <= u64::MAX,
    ensures
        r == align_up_spec(addr as int, align as int),
{
    proof {
        lemma_align_4096(addr);
    }
    (addr + align - 1) & !(align - 1)
}

pub(crate) fn align_down(addr: u64, align: u64) -> (r: u64)
    requires
        align == 4096,
    ensures
        r == align_down_spec(addr as int, align as int),
{
    proof {
        lemma_align_4096(addr);
    }
    addr & !(align - 1)
}

// ----------------------------------------------------------------------
// Lemmas
// ----------------------------------------------------------------------

proof fn lemma_pow2_0()
    ensures
        pow2(0) == 1,
{
    lemma2_to64();
}

proof fn lemma_align_4096(addr: u64)
    ensures
        addr & !4095u64 == align_down_spec(addr as int, 4096),
        addr + 4096 <= u64::MAX ==> (addr + 4096 - 1) as u64 & !4095u64 == align_up_spec(addr as int, 4096),
{
    assert(addr & !4095u64 == addr - addr % 4096) by (bit_vector);
    if addr + 4096 <= u64::MAX {
        assert((addr + 4095) as u64 & !4095u64 == (if addr % 4096 == 0 { addr } else { (addr - addr % 4096 + 4096) as u64 })) by (bit_vector)
            requires addr + 4096 <= u64::MAX;
    }
}

proof fn lemma_order_shift(order: nat)
    requires
        order < MAX_ORDER,
    ensures
        (PAGE_SIZE << (order as usize)) == block_size(order),
        (1u64 << (order as u64)) == pow2(order),
        1 <= pow2(order) <= 1024,
        block_size(order) <= 0x40_0000,
        order_mask(order) == (pow2(order) - 1) as u64,
{
    lemma2_to64();
    if order < 10 {
        lemma_pow2_strictly_increases(order, 10);
    }
    lemma_pow2_pos(order);
    lemma_u64_shl_is_mul(1, order as u64);
    lemma_usize_shl_is_mul(PAGE_SIZE, order as usize);
}

/// Splitting a block of order `f` at order `c < f`: the upper half of the
/// order-`c+1` prefix is a valid, aligned block of order `c`.
proof fn lemma_block_split(b: u64, f: nat, c: nat)
    requires
        block_ok(b, f),
        c < f,
    ensures
        block_ok((b + block_size(c)) as u64, c),
        block_size(c + 1) == 2 * block_size(c),
        block_size(c + 1) <= block_size(f),
        b + block_size(c) < PHYS_LIMIT,
{
    lemma_order_shift(c);
    lemma_order_shift(f);
    lemma_pow2_unfold(c + 1);
    if c + 1 < f {
        lemma_pow2_strictly_increases(c + 1, f);
    }
    lemma_pow2_pos(c);
    let p = b / 4096;
    let cc = c as u64;
    let ff = f as u64;
    assert((p + (1u64 << cc)) as u64 & (((1u64 << cc) - 1) as u64) == 0) by (bit_vector)
        requires
            p & (((1u64 << ff) - 1) as u64) == 0,
            cc < ff,
            ff < 11,
            p < 0x10_0000_0000_0000,
    ;
    assert((b + block_size(c)) / 4096 == p + pow2(c));
}

proof fn lemma_block_split_align(b: u64, f: nat, o: nat)
    requires
        block_ok(b, f),
        o <= f,
    ensures
        block_ok(b, o),
        block_size(o) <= block_size(f),
{
    lemma_order_shift(o);
    lemma_order_shift(f);
    if o < f {
        lemma_pow2_strictly_increases(o, f);
    }
    let p = b / 4096;
    let oo = o as u64;
    let ff = f as u64;
    assert(p & (((1u64 << oo) - 1) as u64) == 0) by (bit_vector)
        requires
            p & (((1u64 << ff) - 1) as u64) == 0,
            oo <= ff,
            ff < 11,
    ;
}

/// Merging a block with its buddy gives an aligned block of the next order
/// made of exactly the two halves.
proof fn lemma_merge(a: u64, buddy: u64, o: nat)
    requires
        block_ok(a, o),
        block_ok(buddy, o),
        buddy == buddy_spec(a, o),
        o + 1 < MAX_ORDER,
    ensures
        ({
            let m = if a < buddy { a } else { buddy };
            &&& block_ok(m, o + 1)
            &&& forall|x: int| in_block(x, m, o + 1) <==> (in_block(x, a, o) || in_block(x, buddy, o))
        }),
{
    lemma_order_shift(o);
    lemma_order_shift(o + 1);
    lemma_pow2_unfold(o + 1);
    lemma_pow2_pos(o);
    let p = a / 4096;
    let oo = o as u64;
    let bit = 1u64 << oo;
    assert(a < 0x10_0000_0000_0000);
    assert(p < 0x100_0000_0000) by (nonlinear_arith)
        requires
            a < 0x10_0000_0000_0000,
            p == a / 4096,
    ;
    assert(p & ((bit - 1) as u64) == 0);
    assert((p & bit) == 0 ==> (p ^ bit) == (p + bit) as u64 && (p & (((1u64 << (oo + 1) as u64) - 1) as u64)) == 0) by (bit_vector)
        requires
            p & ((bit - 1) as u64) == 0,
            bit == 1u64 << oo,
            oo < 10,
            p < 0x100_0000_0000,
    ;
    assert((p & bit) != 0 ==> (p ^ bit) == (p - bit) as u64 && p >= bit && (((p - bit) as u64) & (((1u64 << (oo + 1) as u64) - 1) as u64)) == 0) by (bit_vector)
        requires
            p & ((bit - 1) as u64) == 0,
            bit == 1u64 << oo,
            oo < 10,
            p < 0x100_0000_0000,
    ;
    let q = p ^ bit;
    assert(buddy == q * 4096);
    if (p & bit) == 0 {
        assert(buddy / 4096 == q);
    } else {
        assert(buddy / 4096 == q);
    }
}

proof fn lemma_push_wf(l: Seq<Seq<u64>>, o: nat, x: u64)
    requires
        lists_wf(l),
        block_ok(x, o),
        forall|a: int| in_block(a, x, o) ==> !covered(l, a),
    ensures
        lists_wf(l.update(o as int, l[o as int].push(x))),
{
    let l1 = l.update(o as int, l[o as int].push(x));
    let n = l[o as int].len() as int;
    assert forall|o1: nat, i1: int| o1 < MAX_ORDER && 0 <= i1 < l1[o1 as int].len() implies #[trigger] block_ok(l1[o1 as int][i1], o1) by {
        if o1 == o && i1 == n {
        } else {
            assert(l1[o1 as int][i1] == l[o1 as int][i1]);
        }
    }
    assert forall|o1: nat, i1: int, o2: nat, i2: int|
        o1 < MAX_ORDER && 0 <= i1 < l1[o1 as int].len() && o2 < MAX_ORDER && 0 <= i2 < l1[o2 as int].len() && (o1 != o2 || i1 != i2)
        implies #[trigger] blocks_disjoint(l1[o1 as int][i1], o1, l1[o2 as int][i2], o2) by {
        let new1 = o1 == o && i1 == n;
        let new2 = o2 == o && i2 == n;
        lemma_pow2_pos(o1);
        lemma_pow2_pos(o2);
        if new1 {
            let y = l[o2 as int][i2];
            assert(l1[o2 as int][i2] == y);
            if !blocks_disjoint(x, o, y, o2) {
                let a = if x <= y { y as int } else { x as int };
                assert(in_block(a, y, o2));
                assert(covered(l, a));
            }
        } else if new2 {
            let y = l[o1 as int][i1];
            assert(l1[o1 as int][i1] == y);
            if !blocks_disjoint(y, o1, x, o) {
                let a = if x <= y { y as int } else { x as int };
                assert(in_block(a, y, o1));
                assert(covered(l, a));
            }
        } else {
            assert(l1[o1 as int][i1] == l[o1 as int][i1]);
            assert(l1[o2 as int][i2] == l[o2 as int][i2]);
        }
    }
}

proof fn lemma_remove_wf(l: Seq<Seq<u64>>, o: nat, j: int)
    requires
        lists_wf(l),
        o < MAX_ORDER,
        0 <= j < l[o as int].len(),
    ensures
        lists_wf(l.update(o as int, l[o as int].remove(j))),
{
    let l1 = l.update(o as int, l[o as int].remove(j));
    assert forall|o1: nat, i1: int| o1 < MAX_ORDER && 0 <= i1 < l1[o1 as int].len() implies #[trigger] block_ok(l1[o1 as int][i1], o1) by {
        if o1 == o {
            if i1 < j {
                assert(l1[o1 as int][i1] == l[o1 as int][i1]);
            } else {
                assert(l1[o1 as int][i1] == l[o1 as int][i1 + 1]);
            }
        } else {
            assert(l1[o1 as int][i1] == l[o1 as int][i1]);
        }
    }
    assert forall|o1: nat, i1: int, o2: nat, i2: int|
        o1 < MAX_ORDER && 0 <= i1 < l1[o1 as int].len() && o2 < MAX_ORDER && 0 <= i2 < l1[o2 as int].len() && (o1 != o2 || i1 != i2)
        implies #[trigger] blocks_disjoint(l1[o1 as int][i1], o1, l1[o2 as int][i2], o2) by {
        let k1 = if o1 == o && i1 >= j { i1 + 1 } else { i1 };
        let k2 = if o2 == o && i2 >= j { i2 + 1 } else { i2 };
        assert(l1[o1 as int][i1] == l[o1 as int][k1]);
        assert(l1[o2 as int][i2] == l[o2 as int][k2]);
        assert(blocks_disjoint(l[o1 as int][k1], o1, l[o2 as int][k2], o2));
    }
}

proof fn lemma_covered_push(l: Seq<Seq<u64>>, o: nat, x: u64, a: int)
    requires
        l.len() == MAX_ORDER,
        o < MAX_ORDER,
    ensures
        covered(l.update(o as int, l[o as int].push(x)), a) == (covered(l, a) || in_block(a, x, o)),
{
    let l1 = l.update(o as int, l[o as int].push(x));
    let n = l[o as int].len() as int;
    if covered(l1, a) {
        let (o1, i1) = choose|o1: nat, i1: int| o1 < l1.len() && 0 <= i1 < l1[o1 as int].len() && #[trigger] in_block(a, l1[o1 as int][i1], o1);
        if o1 == o && i1 == n {
        } else {
            assert(l1[o1 as int][i1] == l[o1 as int][i1]);
            assert(in_block(a, l[o1 as int][i1], o1));
        }
    }
    if covered(l, a) {
        let (o1, i1) = choose|o1: nat, i1: int| o1 < l.len() && 0 <= i1 < l[o1 as int].len() && #[trigger] in_block(a, l[o1 as int][i1], o1);
        assert(l1[o1 as int][i1] == l[o1 as int][i1]);
        assert(in_block(a, l1[o1 as int][i1], o1));
    }
    if in_block(a, x, o) {
        assert(l1[o as int][n] == x);
        assert(in_block(a, l1[o as int][n], o));
    }
}

proof fn lemma_covered_remove(l: Seq<Seq<u64>>, o: nat, j: int, a: int)
    requires
        lists_wf(l),
        o < MAX_ORDER,
        0 <= j < l[o as int].len(),
    ensures
        covered(l.update(o as int, l[o as int].remove(j)), a) == (covered(l, a) && !in_block(a, l[o as int][j], o)),
{
    let l1 = l.update(o as int, l[o as int].remove(j));
    let x = l[o as int][j];
    if covered(l1, a) {
        let (o1, i1) = choose|o1: nat, i1: int| o1 < l1.len() && 0 <= i1 < l1[o1 as int].len() && #[trigger] in_block(a, l1[o1 as int][i1], o1);
        let k1 = if o1 == o && i1 >= j { i1 + 1 } else { i1 };
        assert(l1[o1 as int][i1] == l[o1 as int][k1]);
        assert(in_block(a, l[o1 as int][k1], o1));
        assert(blocks_disjoint(l[o1 as int][k1], o1, l[o as int][j], o));
    }
    if covered(l, a) && !in_block(a, x, o) {
        let (o1, i1) = choose|o1: nat, i1: int| o1 < l.len() && 0 <= i1 < l[o1 as int].len() && #[trigger] in_block(a, l[o1 as int][i1], o1);
        assert(o1 != o || i1 != j);
        let k1 = if o1 == o && i1 > j { i1 - 1 } else { i1 };
        assert(l1[o1 as int][k1] == l[o1 as int][i1]);
        assert(in_block(a, l1[o1 as int][k1], o1));
    }
}

proof fn lemma_pages_below_update(l: Seq<Seq<u64>>, o: nat, s: Seq<u64>, n: nat)
    requires
        o < l.len(),
        n <= l.len(),
    ensures
        pages_below(l.update(o as int, s), n) + (if o < n { l[o as int].len() * pow2(o) } else { 0 })
            == pages_below(l, n) + (if o < n { s.len() * pow2(o) } else { 0 }),
    decreases n,
{
    if n > 0 {
        lemma_pages_below_update(l, o, s, (n - 1) as nat);
    }
}

/// Free blocks hold whole pages: a byte of a page being free makes the
/// whole page free.
pub proof fn lemma_page_all_free(s: BuddyAllocator, p: int, a: int)
    requires
        s.wf(),
        p % 4096 == 0,
        p <= a < p + 4096,
        s.is_free(a),
    ensures
        forall|x: int| p <= x < p + 4096 ==> #[trigger] s.is_free(x),
{
    let l = s.lists();
    let (o, i) = choose|o: nat, i: int| o < l.len() && 0 <= i < l[o as int].len() && #[trigger] in_block(a, l[o as int][i], o);
    let b = l[o as int][i];
    assert(block_ok(b, o));
    let k = pow2(o) as int;
    lemma_pow2_pos(o);
    let sz = block_size(o);
    assert(sz == 4096 * k);
    assert(b as int <= p) by (nonlinear_arith)
        requires
            b as int % 4096 == 0,
            p % 4096 == 0,
            b <= a,
            a < p + 4096;
    assert(p + 4096 <= b + sz) by (nonlinear_arith)
        requires
            b as int % 4096 == 0,
            p % 4096 == 0,
            sz == 4096 * k,
            k > 0,
            p <= a,
            a < b + sz;
    assert forall|x: int| p <= x < p + 4096 implies #[trigger] s.is_free(x) by {
        assert(in_block(x, l[o as int][i], o));
    }
}

pub proof fn lemma_pages_below_empty(l: Seq<Seq<u64>>, n: nat)
    requires
        n <= l.len(),
        forall|k: int| 0 <= k < n ==> #[trigger] l[k].len() == 0,
    ensures
        pages_below(l, n) == 0,
    decreases n,
{
    if n > 0 {
        lemma_pages_below_empty(l, (n - 1) as nat);
    }
}

} // verus!
