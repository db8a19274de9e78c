//! The kernel heap: caches of small objects carved from single pages, and
//! whole blocks of the page allocator for larger requests.
//!
//! Addresses are kernel virtual addresses; 0 stands for "no memory".

use vstd::prelude::*;
use vstd::arithmetic::power2::{pow2, lemma_pow2_unfold, lemma2_to64, lemma_pow2_strictly_increases};
use crate::allocator::{BuddyAllocator, PhysAddr, MAX_ORDER, block_ok, in_block, first_nonempty};
use crate::paging::{phys_to_virt, virt_to_phys, KERNEL_VIRT_BASE};

verus! {

/// Object sizes of the caches, smallest first.
pub open spec fn slab_size(i: int) -> int {
    8 * (pow2(i as nat) as int)
}

/// The cache that serves `size` bytes: the first whose objects are large
/// enough, when any is.
pub open spec fn slab_for(size: int) -> Option<int> {
    if size > 4096 {
        None
    } else {
        Some(choose|i: int| 0 <= i < 10 && #[trigger] slab_size(i) >= size && (i == 0 || slab_size(i - 1) < size))
    }
}

/// The least order whose block holds `pages` pages.
pub open spec fn order_for(pages: int) -> nat {
    choose|o: nat| #[trigger] pow2(o) >= pages && (o == 0 || pow2((o - 1) as nat) < pages)
}

/// Smallest `order` with `2^order >= pages`.
pub fn pages_to_order(pages: usize) -> (r: usize)
    requires
        pages <= usize::MAX / 2 + 1,
    ensures
        pow2(r as nat) >= pages,
        r == 0 || pow2((r - 1) as nat) < pages,
        r == order_for(pages as int),
{
    let mut order: usize = 0;
    let mut n: usize = 1;
    proof {
        lemma2_to64();
    }
    while n < pages
        invariant
            n == pow2(order as nat),
            order <= 63,
            order == 0 || pow2((order - 1) as nat) < pages,
            pages <= usize::MAX / 2 + 1,
        decreases 64 - order,
    {
        proof {
            lemma2_to64();
            lemma_pow2_unfold((order + 1) as nat);
            assert(n < usize::MAX / 2 + 1);
            assert(order < 63);
        }
        n = n * 2;
        order = order + 1;
    }
    proof {
        let o = order_for(pages as int);
        assert(pow2(order as nat) >= pages && (order == 0 || pow2((order - 1) as nat) < pages));
        if o < order {
            lemma_pow2_strictly_increases(o, (order - 1) as nat);
            if o < order - 1 {
            }
            assert(pow2(o) <= pow2((order - 1) as nat)) by {
                if o < order - 1 {
                    lemma_pow2_strictly_increases(o, (order - 1) as nat);
                }
            }
        } else if o > order {
            assert(pow2(order as nat) <= pow2((o - 1) as nat)) by {
                if order < o - 1 {
                    lemma_pow2_strictly_increases(order as nat, (o - 1) as nat);
                }
            }
        }
    }
    order
}

/// Index of the cache for `size` bytes.
pub fn size_to_slab(size: usize) -> (r: Option<usize>)
    ensures
        match r {
            Some(i) => i < 10 && slab_size(i as int) >= size && (i == 0 || slab_size(i - 1) < size),
            None => size > 4096,
        },
        r matches Some(i) ==> slab_for(size as int) == Some(i as int),
        r is None <==> slab_for(size as int) is None,
{
    proof {
        lemma2_to64();
    }
    let mut i: usize = 0;
    let mut s: usize = 8;
    while i < 10
        invariant
            i <= 10,
            s == slab_size(i as int),
            i == 0 || slab_size(i - 1) < size,
        decreases 10 - i,
    {
        proof {
            lemma2_to64();
            lemma_pow2_unfold((i + 1) as nat);
        }
        if s >= size {
            proof {
                let k = choose|k: int| 0 <= k < 10 && #[trigger] slab_size(k) >= size && (k == 0 || slab_size(k - 1) < size);
                assert(size <= 4096) by {
                    if i < 9 {
                        lemma_pow2_strictly_increases(i as nat, 9);
                    }
                }
                assert(k == i) by {
                    if k < i {
                        assert(slab_size(k) <= slab_size(i - 1)) by {
                            if k < i - 1 {
                                lemma_pow2_strictly_increases(k as nat, (i - 1) as nat);
                            }
                        }
                    }
                    if k > i {
                        assert(slab_size(i as int) <= slab_size(k - 1)) by {
                            if i < k - 1 {
                                lemma_pow2_strictly_increases(i as nat, (k - 1) as nat);
                            }
                        }
                    }
                }
            }
            return Some(i);
        }
        s = s * 2;
        i = i + 1;
    }
    None
}

/// Every free byte of the page allocator lies below 2^47, inside the
/// kernel's direct map of physical memory.
pub open spec fn direct_mapped(a: BuddyAllocator) -> bool {
    forall|x: int| #[trigger] a.is_free(x) ==> x < 0x8000_0000_0000
}

/// A cache of objects of one size. Its free objects are kept as a stack:
/// the last one freed is handed out first.
pub struct SlabCache {
    pub object_size: usize,
    pub free_list: Vec<u64>,
}

/// The free objects that `grow` adds for a new page at `base`: every
/// object of the page but the first, in address order.
pub open spec fn carved(base: int, size: int) -> Seq<u64> {
    Seq::new((4096int / size - 1) as nat, |k: int| (base + (k + 1) * size) as u64)
}

impl SlabCache {
    pub fn new(object_size: usize) -> (r: Self)
        ensures
            r.object_size == object_size,
            r.free_list@ == Seq::<u64>::empty(),
    {
        Self { object_size, free_list: Vec::new() }
    }

    /// An object: the last one freed, or the first object of a new page
    /// whose other objects become free; 0 when no page is left.
    pub fn allocate(&mut self, pages: &mut BuddyAllocator) -> (r: u64)
        requires
            old(self).object_size >= 8,
            old(self).object_size <= 4096,
            old(pages).wf(),
            direct_mapped(*old(pages)),
        ensures
            final(pages).wf(),
            direct_mapped(*final(pages)),
            final(self).object_size == old(self).object_size,
            old(self).free_list@.len() > 0 ==> {
                &&& r == old(self).free_list@.last()
                &&& final(self).free_list@ == old(self).free_list@.drop_last()
                &&& *final(pages) == *old(pages)
            },
            old(self).free_list@.len() == 0 ==> grown(*old(self), *final(self), *old(pages), *final(pages), r),
    {
        if self.free_list.len() > 0 {
            return self.free_list.pop().unwrap();
        }
        self.grow(pages)
    }

    /// Takes a page for the cache: its first object is returned, the
    /// others become free.
    fn grow(&mut self, pages: &mut BuddyAllocator) -> (r: u64)
        requires
            old(self).object_size >= 8,
            old(self).object_size <= 4096,
            old(pages).wf(),
            direct_mapped(*old(pages)),
        ensures
            final(pages).wf(),
            direct_mapped(*final(pages)),
            final(self).object_size == old(self).object_size,
            grown(*old(self), *final(self), *old(pages), *final(pages), r),
    {
        let ghost a0 = *pages;
        let phys = match pages.allocate(0) {
            Some(p) => p,
            None => {
                proof {
                    assert forall|x: int| #[trigger] pages.is_free(x) implies x < 0x8000_0000_0000 by {
                        assert(a0.is_free(x));
                    }
                }
                return 0;
            },
        };
        proof {
            lemma2_to64();
            assert(in_block(phys@ as int, phys@, 0));
            assert(a0.is_free(phys@ as int));
            assert(in_block(phys@ + 4095, phys@, 0));
            assert(a0.is_free(phys@ + 4095));
            assert(phys@ + 4096 <= 0x8000_0000_0000);
            assert forall|x: int| #[trigger] pages.is_free(x) implies x < 0x8000_0000_0000 by {
                assert(a0.is_free(x));
            }
        }
        let base = phys_to_virt(phys.as_u64());
        let size = self.object_size;
        proof {
            let z: int = size as int;
            assert(z / z - 1 <= 4096int / z - 1) by (nonlinear_arith)
                requires 8 <= z <= 4096;
            assert(z % z == 0) by (nonlinear_arith)
                requires 8 <= z;
        }
        let ghost f0 = self.free_list@;
        let mut offset = size;
        while offset + size <= 4096
            invariant
                size == self.object_size,
                8 <= size <= 4096,
                offset % size == 0,
                size <= offset <= 4096 + size,
                base == KERNEL_VIRT_BASE + phys@,
                phys@ + 4096 <= 0x8000_0000_0000,
                self.free_list@ == f0 + carved(base as int, size as int).subrange(0, offset as int / size as int - 1),
                offset as int / size as int - 1 <= 4096int / size as int - 1,
            decreases 4096 + size - offset,
        {
            let ghost o: int = offset as int;
            let ghost z: int = size as int;
            proof {
                assert((o + z) / z == o / z + 1) by (nonlinear_arith)
                    requires z > 0, o % z == 0;
                assert(o / z < 4096int / z) by (nonlinear_arith)
                    requires z > 0, o + z <= 4096, o % z == 0;
                assert((o / z - 1 + 1) * z == o) by (nonlinear_arith)
                    requires z > 0, o % z == 0;
                assert(o / z >= 1) by (nonlinear_arith)
                    requires z > 0, o >= z;
                assert((o + z) % z == 0) by (nonlinear_arith)
                    requires z > 0, o % z == 0;
            }
            self.free_list.push(base + offset as u64);
            proof {
                let c = carved(base as int, z);
                let k = o / z - 1;
                assert(c[k] == (base + (k + 1) * z) as u64);
                assert(c.subrange(0, k + 1) =~= c.subrange(0, k).push(c[k]));
            }
            offset = offset + size;
        }
        proof {
            let o: int = offset as int;
            let z: int = size as int;
            assert(o / z - 1 == 4096int / z - 1) by (nonlinear_arith)
                requires z > 0, o % z == 0, o + z > 4096, o / z - 1 <= 4096int / z - 1, z <= o;
            assert(carved(base as int, z).subrange(0, 4096int / z - 1) =~= carved(base as int, z));
        }
        base
    }

    /// Puts the object at `ptr` back on top of the free stack.
    pub fn free(&mut self, ptr: u64)
        ensures
            final(self).object_size == old(self).object_size,
            final(self).free_list@ == old(self).free_list@.push(ptr),
    {
        self.free_list.push(ptr);
    }
}

/// What `grow` does: with a page `p` taken from the pages, its first
/// object is returned and the others pushed; with none left, 0 is returned
/// and nothing changes.
pub open spec fn grown(c1: SlabCache, c2: SlabCache, a1: BuddyAllocator, a2: BuddyAllocator, r: u64) -> bool {
    if first_nonempty(a1.lists(), 0) < MAX_ORDER {
        let p = a1.lists()[first_nonempty(a1.lists(), 0) as int].last();
        &&& r == KERNEL_VIRT_BASE + p
        &&& c2.free_list@ == c1.free_list@ + carved(r as int, c1.object_size as int)
        &&& forall|a: int| #[trigger] a2.is_free(a) == (a1.is_free(a) && !in_block(a, p, 0))
    } else {
        &&& r == 0
        &&& c2.free_list@ == c1.free_list@
        &&& a2.lists() == a1.lists()
    }
}

/// The size a request of `size` bytes aligned to `align` is served with.
pub open spec fn request_size(size: usize, align: usize) -> int {
    let a = if size >= align { size } else { align };
    if a >= 8 { a as int } else { 8 }
}

/// Pages of a request too large for the caches.
pub open spec fn request_pages(s: int) -> int {
    s / 4096 + if s % 4096 != 0 { 1int } else { 0int }
}

pub struct KernelHeap {
    slabs: [SlabCache; 10],
}

impl KernelHeap {
    /// Cache `i` holds objects of `slab_size(i)` bytes.
    pub closed spec fn wf(&self) -> bool {
        forall|i: int| 0 <= i < 10 ==> (#[trigger] self.slabs@[i]).object_size == slab_size(i)
    }

    /// Cache `i`.
    pub closed spec fn slab(&self, i: int) -> SlabCache {
        self.slabs@[i]
    }

    /// The free objects of cache `i`, the last freed last.
    pub closed spec fn free_objects(&self, i: int) -> Seq<u64> {
        self.slabs@[i].free_list@
    }

    pub fn new() -> (r: Self)
        ensures
            r.wf(),
            forall|i: int| 0 <= i < 10 ==> #[trigger] r.free_objects(i) == Seq::<u64>::empty(),
    {
        let r = Self {
            slabs: [
                SlabCache::new(8),
                SlabCache::new(16),
                SlabCache::new(32),
                SlabCache::new(64),
                SlabCache::new(128),
                SlabCache::new(256),
                SlabCache::new(512),
                SlabCache::new(1024),
                SlabCache::new(2048),
                SlabCache::new(4096),
            ],
        };
        proof {
            lemma2_to64();
        }
        r
    }

    /// Memory for `size` bytes aligned to `align`: an object of the
    /// smallest cache that fits, or a block of the page allocator of
    /// enough pages; 0 when none is left.
    pub fn allocate(&mut self, size: usize, align: usize, pages: &mut BuddyAllocator) -> (r: u64)
        requires
            old(self).wf(),
            old(pages).wf(),
            direct_mapped(*old(pages)),
        ensures
            final(self).wf(),
            final(pages).wf(),
            direct_mapped(*final(pages)),
            match slab_for(request_size(size, align)) {
                Some(i) => {
                    &&& forall|j: int| 0 <= j < 10 && j != i ==> #[trigger] final(self).free_objects(j) == old(self).free_objects(j)
                    &&& old(self).free_objects(i).len() > 0 ==> {
                        &&& r == old(self).free_objects(i).last()
                        &&& final(self).free_objects(i) == old(self).free_objects(i).drop_last()
                        &&& *final(pages) == *old(pages)
                    }
                    &&& old(self).free_objects(i).len() == 0 ==> grown(old(self).slab(i), final(self).slab(i), *old(pages), *final(pages), r)
                },
                None => {
                    let order = order_for(request_pages(request_size(size, align)));
                    let lists = old(pages).lists();
                    &&& forall|j: int| 0 <= j < 10 ==> #[trigger] final(self).free_objects(j) == old(self).free_objects(j)
                    &&& (order < MAX_ORDER && first_nonempty(lists, order) < MAX_ORDER) ==> {
                        let p = lists[first_nonempty(lists, order) as int].last();
                        &&& r == KERNEL_VIRT_BASE + p
                        &&& forall|a: int| #[trigger] final(pages).is_free(a) == (old(pages).is_free(a) && !in_block(a, p, order))
                    }
                    &&& !(order < MAX_ORDER && first_nonempty(lists, order) < MAX_ORDER) ==> r == 0 && final(pages).lists() == lists
                },
            },
    {
        let a = if size >= align { size } else { align };
        let s = if a >= 8 { a } else { 8 };
        match size_to_slab(s) {
            Some(idx) => {
                proof {
                    assert(self.slabs@[idx as int].object_size == slab_size(idx as int));
                    lemma2_to64();
                    if idx < 9 {
                        lemma_pow2_strictly_increases(idx as nat, 9);
                    }
                }
                let ghost before = self.slabs@;
                let r = self.slabs[idx].allocate(pages);
                proof {
                    assert forall|j: int| 0 <= j < 10 implies (#[trigger] self.slabs@[j]).object_size == slab_size(j) by {
                        if j != idx {
                            assert(self.slabs@[j] == before[j]);
                        }
                    }
                }
                r
            },
            None => {
                let count = s / 4096 + if s % 4096 != 0 { 1 } else { 0 };
                let order = pages_to_order(count);
                let ghost a0 = *pages;
                match pages.allocate(order) {
                    Some(p) => {
                        proof {
                            lemma2_to64();
                            assert(in_block(p@ as int, p@, order as nat));
                            assert(a0.is_free(p@ as int));
                            assert forall|x: int| #[trigger] pages.is_free(x) implies x < 0x8000_0000_0000 by {
                                assert(a0.is_free(x));
                            }
                        }
                        phys_to_virt(p.as_u64())
                    },
                    None => {
                        proof {
                            assert forall|x: int| #[trigger] pages.is_free(x) implies x < 0x8000_0000_0000 by {
                                assert(a0.is_free(x));
                            }
                        }
                        0
                    },
                }
            },
        }
    }

    /// Gives back memory that `allocate` handed out for the same size and
    /// alignment: to its cache, or to the page allocator.
    pub fn dealloc(&mut self, ptr: u64, size: usize, align: usize, pages: &mut BuddyAllocator)
        requires
            old(self).wf(),
            old(pages).wf(),
            slab_for(request_size(size, align)) is None ==> ptr >= KERNEL_VIRT_BASE,
        ensures
            final(self).wf(),
            final(pages).wf(),
            match slab_for(request_size(size, align)) {
                Some(i) => {
                    &&& final(self).free_objects(i) == old(self).free_objects(i).push(ptr)
                    &&& forall|j: int| 0 <= j < 10 && j != i ==> #[trigger] final(self).free_objects(j) == old(self).free_objects(j)
                    &&& *final(pages) == *old(pages)
                },
                None => {
                    let order = order_for(request_pages(request_size(size, align)));
                    let phys = (ptr - KERNEL_VIRT_BASE) as u64;
                    let ok = block_ok(phys, order) && forall|a: int| #[trigger] in_block(a, phys, order) ==> !old(pages).is_free(a);
                    &&& forall|j: int| 0 <= j < 10 ==> #[trigger] final(self).free_objects(j) == old(self).free_objects(j)
                    &&& ok ==> forall|a: int| #[trigger] final(pages).is_free(a) == (old(pages).is_free(a) || in_block(a, phys, order))
                    &&& !ok ==> final(pages).lists() == old(pages).lists()
                },
            },
    {
        let a = if size >= align { size } else { align };
        let s = if a >= 8 { a } else { 8 };
        match size_to_slab(s) {
            Some(idx) => {
                let ghost before = self.slabs@;
                self.slabs[idx].free(ptr);
                proof {
                    assert forall|j: int| 0 <= j < 10 implies (#[trigger] self.slabs@[j]).object_size == slab_size(j) by {
                        if j != idx {
                            assert(self.slabs@[j] == before[j]);
                        }
                    }
                }
            },
            None => {
                let count = s / 4096 + if s % 4096 != 0 { 1 } else { 0 };
                let order = pages_to_order(count);
                let phys = virt_to_phys(ptr);
                pages.release(PhysAddr::new(phys), order);
            },
        }
    }
}

/// The heap behind the kernel's global allocator.
pub struct LockedHeap {
    pub heap: KernelHeap,
}

impl LockedHeap {
    pub fn new() -> (r: Self)
        ensures
            r.heap.wf(),
            forall|i: int| 0 <= i < 10 ==> #[trigger] r.heap.free_objects(i) == Seq::<u64>::empty(),
    {
        LockedHeap { heap: KernelHeap::new() }
    }
}

} // verus!
