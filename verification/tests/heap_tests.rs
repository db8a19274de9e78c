use ferrum::allocator::{BuddyAllocator, PhysAddr};
use ferrum::heap::{pages_to_order, size_to_slab, KernelHeap, LockedHeap, SlabCache};
use ferrum::paging::KERNEL_VIRT_BASE;

fn pages() -> BuddyAllocator {
    let mut a = BuddyAllocator::new();
    a.add_region(PhysAddr::new(0x10_0000), 0x10_0000);
    a
}

#[test]
fn pages_to_order_rounds_up_to_a_power_of_two() {
    assert_eq!(pages_to_order(0), 0);
    assert_eq!(pages_to_order(1), 0);
    assert_eq!(pages_to_order(2), 1);
    assert_eq!(pages_to_order(3), 2);
    assert_eq!(pages_to_order(4), 2);
    assert_eq!(pages_to_order(5), 3);
    assert_eq!(pages_to_order(1024), 10);
}

#[test]
fn size_to_slab_picks_the_smallest_cache() {
    assert_eq!(size_to_slab(0), Some(0));
    assert_eq!(size_to_slab(8), Some(0));
    assert_eq!(size_to_slab(9), Some(1));
    assert_eq!(size_to_slab(64), Some(3));
    assert_eq!(size_to_slab(65), Some(4));
    assert_eq!(size_to_slab(4096), Some(9));
    assert_eq!(size_to_slab(4097), None);
}

#[test]
fn slab_cache_carves_a_page_and_is_a_stack() {
    let mut p = pages();
    let mut c = SlabCache::new(1024);
    let a = c.allocate(&mut p);
    // A fresh page is cut in four objects: the first is handed out, the
    // others are kept, and the last kept is handed out next.
    assert_eq!(a, KERNEL_VIRT_BASE + 0x10_0000);
    assert_eq!(c.free_list.len(), 3);
    let b = c.allocate(&mut p);
    assert_eq!(b, KERNEL_VIRT_BASE + 0x10_0000 + 3 * 1024);
    c.free(a);
    assert_eq!(c.allocate(&mut p), a);
}

#[test]
fn two_live_objects_have_distinct_addresses() {
    let mut p = pages();
    let mut h = KernelHeap::new();
    let a1 = h.allocate(8, 8, &mut p);
    let a2 = h.allocate(8, 8, &mut p);
    assert_ne!(a1, 0);
    assert_ne!(a2, 0);
    assert_ne!(a1, a2);
    assert!(a1 >= KERNEL_VIRT_BASE && a2 >= KERNEL_VIRT_BASE);
    h.dealloc(a1, 8, 8, &mut p);
    h.dealloc(a2, 8, 8, &mut p);
}

#[test]
fn freed_object_is_handed_out_again() {
    let mut p = pages();
    let mut h = KernelHeap::new();
    let a = h.allocate(100, 8, &mut p);
    h.dealloc(a, 100, 8, &mut p);
    assert_eq!(h.allocate(100, 8, &mut p), a);
    // The alignment counts as the size when larger.
    let b = h.allocate(1, 128, &mut p);
    assert_eq!(b % 128, 0);
}

#[test]
fn large_requests_go_to_the_page_allocator() {
    let mut p = pages();
    let before = p.dump();
    let mut h = KernelHeap::new();
    let big = h.allocate(8192, 8, &mut p);
    assert_eq!(big, KERNEL_VIRT_BASE + 0x10_0000);
    assert_ne!(p.dump(), before);
    h.dealloc(big, 8192, 8, &mut p);
    assert_eq!(p.dump(), before);
}

#[test]
fn heap_without_pages_returns_zero() {
    let mut p = BuddyAllocator::new();
    let mut h = LockedHeap::new();
    assert_eq!(h.heap.allocate(16, 8, &mut p), 0);
    assert_eq!(h.heap.allocate(1 << 20, 8, &mut p), 0);
}
