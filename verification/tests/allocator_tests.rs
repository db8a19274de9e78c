use ferrum::allocator::{order_to_size, BuddyAllocator, PhysAddr, MAX_ORDER, PAGE_SIZE};

fn one_mib_at_one_mib() -> BuddyAllocator {
    let mut a = BuddyAllocator::new();
    a.add_region(PhysAddr::new(0x10_0000), 0x10_0000);
    a
}

#[test]
fn allocate_then_free_restores_pages() {
    let mut a = one_mib_at_one_mib();
    let before = a.dump();
    let p = a.allocate(0).expect("a page");
    assert_eq!(p.as_u64() % 4096, 0);
    a.free(p, 0);
    assert_eq!(a.dump(), before);
}

#[test]
fn order_to_size_doubles_per_order() {
    assert_eq!(order_to_size(0), PAGE_SIZE);
    assert_eq!(order_to_size(1), 8192);
    assert_eq!(order_to_size(3), 32768);
    assert_eq!(order_to_size(MAX_ORDER - 1), 4 * 1024 * 1024);
}

#[test]
fn add_region_cuts_largest_aligned_blocks() {
    let a = one_mib_at_one_mib();
    // 1 MiB at a 1 MiB boundary is one block of 256 pages.
    assert_eq!(a.dump(), vec![(8, 1)]);
    a.check_metadata_integrity("test");

    let mut b = BuddyAllocator::new();
    // Unaligned edges are cut to whole pages: [0x1000, 0x4000) stays.
    b.add_region(PhysAddr::new(0x0800), 0x3900);
    assert_eq!(b.dump(), vec![(0, 1), (1, 1)]);
}

#[test]
fn empty_allocator_has_nothing_to_give() {
    let mut a = BuddyAllocator::new();
    assert!(a.allocate(0).is_none());
    assert!(a.dump().is_empty());
    let mut b = one_mib_at_one_mib();
    assert!(b.allocate(MAX_ORDER).is_none());
    assert!(b.allocate(9).is_none());
}

#[test]
fn allocation_splits_and_hands_out_low_half() {
    let mut a = one_mib_at_one_mib();
    let p = a.allocate(0).unwrap();
    assert_eq!(p.as_u64(), 0x10_0000);
    // The upper halves are left at every order below the split one.
    assert_eq!(a.dump(), vec![(0, 1), (1, 1), (2, 1), (3, 1), (4, 1), (5, 1), (6, 1), (7, 1)]);
    let q = a.allocate(0).unwrap();
    assert_eq!(q.as_u64(), 0x10_1000);
    let r = a.allocate(1).unwrap();
    assert_eq!(r.as_u64(), 0x10_2000);
    a.check_metadata_integrity("test");
}

#[test]
fn freeing_merges_buddies_back() {
    let mut a = one_mib_at_one_mib();
    let p = a.allocate(0).unwrap();
    let q = a.allocate(0).unwrap();
    a.free(q, 0);
    a.free(p, 0);
    assert_eq!(a.dump(), vec![(8, 1)]);
}

#[test]
fn release_refuses_bad_blocks() {
    let mut a = one_mib_at_one_mib();
    let p = a.allocate(0).unwrap();
    // Not page aligned.
    assert!(!a.release(PhysAddr::new(p.as_u64() + 8), 0));
    // Order out of range.
    assert!(!a.release(p, MAX_ORDER));
    // Address zero.
    assert!(!a.release(PhysAddr::new(0), 0));
    // Misaligned for its order.
    assert!(!a.release(PhysAddr::new(0x10_1000), 1));
    // Already free.
    assert!(!a.release(PhysAddr::new(0x10_1000), 0));
    // The allocated page goes back.
    assert!(a.release(p, 0));
    assert_eq!(a.dump(), vec![(8, 1)]);
    // A second release of it is refused.
    assert!(!a.release(p, 0));
}
