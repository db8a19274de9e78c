use ferrum::allocator::{BuddyAllocator, PhysAddr};
use ferrum::page_owner::PageOwners;
use ferrum::paging::{
    ensure_virt, map_higher_half_region, map_identity, map_kernel_image, phys_to_virt, sync_higher_half, virt_to_phys,
    MemoryRegion, PageAllocator, PageFlags, PageTableEntry, PageTableManager, PhysMemory, VirtAddrParts,
    KERNEL_VIRT_BASE,
};

fn frames() -> BuddyAllocator {
    let mut a = BuddyAllocator::new();
    a.add_region(PhysAddr::new(0x10_0000), 0x40_0000);
    a
}

fn user_rw() -> PageFlags {
    PageFlags::present().union(PageFlags::writable()).union(PageFlags::user())
}

#[test]
fn flag_bits_are_the_hardware_bits() {
    assert_eq!(PageFlags::present().bits(), 1);
    assert_eq!(PageFlags::writable().bits(), 2);
    assert_eq!(PageFlags::user().bits(), 4);
    assert_eq!(PageFlags::accessed().bits(), 0x20);
    assert_eq!(PageFlags::dirty().bits(), 0x40);
    assert_eq!(PageFlags::huge().bits(), 0x80);
    assert_eq!(PageFlags::no_exec().bits(), 1 << 63);
    assert_eq!(PageFlags::empty().bits(), 0);
    assert_eq!(user_rw().bits(), 7);
    assert!(user_rw().contains(PageFlags::writable()));
    assert!(!user_rw().contains(PageFlags::huge()));
    assert_eq!(PageFlags::from_bits_truncate(0xffff).bits(), 0xe7);
}

#[test]
fn entries_keep_address_and_flags_apart() {
    let e = PageTableEntry::new_page(PhysAddr::new(0x12_3000), user_rw());
    assert!(e.is_present());
    assert_eq!(e.phys_addr(), PhysAddr::new(0x12_3000));
    assert_eq!(e.flags().bits(), 7);
    let t = PageTableEntry::new_table(PhysAddr::new(0x5000), PageFlags::present());
    assert_eq!(t.0, 0x5001);
    assert!(!PageTableEntry::empty().is_present());
}

#[test]
fn virtual_address_splits_in_nine_bit_indices() {
    let p = VirtAddrParts::from_u64(0x0000_7fff_ffff_f123);
    assert_eq!((p.pml4, p.pdpt, p.pd, p.pt, p.offset), (255, 511, 511, 511, 0x123));
    let q = VirtAddrParts::from_u64(0x4000_0000);
    assert_eq!((q.pml4, q.pdpt, q.pd, q.pt, q.offset), (0, 1, 0, 0, 0));
}

#[test]
fn higher_half_offsets() {
    assert_eq!(phys_to_virt(0x1000), KERNEL_VIRT_BASE + 0x1000);
    assert_eq!(virt_to_phys(KERNEL_VIRT_BASE + 0x1000), 0x1000);
    assert_eq!(ensure_virt(0x1000), KERNEL_VIRT_BASE + 0x1000);
    assert_eq!(ensure_virt(KERNEL_VIRT_BASE + 5), KERNEL_VIRT_BASE + 5);
}

#[test]
fn map_translate_unmap() {
    let mut alloc = frames();
    let mut mem = PhysMemory::new();
    let mut pt = PageTableManager::new(&mut alloc, &mut mem).expect("a root table");
    let frame = PhysAddr::new(0x80_0000);
    assert_eq!(pt.translate(0x4000_0123, &mem), None);
    assert!(pt.map(0x4000_0000, frame, user_rw(), &mut alloc, &mut mem).is_some());
    assert_eq!(pt.translate(0x4000_0123, &mem), Some(PhysAddr::new(0x80_0123)));
    // The next page is still unmapped.
    assert_eq!(pt.translate(0x4000_1000, &mem), None);
    assert_eq!(pt.unmap(0x4000_0000, &mut mem), Some(frame));
    assert_eq!(pt.translate(0x4000_0123, &mem), None);
    assert_eq!(pt.unmap(0x4000_0000, &mut mem), None);
}

#[test]
fn map_fails_without_frames_for_tables() {
    let mut alloc = BuddyAllocator::new();
    alloc.add_region(PhysAddr::new(0x10_0000), 0x1000);
    let mut mem = PhysMemory::new();
    let mut pt = PageTableManager::new(&mut alloc, &mut mem).expect("a root table");
    assert!(pt.map(0x4000_0000, PhysAddr::new(0x80_0000), user_rw(), &mut alloc, &mut mem).is_none());
    let mut none = BuddyAllocator::new();
    assert!(PageTableManager::new(&mut none, &mut mem).is_none());
}

#[test]
fn map_range_uses_huge_pages_where_aligned() {
    let mut alloc = frames();
    let mut mem = PhysMemory::new();
    let mut pt = PageTableManager::new(&mut alloc, &mut mem).unwrap();
    let flags = PageFlags::present().union(PageFlags::writable());
    assert!(pt.map_range(0x4000_0000, 0x4000_0000, 0x40_1000, flags, &mut alloc, &mut mem).is_some());
    assert_eq!(pt.translate(0x4000_0000 + 0x12_3456, &mem), Some(PhysAddr::new(0x4012_3456)));
    assert_eq!(pt.translate(0x4040_0abc, &mem), Some(PhysAddr::new(0x4040_0abc)));
    assert_eq!(pt.translate(0x4040_1000, &mem), None);
}

#[test]
fn isolated_address_spaces() {
    const UTEST_VIRT: u64 = 0x0000_4000_0000;
    let mut alloc = frames();
    let mut mem = PhysMemory::new();
    let mut owners = PageOwners::new();
    let kernel = PageTableManager::new(&mut alloc, &mut mem).unwrap();
    let kernel_pml4 = kernel.pml4_phys();

    let mut pt_a = PageTableManager::new_user(kernel_pml4, &mut alloc, 1, &mut owners, &mut mem).expect("new_user A");
    let phys_a = alloc.alloc_page().expect("page A");
    pt_a.map(UTEST_VIRT, phys_a, user_rw(), &mut alloc, &mut mem).expect("map A");

    let mut pt_b = PageTableManager::new_user(kernel_pml4, &mut alloc, 2, &mut owners, &mut mem).expect("new_user B");
    let phys_b = alloc.alloc_page().expect("page B");
    pt_b.map(UTEST_VIRT, phys_b, user_rw(), &mut alloc, &mut mem).expect("map B");

    assert_ne!(phys_a, phys_b);
    assert_ne!(pt_a.pml4_phys(), pt_b.pml4_phys());
    assert_eq!(pt_a.translate(UTEST_VIRT, &mem), Some(phys_a));
    assert_eq!(pt_b.translate(UTEST_VIRT, &mem), Some(phys_b));
    assert_eq!(kernel.translate(UTEST_VIRT, &mem), None);
}

#[test]
fn higher_half_is_shared_with_the_kernel() {
    let mut alloc = frames();
    let mut mem = PhysMemory::new();
    let mut owners = PageOwners::new();
    let mut kernel = PageTableManager::new(&mut alloc, &mut mem).unwrap();
    let flags = PageFlags::present().union(PageFlags::writable());
    let va = KERNEL_VIRT_BASE + 0x20_0000;
    kernel.map(va, PhysAddr::new(0x20_0000), flags, &mut alloc, &mut mem).unwrap();
    let user = PageTableManager::new_user(kernel.pml4_phys(), &mut alloc, 7, &mut owners, &mut mem).unwrap();
    assert_eq!(user.translate(va + 8, &mem), Some(PhysAddr::new(0x20_0008)));

    let other = PageTableManager::new(&mut alloc, &mut mem).unwrap();
    assert_eq!(other.translate(va, &mem), None);
    sync_higher_half(other.pml4_phys().as_u64(), kernel.pml4_phys().as_u64(), &mut mem);
    assert_eq!(other.translate(va, &mem), Some(PhysAddr::new(0x20_0000)));
}

#[test]
fn kernel_image_is_identity_mapped() {
    let mut alloc = frames();
    let mut mem = PhysMemory::new();
    let mut pt = PageTableManager::new(&mut alloc, &mut mem).unwrap();
    assert!(map_kernel_image(&mut pt, 0x60_0800, 0x2000, &mut alloc, &mut mem).is_some());
    assert_eq!(pt.translate(0x60_1234, &mem), Some(PhysAddr::new(0x60_1234)));
    assert_eq!(pt.translate(0x60_2ff0, &mem), Some(PhysAddr::new(0x60_2ff0)));
    assert_eq!(pt.translate(0x60_3000, &mem), None);
}

/// The flag bits of the entry that maps `v`: the huge directory entry or
/// the last-level entry.
fn leaf_flags(mem: &PhysMemory, pml4: u64, v: u64) -> Option<u64> {
    let idx = |shift: u64| ((v >> shift) & 0x1ff) as usize;
    let e4 = mem.read_entry(pml4, idx(39));
    if !e4.is_present() {
        return None;
    }
    let e3 = mem.read_entry(e4.phys_addr().as_u64(), idx(30));
    if !e3.is_present() {
        return None;
    }
    let e2 = mem.read_entry(e3.phys_addr().as_u64(), idx(21));
    if !e2.is_present() {
        return None;
    }
    if e2.flags().bits() & 0x80 != 0 {
        return Some(e2.flags().bits());
    }
    let e1 = mem.read_entry(e2.phys_addr().as_u64(), idx(12));
    if !e1.is_present() {
        return None;
    }
    Some(e1.flags().bits())
}

#[test]
fn map_range_leaves_carry_the_flags() {
    let mut alloc = frames();
    let mut mem = PhysMemory::new();
    let mut pt = PageTableManager::new(&mut alloc, &mut mem).unwrap();
    let root = pt.pml4_phys().as_u64();
    assert!(pt.map_range(0x3ff_f000, 0x3ff_f000, 0x40_2000, user_rw(), &mut alloc, &mut mem).is_some());
    // A 4 KiB page before the aligned region, a huge page, then 4 KiB pages.
    assert_eq!(leaf_flags(&mem, root, 0x3ff_f000), Some(7));
    assert_eq!(leaf_flags(&mem, root, 0x400_0000), Some(0x87));
    assert_eq!(leaf_flags(&mem, root, 0x41f_ffff), Some(0x87));
    assert_eq!(leaf_flags(&mem, root, 0x440_0000), Some(7));
    assert_eq!(leaf_flags(&mem, root, 0x440_1000), None);
    // Physical addresses not aligned like the virtual ones: 4 KiB pages only.
    assert!(pt.map_range(0x8000_0000, 0x1000, 0x20_0000, PageFlags::present(), &mut alloc, &mut mem).is_some());
    assert_eq!(leaf_flags(&mem, root, 0x8000_0000), Some(1));
    assert_eq!(leaf_flags(&mem, root, 0x801f_f000), Some(1));
}

#[test]
fn identity_and_higher_half_maps_are_writable_supervisor_huge_pages() {
    let mut alloc = frames();
    let mut mem = PhysMemory::new();
    let mut pt = PageTableManager::new(&mut alloc, &mut mem).unwrap();
    let root = pt.pml4_phys().as_u64();
    let regions = [MemoryRegion { start: 0x20_1000, size: 0x1000 }, MemoryRegion { start: 0x100_0000, size: 0x30_0000 }];
    assert!(map_identity(&mut pt, &mut alloc, &regions, &mut mem).is_some());
    assert_eq!(pt.translate(0x20_0000, &mem), Some(PhysAddr::new(0x20_0000)));
    assert_eq!(leaf_flags(&mem, root, 0x20_0000), Some(0x83));
    assert_eq!(leaf_flags(&mem, root, 0x13f_ffff), Some(0x83));
    assert_eq!(leaf_flags(&mem, root, 0x140_0000), None);
    assert!(map_higher_half_region(&mut pt, &mut alloc, 0x60_0000, 0x1000, &mut mem).is_some());
    assert_eq!(pt.translate(KERNEL_VIRT_BASE + 0x60_0123, &mem), Some(PhysAddr::new(0x60_0123)));
    assert_eq!(leaf_flags(&mem, root, KERNEL_VIRT_BASE + 0x60_0000), Some(0x83));
}

#[test]
fn kernel_image_pages_are_writable_supervisor_pages() {
    let mut alloc = frames();
    let mut mem = PhysMemory::new();
    let mut pt = PageTableManager::new(&mut alloc, &mut mem).unwrap();
    let root = pt.pml4_phys().as_u64();
    assert!(map_kernel_image(&mut pt, 0x60_0800, 0x2000, &mut alloc, &mut mem).is_some());
    assert_eq!(leaf_flags(&mem, root, 0x60_0000), Some(3));
    assert_eq!(leaf_flags(&mem, root, 0x60_2000), Some(3));
    assert_eq!(leaf_flags(&mem, root, 0x60_3000), None);
}
