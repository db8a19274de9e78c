use ferrum::allocator::{BuddyAllocator, PhysAddr};
use ferrum::page_owner::{init, owned_by, PageOwners};
use ferrum::paging::{PageTableManager, PhysMemory};
use ferrum::vma::{AddressSpace, VMAFlags, VMAKind, MMAP_ZONE_START, VMA};

struct World {
    alloc: BuddyAllocator,
    mem: PhysMemory,
    owners: PageOwners,
}

fn world() -> (World, AddressSpace) {
    let mut alloc = BuddyAllocator::new();
    alloc.add_region(PhysAddr::new(0x10_0000), 0x40_0000);
    let mut mem = PhysMemory::new();
    let mut owners = PageOwners::new();
    init(&mut owners);
    let pt = PageTableManager::new(&mut alloc, &mut mem).unwrap();
    (World { alloc, mem, owners }, AddressSpace::new(pt, 3))
}

fn spans(a: &AddressSpace) -> Vec<(u64, u64)> {
    a.vmas.iter().map(|v| (v.start, v.end)).collect()
}

#[test]
fn flags_give_page_bits() {
    assert_eq!(VMAFlags::rw().to_page_flags().bits(), 0x8000_0000_0000_0007);
    assert_eq!(VMAFlags::rx().to_page_flags().bits(), 0x5);
    assert_eq!(VMAFlags::r().to_page_flags().bits(), 0x8000_0000_0000_0005);
    assert_eq!(VMAKind::Anonymous.owner_tag(), "vma:anon");
    assert_eq!(VMAKind::Stack.owner_tag(), "vma:stack");
    assert_eq!(VMAKind::Heap.owner_tag(), "vma:heap");
}

#[test]
fn area_bounds() {
    let v = VMA::new(0x1000, 0x3000, VMAFlags::rw(), VMAKind::Anonymous);
    assert!(v.contains(0x1000));
    assert!(v.contains(0x2fff));
    assert!(!v.contains(0x3000));
    assert!(!v.contains(0xfff));
    assert_eq!(v.size(), 0x2000);
}

#[test]
fn areas_stay_sorted_and_refuse_overlap() {
    let (_w, mut a) = world();
    a.add_vma(VMA::new(0x5000, 0x6000, VMAFlags::rw(), VMAKind::Anonymous)).unwrap();
    a.add_vma(VMA::new(0x1000, 0x2000, VMAFlags::rx(), VMAKind::Anonymous)).unwrap();
    a.add_vma(VMA::new(0x3000, 0x4000, VMAFlags::r(), VMAKind::Stack)).unwrap();
    assert_eq!(spans(&a), vec![(0x1000, 0x2000), (0x3000, 0x4000), (0x5000, 0x6000)]);
    assert_eq!(a.add_vma(VMA::new(0x1800, 0x2800, VMAFlags::rw(), VMAKind::Anonymous)), Err("VMA overlap"));
    assert_eq!(a.add_vma(VMA::new(0x2800, 0x3800, VMAFlags::rw(), VMAKind::Anonymous)), Err("VMA overlap"));
    assert_eq!(spans(&a).len(), 3);
}

#[test]
fn touching_areas_with_same_attributes_merge() {
    let (_w, mut a) = world();
    a.add_vma(VMA::new(0x1000, 0x2000, VMAFlags::rw(), VMAKind::Anonymous)).unwrap();
    a.add_vma(VMA::new(0x3000, 0x4000, VMAFlags::rw(), VMAKind::Anonymous)).unwrap();
    a.add_vma(VMA::new(0x2000, 0x3000, VMAFlags::rw(), VMAKind::Anonymous)).unwrap();
    assert_eq!(spans(&a), vec![(0x1000, 0x4000)]);
    // Other attributes keep an area apart.
    a.add_vma(VMA::new(0x4000, 0x5000, VMAFlags::rx(), VMAKind::Anonymous)).unwrap();
    assert_eq!(spans(&a), vec![(0x1000, 0x4000), (0x4000, 0x5000)]);
}

#[test]
fn find_and_remove() {
    let (_w, mut a) = world();
    a.add_vma(VMA::new(0x1000, 0x3000, VMAFlags::rw(), VMAKind::Anonymous)).unwrap();
    assert_eq!(a.find_vma(0x2abc).map(|v| v.start), Some(0x1000));
    assert!(a.find_vma(0x3000).is_none());
    assert!(a.remove_vma(0x2000).is_none());
    assert_eq!(a.remove_vma(0x1000).map(|v| v.end), Some(0x3000));
    assert!(a.vmas.is_empty());
}

#[test]
fn mmap_places_areas() {
    let (_w, mut a) = world();
    assert_eq!(a.mmap(0x40_0123, 0x1800, VMAFlags::rw(), VMAKind::Anonymous), Ok(0x40_1000));
    assert_eq!(spans(&a), vec![(0x40_1000, 0x40_3000)]);
    assert_eq!(a.mmap(0x40_2000, 0x1000, VMAFlags::rx(), VMAKind::Anonymous), Err("VMA overlap"));
    // Without an address, the first gap of the mmap zone is taken.
    assert_eq!(a.mmap(0, 0x2000, VMAFlags::rw(), VMAKind::Anonymous), Ok(MMAP_ZONE_START));
    assert_eq!(a.mmap(0, 0x1000, VMAFlags::rx(), VMAKind::Anonymous), Ok(MMAP_ZONE_START + 0x2000));
}

#[test]
fn heap_grows_from_its_start() {
    let (_w, mut a) = world();
    a.extend_heap(0x60_0000, 0x60_2000).unwrap();
    assert_eq!(spans(&a), vec![(0x60_0000, 0x60_2000)]);
    a.extend_heap(0x99_0000, 0x60_5000).unwrap();
    assert_eq!(spans(&a), vec![(0x60_0000, 0x60_5000)]);
    assert_eq!(a.vmas[0].kind, VMAKind::Heap);
    a.add_vma(VMA::new(0x60_6000, 0x60_7000, VMAFlags::r(), VMAKind::Anonymous)).unwrap();
    assert_eq!(a.extend_heap(0, 0x60_8000), Err("VMA overlap"));
}

#[test]
fn demand_paging() {
    const BASE: u64 = 0x0600_0000_0000;
    const PAGES: u64 = 3;
    let (mut w, mut a) = world();
    a.mmap(BASE, 4096 * PAGES as usize, VMAFlags::rw(), VMAKind::Anonymous).expect("mmap failed");
    for i in 0..PAGES {
        let addr = BASE + i * 4096 + 8;
        assert_eq!(a.page_table.translate(addr, &w.mem), None);
        a.handle_page_fault(addr, &mut w.alloc, &mut w.mem, &mut w.owners).unwrap();
        assert!(a.page_table.translate(addr, &w.mem).is_some());
    }
    // A second fault on a mapped page changes nothing.
    let before = a.page_table.translate(BASE, &w.mem);
    a.handle_page_fault(BASE + 16, &mut w.alloc, &mut w.mem, &mut w.owners).unwrap();
    assert_eq!(a.page_table.translate(BASE, &w.mem), before);
    let mine = owned_by(&w.owners, 3);
    assert_eq!(mine.len(), PAGES as usize);
    assert!(mine.iter().all(|(_, o)| o.tag == "vma:anon" && o.order == 0));
    assert_eq!(
        a.handle_page_fault(BASE + PAGES * 4096, &mut w.alloc, &mut w.mem, &mut w.owners),
        Err("No VMA for fault address")
    );
}

#[test]
fn munmap_gives_pages_back() {
    const BASE: u64 = 0x0600_0000_0000;
    let (mut w, mut a) = world();
    a.mmap(BASE, 0x2000, VMAFlags::rw(), VMAKind::Stack).unwrap();
    let before = w.alloc.dump();
    a.handle_page_fault(BASE, &mut w.alloc, &mut w.mem, &mut w.owners).unwrap();
    a.handle_page_fault(BASE + 0x1000, &mut w.alloc, &mut w.mem, &mut w.owners).unwrap();
    assert_eq!(owned_by(&w.owners, 3).len(), 2);
    assert_eq!(a.munmap(BASE, 0x2000, &mut w.alloc, &mut w.mem, &mut w.owners), Ok(()));
    assert!(a.vmas.is_empty());
    assert_eq!(a.page_table.translate(BASE, &w.mem), None);
    assert_eq!(owned_by(&w.owners, 3).len(), 0);
    // The two data pages are back; the three page-table pages that the
    // first fault added below the root stay.
    let after = w.alloc.dump();
    let pages = |d: &Vec<(usize, usize)>| d.iter().map(|(o, n)| n << o).sum::<usize>();
    assert_eq!(pages(&after) + 3, pages(&before));
    assert_eq!(a.munmap(BASE, 0x2000, &mut w.alloc, &mut w.mem, &mut w.owners), Err("VMA not found"));
}

#[test]
fn mmap_fixed_replaces_what_was_there() {
    let (mut w, mut a) = world();
    a.add_vma(VMA::new(0x10_0000, 0x10_4000, VMAFlags::rw(), VMAKind::Anonymous)).unwrap();
    a.handle_page_fault(0x10_1000, &mut w.alloc, &mut w.mem, &mut w.owners).unwrap();
    let r = a.mmap_fixed(0x10_1000, 0x2000, VMAFlags::rx(), VMAKind::Stack, &mut w.alloc, &mut w.mem, &mut w.owners);
    assert_eq!(r, Ok(0x10_1000));
    assert_eq!(spans(&a), vec![(0x10_0000, 0x10_1000), (0x10_1000, 0x10_3000), (0x10_3000, 0x10_4000)]);
    assert_eq!(a.vmas[1].flags, VMAFlags::rx());
    assert_eq!(a.vmas[1].kind, VMAKind::Stack);
    assert_eq!(a.vmas[2].flags, VMAFlags::rw());
    // The page that was faulted in under the old area is gone.
    assert_eq!(a.page_table.translate(0x10_1000, &w.mem), None);
}

#[test]
fn clearing_forgets_every_area() {
    let (mut w, mut a) = world();
    a.mmap(0x20_0000, 0x3000, VMAFlags::rw(), VMAKind::Anonymous).unwrap();
    a.handle_page_fault(0x20_2000, &mut w.alloc, &mut w.mem, &mut w.owners).unwrap();
    a.clear_user(&mut w.alloc, &mut w.mem, &mut w.owners);
    assert!(a.vmas.is_empty());
    assert_eq!(a.page_table.translate(0x20_2000, &w.mem), None);
    assert_eq!(owned_by(&w.owners, 3).len(), 0);
}

#[test]
fn faulted_page_reads_as_zeros() {
    const BASE: u64 = 0x0600_0000_0000;
    let (mut w, mut a) = world();
    a.mmap(BASE, 0x1000, VMAFlags::rw(), VMAKind::Anonymous).unwrap();
    a.handle_page_fault(BASE + 0x10, &mut w.alloc, &mut w.mem, &mut w.owners).unwrap();
    let frame = a.page_table.translate(BASE, &w.mem).unwrap().as_u64();
    assert!((0..512).all(|j| w.mem.read_entry(frame, j).0 == 0));
}

#[test]
fn clear_user_unmaps_every_page_of_every_area() {
    const BASE: u64 = 0x0600_0000_0000;
    let (mut w, mut a) = world();
    a.mmap(BASE, 0x2000, VMAFlags::rw(), VMAKind::Anonymous).unwrap();
    a.mmap(BASE + 0x10_0000, 0x1000, VMAFlags::r(), VMAKind::Anonymous).unwrap();
    a.handle_page_fault(BASE, &mut w.alloc, &mut w.mem, &mut w.owners).unwrap();
    a.handle_page_fault(BASE + 0x1000, &mut w.alloc, &mut w.mem, &mut w.owners).unwrap();
    a.handle_page_fault(BASE + 0x10_0000, &mut w.alloc, &mut w.mem, &mut w.owners).unwrap();
    a.clear_user(&mut w.alloc, &mut w.mem, &mut w.owners);
    assert!(a.vmas.is_empty());
    for addr in [BASE, BASE + 0x1000, BASE + 0x10_0000] {
        assert_eq!(a.page_table.translate(addr, &w.mem), None);
    }
}

#[test]
fn mmap_fixed_gives_back_the_pages_it_replaces() {
    const BASE: u64 = 0x0600_0000_0000;
    let (mut w, mut a) = world();
    a.mmap(BASE, 0x2000, VMAFlags::rw(), VMAKind::Anonymous).unwrap();
    let before = w.alloc.dump();
    a.handle_page_fault(BASE, &mut w.alloc, &mut w.mem, &mut w.owners).unwrap();
    a.handle_page_fault(BASE + 0x1000, &mut w.alloc, &mut w.mem, &mut w.owners).unwrap();
    assert_ne!(w.alloc.dump(), before);
    assert_eq!(a.mmap_fixed(BASE, 0x2000, VMAFlags::r(), VMAKind::Anonymous, &mut w.alloc, &mut w.mem, &mut w.owners), Ok(BASE));
    assert_eq!(a.page_table.translate(BASE, &w.mem), None);
    assert_eq!(a.page_table.translate(BASE + 0x1000, &w.mem), None);
    // The two frames are free again; the tables made for them stay.
    let frames_back = w.alloc.dump();
    assert_eq!(frames_back.iter().map(|(o, n)| n << o).sum::<usize>(), before.iter().map(|(o, n)| n << o).sum::<usize>() - 3);
}

#[test]
fn fault_next_to_a_mapped_page_needs_only_the_frame() {
    let mut alloc = BuddyAllocator::new();
    alloc.add_region(PhysAddr::new(0x10_0000), 0x6000);
    let mut mem = PhysMemory::new();
    let mut owners = PageOwners::new();
    init(&mut owners);
    let pt = PageTableManager::new(&mut alloc, &mut mem).unwrap();
    let mut a = AddressSpace::new(pt, 3);
    a.add_vma(VMA::new(0x40_0000, 0x40_3000, VMAFlags::rw(), VMAKind::Anonymous)).unwrap();
    // The frame and three tables: one of the six pages is left.
    a.handle_page_fault(0x40_0000, &mut alloc, &mut mem, &mut owners).unwrap();
    // The tables exist, so the last page is enough.
    assert_eq!(a.handle_page_fault(0x40_1008, &mut alloc, &mut mem, &mut owners), Ok(()));
    assert!(a.page_table.translate(0x40_1000, &mem).is_some());
    assert_eq!(a.handle_page_fault(0x40_2000, &mut alloc, &mut mem, &mut owners), Err("Out of memory"));
}
