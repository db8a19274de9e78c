use ferrum::allocator::{BuddyAllocator, PhysAddr};
use ferrum::elf::{ElfLoader, SegmentCopy};
use ferrum::page_owner::{init, owned_by, PageOwners};
use ferrum::paging::{PageTableManager, PhysMemory};
use ferrum::vma::{AddressSpace, VMAFlags, VMAKind};

fn put(v: &mut [u8], at: usize, value: u64, n: usize) {
    for k in 0..n {
        v[at + k] = (value >> (8 * k)) as u8;
    }
}

/// A file with one loadable segment: 8 bytes of code at 0x400010, 0x1100
/// bytes in memory, readable and executable.
fn tiny_elf() -> Vec<u8> {
    let mut f = vec![0u8; 128];
    f[0..4].copy_from_slice(&[0x7f, b'E', b'L', b'F']);
    f[4] = 2;
    f[5] = 1;
    put(&mut f, 16, 2, 2);
    put(&mut f, 18, 62, 2);
    put(&mut f, 24, 0x40_0010, 8);
    put(&mut f, 32, 64, 8);
    put(&mut f, 54, 56, 2);
    put(&mut f, 56, 1, 2);
    let ph = 64;
    put(&mut f, ph, 1, 4);
    put(&mut f, ph + 4, 5, 4);
    put(&mut f, ph + 8, 120, 8);
    put(&mut f, ph + 16, 0x40_0010, 8);
    put(&mut f, ph + 32, 8, 8);
    put(&mut f, ph + 40, 0x1100, 8);
    f[120..128].copy_from_slice(b"codecode");
    f
}

#[test]
fn header_errors_come_in_order() {
    assert_eq!(ElfLoader::new(&[0u8; 10]).err(), Some("ELF: data too small for header"));
    let good = tiny_elf();
    let mut f = good.clone();
    f[1] = b'X';
    assert_eq!(ElfLoader::new(&f).err(), Some("ELF: bad magic"));
    let mut f = good.clone();
    f[4] = 1;
    assert_eq!(ElfLoader::new(&f).err(), Some("ELF: not ELF64"));
    let mut f = good.clone();
    f[5] = 2;
    assert_eq!(ElfLoader::new(&f).err(), Some("ELF: not little-endian"));
    let mut f = good.clone();
    put(&mut f, 16, 3, 2);
    assert_eq!(ElfLoader::new(&f).err(), Some("ELF: not ET_EXEC"));
    let mut f = good.clone();
    put(&mut f, 18, 40, 2);
    assert_eq!(ElfLoader::new(&f).err(), Some("ELF: not x86-64"));
    let mut f = good.clone();
    put(&mut f, 54, 32, 2);
    assert_eq!(ElfLoader::new(&f).err(), Some("ELF: e_phentsize too small"));
    let mut f = good.clone();
    put(&mut f, 56, 2, 2);
    assert_eq!(ElfLoader::new(&f).err(), Some("ELF: program header table out of bounds"));
    let mut f = good.clone();
    put(&mut f, 32, u64::MAX - 10, 8);
    assert_eq!(ElfLoader::new(&f).err(), Some("ELF: phdr offset overflow"));
}

#[test]
fn header_fields_are_read_little_endian() {
    let f = tiny_elf();
    let l = ElfLoader::new(&f).unwrap();
    assert_eq!(l.entry, 0x40_0010);
    assert_eq!(l.phoff, 64);
    assert_eq!(l.phnum, 1);
    assert_eq!(l.phentsize, 56);
}

#[test]
fn load_maps_the_segment_and_plans_the_copy() {
    let f = tiny_elf();
    let l = ElfLoader::new(&f).unwrap();
    let mut alloc = BuddyAllocator::new();
    alloc.add_region(PhysAddr::new(0x10_0000), 0x40_0000);
    let mut mem = PhysMemory::new();
    let mut owners = PageOwners::new();
    init(&mut owners);
    let pt = PageTableManager::new(&mut alloc, &mut mem).unwrap();
    let mut space = AddressSpace::new(pt, 9);
    let mut copies = Vec::new();
    assert_eq!(l.load(&mut space, &mut alloc, &mut mem, &mut owners, &mut copies), Ok(0x40_0010));
    assert_eq!(space.vmas.len(), 1);
    assert_eq!((space.vmas[0].start, space.vmas[0].end), (0x40_0000, 0x40_2000));
    assert_eq!(space.vmas[0].flags, VMAFlags::rx());
    assert_eq!(space.vmas[0].kind, VMAKind::Anonymous);
    let p0 = space.page_table.translate(0x40_0000, &mem).expect("first page mapped");
    assert!(space.page_table.translate(0x40_1000, &mem).is_some());
    assert_eq!(copies, vec![SegmentCopy { phys: p0.as_u64(), page_offset: 0x10, file_offset: 120, len: 8 }]);
    let mine = owned_by(&owners, 9);
    assert_eq!(mine.len(), 2);
    assert!(mine.iter().all(|(_, o)| o.tag == "elf:segment"));
    // Readable and executable, for the user: present and user, not writable.
    let root = space.page_table.pml4_phys().as_u64();
    assert_eq!(leaf_bits(&mem, root, 0x40_0000), Some(5));
    assert_eq!(leaf_bits(&mem, root, 0x40_1000), Some(5));
    let p1 = space.page_table.translate(0x40_1000, &mem).unwrap();
    assert_ne!(p0, p1);
}

/// The flag bits of the last-level entry that maps `v`.
fn leaf_bits(mem: &PhysMemory, pml4: u64, v: u64) -> Option<u64> {
    let mut t = pml4;
    for shift in [39u64, 30, 21] {
        let e = mem.read_entry(t, ((v >> shift) & 0x1ff) as usize);
        if !e.is_present() {
            return None;
        }
        t = e.phys_addr().as_u64();
    }
    let e = mem.read_entry(t, ((v >> 12) & 0x1ff) as usize);
    if e.is_present() { Some(e.flags().bits()) } else { None }
}

#[test]
fn load_refuses_file_data_out_of_bounds() {
    let mut f = tiny_elf();
    put(&mut f, 64 + 32, 100, 8);
    let l = ElfLoader::new(&f).unwrap();
    let mut alloc = BuddyAllocator::new();
    alloc.add_region(PhysAddr::new(0x10_0000), 0x40_0000);
    let mut mem = PhysMemory::new();
    let mut owners = PageOwners::new();
    init(&mut owners);
    let pt = PageTableManager::new(&mut alloc, &mut mem).unwrap();
    let mut space = AddressSpace::new(pt, 9);
    let mut copies = Vec::new();
    assert_eq!(
        l.load(&mut space, &mut alloc, &mut mem, &mut owners, &mut copies),
        Err("ELF: PT_LOAD file data out of bounds")
    );
    assert!(space.vmas.is_empty());
}

#[test]
fn load_without_loadable_segment_changes_nothing() {
    let mut f = tiny_elf();
    // The only segment takes no memory.
    put(&mut f, 64 + 40, 0, 8);
    let l = ElfLoader::new(&f).unwrap();
    let mut alloc = BuddyAllocator::new();
    alloc.add_region(PhysAddr::new(0x10_0000), 0x40_0000);
    let mut mem = PhysMemory::new();
    let mut owners = PageOwners::new();
    init(&mut owners);
    let pt = PageTableManager::new(&mut alloc, &mut mem).unwrap();
    let mut space = AddressSpace::new(pt, 9);
    let before = alloc.dump();
    let mut copies = Vec::new();
    assert_eq!(l.load(&mut space, &mut alloc, &mut mem, &mut owners, &mut copies), Ok(0x40_0010));
    assert!(space.vmas.is_empty());
    assert!(copies.is_empty());
    assert_eq!(alloc.dump(), before);
}
