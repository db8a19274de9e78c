use ferrum::allocator::{BuddyAllocator, PhysAddr};
use ferrum::exec::{build_argv_envp_stack, exec_image, USER_STACK_PAGES, USER_STACK_TOP};
use ferrum::fd::{FdTable, OpenFiles};
use ferrum::page_owner::{init, PageOwners};
use ferrum::paging::{PageTableManager, PhysMemory};
use ferrum::process::{Context, Process, ProcessState};
use ferrum::vma::{AddressSpace, VMAFlags, VMAKind, VMA};

/// The flag bits of the last-level entry that maps `v`.
fn leaf_bits(mem: &PhysMemory, pml4: u64, v: u64) -> Option<u64> {
    let mut t = pml4;
    for shift in [39u64, 30, 21] {
        let e = mem.read_entry(t, ((v >> shift) & 0x1ff) as usize);
        if !e.is_present() {
            return None;
        }
        t = e.phys_addr().as_u64();
    }
    let e = mem.read_entry(t, ((v >> 12) & 0x1ff) as usize);
    if e.is_present() { Some(e.flags().bits()) } else { None }
}

fn put(v: &mut [u8], at: usize, value: u64, n: usize) {
    for k in 0..n {
        v[at + k] = (value >> (8 * k)) as u8;
    }
}

/// One loadable segment: 8 bytes of code at 0x400010, 0x1100 bytes in
/// memory, readable and executable.
fn tiny_elf() -> Vec<u8> {
    let mut f = vec![0u8; 128];
    f[0..4].copy_from_slice(&[0x7f, b'E', b'L', b'F']);
    f[4] = 2;
    f[5] = 1;
    put(&mut f, 16, 2, 2);
    put(&mut f, 18, 62, 2);
    put(&mut f, 24, 0x40_0010, 8);
    put(&mut f, 32, 64, 8);
    put(&mut f, 54, 56, 2);
    put(&mut f, 56, 1, 2);
    let ph = 64;
    put(&mut f, ph, 1, 4);
    put(&mut f, ph + 4, 5, 4);
    put(&mut f, ph + 8, 120, 8);
    put(&mut f, ph + 16, 0x40_0010, 8);
    put(&mut f, ph + 32, 8, 8);
    put(&mut f, ph + 40, 0x1100, 8);
    f[120..128].copy_from_slice(b"codecode");
    f
}

fn auxv(phdr: u64, phent: u64, phnum: u64, entry: u64, random: u64) -> Vec<u64> {
    vec![
        3, phdr, 4, phent, 5, phnum, 6, 4096, 7, 0, 8, 0, 9, entry, 11, 0, 12, 0, 13, 0, 14, 0, 23, 0, 25, random,
        33, 0, 0, 0,
    ]
}

#[test]
fn initial_stack_layout() {
    let top = 0x7fff_0000u64;
    let argv = vec!["/bin/sh".to_string()];
    let envp = vec!["A=1".to_string()];
    let random = [7u8; 16];
    let img = build_argv_envp_stack(top, &argv, &envp, 0x40_1000, 0x40_0040, 56, 2, random);
    // Strings from the top down: the environment, the arguments, the
    // random bytes; then the words, aligned.
    let env0 = top - 4;
    let arg0 = env0 - 8;
    let rnd = arg0 - 16;
    assert_eq!(img.rsp, 0x7ffe_fec0);
    assert_eq!(img.rsp % 16, 0);
    let mut words = vec![1, arg0, 0, env0, 0];
    words.extend(auxv(0x40_0040, 56, 2, 0x40_1000, rnd));
    assert_eq!(img.words, words);
    assert_eq!(
        img.blobs,
        vec![(env0, b"A=1\0".to_vec()), (arg0, b"/bin/sh\0".to_vec()), (rnd, random.to_vec())]
    );
}

#[test]
fn initial_stack_without_arguments() {
    let top = 0x10_0000u64;
    let img = build_argv_envp_stack(top, &[], &[], 1, 2, 3, 4, [0u8; 16]);
    let rnd = top - 16;
    // 33 words, an odd count: a pad word keeps the stack pointer aligned.
    assert_eq!(img.rsp, rnd - 8 - 8 * 33);
    assert_eq!(img.rsp % 16, 0);
    let mut words = vec![0, 0, 0];
    words.extend(auxv(2, 3, 4, 1, rnd));
    assert_eq!(img.words, words);
    assert_eq!(img.blobs, vec![(rnd, vec![0u8; 16])]);
}

fn fresh_process(alloc: &mut BuddyAllocator, mem: &mut PhysMemory) -> Process {
    let pt = PageTableManager::new(alloc, mem).unwrap();
    let mut files = OpenFiles::new();
    Process {
        pid: 4,
        parent_pid: 1,
        state: ProcessState::Running,
        exit_code: 0,
        context: Context::zero(),
        kernel_stack_alloc: None,
        kernel_stack_top: 0,
        address_space: AddressSpace::new(pt, 4),
        fd_table: FdTable::new_stdio(&mut files),
        fs_base: 0x99,
        brk_start: 0,
        brk_current: 0,
        cwd: "/".to_string(),
    }
}

#[test]
fn exec_loads_the_program_and_its_stack() {
    let mut alloc = BuddyAllocator::new();
    alloc.add_region(PhysAddr::new(0x10_0000), 0x40_0000);
    let mut mem = PhysMemory::new();
    let mut owners = PageOwners::new();
    init(&mut owners);
    let mut p = fresh_process(&mut alloc, &mut mem);
    p.address_space.add_vma(VMA::new(0x1000_0000, 0x1000_1000, VMAFlags::rw(), VMAKind::Anonymous)).unwrap();
    let f = tiny_elf();
    let argv = vec!["prog".to_string()];
    let start = exec_image(&mut p, &f, &argv, &[], [1u8; 16], &mut alloc, &mut mem, &mut owners).expect("loaded");
    assert_eq!(start.entry, 0x40_0010);
    assert_eq!((p.brk_start, p.brk_current, p.fs_base), (0x40_2000, 0x40_2000, 0));
    // The old area is gone; the segment and the stack are there.
    let spans: Vec<(u64, u64, VMAKind)> = p.address_space.vmas.iter().map(|v| (v.start, v.end, v.kind)).collect();
    assert_eq!(
        spans,
        vec![
            (0x40_0000, 0x40_2000, VMAKind::Anonymous),
            (USER_STACK_TOP - USER_STACK_PAGES * 4096, USER_STACK_TOP + 4096, VMAKind::Stack),
        ]
    );
    assert!(p.address_space.page_table.translate(USER_STACK_TOP - 8, &mem).is_some());
    // The segment's pages are readable and executable for the user.
    assert_eq!(leaf_bits(&mem, p.address_space.page_table.pml4_phys().as_u64(), 0x40_1000), Some(5));
    // Every stack page is present, writable, user and not executable.
    let root = p.address_space.page_table.pml4_phys().as_u64();
    for k in 1..=USER_STACK_PAGES {
        let v = USER_STACK_TOP - k * 4096;
        assert!(p.address_space.page_table.translate(v, &mem).is_some());
        assert_eq!(leaf_bits(&mem, root, v), Some(0x8000_0000_0000_0007));
    }
    assert_eq!(start.copies.len(), 1);
    assert_eq!((start.copies[0].file_offset, start.copies[0].page_offset, start.copies[0].len), (120, 0x10, 8));
    let img = &start.stack;
    assert_eq!(img.rsp % 16, 0);
    // With no environment given the program gets `PATH=/`: argc, the
    // argument pointer and a null, the environment pointer and a null, then
    // the auxiliary vector.
    assert_eq!(start.envp, vec!["PATH=/".to_string()]);
    assert_eq!(img.words[0..5].to_vec(), vec![1, USER_STACK_TOP - 12, 0, USER_STACK_TOP - 7, 0]);
    assert_eq!(img.words[5..11].to_vec(), vec![3, 0x40_0040, 4, 56, 5, 1]);
    assert_eq!(img.blobs[0], (USER_STACK_TOP - 7, b"PATH=/\0".to_vec()));
    assert_eq!(img.blobs[1], (USER_STACK_TOP - 12, b"prog\0".to_vec()));
}

#[test]
fn exec_refuses_what_is_not_an_executable() {
    let mut alloc = BuddyAllocator::new();
    alloc.add_region(PhysAddr::new(0x10_0000), 0x40_0000);
    let mut mem = PhysMemory::new();
    let mut owners = PageOwners::new();
    init(&mut owners);
    let mut p = fresh_process(&mut alloc, &mut mem);
    p.address_space.add_vma(VMA::new(0x1000_0000, 0x1000_1000, VMAFlags::rw(), VMAKind::Anonymous)).unwrap();
    let mut f = tiny_elf();
    f[0] = 0;
    assert_eq!(exec_image(&mut p, &f, &[], &[], [0u8; 16], &mut alloc, &mut mem, &mut owners).err(), Some(-8));
    assert!(p.address_space.vmas.is_empty());
}
