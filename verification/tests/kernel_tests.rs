use ferrum::allocator::{BuddyAllocator, PhysAddr};
use ferrum::fd::{FdTable, OpenFiles};
use ferrum::page_owner::{init, PageOwners};
use ferrum::paging::{PageAllocator, PageFlags, PageTableManager, PhysMemory, KERNEL_VIRT_BASE};
use ferrum::pipe::PipeTable;
use ferrum::process::{
    fork_current, schedule, user_entry_frame, Context, Process, ProcessState, Scheduler, WaitStep,
};
use ferrum::sys::{
    clock_resolution, futex_step, random_bytes, time_secs, timespec_from_ticks, wait4_reply, FutexStep, WaitReply,
};
use ferrum::syscall::{current_pid, current_ppid, decode_syscall, Syscall};

/// The flag bits of the last-level entry that maps `v`.
fn last_level_bits(mem: &PhysMemory, pml4: u64, v: u64) -> u64 {
    let mut t = pml4;
    for shift in [39u64, 30, 21] {
        t = mem.read_entry(t, ((v >> shift) & 0x1ff) as usize).phys_addr().as_u64();
    }
    mem.read_entry(t, ((v >> 12) & 0x1ff) as usize).flags().bits()
}
use ferrum::vma::{AddressSpace, VMAFlags, VMAKind, VMA};

fn frames() -> BuddyAllocator {
    let mut a = BuddyAllocator::new();
    a.add_region(PhysAddr::new(0x10_0000), 0x40_0000);
    a
}

#[test]
fn freed_pages_and_tables_go_back() {
    let mut alloc = frames();
    let mut mem = PhysMemory::new();
    let mut pt = PageTableManager::new(&mut alloc, &mut mem).unwrap();
    let before = alloc.dump();
    let page = alloc.alloc_page().unwrap();
    let flags = PageFlags::present().union(PageFlags::writable()).union(PageFlags::user());
    pt.map(0x4000_0000, page, flags, &mut alloc, &mut mem).unwrap();
    assert_ne!(alloc.dump(), before);
    // The three tables below the root go back, then the page itself.
    pt.free_user_tables(&mut alloc, &mut mem);
    assert_eq!(pt.translate(0x4000_0000, &mem), None);
    alloc.free_page(page);
    assert_eq!(alloc.dump(), before);
}

#[test]
fn syscall_numbers() {
    assert_eq!(decode_syscall(0), Syscall::Read);
    assert_eq!(decode_syscall(1), Syscall::Write);
    assert_eq!(decode_syscall(4), Syscall::Stat);
    assert_eq!(decode_syscall(6), Syscall::Stat);
    assert_eq!(decode_syscall(56), Syscall::Fork);
    assert_eq!(decode_syscall(57), Syscall::Fork);
    assert_eq!(decode_syscall(231), Syscall::Exit);
    assert_eq!(decode_syscall(40), Syscall::Answer(-22));
    assert_eq!(decode_syscall(107), Syscall::Answer(0));
    assert_eq!(decode_syscall(267), Syscall::Answer(-2));
    assert_eq!(decode_syscall(332), Syscall::Answer(-38));
    assert_eq!(decode_syscall(9999), Syscall::Answer(-38));
    assert_eq!(decode_syscall(318), Syscall::Getrandom);
}

#[test]
fn time_random_futex_wait() {
    assert_eq!(time_secs(250), 2);
    assert_eq!(timespec_from_ticks(123), (1, 230_000_000));
    assert_eq!(clock_resolution(), (0, 10_000_000));
    let seed = 0x0807_0605_0403_0201u64;
    let r = random_bytes(seed, 10);
    let expect: Vec<u8> = (0..10usize)
        .map(|i| seed.to_le_bytes()[i % 8].wrapping_add(i as u8).wrapping_mul(0x6d))
        .collect();
    assert_eq!(r, expect);
    assert_eq!(r[0], 0x6d);
    assert_eq!(futex_step(0x80), FutexStep::YieldThenAgain);
    assert_eq!(futex_step(1), FutexStep::Answer(0));
    assert_eq!(futex_step(5), FutexStep::Answer(-38));
    assert_eq!(
        wait4_reply(WaitStep::Reaped { pid: 4, status: 0x100 }, 0),
        WaitReply::Done { ret: 4, status: Some(0x100) }
    );
    assert_eq!(wait4_reply(WaitStep::NoChild, 1), WaitReply::Done { ret: -10, status: None });
    assert_eq!(wait4_reply(WaitStep::NotYet, 1), WaitReply::Done { ret: 0, status: None });
    assert_eq!(wait4_reply(WaitStep::NotYet, 0), WaitReply::Block);
}

#[test]
fn new_processes() {
    let mut alloc = frames();
    let mut mem = PhysMemory::new();
    let mut owners = PageOwners::new();
    init(&mut owners);
    let kernel = PageTableManager::new(&mut alloc, &mut mem).unwrap();
    let mut files = OpenFiles::new();
    let (k, word) = Process::new_kernel(5, 0x1234, kernel.pml4_phys(), 0x9000, 0x1000, &mut files);
    assert_eq!(word, KERNEL_VIRT_BASE + 0x1234);
    assert_eq!((k.pid, k.state, k.context.rsp, k.kernel_stack_top), (5, ProcessState::Ready, 0x9ff8, 0xa000));
    assert_eq!(k.pml4_phys(), kernel.pml4_phys());
    assert_eq!(files.files.len(), 3);
    assert_eq!(k.fd_table.get(2), Some(2));

    let u = Process::new_user(
        6, 0x40_0000, kernel.pml4_phys(), 0x20_0000, 0x8000, 0x7fff_0000, 4, &mut alloc, &mut mem, &mut owners,
        &mut files,
    )
    .expect("a user process");
    assert_eq!((u.context.rsp, u.kernel_stack_top), (0x20_8000 - 48, 0x20_8000));
    assert_ne!(u.pml4_phys(), kernel.pml4_phys());
    assert!(u.address_space.page_table.translate(0x7fff_0000 - 8, &mem).is_some());
    assert!(u.address_space.page_table.translate(0x7fff_0000 - 5 * 4096, &mem).is_none());
    // The stack pages are distinct, and present, writable, user and not executable.
    let mut seen = Vec::new();
    for k in 1..=4u64 {
        let v = 0x7fff_0000 - k * 4096;
        let f = u.address_space.page_table.translate(v, &mem).expect("a stack page");
        assert!(!seen.contains(&f.as_u64()));
        seen.push(f.as_u64());
        assert_eq!(last_level_bits(&mem, u.pml4_phys().as_u64(), v), 0x8000_0000_0000_0007);
    }
    assert_eq!(u.fd_table.get(0), Some(3));
    // The stack must fit below its top.
    assert!(Process::new_user(
        7, 0, kernel.pml4_phys(), 0x20_0000, 0x8000, 0x2000, 4, &mut alloc, &mut mem, &mut owners, &mut files
    )
    .is_none());

    let pt = PageTableManager::new_user(kernel.pml4_phys(), &mut alloc, 8, &mut owners, &mut mem).unwrap();
    let space = AddressSpace::new(pt, 8);
    let (p, img) = Process::new_user_with_address_space(
        8,
        0x40_1000,
        0x30_0000,
        0x8000,
        None,
        0x7fff_0000,
        2,
        &["/init".to_string()],
        &["PATH=/".to_string()],
        [0u8; 16],
        space,
        &mut alloc,
        &mut mem,
        &mut files,
    )
    .expect("a user process");
    assert_eq!(p.address_space.vmas.len(), 1);
    let v = &p.address_space.vmas[0];
    assert_eq!((v.start, v.end, v.kind), (0x7fff_0000 - 0x2000, 0x7fff_0000, VMAKind::Stack));
    assert_eq!(v.flags, VMAFlags::rw());
    assert_eq!(img.rsp % 16, 0);
    assert_eq!(img.words[0], 1);
    assert_eq!(img.blobs[0], (0x7fff_0000 - 7, b"PATH=/\0".to_vec()));
    assert_eq!(user_entry_frame(0x23, 0x1b, img.rsp, 0x40_1000, 0x5555), vec![0x1b, img.rsp, 0x202, 0x23, 0x40_1000, 0x5555]);
}

#[test]
fn fork_of_the_current_process() {
    let mut alloc = frames();
    let mut mem = PhysMemory::new();
    let mut owners = PageOwners::new();
    init(&mut owners);
    let kernel = PageTableManager::new(&mut alloc, &mut mem).unwrap();
    let pt = PageTableManager::new_user(kernel.pml4_phys(), &mut alloc, 1, &mut owners, &mut mem).unwrap();
    let mut files = OpenFiles::new();
    let mut parent = Process {
        pid: 1,
        parent_pid: 0,
        state: ProcessState::Ready,
        exit_code: 0,
        context: Context::zero(),
        kernel_stack_alloc: None,
        kernel_stack_top: 0,
        address_space: AddressSpace::new(pt, 1),
        fd_table: FdTable::new_stdio(&mut files),
        fs_base: 7,
        brk_start: 0,
        brk_current: 0,
        cwd: "/".to_string(),
    };
    parent.address_space.add_vma(VMA::new(0x40_0000, 0x40_1000, VMAFlags::rw(), VMAKind::Anonymous)).unwrap();
    let mut s = Scheduler::new();
    let mut pipes = PipeTable::new();
    // Nothing is current: the empty slot cannot fork.
    assert_eq!(
        fork_current(&mut s, kernel.pml4_phys(), 0x10_0000, 0x1000, &mut alloc, &mut mem, &mut owners, &files, &mut pipes)
            .err(),
        Some(-12)
    );
    s.add_process(parent, &mut alloc, &mut mem, &mut owners).unwrap();
    schedule(&mut s);
    assert_eq!(current_pid(&s, 0), 1);
    assert_eq!(current_ppid(&s), 0);
    let (pid, top, copies) =
        fork_current(&mut s, kernel.pml4_phys(), 0x10_0000, 0x1000, &mut alloc, &mut mem, &mut owners, &files, &mut pipes)
            .expect("a child");
    assert_eq!(pid, 2);
    assert!(copies.is_empty());
    assert!(top > KERNEL_VIRT_BASE);
    let child = s.processes[1].as_ref().unwrap();
    assert_eq!((child.pid, child.parent_pid, child.fs_base, child.kernel_stack_top), (2, 1, 7, top));
    assert_eq!(current_pid(&Scheduler::new(), 9), 9);
}
