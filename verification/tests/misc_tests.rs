use ferrum::allocator::{BuddyAllocator, PhysAddr};
use ferrum::apic::{
    base_from_msr, busy_wait_ms, calibrate_timer, calibrate_timer_finish, id, init, init_timer, reload_higher_half,
    send_eoi, send_sipi, trampoline_phys, LapicOp, LAPIC_EOI, LAPIC_ICR_HIGH, LAPIC_ICR_LOW, LAPIC_SVR, LAPIC_TIMER,
    LAPIC_TIMER_DIV, LAPIC_TIMER_INIT, LAPIC_TPR,
};
use ferrum::boot::add_region_excluding;
use ferrum::page_owner::{init as init_owners, PageOwners};
use ferrum::paging::{PageFlags, PageTableManager, PhysMemory, KERNEL_VIRT_BASE};
use ferrum::process::{Context, Process, ProcessState, Scheduler};
use ferrum::fd::{FdTable, OpenFiles};
use ferrum::syscall::{resolve_path, write_to_user, write_to_user_via_pt, SyscallFrame, UserChunk};
use ferrum::paging::{boot_stack_phys_base, paging_plan, MappingKind, MemoryRegion, LAPIC_PHYS};
use ferrum::text::chars_of;
use ferrum::userland::{strlen, trim, write_num};
use ferrum::vma::AddressSpace;

#[test]
fn resolve_path_handles_dots_and_slashes() {
    assert_eq!(resolve_path("/home/user", "docs/a.txt"), "/home/user/docs/a.txt");
    assert_eq!(resolve_path("/home/user", "/etc//motd"), "/etc/motd");
    assert_eq!(resolve_path("/home/user", "../other/./x"), "/home/other/x");
    assert_eq!(resolve_path("/", "../../.."), "/");
    assert_eq!(resolve_path("/a/b", ""), "/a/b");
    assert_eq!(resolve_path("/a/b", "."), "/a/b");
    assert_eq!(resolve_path("a//b/", "c"), "/a/b/c");
}

#[test]
fn write_num_prints_decimal() {
    assert_eq!(write_num(0), b"0".to_vec());
    assert_eq!(write_num(7), b"7".to_vec());
    assert_eq!(write_num(1234567890), b"1234567890".to_vec());
    assert_eq!(write_num(-42), b"-42".to_vec());
    assert_eq!(write_num(i64::MAX), b"9223372036854775807".to_vec());
    assert_eq!(write_num(i64::MIN + 1), b"-9223372036854775807".to_vec());
}

#[test]
fn trim_drops_trailing_line_ends_spaces_and_nuls() {
    assert_eq!(trim(b"echo hi\r\n"), b"echo hi");
    assert_eq!(trim(b"ls \0\0"), b"ls");
    assert_eq!(trim(b"  x"), b"  x");
    assert_eq!(trim(b"\n\n"), b"");
    assert_eq!(trim(b""), b"");
}

#[test]
fn strlen_counts_to_the_first_nul() {
    assert_eq!(strlen(b"abc\0def\0"), 3);
    assert_eq!(strlen(b"\0"), 0);
}

#[test]
fn chars_of_splits_text() {
    assert_eq!(chars_of("añb"), vec!['a', 'ñ', 'b']);
    assert!(chars_of("").is_empty());
}

#[test]
fn lapic_programs() {
    assert_eq!(base_from_msr(0xfee0_0900, 0), 0xfee0_0000);
    assert_eq!(base_from_msr(0x1000_0abc, 0x1), 0x1_1000_0000);
    assert_eq!(id(0x0300_0000), 3);
    assert_eq!(init(0x0000_0010), vec![LapicOp::Write(LAPIC_SVR, 0x1ff), LapicOp::Write(LAPIC_TPR, 0)]);
    assert_eq!(send_eoi(), LapicOp::Write(LAPIC_EOI, 0));
    assert_eq!(
        init_timer(0x20),
        vec![
            LapicOp::Write(LAPIC_TIMER_DIV, 3),
            LapicOp::Write(LAPIC_TIMER, 0x2_0020),
            LapicOp::Write(LAPIC_TIMER_INIT, 625_000),
        ]
    );
    assert_eq!(
        calibrate_timer(0x21),
        vec![
            LapicOp::Write(LAPIC_TIMER_DIV, 3),
            LapicOp::Write(LAPIC_TIMER, 0x21),
            LapicOp::Write(LAPIC_TIMER_INIT, 0xffff_ffff),
        ]
    );
    let (counts, ops) = calibrate_timer_finish(0x20, 0xffff_ffff, 0xfff0_0000);
    assert_eq!(counts, 0xf_ffff);
    assert_eq!(ops, vec![LapicOp::Write(LAPIC_TIMER, 0x2_0020), LapicOp::Write(LAPIC_TIMER_INIT, 0xf_ffff)]);
    let (wrapped, _) = calibrate_timer_finish(0x20, 5, 0xffff_fffe);
    assert_eq!(wrapped, 7);
    let sipi = send_sipi(2, 8);
    assert_eq!(sipi.len(), 12);
    assert_eq!(sipi[0], LapicOp::Write(LAPIC_ICR_HIGH, 0x0200_0000));
    assert_eq!(sipi[1], LapicOp::Write(LAPIC_ICR_LOW, 0xc500));
    assert_eq!(sipi[2], LapicOp::WaitMs(10));
    assert_eq!(sipi[4], LapicOp::Write(LAPIC_ICR_LOW, 0x8500));
    assert_eq!(sipi[7], LapicOp::Write(LAPIC_ICR_LOW, 0x4608));
    assert_eq!(sipi[11], LapicOp::WaitMs(1));
    assert_eq!(busy_wait_ms(3, 0), 3_000_000);
    assert_eq!(busy_wait_ms(3, 1), 1_500_000);
    assert_eq!(trampoline_phys(), 8);
    assert_eq!(reload_higher_half(0xfee0_0000), KERNEL_VIRT_BASE + 0xfee0_0000);
}

#[test]
fn add_region_excluding_skips_reserved_ranges() {
    let mut a = BuddyAllocator::new();
    add_region_excluding(&mut a, 0x10_0000, 0x20_0000, &[(0x14_0000, 0x18_0000)]);
    // [1 MiB, 1.25 MiB) and [1.5 MiB, 2 MiB) stay.
    assert_eq!(a.dump(), vec![(6, 1), (7, 1)]);
    let mut b = BuddyAllocator::new();
    add_region_excluding(&mut b, 0x10_0000, 0x10_4000, &[(0x0, 0x10_1000), (0x10_3000, 0x30_0000)]);
    assert_eq!(b.dump(), vec![(0, 2)]);
    let mut c = BuddyAllocator::new();
    add_region_excluding(&mut c, 0x10_0000, 0x10_4000, &[(0x10_0000, 0x10_4000)]);
    assert!(c.dump().is_empty());
}

#[test]
fn writes_to_user_memory_are_planned_page_by_page() {
    let mut alloc = BuddyAllocator::new();
    alloc.add_region(PhysAddr::new(0x10_0000), 0x40_0000);
    let mut mem = PhysMemory::new();
    let mut owners = PageOwners::new();
    init_owners(&mut owners);
    let mut pt = PageTableManager::new(&mut alloc, &mut mem).unwrap();
    let flags = PageFlags::present().union(PageFlags::writable()).union(PageFlags::user());
    pt.map(0x40_0000, PhysAddr::new(0x80_0000), flags, &mut alloc, &mut mem).unwrap();
    pt.map(0x40_1000, PhysAddr::new(0x90_0000), flags, &mut alloc, &mut mem).unwrap();

    let (chunks, ok) = write_to_user_via_pt(&pt, &mem, 0x40_0ff0, 0x20);
    assert!(ok);
    assert_eq!(
        chunks,
        vec![
            UserChunk { phys: 0x80_0000, page_offset: 0xff0, data_offset: 0, len: 0x10 },
            UserChunk { phys: 0x90_0000, page_offset: 0, data_offset: 0x10, len: 0x10 },
        ]
    );
    let (part, ok2) = write_to_user_via_pt(&pt, &mem, 0x40_1ff8, 0x10);
    assert!(!ok2);
    assert_eq!(part, vec![UserChunk { phys: 0x90_0000, page_offset: 0xff8, data_offset: 0, len: 8 }]);
    let (none, ok3) = write_to_user_via_pt(&pt, &mem, 0x40_0000, 0);
    assert!(ok3 && none.is_empty());

    let mut sched = Scheduler::new();
    assert_eq!(write_to_user(&sched, &mem, 0x40_0000, 4), (Vec::new(), false));
    let mut files = OpenFiles::new();
    let p = Process {
        pid: 1,
        parent_pid: 0,
        state: ProcessState::Ready,
        exit_code: 0,
        context: Context::zero(),
        kernel_stack_alloc: None,
        kernel_stack_top: 0,
        address_space: AddressSpace::new(pt, 1),
        fd_table: FdTable::new_stdio(&mut files),
        fs_base: 0,
        brk_start: 0,
        brk_current: 0,
        cwd: "/".to_string(),
    };
    sched.add_process(p, &mut alloc, &mut mem, &mut owners).unwrap();
    sched.next_process().unwrap();
    let (c, ok4) = write_to_user(&sched, &mem, 0x40_0010, 4);
    assert!(ok4);
    assert_eq!(c, vec![UserChunk { phys: 0x80_0000, page_offset: 0x10, data_offset: 0, len: 4 }]);
}

fn frame() -> SyscallFrame {
    SyscallFrame {
        r15: 15, r14: 14, r13: 13, r12: 12, rbp: 5, rbx: 3, r9: 9, r8: 8, r10: 10,
        rdx: 2, rsi: 4, rdi: 6, rax: 57, user_rsp: 0x7000, r11: 0x246, rcx: 0x40_1234,
    }
}

#[test]
fn exec_resets_the_saved_registers() {
    let mut f = frame();
    f.reset_for_exec(0x40_0010, 0x7fff_0000);
    assert_eq!(
        f,
        SyscallFrame {
            r15: 0, r14: 0, r13: 0, r12: 0, rbp: 0, rbx: 0, r9: 0, r8: 0, r10: 0,
            rdx: 0, rsi: 0, rdi: 0, rax: 0, user_rsp: 0x7fff_0000, r11: 0x202, rcx: 0x40_0010,
        }
    );
}

#[test]
fn forked_child_sees_fork_return_zero() {
    let f = frame();
    let c = f.for_child();
    assert_eq!(c.rax, 0);
    assert_eq!(SyscallFrame { rax: 57, ..c }, f);
}

#[test]
fn boot_stack_base_is_a_page_one_mib_below() {
    assert_eq!(boot_stack_phys_base(0x80_5678), 0x70_5000);
    assert_eq!(boot_stack_phys_base(0x8_0000), 0);
}

#[test]
fn boot_plan_lists_identity_then_higher_half() {
    let regions = [MemoryRegion { start: 0x10_0000, size: 0x4000 }, MemoryRegion { start: 0x4000_0000, size: 0x1000 }];
    let plan = paging_plan(&regions, 0x80_5678);
    let got: Vec<(MappingKind, u64, u64)> = plan.iter().map(|m| (m.kind, m.start, m.size)).collect();
    assert_eq!(
        got,
        vec![
            (MappingKind::Identity, 0x10_0000, 0x4000),
            (MappingKind::Identity, 0x4000_0000, 0x1000),
            (MappingKind::Identity, LAPIC_PHYS, 0x1000),
            (MappingKind::Identity, 0, 0x1_0000),
            (MappingKind::HigherHalf, 0x10_0000, 0x4000),
            (MappingKind::HigherHalf, 0x4000_0000, 0x1000),
            (MappingKind::HigherHalf, LAPIC_PHYS, 0x1000),
            (MappingKind::HigherHalf, 0x70_5000, 0x20_0000),
        ]
    );
}
