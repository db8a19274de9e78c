use ferrum::allocator::{BuddyAllocator, PhysAddr};
use ferrum::fd::{FdTable, OpenFiles};
use ferrum::page_owner::{init, PageOwners};
use ferrum::paging::{PageTableManager, PhysMemory, KERNEL_VIRT_BASE};
use ferrum::pipe::PipeTable;
use ferrum::process::{
    exit_current, schedule, wait4_step, Context, Process, ProcessState, ScheduleAction, Scheduler, SwitchFrom,
    WaitStep, KERNEL_STACK_SIZE,
};
use ferrum::vma::{AddressSpace, VMAFlags, VMAKind, VMA};

struct World {
    alloc: BuddyAllocator,
    mem: PhysMemory,
    owners: PageOwners,
}

fn world() -> World {
    let mut alloc = BuddyAllocator::new();
    alloc.add_region(PhysAddr::new(0x10_0000), 0x40_0000);
    let mut owners = PageOwners::new();
    init(&mut owners);
    World { alloc, mem: PhysMemory::new(), owners }
}

fn process(w: &mut World, pid: u64, parent: u64, state: ProcessState) -> Process {
    let pt = PageTableManager::new(&mut w.alloc, &mut w.mem).unwrap();
    let mut files = OpenFiles::new();
    Process {
        pid,
        parent_pid: parent,
        state,
        exit_code: 0,
        context: Context::zero(),
        kernel_stack_alloc: None,
        kernel_stack_top: 0x1000 * pid,
        address_space: AddressSpace::new(pt, pid),
        fd_table: FdTable::new_stdio(&mut files),
        fs_base: 0,
        brk_start: 0,
        brk_current: 0,
        cwd: "/".to_string(),
    }
}

fn add(s: &mut Scheduler, w: &mut World, pid: u64, parent: u64, state: ProcessState) {
    let p = process(w, pid, parent, state);
    assert!(s.add_process(p, &mut w.alloc, &mut w.mem, &mut w.owners).is_some());
}

fn states(s: &Scheduler) -> Vec<Option<ProcessState>> {
    s.processes.iter().map(|p| p.as_ref().map(|p| p.state)).collect()
}

#[test]
fn schedule_switches_round_the_ready_processes() {
    let mut w = world();
    let mut s = Scheduler::new();
    add(&mut s, &mut w, 1, 0, ProcessState::Ready);
    add(&mut s, &mut w, 2, 0, ProcessState::Ready);
    let pml4_1 = s.processes[0].as_ref().unwrap().pml4_phys().as_u64();
    let pml4_2 = s.processes[1].as_ref().unwrap().pml4_phys().as_u64();

    // The first pick switches away from the idle context.
    assert_eq!(
        schedule(&mut s),
        ScheduleAction::Switch { from: SwitchFrom::Idle, to: 0, pml4: pml4_1, kernel_stack_top: 0x1000 }
    );
    assert_eq!(states(&s), vec![Some(ProcessState::Running), Some(ProcessState::Ready)]);
    // The running process goes back to ready and the next one runs.
    assert_eq!(
        schedule(&mut s),
        ScheduleAction::Switch { from: SwitchFrom::Slot(0), to: 1, pml4: pml4_2, kernel_stack_top: 0x2000 }
    );
    assert_eq!(states(&s), vec![Some(ProcessState::Ready), Some(ProcessState::Running)]);
    assert_eq!(s.current_idx(), 1);
}

#[test]
fn schedule_stays_with_the_only_process() {
    let mut w = world();
    let mut s = Scheduler::new();
    add(&mut s, &mut w, 1, 0, ProcessState::Ready);
    assert!(matches!(schedule(&mut s), ScheduleAction::Switch { .. }));
    // No other process was ready: the running one is put back to ready and
    // goes on.
    assert_eq!(schedule(&mut s), ScheduleAction::Stay);
    assert_eq!(states(&s), vec![Some(ProcessState::Ready)]);
    // Now it is ready, so the next decision picks it again.
    assert_eq!(schedule(&mut s), ScheduleAction::Stay);
    assert_eq!(states(&s), vec![Some(ProcessState::Running)]);
}

#[test]
fn schedule_without_ready_process() {
    let mut s = Scheduler::new();
    assert_eq!(schedule(&mut s), ScheduleAction::Stay);
    let mut w = world();
    add(&mut s, &mut w, 1, 0, ProcessState::Ready);
    schedule(&mut s);
    // The current process exits; nothing else can run.
    exit_current(&mut s, 3);
    assert_eq!(schedule(&mut s), ScheduleAction::ToIdle(SwitchFrom::Slot(0)));
    assert_eq!(states(&s), vec![Some(ProcessState::Dead)]);
}

#[test]
fn exit_marks_the_current_process_dead() {
    let mut w = world();
    let mut s = Scheduler::new();
    // Nothing is current yet: nothing changes.
    add(&mut s, &mut w, 1, 0, ProcessState::Ready);
    exit_current(&mut s, 5);
    assert_eq!(states(&s), vec![Some(ProcessState::Ready)]);
    schedule(&mut s);
    exit_current(&mut s, 5);
    let p = s.processes[0].as_ref().unwrap();
    assert_eq!((p.state, p.exit_code), (ProcessState::Dead, 5));
}

#[test]
fn wait4_reaps_dead_children() {
    let mut w = world();
    let mut s = Scheduler::new();
    add(&mut s, &mut w, 1, 0, ProcessState::Running);
    add(&mut s, &mut w, 2, 1, ProcessState::Ready);
    add(&mut s, &mut w, 3, 1, ProcessState::Ready);
    assert_eq!(wait4_step(&mut s, 1, -1, &mut w.alloc, &mut w.mem, &mut w.owners), WaitStep::NotYet);
    assert_eq!(wait4_step(&mut s, 2, -1, &mut w.alloc, &mut w.mem, &mut w.owners), WaitStep::NoChild);
    {
        let child = s.processes[2].as_mut().unwrap();
        child.state = ProcessState::Dead;
        child.exit_code = 7;
    }
    // Waiting for pid 2 only: it is alive.
    assert_eq!(wait4_step(&mut s, 1, 2, &mut w.alloc, &mut w.mem, &mut w.owners), WaitStep::NotYet);
    assert_eq!(
        wait4_step(&mut s, 1, -1, &mut w.alloc, &mut w.mem, &mut w.owners),
        WaitStep::Reaped { pid: 3, status: 7 << 8 }
    );
    assert!(s.processes[2].is_none());
    assert_eq!(wait4_step(&mut s, 1, 3, &mut w.alloc, &mut w.mem, &mut w.owners), WaitStep::NoChild);
}

#[test]
fn fork_copies_pages_and_state() {
    let mut w = world();
    let kernel = PageTableManager::new(&mut w.alloc, &mut w.mem).unwrap();
    let pt = PageTableManager::new_user(kernel.pml4_phys(), &mut w.alloc, 1, &mut w.owners, &mut w.mem).unwrap();
    let mut files = OpenFiles::new();
    let mut parent = Process {
        pid: 1,
        parent_pid: 0,
        state: ProcessState::Running,
        exit_code: 0,
        context: Context::zero(),
        kernel_stack_alloc: None,
        kernel_stack_top: 0,
        address_space: AddressSpace::new(pt, 1),
        fd_table: FdTable::new_stdio(&mut files),
        fs_base: 0x1234,
        brk_start: 0x60_0000,
        brk_current: 0x60_0000,
        cwd: "/bin".to_string(),
    };
    parent.address_space.add_vma(VMA::new(0x40_0000, 0x40_2000, VMAFlags::rw(), VMAKind::Anonymous)).unwrap();
    parent.address_space.handle_page_fault(0x40_0010, &mut w.alloc, &mut w.mem, &mut w.owners).unwrap();
    let parent_page = parent.address_space.page_table.translate(0x40_0000, &w.mem).unwrap();
    let mut pipes = PipeTable::new();

    let (child, copies) = parent
        .fork(2, kernel.pml4_phys(), 0x10_0000, 0x1000, &mut w.alloc, &mut w.mem, &mut w.owners, &files, &mut pipes)
        .expect("a child");
    assert_eq!((child.pid, child.parent_pid, child.state), (2, 1, ProcessState::Ready));
    assert_eq!((child.fs_base, child.brk_start, child.brk_current), (0x1234, 0x60_0000, 0x60_0000));
    assert_eq!(child.cwd, "/");
    let (kstack, order) = child.kernel_stack_alloc.unwrap();
    assert_eq!(order, 3);
    let top = KERNEL_VIRT_BASE + kstack.as_u64() + KERNEL_STACK_SIZE;
    assert_eq!(child.kernel_stack_top, top);
    assert_eq!((child.context.rbp, child.context.rsp), (top - 128, top - 136));
    // One page was mapped in the parent: it is copied to a fresh page.
    assert_eq!(copies.len(), 1);
    assert_eq!(copies[0].src, parent_page.as_u64());
    let child_page = child.address_space.page_table.translate(0x40_0000, &w.mem).unwrap();
    assert_eq!(copies[0].dst, child_page.as_u64());
    assert_ne!(child_page, parent_page);
    // The same areas.
    assert_eq!(child.address_space.vmas.len(), 1);
    assert_eq!((child.address_space.vmas[0].start, child.address_space.vmas[0].end), (0x40_0000, 0x40_2000));
    // The unmapped second page stays unmapped.
    assert_eq!(child.address_space.page_table.translate(0x40_1000, &w.mem), None);
}

#[test]
fn every_ready_process_runs_within_as_many_picks_as_slots() {
    let mut w = world();
    let mut s = Scheduler::new();
    for pid in 1..=3 {
        add(&mut s, &mut w, pid, 0, ProcessState::Ready);
    }
    schedule(&mut s);
    assert_eq!(s.current_idx(), 0);
    // Slot 0 runs now; whatever is current, each slot runs within 3 picks.
    let mut seen = vec![false; 3];
    seen[s.current_idx()] = true;
    for _ in 0..3 {
        schedule(&mut s);
        seen[s.current_idx()] = true;
    }
    assert_eq!(seen, vec![true, true, true]);
    assert_eq!(s.current_idx(), 0);
}
