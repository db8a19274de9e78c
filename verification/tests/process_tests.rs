use ferrum::allocator::{BuddyAllocator, PhysAddr};
use ferrum::fd::{FdTable, OpenFiles};
use ferrum::page_owner::{init, PageOwners};
use ferrum::paging::{PageTableManager, PhysMemory};
use ferrum::process::{Context, Process, ProcessState, Scheduler};
use ferrum::vma::AddressSpace;

struct World {
    alloc: BuddyAllocator,
    mem: PhysMemory,
    owners: PageOwners,
}

fn world() -> World {
    let mut alloc = BuddyAllocator::new();
    alloc.add_region(PhysAddr::new(0x10_0000), 0x40_0000);
    let mut owners = PageOwners::new();
    init(&mut owners);
    World { alloc, mem: PhysMemory::new(), owners }
}

fn process(w: &mut World, pid: u64, state: ProcessState) -> Process {
    let pt = PageTableManager::new(&mut w.alloc, &mut w.mem).unwrap();
    let mut files = OpenFiles::new();
    let mut context = Context::zero();
    context.rsp = 0x1000 * pid;
    Process {
        pid,
        parent_pid: 0,
        state,
        exit_code: 0,
        context,
        kernel_stack_alloc: None,
        kernel_stack_top: 0,
        address_space: AddressSpace::new(pt, pid),
        fd_table: FdTable::new_stdio(&mut files),
        fs_base: 0,
        brk_start: 0,
        brk_current: 0,
        cwd: "/".to_string(),
    }
}

fn add(s: &mut Scheduler, w: &mut World, pid: u64, state: ProcessState) {
    let p = process(w, pid, state);
    assert!(s.add_process(p, &mut w.alloc, &mut w.mem, &mut w.owners).is_some());
}

#[test]
fn context_starts_zeroed() {
    let c = Context::zero();
    assert_eq!((c.rbx, c.rbp, c.r12, c.r13, c.r14, c.r15, c.rsp), (0, 0, 0, 0, 0, 0, 0));
}

#[test]
fn empty_scheduler_has_nothing_to_run() {
    let mut s = Scheduler::new();
    assert!(s.current().is_none());
    assert!(s.current_mut().is_none());
    assert!(s.next_process().is_none());
    assert_eq!(s.alloc_pid(), 1);
    assert!(s.dump_state().is_empty());
}

#[test]
fn preemptive_scheduling_goes_round_the_ready_processes() {
    let mut w = world();
    let mut s = Scheduler::new();
    add(&mut s, &mut w, 1, ProcessState::Ready);
    add(&mut s, &mut w, 2, ProcessState::Blocked);
    add(&mut s, &mut w, 3, ProcessState::Ready);
    assert_eq!(s.alloc_pid(), 4);
    // Before the first pick nothing is current.
    assert!(s.current_mut().is_none());
    let mut picked = Vec::new();
    for _ in 0..4 {
        let p = s.next_process().expect("a ready process");
        picked.push(p.pid);
    }
    assert_eq!(picked, vec![1, 3, 1, 3]);
    assert_eq!(s.current().map(|p| p.pid), Some(3));
    assert_eq!(s.current_idx(), 2);
    // The current process may change its own state.
    s.current_mut().unwrap().state = ProcessState::Blocked;
    assert_eq!(s.next_process().map(|p| p.pid), Some(1));
    s.current_mut().unwrap().state = ProcessState::Dead;
    assert!(s.next_process().is_none());
}

#[test]
fn dead_slots_are_reused() {
    let mut w = world();
    let mut s = Scheduler::new();
    add(&mut s, &mut w, 1, ProcessState::Ready);
    add(&mut s, &mut w, 2, ProcessState::Dead);
    add(&mut s, &mut w, 3, ProcessState::Ready);
    assert_eq!(s.processes.len(), 2);
    let lines = s.dump_state();
    assert_eq!(lines.len(), 2);
    assert_eq!((lines[0].0, lines[0].1, lines[0].3), (0, 1, 0x1000));
    assert_eq!((lines[1].0, lines[1].1, lines[1].3), (1, 3, 0x3000));
    assert!(lines.iter().all(|l| l.2 == ProcessState::Ready));
}
