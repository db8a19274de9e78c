//! Processes and the scheduler's process table.

use vstd::prelude::*;
use vstd::arithmetic::power2::lemma2_to64;
use crate::allocator::{BuddyAllocator, PhysAddr, first_nonempty, in_block, MAX_ORDER, PHYS_LIMIT};
use crate::fd::{FdTable, OpenFiles, room_for_refs, end_refs, serial_desc};
use crate::page_owner::{Pid, PageOwners};
use crate::paging::{PageTable, translate_spec, leaf_flags, page_given_back, is_tree, huge_on_path, PhysMemory, PageTableManager, PageAllocator, PageFlags, phys_to_virt, ensure_virt, sync_higher_half, map_kernel_image, KERNEL_VIRT_BASE};
use crate::exec::{StackImage, build_argv_envp_stack, stack_fits, stack_image_ok, texts};
use crate::pipe::PipeTable;
use crate::heap::direct_mapped;
use crate::vma::{AddressSpace, VMA, VMAFlags, VMAKind, add_conflict, ends_fit, vmas_wf, all_nonempty, covers_as, add_vma_spec, lemma_copy_area, lemma_add_ends_fit};

verus! {

/// The registers that a context switch saves and restores.
#[derive(Debug, Clone, Copy, PartialEq, Eq, Structural)]
pub struct Context {
    pub rbx: u64,
    pub rbp: u64,
    pub r12: u64,
    pub r13: u64,
    pub r14: u64,
    pub r15: u64,
    pub rsp: u64,
}

impl Context {
    pub fn zero() -> (r: Self)
        ensures
            r == (Context { rbx: 0, rbp: 0, r12: 0, r13: 0, r14: 0, r15: 0, rsp: 0 }),
    {
        Self { rbx: 0, rbp: 0, r12: 0, r13: 0, r14: 0, r15: 0, rsp: 0 }
    }
}

#[derive(Debug, Clone, Copy, PartialEq, Eq, Structural)]
pub enum ProcessState {
    Ready,
    Running,
    Blocked,
    Dead,
}

pub struct Process {
    pub pid: Pid,
    pub parent_pid: Pid,
    pub state: ProcessState,
    pub exit_code: i32,
    pub context: Context,
    pub kernel_stack_alloc: Option<(PhysAddr, usize)>,
    pub kernel_stack_top: u64,
    pub address_space: AddressSpace,
    pub fd_table: FdTable,
    pub fs_base: u64,
    pub brk_start: u64,
    pub brk_current: u64,
    pub cwd: String,
}

impl Process {
    /// Its address space can be torn down.
    pub open spec fn wf(&self) -> bool {
        self.address_space.wf() && ends_fit(self.address_space.vmas@)
    }

    pub fn pml4_phys(&self) -> (r: PhysAddr)
        ensures
            r@ == self.address_space.page_table.pml4(),
    {
        self.address_space.page_table.pml4_phys()
    }
}

/// A slot that `add_process` may fill: empty, or holding a dead process.
pub open spec fn reusable(slot: Option<Process>) -> bool {
    match slot {
        None => true,
        Some(p) => p.state == ProcessState::Dead,
    }
}

/// The lowest reusable slot.
pub open spec fn first_reusable(s: Seq<Option<Process>>) -> Option<int> {
    if exists|i: int| 0 <= i < s.len() && reusable(#[trigger] s[i]) {
        Some(choose|i: int| 0 <= i < s.len() && reusable(#[trigger] s[i]) && forall|j: int| 0 <= j < i ==> !reusable(#[trigger] s[j]))
    } else {
        None
    }
}

/// The slot holds a process that is ready to run.
pub open spec fn ready(slot: Option<Process>) -> bool {
    match slot {
        Some(p) => p.state == ProcessState::Ready,
        None => false,
    }
}

/// The first slot with a ready process, going round from `start`: the
/// number of steps from `start` to it.
pub open spec fn steps_to_ready(s: Seq<Option<Process>>, start: int) -> Option<int> {
    if exists|k: int| 0 <= k < s.len() && ready(#[trigger] s[(start + k) % (s.len() as int)]) {
        Some(choose|k: int| 0 <= k < s.len() && ready(#[trigger] s[(start + k) % (s.len() as int)])
            && forall|j: int| 0 <= j < k ==> !ready(#[trigger] s[(start + j) % (s.len() as int)]))
    } else {
        None
    }
}

pub struct Scheduler {
    pub processes: Vec<Option<Process>>,
    current_idx: usize,
    initialized: bool,
    pub idle_context: Context,
}

impl Scheduler {
    /// The slots of the table.
    pub closed spec fn procs(&self) -> Seq<Option<Process>> {
        self.processes@
    }

    pub closed spec fn idle(&self) -> Context {
        self.idle_context
    }

    pub closed spec fn current_index(&self) -> int {
        self.current_idx as int
    }

    /// Some process has been picked to run.
    pub closed spec fn started(&self) -> bool {
        self.initialized
    }

    /// Once started, the current index names a slot; every process held can
    /// be torn down.
    pub open spec fn wf(&self) -> bool {
        &&& self.started() ==> 0 <= self.current_index() < self.procs().len()
        &&& forall|i: int| 0 <= i < self.procs().len() ==> (#[trigger] self.procs()[i] matches Some(p) ==> p.wf())
    }

    pub fn new() -> (r: Self)
        ensures
            r.wf(),
            r.procs().len() == 0,
            !r.started(),
            r.current_index() == 0,
            r.idle() == (Context { rbx: 0, rbp: 0, r12: 0, r13: 0, r14: 0, r15: 0, rsp: 0 }),
    {
        Self { processes: Vec::new(), current_idx: 0, initialized: false, idle_context: Context::zero() }
    }

    /// Whether some process has been picked to run.
    pub fn is_started(&self) -> (r: bool)
        ensures
            r == self.started(),
    {
        self.initialized
    }

    /// Index of the slot of the current process.
    pub fn current_idx(&self) -> (r: usize)
        ensures
            r == self.current_index(),
    {
        self.current_idx
    }

    /// Puts `p` in the lowest slot that is empty or holds a dead process, or
    /// in a new slot at the end. A dead process found there has its address
    /// space torn down and its kernel stack freed.
    pub fn add_process(
        &mut self,
        p: Process,
        alloc: &mut BuddyAllocator,
        mem: &mut PhysMemory,
        owners: &mut PageOwners,
    ) -> (r: Option<()>)
        requires
            old(self).wf(),
            p.wf(),
            old(alloc).wf(),
        ensures
            r is Some,
            final(self).wf(),
            final(self).current_index() == old(self).current_index(),
            final(self).started() == old(self).started(),
            final(self).idle() == old(self).idle(),
            final(alloc).wf(),
            forall|a: int| #[trigger] old(alloc).is_free(a) ==> final(alloc).is_free(a),
            match first_reusable(old(self).procs()) {
                Some(i) => final(self).procs() == old(self).procs().update(i, Some(p)),
                None => final(self).procs() == old(self).procs().push(Some(p)),
            },
            match first_reusable(old(self).procs()) {
                Some(i) => old(self).procs()[i] matches Some(d) ==> page_given_back(*final(alloc), d.address_space.page_table.pml4()),
                None => true,
            },
    {
        let ghost s = self.processes@;
        let mut i: usize = 0;
        while i < self.processes.len()
            invariant
                i <= self.processes@.len(),
                self.processes@ == s,
                s == old(self).procs(),
                old(self).wf(),
                p.wf(),
                *alloc == *old(alloc),
                alloc.wf(),
                self.current_idx == old(self).current_idx,
                self.initialized == old(self).initialized,
                self.idle_context == old(self).idle_context,
                forall|j: int| 0 <= j < i ==> !reusable(#[trigger] s[j]),
            decreases self.processes@.len() - i,
        {
            let free = match &self.processes[i] {
                None => true,
                Some(existing) => existing.state == ProcessState::Dead,
            };
            if free {
                proof {
                    assert(reusable(s[i as int]));
                    let k = choose|k: int| 0 <= k < s.len() && reusable(#[trigger] s[k]) && forall|j: int| 0 <= j < k ==> !reusable(#[trigger] s[j]);
                    assert(k == i) by {
                        if k < i {
                            assert(!reusable(s[k]));
                        }
                        if k > i {
                            assert(!reusable(s[i as int]));
                        }
                    }
                }
                let mut slot: Option<Process> = None;
                std::mem::swap(&mut slot, &mut self.processes[i]);
                if let Some(mut dead) = slot {
                    if dead.state == ProcessState::Dead {
                        proof {
                            assert(s[i as int] matches Some(q) ==> q.wf());
                        }
                        dead.address_space.destroy(alloc, mem, owners);
                        let ghost a_mid = *alloc;
                        if let Some((kphys, order)) = dead.kernel_stack_alloc {
                            alloc.release(kphys, order);
                        }
                        proof {
                            let t = dead.address_space.page_table.pml4();
                            assert forall|y: int| #[trigger] in_block(y, t, 0) && crate::allocator::block_ok(t, 0) implies alloc.is_free(y) by {
                                assert(a_mid.is_free(y));
                            }
                        }
                    }
                }
                self.processes.set(i, Some(p));
                proof {
                    assert(self.processes@ =~= s.update(i as int, Some(p)));
                    assert forall|j: int| 0 <= j < self.procs().len() implies (#[trigger] self.procs()[j] matches Some(q) ==> q.wf()) by {
                        if j != i {
                            assert(self.procs()[j] == old(self).procs()[j]);
                        }
                    }
                }
                return Some(());
            }
            i = i + 1;
        }
        self.processes.push(Some(p));
        proof {
            lemma_first_reusable(s);
            assert forall|j: int| 0 <= j < self.procs().len() implies (#[trigger] self.procs()[j] matches Some(q) ==> q.wf()) by {
                if j < s.len() {
                    assert(self.procs()[j] == old(self).procs()[j]);
                }
            }
        }
        Some(())
    }

    /// The process in the slot of the current index, if any.
    pub open spec fn current_spec(&self) -> Option<Process> {
        if 0 <= self.current_index() < self.procs().len() {
            self.procs()[self.current_index()]
        } else {
            None
        }
    }

    /// The current process, when the current index names a held slot.
    pub fn current(&self) -> (r: Option<&Process>)
        ensures
            match r {
                Some(q) => self.current_spec() == Some(*q),
                None => self.current_spec() is None,
            },
    {
        let idx = self.current_idx();
        if idx < self.processes.len() {
            self.processes[idx].as_ref()
        } else {
            None
        }
    }

    /// The current process, once some process has been picked.
    pub fn current_mut(&mut self) -> (r: Option<&mut Process>)
        requires
            old(self).wf(),
        ensures
            final(self).current_index() == old(self).current_index(),
            final(self).started() == old(self).started(),
            final(self).idle() == old(self).idle(),
            !old(self).started() ==> r is None && final(self).procs() == old(self).procs(),
            old(self).started() ==> match old(self).procs()[old(self).current_index()] {
                Some(q) => r is Some && *r.unwrap() == q
                    && final(self).procs() == old(self).procs().update(old(self).current_index(), Some(*final(r.unwrap()))),
                None => r is None && final(self).procs() == old(self).procs(),
            },
    {
        if !self.initialized {
            return None;
        }
        let idx = self.current_idx;
        self.processes[idx].as_mut()
    }

    /// Picks the next ready process, going round the table from the slot
    /// after the current one (from slot 0 before the first pick), and makes
    /// it current.
    pub fn next_process(&mut self) -> (r: Option<&mut Process>)
        requires
            old(self).wf(),
        ensures
            final(self).idle() == old(self).idle(),
            ({
                let s = old(self).procs();
                let start = if old(self).started() { (old(self).current_index() + 1) % (s.len() as int) } else { 0 };
                match steps_to_ready(s, start) {
                    Some(k) => {
                        let idx = (start + k) % (s.len() as int);
                        &&& final(self).current_index() == idx
                        &&& final(self).started()
                        &&& r is Some
                        &&& Some(*r.unwrap()) == s[idx]
                        &&& final(self).procs() == s.update(idx, Some(*final(r.unwrap())))
                    },
                    None => {
                        &&& r is None
                        &&& final(self).procs() == s
                        &&& final(self).current_index() == old(self).current_index()
                        &&& final(self).started() == old(self).started()
                    },
                }
            }),
    {
        let len = self.processes.len();
        let start = if self.initialized { (self.current_idx + 1) % len } else { 0 };
        let ghost s = self.processes@;
        let mut k: usize = 0;
        let mut found: Option<usize> = None;
        while k < len
            invariant_except_break
                found is None,
            invariant
                k <= len,
                len == s.len(),
                s == self.processes@,
                len > 0 ==> start < len,
                start == (if old(self).started() { (old(self).current_index() + 1) % (s.len() as int) } else { 0 }),
                forall|j: int| 0 <= j < k ==> !ready(#[trigger] s[(start + j) % (s.len() as int)]),
            ensures
                k <= len,
                forall|j: int| 0 <= j < k ==> !ready(#[trigger] s[(start + j) % (s.len() as int)]),
                found is None ==> k == len,
                found matches Some(i) ==> k < len && i == (start + k) % (s.len() as int) && ready(s[i as int]),
            decreases len - k,
        {
            let i = if k < len - start { start + k } else { k - (len - start) };
            proof {
                let x: int = start + k;
                let m: int = len as int;
                if x < m {
                    vstd::arithmetic::div_mod::lemma_small_mod(x as nat, m as nat);
                } else {
                    vstd::arithmetic::div_mod::lemma_small_mod((x - m) as nat, m as nat);
                    vstd::arithmetic::div_mod::lemma_mod_add_multiples_vanish(x - m, m);
                }
                assert(i == (start + k) % (s.len() as int));
            }
            let is_ready = match &self.processes[i] {
                Some(p) => p.state == ProcessState::Ready,
                None => false,
            };
            if is_ready {
                found = Some(i);
                break;
            }
            k = k + 1;
        }
        match found {
            Some(idx) => {
                proof {
                    let kk = k as int;
                    assert(ready(s[(start + kk) % (s.len() as int)]));
                    let k2 = steps_to_ready(s, start as int)->0;
                    assert(steps_to_ready(s, start as int) is Some);
                    assert(k2 == kk) by {
                        if k2 < kk {
                            assert(!ready(s[(start + k2) % (s.len() as int)]));
                        }
                        if kk < k2 {
                            assert(!ready(s[(start + kk) % (s.len() as int)]));
                        }
                    }
                }
                self.current_idx = idx;
                self.initialized = true;
                self.processes[idx].as_mut()
            },
            None => None,
        }
    }

    /// One line per held slot: its index, the pid, the state and the saved
    /// stack pointer.
    pub fn dump_state(&self) -> (r: Vec<(usize, Pid, ProcessState, u64)>)
        ensures
            r@ == dump_lines(self.procs(), 0),
    {
        let mut out: Vec<(usize, Pid, ProcessState, u64)> = Vec::new();
        let ghost s = self.procs();
        let mut i: usize = self.processes.len();
        while i > 0
            invariant
                i <= s.len(),
                s == self.processes@,
                out@ == dump_lines(s, i as int),
            decreases i,
        {
            i = i - 1;
            proof {
                assert(self.procs()[i as int] == self.processes@[i as int]);
            }
            if let Some(p) = &self.processes[i] {
                out.insert(0, (i, p.pid, p.state, p.context.rsp));
            }
        }
        out
    }

    /// The highest pid in the table plus one (1 for an empty table).
    pub fn alloc_pid(&self) -> (r: Pid)
        requires
            forall|i: int| 0 <= i < self.procs().len() ==> (#[trigger] self.procs()[i] matches Some(p) ==> p.pid < u64::MAX),
        ensures
            r == max_pid(self.procs()) + 1,
    {
        let mut m: u64 = 0;
        let mut i: usize = 0;
        while i < self.processes.len()
            invariant
                i <= self.processes@.len(),
                m == max_pid(self.processes@.subrange(0, i as int)),
                forall|k: int| 0 <= k < self.procs().len() ==> (#[trigger] self.procs()[k] matches Some(p) ==> p.pid < u64::MAX),
                m < u64::MAX,
            decreases self.processes@.len() - i,
        {
            proof {
                let s = self.processes@;
                assert(s.subrange(0, i + 1).drop_last() =~= s.subrange(0, i as int));
                assert(s.subrange(0, i + 1).last() == s[i as int]);
            }
            proof {
                assert(self.procs()[i as int] == self.processes@[i as int]);
            }
            if let Some(p) = &self.processes[i] {
                if p.pid > m {
                    m = p.pid;
                }
            }
            i = i + 1;
        }
        proof {
            assert(self.processes@.subrange(0, self.processes@.len() as int) =~= self.processes@);
        }
        m + 1
    }
}

/// Where a switch leaves from: the idle context, or the context of the
/// process in a slot.
#[derive(Clone, Copy, Debug, PartialEq, Eq, Structural)]
pub enum SwitchFrom {
    Idle,
    Slot(usize),
}

/// What the scheduler decided.
#[derive(Clone, Copy, Debug, PartialEq, Eq, Structural)]
pub enum ScheduleAction {
    /// Go on with what runs now, interrupts enabled.
    Stay,
    /// The current process is dead and none is ready: switch to the idle
    /// context under the kernel's tables.
    ToIdle(SwitchFrom),
    /// Switch to the process in slot `to`: load its tables `pml4` and its
    /// kernel stack top, save the context of `from`.
    Switch { from: SwitchFrom, to: usize, pml4: u64, kernel_stack_top: u64 },
}

/// Some slot holds a process that is ready to run.
pub open spec fn any_ready(s: Seq<Option<Process>>) -> bool {
    exists|i: int| 0 <= i < s.len() && ready(#[trigger] s[i])
}

/// `p` with the state `st`.
pub open spec fn with_state(p: Process, st: ProcessState) -> Process {
    Process { state: st, ..p }
}

/// The table once a running current process is put back to ready.
pub open spec fn preempted(s: Seq<Option<Process>>, started: bool, cur: int) -> Seq<Option<Process>> {
    if started && 0 <= cur < s.len() && s[cur] is Some && s[cur]->0.state == ProcessState::Running {
        s.update(cur, Some(with_state(s[cur]->0, ProcessState::Ready)))
    } else {
        s
    }
}

/// The context that a switch saves.
pub open spec fn switch_from(s: Seq<Option<Process>>, started: bool, cur: int) -> SwitchFrom {
    if started && 0 <= cur < s.len() && s[cur] is Some {
        SwitchFrom::Slot(cur as usize)
    } else {
        SwitchFrom::Idle
    }
}

/// One decision of the scheduler: a running current process goes back to
/// ready; with no process ready (before that), a dead current process
/// gives way to the idle context and otherwise nothing changes; else the
/// next ready process, going round from the slot after the current one,
/// becomes current and running, and is switched to unless it is the
/// current one.
pub fn schedule(sched: &mut Scheduler) -> (r: ScheduleAction)
    requires
        old(sched).wf(),
    ensures
        final(sched).wf(),
        final(sched).idle() == old(sched).idle(),
        ({
            let s0 = old(sched).procs();
            let st = old(sched).started();
            let cur = old(sched).current_index();
            let s1 = preempted(s0, st, cur);
            let from = switch_from(s1, st, cur);
            let dead = from is Slot && s1[cur]->0.state == ProcessState::Dead;
            if !any_ready(s0) {
                &&& r == (if dead { ScheduleAction::ToIdle(from) } else { ScheduleAction::Stay })
                &&& final(sched).procs() == s1
                &&& final(sched).current_index() == cur
                &&& final(sched).started() == st
            } else {
                let start = if st { (cur + 1) % (s1.len() as int) } else { 0 };
                match steps_to_ready(s1, start) {
                    Some(k) => {
                        let idx = (start + k) % (s1.len() as int);
                        let p = s1[idx]->0;
                        &&& final(sched).procs() == s1.update(idx, Some(with_state(p, ProcessState::Running)))
                        &&& final(sched).current_index() == idx
                        &&& final(sched).started()
                        &&& r == (if from == SwitchFrom::Slot(idx as usize) {
                            ScheduleAction::Stay
                        } else {
                            ScheduleAction::Switch {
                                from,
                                to: idx as usize,
                                pml4: p.address_space.page_table.pml4(),
                                kernel_stack_top: p.kernel_stack_top,
                            }
                        })
                    },
                    None => {
                        &&& r == ScheduleAction::Stay
                        &&& final(sched).procs() == s1
                        &&& final(sched).current_index() == cur
                        &&& final(sched).started() == st
                    },
                }
            }
        }),
{
    let ghost s0 = sched.procs();
    let mut has_ready = false;
    let mut i: usize = 0;
    while i < sched.processes.len()
        invariant
            i <= sched.processes@.len(),
            sched.processes@ == s0,
            sched.procs() == s0,
            has_ready == exists|j: int| 0 <= j < i && ready(#[trigger] s0[j]),
        decreases sched.processes@.len() - i,
    {
        let is_ready = match &sched.processes[i] {
            Some(p) => p.state == ProcessState::Ready,
            None => false,
        };
        if is_ready {
            has_ready = true;
        }
        proof {
            if is_ready {
                assert(ready(s0[i as int]));
            }
            if exists|j: int| 0 <= j < i + 1 && ready(#[trigger] s0[j]) {
                let j = choose|j: int| 0 <= j < i + 1 && ready(#[trigger] s0[j]);
                if j < i {
                    assert(exists|j2: int| 0 <= j2 < i && ready(#[trigger] s0[j2]));
                }
            }
        }
        i = i + 1;
    }
    let started = sched.initialized;
    let cur = sched.current_idx;
    if started {
        match sched.current_mut() {
            Some(p) => {
                if p.state == ProcessState::Running {
                    p.state = ProcessState::Ready;
                }
            },
            None => {},
        }
    }
    let ghost s1 = sched.procs();
    proof {
        assert(s1 == preempted(s0, started, cur as int));
    }
    let (from, dead) = if started && cur < sched.processes.len() {
        match &sched.processes[cur] {
            Some(p) => (SwitchFrom::Slot(cur), p.state == ProcessState::Dead),
            None => (SwitchFrom::Idle, false),
        }
    } else {
        (SwitchFrom::Idle, false)
    };
    if !has_ready {
        if dead {
            return ScheduleAction::ToIdle(from);
        }
        return ScheduleAction::Stay;
    }
    let (pml4, kstack) = match sched.next_process() {
        Some(p) => {
            p.state = ProcessState::Running;
            (p.address_space.page_table.pml4_phys().as_u64(), p.kernel_stack_top)
        },
        None => {
            return ScheduleAction::Stay;
        },
    };
    let to = sched.current_idx;
    if from == SwitchFrom::Slot(to) {
        return ScheduleAction::Stay;
    }
    ScheduleAction::Switch { from, to, pml4, kernel_stack_top: kstack }
}


/// The lines of `dump_state` for the slots from `i` on.
pub open spec fn dump_lines(s: Seq<Option<Process>>, i: int) -> Seq<(usize, Pid, ProcessState, u64)>
    decreases s.len() - i,
{
    if i < 0 || i >= s.len() {
        Seq::empty()
    } else {
        let rest = dump_lines(s, i + 1);
        match s[i] {
            Some(p) => seq![(i as usize, p.pid, p.state, p.context.rsp)] + rest,
            None => rest,
        }
    }
}

/// The highest pid of the processes held (0 when none).
pub open spec fn max_pid(s: Seq<Option<Process>>) -> u64
    decreases s.len(),
{
    if s.len() == 0 {
        0
    } else {
        let m = max_pid(s.drop_last());
        match s.last() {
            Some(p) => if p.pid > m { p.pid } else { m },
            None => m,
        }
    }
}


/// Number of page steps `a`, `a + 4096`, ... below `e`.
pub open spec fn steps(a: int, e: int) -> nat
    decreases (if a < e { e - a } else { 0int }),
{
    if a < e {
        1 + steps(a + 4096, e)
    } else {
        0
    }
}

/// Number of page steps over all areas of `s`.
pub open spec fn area_pages(s: Seq<VMA>) -> nat
    decreases s.len(),
{
    if s.len() == 0 {
        0
    } else {
        steps(s[0].start as int, s[0].end as int) + area_pages(s.drop_first())
    }
}

/// Every area of `s` ends in the lower half.
pub open spec fn areas_low(s: Seq<VMA>) -> bool {
    forall|i: int| 0 <= i < s.len() ==> (#[trigger] s[i]).end <= 0x8000_0000_0000
}

proof fn lemma_area_pages_split(s: Seq<VMA>, i: int)
    requires
        0 <= i < s.len(),
    ensures
        area_pages(s.subrange(i, s.len() as int)) == steps(s[i].start as int, s[i].end as int) + area_pages(s.subrange(i + 1, s.len() as int)),
{
    assert(s.subrange(i, s.len() as int).drop_first() =~= s.subrange(i + 1, s.len() as int));
}

/// A page of the parent to copy into the child: 4096 bytes from `src` to
/// `dst`.
#[derive(Clone, Copy, Debug, PartialEq, Eq, Structural)]
pub struct PageCopy {
    pub src: u64,
    pub dst: u64,
}

/// Bytes of a kernel stack: eight pages.
pub const KERNEL_STACK_SIZE: u64 = 0x8000;

/// The context a forked child starts in: the frame pointer at the copy of
/// the parent's system-call frame (128 bytes below the stack top), the
/// stack pointer on the return slot just below it.
pub open spec fn child_context(top: u64) -> Context {
    Context { rbx: 0, rbp: (top - 128) as u64, r12: 0, r13: 0, r14: 0, r15: 0, rsp: (top - 136) as u64 }
}

impl Process {
    /// A child of this process: a kernel stack of its own, a new address
    /// space with the same areas, in which every page that the parent has
    /// mapped is a fresh page (listed in the returned copies, to be filled
    /// with the parent's bytes), the kernel's upper half and image, the
    /// same descriptors, and the rest of the parent's state. `None` when a
    /// page is missing on the way. The topmost page of the direct map must
    /// not be free: a kernel stack in the block holding it would end past
    /// the top of the address space.
    pub fn fork(
        &self,
        new_pid: Pid,
        kernel_pml4: PhysAddr,
        image_base: u64,
        image_size: u64,
        alloc: &mut BuddyAllocator,
        mem: &mut PhysMemory,
        owners: &mut PageOwners,
        files: &OpenFiles,
        pipes: &mut PipeTable,
    ) -> (r: Option<(Process, Vec<PageCopy>)>)
        requires
            self.wf(),
            old(alloc).wf(),
            direct_mapped(*old(alloc)),
            !old(alloc).is_free(0x7fff_ffff_ffff),
            !old(alloc).is_free(kernel_pml4@ as int),
            !old(alloc).is_free(self.address_space.page_table.pml4() as int),
            old(owners).has_room(),
            self.fd_table.entries_ok(files),
            files.pipes_ok(old(pipes)),
            room_for_refs(old(pipes)),
            image_base + image_size <= PHYS_LIMIT,
        ensures
            final(alloc).wf(),
            forall|q: u64| #[trigger] final(alloc).is_free(q as int) ==> old(alloc).is_free(q as int),
            first_nonempty(old(alloc).lists(), 3) == MAX_ORDER ==> r is None,
            self.address_space.vmas@.len() == 0 && first_nonempty(old(alloc).lists(), 3) < MAX_ORDER
                && old(alloc).free_pages() >= 9 ==> r is Some,
            is_tree(old(mem)@, *old(alloc), kernel_pml4@) && all_nonempty(self.address_space.vmas@)
                && areas_low(self.address_space.vmas@) && first_nonempty(old(alloc).lists(), 3) < MAX_ORDER
                && old(alloc).free_pages() >= 9 + 4 * area_pages(self.address_space.vmas@) ==> r is Some,
            r is None ==> final(pipes).pipes@ == old(pipes).pipes@,
            r matches Some((c, copies)) ==> {
                let k = old(alloc).lists()[first_nonempty(old(alloc).lists(), 3) as int].last();
                let top = (KERNEL_VIRT_BASE + k + KERNEL_STACK_SIZE) as u64;
                &&& c.pid == new_pid
                &&& c.parent_pid == self.pid
                &&& c.state == ProcessState::Ready
                &&& c.exit_code == 0
                &&& c.kernel_stack_alloc matches Some((b, o)) && b@ == k && o == 3
                &&& c.kernel_stack_top == top
                &&& c.context == child_context(top)
                &&& c.fs_base == self.fs_base
                &&& c.brk_start == self.brk_start
                &&& c.brk_current == self.brk_current
                &&& c.cwd@ == "/"@
                &&& c.fd_table.slots() == self.fd_table.slots()
                &&& c.address_space.owner_pid == new_pid
                &&& c.wf()
                &&& old(alloc).is_free(c.address_space.page_table.pml4() as int)
                &&& all_nonempty(self.address_space.vmas@) ==> forall|a: int, f: VMAFlags, kd: VMAKind|
                    #[trigger] covers_as(c.address_space.vmas@, a, f, kd) == covers_as(self.address_space.vmas@, a, f, kd)
                &&& forall|i: int| 0 <= i < copies@.len() ==> old(alloc).is_free((#[trigger] copies@[i]).dst as int)
                    && !final(alloc).is_free(copies@[i].dst as int)
                &&& final(pipes).pipes@.len() == old(pipes).pipes@.len()
                &&& forall|p: int| 0 <= p < old(pipes).pipes@.len() ==> {
                    &&& (#[trigger] final(pipes).pipes@[p]).buf@ == old(pipes).pipes@[p].buf@
                    &&& final(pipes).pipes@[p].write_ends == old(pipes).pipes@[p].write_ends + end_refs(self.fd_table.slots(), files.files@, p, true)
                    &&& final(pipes).pipes@[p].read_ends == old(pipes).pipes@[p].read_ends + end_refs(self.fd_table.slots(), files.files@, p, false)
                }
            },
    {
        let ghost a0 = *alloc;
        let ghost m_start = mem@;
        let ghost good = is_tree(old(mem)@, *old(alloc), kernel_pml4@) && all_nonempty(self.address_space.vmas@)
            && areas_low(self.address_space.vmas@) && first_nonempty(old(alloc).lists(), 3) < MAX_ORDER
            && old(alloc).free_pages() >= 9 + 4 * area_pages(self.address_space.vmas@);
        let kstack = match alloc.allocate(3) {
            Some(b) => b,
            None => return None,
        };
        proof {
            lemma2_to64();
        }
        let kp = kstack.as_u64();
        proof {
            assert(in_block(kp as int + 0x7fff, kp, 3));
            assert(old(alloc).is_free(kp as int + 0x7fff));
            assert(kp as int + 0x7fff != 0x7fff_ffff_ffff);
        }
        let top = phys_to_virt(kp) + KERNEL_STACK_SIZE;
        let frame_base = top - 128;
        let context = Context { rbx: 0, rbp: frame_base, r12: 0, r13: 0, r14: 0, r15: 0, rsp: frame_base - 8 };
        let ghost a1 = *alloc;
        proof {
            assert(!alloc.page_free(kernel_pml4@));
        }
        proof {
            if old(alloc).free_pages() >= 9 {
                assert(alloc.free_page_count() > 0);
            }
            if good {
                let lvk = choose|lv: Map<u64, int>| crate::paging::tree_ok(m_start, a0, kernel_pml4@, lv);
                crate::paging::lemma_tree_fewer_free(m_start, a0, a1, kernel_pml4@, lvk);
                assert(alloc.free_pages() + 8 == a0.free_pages());
            }
        }
        let child_pt = match PageTableManager::new_user(kernel_pml4, alloc, new_pid, owners, mem) {
            Some(pt) => pt,
            None => {
                proof {
                    assert forall|q: u64| #[trigger] alloc.is_free(q as int) implies old(alloc).is_free(q as int) by {
                        assert(alloc.page_free(q) == a1.page_free(q));
                        assert(a1.is_free(q as int));
                    }
                }
                return None;
            },
        };
        let ghost child_root = child_pt.pml4();
        proof {
            assert forall|q: u64| #[trigger] alloc.is_free(q as int) implies a0.is_free(q as int) by {
                assert(alloc.page_free(q) ==> a1.page_free(q));
                assert(a1.is_free(q as int));
            }
            assert(a1.page_free(child_root));
            assert(a1.is_free(child_root as int));
        }
        let mut child = AddressSpace::new(child_pt, new_pid);
        let mut copies: Vec<PageCopy> = Vec::new();
        let ghost parent = self.address_space.vmas@;
        let ghost ok = all_nonempty(parent);
        proof {
            reveal(vmas_wf);
            assert(parent.subrange(0, 0) =~= Seq::<VMA>::empty());
            assert(parent.subrange(0, parent.len() as int) =~= parent);
            if good {
                crate::paging::lemma_zero_entry();
                assert forall|w: u64| w < 0x8000_0000_0000 implies !#[trigger] huge_on_path(mem@, child_root, w, 3) by {
                    crate::paging::lemma_index_bounds(w);
                    assert(crate::paging::entry_at(mem@, child_root, crate::paging::l4_index(w) as int) == 0);
                }
            }
        }
        let mut i: usize = 0;
        while i < self.address_space.vmas.len()
            invariant
                i <= parent.len(),
                parent == self.address_space.vmas@,
                self.wf(),
                ok == all_nonempty(parent),
                child.wf(),
                ends_fit(child.vmas@),
                child.owner_pid == new_pid,
                child.page_table.pml4() == child_root,
                a0.is_free(child_root as int),
                alloc.wf(),
                forall|q: u64| #[trigger] alloc.is_free(q as int) ==> a0.is_free(q as int),
                ok ==> all_nonempty(child.vmas@),
                ok ==> forall|a: int, f: VMAFlags, kd: VMAKind| #[trigger] covers_as(child.vmas@, a, f, kd) == covers_as(parent.subrange(0, i as int), a, f, kd),
                forall|j: int| 0 <= j < copies@.len() ==> a0.is_free((#[trigger] copies@[j]).dst as int) && !alloc.is_free(copies@[j].dst as int),
                a0 == *old(alloc),
                pipes.pipes@ == old(pipes).pipes@,
                good == (is_tree(old(mem)@, *old(alloc), kernel_pml4@) && all_nonempty(self.address_space.vmas@)
                    && areas_low(self.address_space.vmas@) && first_nonempty(old(alloc).lists(), 3) < MAX_ORDER
                    && old(alloc).free_pages() >= 9 + 4 * area_pages(self.address_space.vmas@)),
                good ==> is_tree(mem@, *alloc, child_root),
                good ==> forall|w: u64| w < 0x8000_0000_0000 ==> !#[trigger] huge_on_path(mem@, child_root, w, 3),
                good ==> alloc.free_pages() >= 4 * area_pages(parent.subrange(i as int, parent.len() as int)),
            decreases parent.len() - i,
        {
            let v = self.address_space.vmas[i];
            let ghost before = child.vmas@;
            proof {
                if ok {
                    lemma_copy_area(before, parent, i as int);
                }
            }
            proof {
                if good {
                    lemma_area_pages_split(parent, i as int);
                    assert(parent[i as int].end <= 0x8000_0000_0000);
                }
            }
            match child.add_vma(v) {
                Ok(()) => {},
                Err(_) => return None,
            }
            proof {
                lemma_add_ends_fit(before, v);
            }
            let mut addr = v.start;
            while addr < v.end
                invariant
                    v.end + 4095 <= u64::MAX,
                    child.wf(),
                    ends_fit(child.vmas@),
                    child.vmas@ == add_vma_spec(before, v),
                    child.owner_pid == new_pid,
                    child.page_table.pml4() == child_root,
                    alloc.wf(),
                    forall|q: u64| #[trigger] alloc.is_free(q as int) ==> a0.is_free(q as int),
                    forall|j: int| 0 <= j < copies@.len() ==> a0.is_free((#[trigger] copies@[j]).dst as int) && !alloc.is_free(copies@[j].dst as int),
                    a0 == *old(alloc),
                    pipes.pipes@ == old(pipes).pipes@,
                    parent == self.address_space.vmas@,
                    parent.len() > 0,
                    v.end <= 0x8000_0000_0000 || !good,
                    good == (is_tree(old(mem)@, *old(alloc), kernel_pml4@) && all_nonempty(self.address_space.vmas@)
                        && areas_low(self.address_space.vmas@) && first_nonempty(old(alloc).lists(), 3) < MAX_ORDER
                        && old(alloc).free_pages() >= 9 + 4 * area_pages(self.address_space.vmas@)),
                    good ==> is_tree(mem@, *alloc, child_root),
                    good ==> forall|w: u64| w < 0x8000_0000_0000 ==> !#[trigger] huge_on_path(mem@, child_root, w, 3),
                    good ==> alloc.free_pages() >= 4 * (steps(addr as int, v.end as int) + area_pages(parent.subrange(i + 1, parent.len() as int))),
                decreases v.end + 4096 - addr,
            {
                let ghost m_a = mem@;
                let ghost rest = area_pages(parent.subrange(i + 1, parent.len() as int));
                proof {
                    assert(steps(addr as int, v.end as int) == 1 + steps(addr + 4096, v.end as int));
                }
                match self.address_space.page_table.translate(addr, mem) {
                    Some(src) => {
                        let ghost a1 = *alloc;
                        proof {
                            if good && first_nonempty(a1.lists(), 0) == MAX_ORDER {
                                crate::allocator::lemma_first_nonempty_empty(a1.lists(), 0);
                                crate::allocator::lemma_pages_below_empty(a1.lists(), MAX_ORDER as nat);
                            }
                        }
                        let dst = match alloc.allocate(0) {
                            Some(p) => p,
                            None => {
                                proof {
                                    assert forall|q: u64| #[trigger] alloc.is_free(q as int) implies a0.is_free(q as int) by {
                                        assert(a1.is_free(q as int));
                                    }
                                }
                                return None;
                            },
                        };
                        proof {
                            lemma2_to64();
                            assert(in_block(dst@ as int, dst@, 0));
                        }
                        let ghost a2 = *alloc;
                        proof {
                            if good {
                                let lvc = choose|lv: Map<u64, int>| crate::paging::tree_ok(m_a, a1, child_root, lv);
                                crate::paging::lemma_tree_fewer_free(m_a, a1, a2, child_root, lvc);
                                crate::paging::lemma_tree_walk(m_a, a2, child_root, lvc, addr);
                                assert(!huge_on_path(m_a, child_root, addr, 3));
                                assert(a2.free_pages() + 1 == a1.free_pages());
                            }
                        }
                        let mapped = child.page_table.map(addr, dst, v.flags.to_page_flags(), alloc, mem);
                        proof {
                            assert forall|q: u64| #[trigger] alloc.is_free(q as int) implies a0.is_free(q as int) by {
                                assert(alloc.page_free(q));
                                assert(a2.page_free(q));
                                assert(a1.is_free(q as int));
                            }
                        }
                        match mapped {
                            Some(()) => {},
                            None => return None,
                        }
                        proof {
                            assert(!a2.is_free(dst@ as int));
                            assert(alloc.page_free(dst@) ==> a2.page_free(dst@));
                            assert(!alloc.is_free(dst@ as int));
                            assert forall|j: int| 0 <= j < copies@.len() implies !alloc.is_free((#[trigger] copies@[j]).dst as int) by {
                                let d = copies@[j].dst;
                                assert(!a1.is_free(d as int));
                                assert(!a2.is_free(d as int));
                                assert(alloc.page_free(d) ==> a2.page_free(d));
                            }
                        }
                        let ghost c0 = copies@;
                        copies.push(PageCopy { src: src.as_u64(), dst: dst.as_u64() });
                        proof {
                            assert(a1.is_free(dst@ as int));
                            assert(a0.is_free(dst@ as int));
                            assert forall|j: int| 0 <= j < copies@.len() implies a0.is_free((#[trigger] copies@[j]).dst as int) && !alloc.is_free(copies@[j].dst as int) by {
                                if j < c0.len() {
                                    assert(copies@[j] == c0[j]);
                                }
                            }
                        }
                    },
                    None => {},
                }
                addr = addr + 4096;
            }
            i = i + 1;
        }
        proof {
            assert(parent.subrange(0, parent.len() as int) =~= parent);
        }
        let child_root_phys = child.page_table.pml4_phys().as_u64();
        sync_higher_half(child_root_phys, self.address_space.page_table.pml4_phys().as_u64(), mem);
        let ghost a3 = *alloc;
        let _ = map_kernel_image(&mut child.page_table, image_base, image_size, alloc, mem);
        proof {
            assert forall|q: u64| #[trigger] alloc.is_free(q as int) implies old(alloc).is_free(q as int) by {
                assert(alloc.page_free(q) ==> a3.page_free(q));
                assert(a3.is_free(q as int));
            }
            assert forall|j: int| 0 <= j < copies@.len() implies !alloc.is_free((#[trigger] copies@[j]).dst as int) by {
                let d = copies@[j].dst;
                assert(!a3.is_free(d as int));
                assert(alloc.page_free(d) ==> a3.page_free(d));
            }
        }
        let fd_table = self.fd_table.fork_clone(files, pipes);
        let c = Process {
            pid: new_pid,
            parent_pid: self.pid,
            state: ProcessState::Ready,
            exit_code: 0,
            context,
            kernel_stack_alloc: Some((kstack, 3)),
            kernel_stack_top: top,
            address_space: child,
            fd_table,
            fs_base: self.fs_base,
            brk_start: self.brk_start,
            brk_current: self.brk_current,
            cwd: "/".to_string(),
        };
        Some((c, copies))
    }
}


// ----------------------------------------------------------------------
// exit and wait4
// ----------------------------------------------------------------------

/// The current process ends with `code`: it is dead until its parent
/// waits for it.
pub fn exit_current(sched: &mut Scheduler, code: i32)
    requires
        old(sched).wf(),
    ensures
        final(sched).wf(),
        final(sched).idle() == old(sched).idle(),
        final(sched).current_index() == old(sched).current_index(),
        final(sched).started() == old(sched).started(),
        ({
            let s = old(sched).procs();
            let cur = old(sched).current_index();
            if old(sched).started() && s[cur] is Some {
                final(sched).procs() == s.update(cur, Some(Process { exit_code: code, state: ProcessState::Dead, ..s[cur]->0 }))
            } else {
                final(sched).procs() == s
            }
        }),
{
    match sched.current_mut() {
        Some(p) => {
            p.exit_code = code;
            p.state = ProcessState::Dead;
        },
        None => {},
    }
}

/// A child of `caller` that wait4 for `target` may reap: dead, and the one
/// asked for when `target` names a pid (any child for -1, 0 or below -1).
pub open spec fn reapable(slot: Option<Process>, caller: Pid, target: i64) -> bool {
    match slot {
        Some(p) => p.parent_pid == caller && p.state == ProcessState::Dead
            && (target == -1 || target == 0 || target < -1 || p.pid as i64 == target),
        None => false,
    }
}

/// A child of `caller` that wait4 for `target` waits for, dead or alive.
pub open spec fn awaited(slot: Option<Process>, caller: Pid, target: i64) -> bool {
    match slot {
        Some(p) => p.parent_pid == caller && (target <= 0 || p.pid as i64 == target),
        None => false,
    }
}

/// The first slot with a child to reap.
pub open spec fn first_reapable(s: Seq<Option<Process>>, caller: Pid, target: i64) -> Option<int> {
    if exists|i: int| 0 <= i < s.len() && reapable(#[trigger] s[i], caller, target) {
        Some(choose|i: int| 0 <= i < s.len() && reapable(#[trigger] s[i], caller, target)
            && forall|j: int| 0 <= j < i ==> !reapable(#[trigger] s[j], caller, target))
    } else {
        None
    }
}

/// What one round of wait4 found.
#[derive(Clone, Copy, Debug, PartialEq, Eq, Structural)]
pub enum WaitStep {
    /// A child was reaped: its pid and its wait status.
    Reaped { pid: Pid, status: i32 },
    /// No child is waited for (-10).
    NoChild,
    /// Children are waited for but none is dead yet.
    NotYet,
}

/// One round of wait4 by the process `caller` for `target`: the first dead
/// child asked for is taken out of the table, its address space torn down
/// and its kernel stack given back, and its pid and status (exit code in
/// the second byte) returned; otherwise whether a child is waited for.
pub fn wait4_step(
    sched: &mut Scheduler,
    caller: Pid,
    target: i64,
    alloc: &mut BuddyAllocator,
    mem: &mut PhysMemory,
    owners: &mut PageOwners,
) -> (r: WaitStep)
    requires
        old(sched).wf(),
        old(alloc).wf(),
    ensures
        final(sched).wf(),
        final(alloc).wf(),
        final(sched).idle() == old(sched).idle(),
        final(sched).current_index() == old(sched).current_index(),
        final(sched).started() == old(sched).started(),
        ({
            let s = old(sched).procs();
            match first_reapable(s, caller, target) {
                Some(i) => {
                    let z = s[i]->0;
                    &&& r == WaitStep::Reaped { pid: z.pid, status: (z.exit_code & 0xff) << 8 }
                    &&& final(sched).procs() == s.update(i, None)
                },
                None => {
                    &&& final(sched).procs() == s
                    &&& r == (if exists|j: int| 0 <= j < s.len() && awaited(#[trigger] s[j], caller, target) {
                        WaitStep::NotYet
                    } else {
                        WaitStep::NoChild
                    })
                },
            }
        }),
{
    let ghost s = sched.procs();
    let mut i: usize = 0;
    let n = sched.processes.len();
    while i < n
        invariant
            i <= n,
            n == s.len(),
            sched.procs() == s,
            sched.processes@ == s,
            *sched == *old(sched),
            *alloc == *old(alloc),
            old(sched).wf(),
            old(alloc).wf(),
            forall|j: int| 0 <= j < i ==> !reapable(#[trigger] s[j], caller, target),
        decreases n - i,
    {
        let hit = match &sched.processes[i] {
            Some(p) => p.parent_pid == caller && p.state == ProcessState::Dead
                && (target == -1 || target == 0 || target < -1 || p.pid as i64 == target),
            None => false,
        };
        if hit {
            proof {
                assert(reapable(s[i as int], caller, target));
                assert(first_reapable(s, caller, target) == Some(i as int)) by {
                    let k = choose|k: int| 0 <= k < s.len() && reapable(#[trigger] s[k], caller, target)
                        && forall|j: int| 0 <= j < k ==> !reapable(#[trigger] s[j], caller, target);
                    if k < i {
                    }
                    if k > i {
                        assert(!reapable(s[i as int], caller, target));
                    }
                }
            }
            let mut slot: Option<Process> = None;
            std::mem::swap(&mut slot, &mut sched.processes[i]);
            let mut z = slot.unwrap();
            proof {
                assert(z.wf());
            }
            let pid = z.pid;
            let code = z.exit_code;
            z.address_space.destroy(alloc, mem, owners);
            if let Some((kphys, order)) = z.kernel_stack_alloc {
                alloc.release(kphys, order);
            }
            proof {
                assert(sched.procs() =~= s.update(i as int, None));
            }
            return WaitStep::Reaped { pid, status: (code & 0xff) << 8 };
        }
        i = i + 1;
    }
    let mut k: usize = 0;
    while k < n
        invariant
            k <= n,
            n == s.len(),
            sched.processes@ == s,
            *sched == *old(sched),
            *alloc == *old(alloc),
            old(sched).wf(),
            old(alloc).wf(),
            forall|j: int| 0 <= j < k ==> !awaited(#[trigger] s[j], caller, target),
            forall|j: int| 0 <= j < n ==> !reapable(#[trigger] s[j], caller, target),
        decreases n - k,
    {
        let w = match &sched.processes[k] {
            Some(p) => p.parent_pid == caller && (target <= 0 || p.pid as i64 == target),
            None => false,
        };
        if w {
            proof {
                assert(awaited(s[k as int], caller, target));
            }
            return WaitStep::NotYet;
        }
        k = k + 1;
    }
    WaitStep::NoChild
}


// ----------------------------------------------------------------------
// new processes
// ----------------------------------------------------------------------

/// The descriptors of a new process: 0, 1 and 2 on three new serial
/// descriptions appended to `f0`, giving `f1`; the others free.
pub open spec fn stdio_table(t: FdTable, f0: Seq<crate::fd::OpenFile>, f1: Seq<crate::fd::OpenFile>) -> bool {
    &&& f1.len() == f0.len() + 3
    &&& f1.subrange(0, f0.len() as int) == f0
    &&& forall|k: int| 0 <= k < 3 ==> #[trigger] f1[f0.len() + k] == serial_desc()
    &&& forall|k: int| 0 <= k < 3 ==> #[trigger] t.slots()[k] == Some((f0.len() + k) as usize)
    &&& forall|k: int| 3 <= k < crate::fd::FD_MAX ==> #[trigger] t.slots()[k] is None
}

/// A process as every constructor makes it: ready, no parent, exit code
/// 0, nothing but `rsp` in its context, FS base, break 0, in "/".
pub open spec fn fresh(p: Process, pid: Pid, rsp: u64, top: u64) -> bool {
    &&& p.pid == pid
    &&& p.parent_pid == 0
    &&& p.state == ProcessState::Ready
    &&& p.exit_code == 0
    &&& p.context == (Context { rbx: 0, rbp: 0, r12: 0, r13: 0, r14: 0, r15: 0, rsp: rsp })
    &&& p.kernel_stack_top == top
    &&& p.fs_base == 0
    &&& p.brk_start == 0
    &&& p.brk_current == 0
    &&& p.cwd@ == "/"@
}

/// The words at the top of the kernel stack of a new user process, from
/// the top down: the user stack segment, the user stack pointer, the
/// flags (interrupts enabled), the user code segment, the entry point,
/// and the address of the code that enters user mode with them.
pub fn user_entry_frame(cs: u16, ss: u16, user_rsp: u64, entry: u64, trampoline: u64) -> (r: Vec<u64>)
    ensures
        r@ == seq![ss as u64, user_rsp, 0x202u64, cs as u64, entry, trampoline],
{
    let mut v: Vec<u64> = Vec::new();
    v.push(ss as u64);
    v.push(user_rsp);
    v.push(0x202);
    v.push(cs as u64);
    v.push(entry);
    v.push(trampoline);
    proof {
        assert(v@ =~= seq![ss as u64, user_rsp, 0x202u64, cs as u64, entry, trampoline]);
    }
    v
}

/// Every address of `[lo, hi)` lies in the 2 MiB region of `lo`.
pub open spec fn one_region(lo: u64, hi: int) -> bool {
    forall|a: u64| lo <= a < hi ==> #[trigger] crate::paging::l4_index(a) == crate::paging::l4_index(lo)
        && crate::paging::l3_index(a) == crate::paging::l3_index(lo) && crate::paging::l2_index(a) == crate::paging::l2_index(lo)
}

/// Maps `pages` fresh user pages below `top` in `pt`: writable, not
/// executable. In a tree whose walk to those pages, all in one 2 MiB
/// region, meets no huge entry, enough free pages (four per stack page)
/// make it succeed.
/// The flags of a user stack page: present, writable, user, no-execute.
pub const USER_STACK_PAGE_FLAGS: u64 = 0x8000_0000_0000_0007;

/// The page at `v` is mapped through `pml4`, with the flags of a user stack
/// page, to a page that was free in `a0` and is in use in `a1`.
pub open spec fn stack_page_ok(m: Map<u64, PageTable>, a0: BuddyAllocator, a1: BuddyAllocator, pml4: u64, v: u64) -> bool {
    &&& translate_spec(m, pml4, v) matches Some(f) && f % 4096 == 0 && a0.is_free(f as int) && !a1.is_free(f as int)
    &&& leaf_flags(m, pml4, v) == Some(USER_STACK_PAGE_FLAGS)
}

/// Every page of `[base, top)` is a mapped user stack page (`stack_page_ok`).
pub open spec fn stack_pages_ok(m: Map<u64, PageTable>, a0: BuddyAllocator, a1: BuddyAllocator, pml4: u64, base: u64, top: u64) -> bool {
    forall|v: u64| base <= v < top && v % 4096 == 0 ==> #[trigger] stack_page_ok(m, a0, a1, pml4, v)
}

fn map_user_stack(
    pt: &mut PageTableManager,
    top: u64,
    pages: usize,
    alloc: &mut BuddyAllocator,
    mem: &mut PhysMemory,
) -> (r: Option<()>)
    requires
        old(alloc).wf(),
        pages * 4096 <= top,
    ensures
        final(alloc).wf(),
        final(pt).pml4() == old(pt).pml4(),
        forall|q: u64| #[trigger] final(alloc).is_free(q as int) ==> old(alloc).is_free(q as int),
        is_tree(old(mem)@, *old(alloc), old(pt).pml4()) && one_region((top - pages * 4096) as u64, top as int)
            && !huge_on_path(old(mem)@, old(pt).pml4(), (top - pages * 4096) as u64, 3)
            && old(alloc).free_pages() >= 4 * pages ==> r is Some,
        is_tree(old(mem)@, *old(alloc), old(pt).pml4()) && top % 4096 == 0 && top <= 0x8000_0000_0000 && r is Some
            ==> is_tree(final(mem)@, *final(alloc), old(pt).pml4())
            && stack_pages_ok(final(mem)@, *old(alloc), *final(alloc), old(pt).pml4(), (top - pages * 4096) as u64, top),
{
    let base = top - (pages as u64) * 4096;
    let ghost pml4 = pt.pml4();
    let ghost tree = is_tree(old(mem)@, *old(alloc), pml4);
    let ghost good = is_tree(old(mem)@, *old(alloc), pml4) && one_region(base, top as int)
        && !huge_on_path(old(mem)@, pml4, base, 3) && old(alloc).free_pages() >= 4 * pages;
    let flags = PageFlags::present().union(PageFlags::writable()).union(PageFlags::user()).union(PageFlags::no_exec());
    proof {
        crate::paging::lemma_bit_constants();
    }
    let mut i: usize = 0;
    while i < pages
        invariant
            flags.bits == USER_STACK_PAGE_FLAGS,
            tree == is_tree(old(mem)@, *old(alloc), pml4),
            tree ==> is_tree(mem@, *alloc, pml4),
            tree && top % 4096 == 0 && top <= 0x8000_0000_0000 ==> stack_pages_ok(mem@, *old(alloc), *alloc, pml4, base, (base + i * 4096) as u64),
            i <= pages,
            pages * 4096 <= top,
            base == top - pages * 4096,
            flags.valid(),
            alloc.wf(),
            pt.pml4() == old(pt).pml4(),
            forall|q: u64| #[trigger] alloc.is_free(q as int) ==> old(alloc).is_free(q as int),
            pml4 == old(pt).pml4(),
            good == (is_tree(old(mem)@, *old(alloc), pml4) && one_region(base, top as int)
                && !huge_on_path(old(mem)@, pml4, base, 3) && old(alloc).free_pages() >= 4 * pages),
            good ==> is_tree(mem@, *alloc, pml4),
            good ==> alloc.free_pages() >= 4 * (pages - i),
            good ==> !huge_on_path(mem@, pml4, base, 3),
        decreases pages - i,
    {
        let ghost a1 = *alloc;
        let ghost m0 = mem@;
        let addr = base + (i as u64) * 4096;
        proof {
            if good && crate::allocator::first_nonempty(a1.lists(), 0) == MAX_ORDER {
                crate::allocator::lemma_first_nonempty_empty(a1.lists(), 0);
                crate::allocator::lemma_pages_below_empty(a1.lists(), MAX_ORDER as nat);
            }
        }
        let page = match alloc.allocate(0) {
            Some(f) => f,
            None => {
                proof {
                    assert forall|q: u64| #[trigger] alloc.is_free(q as int) implies old(alloc).is_free(q as int) by {
                        assert(a1.is_free(q as int));
                    }
                }
                return None;
            },
        };
        let ghost a2 = *alloc;
        proof {
            lemma2_to64();
            if tree {
                let lv = choose|lv: Map<u64, int>| crate::paging::tree_ok(m0, a1, pml4, lv);
                crate::paging::lemma_tree_fewer_free(m0, a1, a2, pml4, lv);
                crate::paging::lemma_tree_walk(m0, a2, pml4, lv, addr);
            }
            if good {
                assert(base <= addr < top);
                crate::paging::lemma_same_region_huge(m0, pml4, addr, base);
                assert(a2.free_pages() + 1 == a1.free_pages());
            }
        }
        let mapped = pt.map(addr, page, flags, alloc, mem);
        proof {
            if good {
                crate::paging::lemma_same_region_huge(mem@, pml4, addr, base);
            }
            assert forall|q: u64| #[trigger] alloc.is_free(q as int) implies old(alloc).is_free(q as int) by {
                assert(alloc.page_free(q));
                assert(a2.page_free(q));
                assert(a1.is_free(q as int));
            }
        }
        if mapped.is_none() {
            return None;
        }
        proof {
            if tree && top % 4096 == 0 && top <= 0x8000_0000_0000 {
                assert(addr % 4096 == 0) by (nonlinear_arith)
                    requires
                        top % 4096 == 0,
                        base == top - pages * 4096,
                        addr == base + i * 4096;
                assert(!a2.is_free(page@ as int));
                crate::paging::lemma_page_leaf(mem@, pml4, addr, page@, flags.bits);
                crate::paging::lemma_bit_constants();
                assert forall|v: u64| base <= v < base + (i + 1) * 4096 && v % 4096 == 0 implies
                    #[trigger] stack_page_ok(mem@, *old(alloc), *alloc, pml4, v) by {
                    if v < addr {
                        crate::paging::lemma_below_other_page(v, addr);
                        assert(stack_page_ok(m0, *old(alloc), a1, pml4, v));
                        assert(translate_spec(mem@, pml4, v) == translate_spec(m0, pml4, v));
                        assert(leaf_flags(mem@, pml4, v) == leaf_flags(m0, pml4, v));
                        let f = translate_spec(m0, pml4, v)->0;
                        if alloc.is_free(f as int) {
                            assert(alloc.page_free(f));
                            assert(a2.page_free(f));
                            assert(a1.is_free(f as int));
                        }
                    } else {
                        assert(v == addr) by (nonlinear_arith)
                            requires
                                v % 4096 == 0,
                                addr % 4096 == 0,
                                addr <= v < addr + 4096;
                        assert(in_block(page@ as int, page@, 0));
                        assert(a1.is_free(page@ as int));
                        assert(old(alloc).is_free(page@ as int));
                        if alloc.is_free(page@ as int) {
                            assert(alloc.page_free(page@));
                            assert(a2.page_free(page@));
                        }
                    }
                }
            }
        }
        i = i + 1;
    }
    Some(())
}

impl Process {
    /// A kernel process that starts at `entry_point` on the stack of
    /// `stack_len` bytes at `stack_base`, under the kernel's tables: its
    /// stack pointer rests on the word below the top. Also returns that
    /// word's value, the entry point moved to the higher half, which the
    /// caller stores there (the rest of the stack being zeroed).
    pub fn new_kernel(
        pid: Pid,
        entry_point: u64,
        kernel_pml4: PhysAddr,
        stack_base: u64,
        stack_len: usize,
        files: &mut OpenFiles,
    ) -> (r: (Self, u64))
        requires
            8 <= stack_base + stack_len <= u64::MAX,
            entry_point >= KERNEL_VIRT_BASE || entry_point <= u64::MAX - KERNEL_VIRT_BASE,
        ensures
            fresh(r.0, pid, (stack_base + stack_len - 8) as u64, (stack_base + stack_len) as u64),
            r.1 == (if entry_point >= KERNEL_VIRT_BASE { entry_point } else { (KERNEL_VIRT_BASE + entry_point) as u64 }),
            r.0.wf(),
            r.0.kernel_stack_alloc is None,
            r.0.address_space.owner_pid == pid,
            r.0.address_space.page_table.pml4() == kernel_pml4@,
            r.0.address_space.vmas@ == Seq::<VMA>::empty(),
            stdio_table(r.0.fd_table, old(files).files@, final(files).files@),
    {
        let virt_entry = ensure_virt(entry_point);
        let top = stack_base + stack_len as u64;
        let ghost f0 = files.files@;
        let fd_table = FdTable::new_stdio(files);
        proof {
            assert(files.files@.subrange(0, f0.len() as int) =~= f0);
        }
        let p = Process {
            pid,
            parent_pid: 0,
            state: ProcessState::Ready,
            exit_code: 0,
            context: Context { rsp: top - 8, ..Context::zero() },
            kernel_stack_alloc: None,
            kernel_stack_top: top,
            address_space: AddressSpace::new(PageTableManager::from_phys(kernel_pml4), pid),
            fd_table,
            fs_base: 0,
            brk_start: 0,
            brk_current: 0,
            cwd: "/".to_string(),
        };
        (p, virt_entry)
    }

    /// The same as `new_kernel`.
    pub fn new_with_static_stack(
        pid: Pid,
        entry_point: u64,
        kernel_pml4: PhysAddr,
        stack_base: u64,
        stack_len: usize,
        files: &mut OpenFiles,
    ) -> (r: (Self, u64))
        requires
            8 <= stack_base + stack_len <= u64::MAX,
            entry_point >= KERNEL_VIRT_BASE || entry_point <= u64::MAX - KERNEL_VIRT_BASE,
        ensures
            fresh(r.0, pid, (stack_base + stack_len - 8) as u64, (stack_base + stack_len) as u64),
            r.1 == (if entry_point >= KERNEL_VIRT_BASE { entry_point } else { (KERNEL_VIRT_BASE + entry_point) as u64 }),
            r.0.wf(),
            r.0.kernel_stack_alloc is None,
            r.0.address_space.owner_pid == pid,
            r.0.address_space.page_table.pml4() == kernel_pml4@,
            r.0.address_space.vmas@ == Seq::<VMA>::empty(),
            stdio_table(r.0.fd_table, old(files).files@, final(files).files@),
    {
        Self::new_kernel(pid, entry_point, kernel_pml4, stack_base, stack_len, files)
    }

    /// A user process in a new address space that shares the kernel's
    /// upper half, with `ustack_pages` pages of user stack mapped below
    /// `ustack_virt`, on the kernel stack of `kstack_len` bytes at
    /// `kstack_base`, whose top receives the user entry frame (six words,
    /// the last where the stack pointer rests). `None` when the stack does
    /// not fit below `ustack_virt` or a page is missing.
    pub fn new_user(
        pid: Pid,
        entry_point: u64,
        kernel_pml4: PhysAddr,
        kstack_base: u64,
        kstack_len: usize,
        ustack_virt: u64,
        ustack_pages: usize,
        alloc: &mut BuddyAllocator,
        mem: &mut PhysMemory,
        owners: &mut PageOwners,
        files: &mut OpenFiles,
    ) -> (r: Option<Self>)
        requires
            old(alloc).wf(),
            !old(alloc).is_free(kernel_pml4@ as int),
            old(owners).has_room(),
            48 <= kstack_base + kstack_len <= u64::MAX,
        ensures
            final(alloc).wf(),
            forall|q: u64| #[trigger] final(alloc).is_free(q as int) ==> old(alloc).is_free(q as int),
            ustack_pages * 4096 > ustack_virt ==> r is None,
            is_tree(old(mem)@, *old(alloc), kernel_pml4@) && ustack_pages * 4096 <= ustack_virt
                && ustack_pages * 4096 <= usize::MAX && ustack_virt < 0x8000_0000_0000
                && one_region((ustack_virt - ustack_pages * 4096) as u64, ustack_virt as int)
                && old(alloc).free_pages() >= 1 + 4 * ustack_pages ==> r is Some,
            r matches Some(p) ==> {
                &&& fresh(p, pid, (kstack_base + kstack_len - 48) as u64, (kstack_base + kstack_len) as u64)
                &&& p.wf()
                &&& p.kernel_stack_alloc is None
                &&& p.address_space.owner_pid == pid
                &&& p.address_space.vmas@ == Seq::<VMA>::empty()
                &&& p.address_space.page_table.pml4() != kernel_pml4@
                &&& old(alloc).is_free(p.address_space.page_table.pml4() as int)
                &&& stdio_table(p.fd_table, old(files).files@, final(files).files@)
                &&& is_tree(old(mem)@, *old(alloc), kernel_pml4@) && ustack_virt % 4096 == 0 && ustack_virt <= 0x8000_0000_0000
                    ==> stack_pages_ok(final(mem)@, *old(alloc), *final(alloc), p.address_space.page_table.pml4(),
                        (ustack_virt - ustack_pages * 4096) as u64, ustack_virt)
            },
    {
        let _ = entry_point;
        let ghost a0 = *alloc;
        proof {
            assert(!alloc.page_free(kernel_pml4@));
        }
        let mut pt = match PageTableManager::new_user(kernel_pml4, alloc, pid, owners, mem) {
            Some(pt) => pt,
            None => {
                proof {
                    assert forall|q: u64| #[trigger] alloc.is_free(q as int) implies old(alloc).is_free(q as int) by {
                        assert(alloc.page_free(q) == a0.page_free(q));
                    }
                }
                return None;
            },
        };
        proof {
            assert forall|q: u64| #[trigger] alloc.is_free(q as int) implies old(alloc).is_free(q as int) by {
                assert(alloc.page_free(q) ==> a0.page_free(q));
            }
            assert(a0.page_free(pt.pml4()));
        }
        if (ustack_pages as u64) > ustack_virt / 4096 || ustack_pages > usize::MAX / 4096 {
            return None;
        }
        proof {
            let base = (ustack_virt - ustack_pages * 4096) as u64;
            crate::paging::lemma_index_bounds(base);
            if ustack_virt < 0x8000_0000_0000 {
                assert(crate::paging::entry_at(mem@, pt.pml4(), crate::paging::l4_index(base) as int) == 0);
                crate::paging::lemma_zero_entry();
            }
        }
        let ghost a_mid = *alloc;
        match map_user_stack(&mut pt, ustack_virt, ustack_pages, alloc, mem) {
            Some(()) => {},
            None => return None,
        }
        proof {
            let base = (ustack_virt - ustack_pages * 4096) as u64;
            if is_tree(old(mem)@, *old(alloc), kernel_pml4@) && ustack_virt % 4096 == 0 && ustack_virt <= 0x8000_0000_0000 {
                assert forall|v: u64| base <= v < ustack_virt && v % 4096 == 0 implies
                    #[trigger] stack_page_ok(mem@, *old(alloc), *alloc, pt.pml4(), v) by {
                    assert(stack_page_ok(mem@, a_mid, *alloc, pt.pml4(), v));
                    let f = translate_spec(mem@, pt.pml4(), v)->0;
                    assert(a_mid.is_free(f as int));
                    assert(old(alloc).is_free(f as int));
                }
            }
        }
        let top = kstack_base + kstack_len as u64;
        let ghost f0 = files.files@;
        let fd_table = FdTable::new_stdio(files);
        proof {
            assert(files.files@.subrange(0, f0.len() as int) =~= f0);
        }
        Some(Process {
            pid,
            parent_pid: 0,
            state: ProcessState::Ready,
            exit_code: 0,
            context: Context { rsp: top - 48, ..Context::zero() },
            kernel_stack_alloc: None,
            kernel_stack_top: top,
            address_space: AddressSpace::new(pt, pid),
            fd_table,
            fs_base: 0,
            brk_start: 0,
            brk_current: 0,
            cwd: "/".to_string(),
        })
    }

    /// A user process in the given address space, with `ustack_pages`
    /// pages of user stack mapped below `ustack_virt` and added as a stack
    /// area, the initial stack for `argv` and `envp` laid out below
    /// `ustack_virt`, on the kernel stack of `kstack_len` bytes at
    /// `kstack_base` (allocated as `kernel_stack_alloc`), whose top
    /// receives the user entry frame. `None` when the stack does not fit
    /// below `ustack_virt`, a page is missing, or the stack area overlaps
    /// another.
    pub fn new_user_with_address_space(
        pid: Pid,
        entry_point: u64,
        kstack_base: u64,
        kstack_len: usize,
        kernel_stack_alloc: Option<(PhysAddr, usize)>,
        ustack_virt: u64,
        ustack_pages: usize,
        argv: &[String],
        envp: &[String],
        random: [u8; 16],
        address_space: AddressSpace,
        alloc: &mut BuddyAllocator,
        mem: &mut PhysMemory,
        files: &mut OpenFiles,
    ) -> (r: Option<(Self, StackImage)>)
        requires
            old(alloc).wf(),
            address_space.wf(),
            ends_fit(address_space.vmas@),
            48 <= kstack_base + kstack_len <= u64::MAX,
            ustack_virt + 4095 <= u64::MAX,
            stack_fits(ustack_virt, texts(envp@), texts(argv@)),
        ensures
            final(alloc).wf(),
            forall|q: u64| #[trigger] final(alloc).is_free(q as int) ==> old(alloc).is_free(q as int),
            ustack_pages * 4096 > ustack_virt ==> r is None,
            ({
                let base = (ustack_virt - ustack_pages * 4096) as u64;
                let pml4 = address_space.page_table.pml4();
                let area = VMA { start: base, end: ustack_virt, flags: VMAFlags { read: true, write: true, execute: false }, kind: VMAKind::Stack };
                &&& is_tree(old(mem)@, *old(alloc), pml4)
                &&& ustack_pages * 4096 <= ustack_virt
                &&& ustack_pages * 4096 <= usize::MAX
                &&& one_region(base, ustack_virt as int)
                &&& !huge_on_path(old(mem)@, pml4, base, 3)
                &&& old(alloc).free_pages() >= 4 * ustack_pages
                &&& !add_conflict(address_space.vmas@, area)
            }) ==> r is Some,
            r matches Some((p, img)) ==> {
                let area = VMA {
                    start: (ustack_virt - ustack_pages * 4096) as u64,
                    end: ustack_virt,
                    flags: VMAFlags { read: true, write: true, execute: false },
                    kind: VMAKind::Stack,
                };
                &&& fresh(p, pid, (kstack_base + kstack_len - 48) as u64, (kstack_base + kstack_len) as u64)
                &&& p.wf()
                &&& p.kernel_stack_alloc == kernel_stack_alloc
                &&& p.address_space.page_table.pml4() == address_space.page_table.pml4()
                &&& p.address_space.owner_pid == address_space.owner_pid
                &&& p.address_space.vmas@ == add_vma_spec(address_space.vmas@, area)
                &&& stdio_table(p.fd_table, old(files).files@, final(files).files@)
                &&& stack_image_ok(img, ustack_virt, envp@, argv@, entry_point, 0, 0, 0, random@)
                &&& is_tree(old(mem)@, *old(alloc), address_space.page_table.pml4()) && ustack_virt % 4096 == 0 && ustack_virt <= 0x8000_0000_0000
                    ==> stack_pages_ok(final(mem)@, *old(alloc), *final(alloc), address_space.page_table.pml4(),
                        (ustack_virt - ustack_pages * 4096) as u64, ustack_virt)
            },
    {
        let mut address_space = address_space;
        if (ustack_pages as u64) > ustack_virt / 4096 || ustack_pages > usize::MAX / 4096 {
            return None;
        }
        match map_user_stack(&mut address_space.page_table, ustack_virt, ustack_pages, alloc, mem) {
            Some(()) => {},
            None => return None,
        }
        let base = ustack_virt - (ustack_pages as u64) * 4096;
        let ghost before = address_space.vmas@;
        let area = VMA::new(base, ustack_virt, VMAFlags::rw(), VMAKind::Stack);
        match address_space.add_vma(area) {
            Ok(()) => {},
            Err(_) => return None,
        }
        proof {
            crate::vma::lemma_add_ends_fit_any(before, area);
        }
        let img = build_argv_envp_stack(ustack_virt, argv, envp, entry_point, 0, 0, 0, random);
        let top = kstack_base + kstack_len as u64;
        let ghost f0 = files.files@;
        let fd_table = FdTable::new_stdio(files);
        proof {
            assert(files.files@.subrange(0, f0.len() as int) =~= f0);
        }
        let p = Process {
            pid,
            parent_pid: 0,
            state: ProcessState::Ready,
            exit_code: 0,
            context: Context { rsp: top - 48, ..Context::zero() },
            kernel_stack_alloc,
            kernel_stack_top: top,
            address_space,
            fd_table,
            fs_base: 0,
            brk_start: 0,
            brk_current: 0,
            cwd: "/".to_string(),
        };
        Some((p, img))
    }
}


proof fn lemma_least_reusable(s: Seq<Option<Process>>, k: int)
    requires
        0 <= k < s.len(),
        reusable(s[k]),
    ensures
        exists|i: int| 0 <= i < s.len() && reusable(#[trigger] s[i]) && forall|j: int| 0 <= j < i ==> !reusable(#[trigger] s[j]),
    decreases k,
{
    if exists|j: int| 0 <= j < k && reusable(#[trigger] s[j]) {
        let j = choose|j: int| 0 <= j < k && reusable(#[trigger] s[j]);
        lemma_least_reusable(s, j);
    } else {
        assert(forall|j: int| 0 <= j < k ==> !reusable(#[trigger] s[j]));
    }
}

/// The slot that `first_reusable` names is reusable and the first such.
pub proof fn lemma_first_reusable(s: Seq<Option<Process>>)
    ensures
        first_reusable(s) matches Some(i) ==> 0 <= i < s.len() && reusable(s[i])
            && forall|j: int| 0 <= j < i ==> !reusable(#[trigger] s[j]),
        first_reusable(s) is None ==> forall|j: int| 0 <= j < s.len() ==> !reusable(#[trigger] s[j]),
{
    if exists|i: int| 0 <= i < s.len() && reusable(#[trigger] s[i]) {
        let k = choose|i: int| 0 <= i < s.len() && reusable(#[trigger] s[i]);
        lemma_least_reusable(s, k);
    }
}

/// The slot table after `c` was put where `add_process` puts it.
pub open spec fn placed(s: Seq<Option<Process>>, t: Seq<Option<Process>>, c: Process) -> bool {
    match first_reusable(s) {
        Some(i) => t == s.update(i, Some(c)),
        None => t == s.push(Some(c)),
    }
}

/// Where `add_process` puts a new process in `s`.
pub open spec fn place_of(s: Seq<Option<Process>>) -> int {
    match first_reusable(s) {
        Some(i) => i,
        None => s.len() as int,
    }
}

/// fork for the process in the current slot: its child, under the pid
/// after the greatest one in the table, joins the table; returns the
/// child's pid, the top of its kernel stack (where the parent's system
/// call frame is to be copied) and the pages to copy. -12 when the slot
/// is empty or memory runs out.
#[verifier::spinoff_prover]
#[verifier::rlimit(50)]
pub fn fork_current(
    sched: &mut Scheduler,
    kernel_pml4: PhysAddr,
    image_base: u64,
    image_size: u64,
    alloc: &mut BuddyAllocator,
    mem: &mut PhysMemory,
    owners: &mut PageOwners,
    files: &OpenFiles,
    pipes: &mut PipeTable,
) -> (r: Result<(Pid, u64, Vec<PageCopy>), i64>)
    requires
        old(sched).wf(),
        forall|i: int| 0 <= i < old(sched).procs().len() ==> (#[trigger] old(sched).procs()[i] matches Some(p) ==> p.pid < u64::MAX),
        old(alloc).wf(),
        direct_mapped(*old(alloc)),
        !old(alloc).is_free(0x7fff_ffff_ffff),
        !old(alloc).is_free(kernel_pml4@ as int),
        old(owners).has_room(),
        files.pipes_ok(old(pipes)),
        room_for_refs(old(pipes)),
        image_base + image_size <= PHYS_LIMIT,
        old(sched).current_spec() matches Some(p) ==> {
            &&& !old(alloc).is_free(p.address_space.page_table.pml4() as int)
            &&& p.fd_table.entries_ok(files)
        },
    ensures
        final(sched).wf(),
        final(alloc).wf(),
        final(sched).idle() == old(sched).idle(),
        final(sched).current_index() == old(sched).current_index(),
        final(sched).started() == old(sched).started(),
        r is Err ==> r == Err::<(Pid, u64, Vec<PageCopy>), i64>(-12i64) && final(sched).procs() == old(sched).procs()
            && final(pipes).pipes@ == old(pipes).pipes@,
        old(sched).current_spec() is None ==> r is Err,
        old(sched).current_spec() matches Some(p) && p.address_space.vmas@.len() == 0
            && first_nonempty(old(alloc).lists(), 3) < MAX_ORDER && old(alloc).free_pages() >= 9 ==> r is Ok,
        old(sched).current_spec() matches Some(p) && is_tree(old(mem)@, *old(alloc), kernel_pml4@)
            && all_nonempty(p.address_space.vmas@) && areas_low(p.address_space.vmas@)
            && first_nonempty(old(alloc).lists(), 3) < MAX_ORDER
            && old(alloc).free_pages() >= 9 + 4 * area_pages(p.address_space.vmas@) ==> r is Ok,
        r matches Ok((pid, top, copies)) ==> {
            let s = old(sched).procs();
            let parent = old(sched).current_spec()->0;
            let c = final(sched).procs()[place_of(s)]->0;
            &&& placed(s, final(sched).procs(), c)
            &&& pid == max_pid(s) + 1
            &&& c.pid == pid
            &&& c.parent_pid == parent.pid
            &&& c.state == ProcessState::Ready
            &&& c.kernel_stack_top == top
            &&& c.context == child_context(top)
            &&& c.fs_base == parent.fs_base
            &&& c.brk_start == parent.brk_start
            &&& c.brk_current == parent.brk_current
            &&& c.fd_table.slots() == parent.fd_table.slots()
            &&& all_nonempty(parent.address_space.vmas@) ==> forall|a: int, f: VMAFlags, kd: VMAKind|
                #[trigger] covers_as(c.address_space.vmas@, a, f, kd) == covers_as(parent.address_space.vmas@, a, f, kd)
        },
{
    let new_pid = sched.alloc_pid();
    let idx = sched.current_idx();
    if idx >= sched.processes.len() {
        return Err(-12);
    }
    let forked = match &sched.processes[idx] {
        Some(parent) => {
            proof {
                assert(sched.procs()[idx as int] matches Some(q) ==> q.wf());
            }
            parent.fork(new_pid, kernel_pml4, image_base, image_size, alloc, mem, owners, files, pipes)
        },
        None => return Err(-12),
    };
    match forked {
        Some((child, copies)) => {
            let top = child.kernel_stack_top;
            let ghost c = child;
            assert(sched.procs() == old(sched).procs());
            sched.add_process(child, alloc, mem, owners);
            proof {
                let s = old(sched).procs();
                lemma_first_reusable(s);
                match first_reusable(s) {
                    Some(i) => {
                        assert(sched.procs()[i] == Some(c));
                    },
                    None => {
                        assert(sched.procs()[s.len() as int] == Some(c));
                    },
                }
            }
            Ok((new_pid, top, copies))
        },
        None => Err(-12),
    }
}


// ----------------------------------------------------------------------
// Round-robin fairness
// ----------------------------------------------------------------------

/// Going round a table of `n` slots from the slot after `cur`, the number
/// of slots passed before slot `i` is reached.
pub open spec fn rr_distance(n: int, cur: int, i: int) -> int {
    if i > cur {
        i - cur - 1
    } else {
        i - cur - 1 + n
    }
}

/// The slot that a scheduler which has picked before, with `cur` current,
/// picks in the table `s` (see `schedule`), if any slot is ready.
pub open spec fn picked_after(s: Seq<Option<Process>>, cur: int) -> Option<int> {
    let start = (cur + 1) % (s.len() as int);
    match steps_to_ready(s, start) {
        Some(k) => Some((start + k) % (s.len() as int)),
        None => None,
    }
}

proof fn lemma_wrap(x: int, n: int)
    requires
        0 < n,
        0 <= x < 2 * n,
    ensures
        x % n == (if x < n { x } else { x - n }),
{
    if x < n {
        vstd::arithmetic::div_mod::lemma_small_mod(x as nat, n as nat);
    } else {
        vstd::arithmetic::div_mod::lemma_small_mod((x - n) as nat, n as nat);
        vstd::arithmetic::div_mod::lemma_mod_add_multiples_vanish(x - n, n);
    }
}

/// The first ready slot going round from `start` comes no later than a
/// ready slot `d` steps on.
proof fn lemma_first_ready(s: Seq<Option<Process>>, start: int, d: int) -> (k: int)
    requires
        0 <= d < s.len(),
        ready(s[(start + d) % (s.len() as int)]),
    ensures
        0 <= k <= d,
        ready(s[(start + k) % (s.len() as int)]),
        forall|j: int| 0 <= j < k ==> !ready(#[trigger] s[(start + j) % (s.len() as int)]),
    decreases d,
{
    if exists|j: int| 0 <= j < d && ready(#[trigger] s[(start + j) % (s.len() as int)]) {
        let j = choose|j: int| 0 <= j < d && ready(#[trigger] s[(start + j) % (s.len() as int)]);
        lemma_first_ready(s, start, j)
    } else {
        d
    }
}

/// One pick of a scheduler that has picked before brings it closer to a
/// ready slot `i`: the slot picked is `i`, or lies before `i` going round
/// from the current slot.
pub proof fn law_pick_nears_ready_slot(s: Seq<Option<Process>>, cur: int, i: int)
    requires
        0 <= cur < s.len(),
        0 <= i < s.len(),
        ready(s[i]),
    ensures
        picked_after(s, cur) is Some,
        0 <= picked_after(s, cur)->0 < s.len(),
        picked_after(s, cur)->0 == i || rr_distance(s.len() as int, picked_after(s, cur)->0, i) < rr_distance(s.len() as int, cur, i),
{
    let n = s.len() as int;
    lemma_wrap(cur + 1, n);
    let start = (cur + 1) % n;
    let d = rr_distance(n, cur, i);
    lemma_wrap(start + d, n);
    assert((start + d) % n == i);
    let k = lemma_first_ready(s, start, d);
    assert(steps_to_ready(s, start) is Some);
    let k2 = steps_to_ready(s, start)->0;
    assert(k2 == k) by {
        if k2 < k {
            assert(!ready(s[(start + k2) % n]));
        }
        if k < k2 {
            assert(!ready(s[(start + k) % n]));
        }
    }
    lemma_wrap(start + k, n);
    let p = (start + k) % n;
    if p != i {
        assert(k < d);
        lemma_wrap(start + k, n);
    }
}

/// At pick `t` slot `i` is ready in the table `tables[t]`, which has the
/// size of the first, and the slot picked there after `curs[t]` is
/// `curs[t + 1]`.
pub open spec fn rr_step(tables: Seq<Seq<Option<Process>>>, curs: Seq<int>, i: int, t: int) -> bool {
    &&& tables[t].len() == tables[0].len()
    &&& ready(tables[t][i])
    &&& picked_after(tables[t], curs[t]) == Some(curs[t + 1])
}

proof fn lemma_rr_steps(tables: Seq<Seq<Option<Process>>>, curs: Seq<int>, i: int, m: int)
    requires
        tables.len() > 0,
        curs.len() == tables.len() + 1,
        0 <= i < tables[0].len(),
        0 <= curs[0] < tables[0].len(),
        forall|t: int| 0 <= t < tables.len() ==> #[trigger] rr_step(tables, curs, i, t),
        0 <= m <= tables.len(),
        forall|t: int| 1 <= t <= m ==> #[trigger] curs[t] != i,
    ensures
        0 <= curs[m] < tables[0].len(),
        rr_distance(tables[0].len() as int, curs[m], i) <= rr_distance(tables[0].len() as int, curs[0], i) - m,
    decreases m,
{
    if m > 0 {
        lemma_rr_steps(tables, curs, i, m - 1);
        let tt = m - 1;
        assert(rr_step(tables, curs, i, tt));
        assert(tt + 1 == m);
        assert(curs[m] != i);
        law_pick_nears_ready_slot(tables[tt], curs[tt], i);
    }
}

/// A process that stays ready is picked within as many picks as the table
/// has slots: for picks `curs[t + 1]` made in the tables `tables[t]` (each
/// as `schedule` sees it once the current process is put back to ready), a
/// slot `i` that is ready in each of them is picked at one of the first
/// `n` picks.
pub proof fn law_ready_process_runs_within_n(tables: Seq<Seq<Option<Process>>>, curs: Seq<int>, i: int)
    requires
        tables.len() > 0,
        curs.len() == tables.len() + 1,
        tables.len() >= tables[0].len(),
        0 <= i < tables[0].len(),
        0 <= curs[0] < tables[0].len(),
        forall|t: int| 0 <= t < tables.len() ==> #[trigger] rr_step(tables, curs, i, t),
    ensures
        exists|t: int| 1 <= t <= tables[0].len() && #[trigger] curs[t] == i,
{
    let n = tables[0].len() as int;
    if !exists|t: int| 1 <= t <= n && #[trigger] curs[t] == i {
        lemma_rr_steps(tables, curs, i, n);
    }
}

} // verus!
