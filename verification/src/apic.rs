//! The local APIC: the register values that set it up, arm its timer and
//! start the other processors. Each function returns the register accesses
//! to perform, in order; performing them is left to the caller.

use vstd::prelude::*;
use crate::paging::{phys_to_virt, KERNEL_VIRT_BASE};

verus! {

pub const LAPIC_ID: usize = 0x020;
pub const LAPIC_VER: usize = 0x030;
pub const LAPIC_TPR: usize = 0x080;
pub const LAPIC_EOI: usize = 0x0b0;
pub const LAPIC_SVR: usize = 0x0f0;
pub const LAPIC_ICR_LOW: usize = 0x300;
pub const LAPIC_ICR_HIGH: usize = 0x310;
pub const LAPIC_TIMER: usize = 0x320;
pub const LAPIC_TIMER_INIT: usize = 0x380;
pub const LAPIC_TIMER_CUR: usize = 0x390;
pub const LAPIC_TIMER_DIV: usize = 0x3e0;

pub const LAPIC_SVR_ENABLE: u32 = 0x100;
pub const LAPIC_TIMER_PERIODIC: u32 = 0x2_0000;

/// One step of driving the local APIC.
#[derive(Clone, Copy, Debug, PartialEq, Eq, Structural)]
pub enum LapicOp {
    /// Write `value` to the register at `offset`.
    Write(usize, u32),
    /// Spin for about the given number of milliseconds.
    WaitMs(u64),
}

/// The register base from the value of the APIC base MSR.
pub fn base_from_msr(eax: u32, edx: u32) -> (r: u64)
    ensures
        r == ((edx as u64) << 32u64 | eax as u64) & 0xffff_ffff_f000u64,
{
    (((edx as u64) << 32) | (eax as u64)) & 0xffff_ffff_f000
}

/// Setting the local APIC up, given the spurious-vector register's value:
/// software enable with vector 0xff, and task priority 0.
pub fn init(svr_before: u32) -> (r: Vec<LapicOp>)
    ensures
        r@ == seq![LapicOp::Write(LAPIC_SVR, svr_before | 0x100u32 | 0xffu32), LapicOp::Write(LAPIC_TPR, 0)],
{
    let mut ops: Vec<LapicOp> = Vec::new();
    ops.push(LapicOp::Write(LAPIC_SVR, svr_before | LAPIC_SVR_ENABLE | 0xff));
    ops.push(LapicOp::Write(LAPIC_TPR, 0));
    proof {
        assert(ops@ =~= seq![LapicOp::Write(LAPIC_SVR, svr_before | 0x100u32 | 0xffu32), LapicOp::Write(LAPIC_TPR, 0)]);
    }
    ops
}

/// The APIC id from the value of the id register.
pub fn id(id_reg: u32) -> (r: u32)
    ensures
        r == id_reg >> 24u32,
{
    id_reg >> 24
}

/// End of interrupt.
pub fn send_eoi() -> (r: LapicOp)
    ensures
        r == LapicOp::Write(LAPIC_EOI, 0),
{
    LapicOp::Write(LAPIC_EOI, 0)
}

/// A periodic timer on `vector`, divide by 16, initial count 625000.
pub fn init_timer(vector: u8) -> (r: Vec<LapicOp>)
    ensures
        r@ == seq![
            LapicOp::Write(LAPIC_TIMER_DIV, 3),
            LapicOp::Write(LAPIC_TIMER, 0x2_0000u32 | vector as u32),
            LapicOp::Write(LAPIC_TIMER_INIT, 625_000),
        ],
{
    let mut ops: Vec<LapicOp> = Vec::new();
    ops.push(LapicOp::Write(LAPIC_TIMER_DIV, 0x3));
    ops.push(LapicOp::Write(LAPIC_TIMER, LAPIC_TIMER_PERIODIC | (vector as u32)));
    ops.push(LapicOp::Write(LAPIC_TIMER_INIT, 625_000));
    proof {
        assert(ops@ =~= seq![
            LapicOp::Write(LAPIC_TIMER_DIV, 3),
            LapicOp::Write(LAPIC_TIMER, 0x2_0000u32 | vector as u32),
            LapicOp::Write(LAPIC_TIMER_INIT, 625_000),
        ]);
    }
    ops
}

/// Starting processor `apic_id` at the page `vector`: INIT assert, INIT
/// deassert, then two startup IPIs, each after its wait.
pub fn send_sipi(apic_id: u8, vector: u8) -> (r: Vec<LapicOp>)
    ensures
        r@ == seq![
            LapicOp::Write(LAPIC_ICR_HIGH, (apic_id as u32) << 24u32),
            LapicOp::Write(LAPIC_ICR_LOW, 0xc500),
            LapicOp::WaitMs(10),
            LapicOp::Write(LAPIC_ICR_HIGH, (apic_id as u32) << 24u32),
            LapicOp::Write(LAPIC_ICR_LOW, 0x8500),
            LapicOp::WaitMs(10),
            LapicOp::Write(LAPIC_ICR_HIGH, (apic_id as u32) << 24u32),
            LapicOp::Write(LAPIC_ICR_LOW, 0x4600u32 | vector as u32),
            LapicOp::WaitMs(1),
            LapicOp::Write(LAPIC_ICR_HIGH, (apic_id as u32) << 24u32),
            LapicOp::Write(LAPIC_ICR_LOW, 0x4600u32 | vector as u32),
            LapicOp::WaitMs(1),
        ],
{
    let high = (apic_id as u32) << 24;
    let mut ops: Vec<LapicOp> = Vec::new();
    ops.push(LapicOp::Write(LAPIC_ICR_HIGH, high));
    ops.push(LapicOp::Write(LAPIC_ICR_LOW, 0x0000_c500));
    ops.push(LapicOp::WaitMs(10));
    ops.push(LapicOp::Write(LAPIC_ICR_HIGH, high));
    ops.push(LapicOp::Write(LAPIC_ICR_LOW, 0x0000_8500));
    ops.push(LapicOp::WaitMs(10));
    ops.push(LapicOp::Write(LAPIC_ICR_HIGH, high));
    ops.push(LapicOp::Write(LAPIC_ICR_LOW, 0x0000_4600 | (vector as u32)));
    ops.push(LapicOp::WaitMs(1));
    ops.push(LapicOp::Write(LAPIC_ICR_HIGH, high));
    ops.push(LapicOp::Write(LAPIC_ICR_LOW, 0x0000_4600 | (vector as u32)));
    ops.push(LapicOp::WaitMs(1));
    proof {
        assert(ops@ =~= seq![
            LapicOp::Write(LAPIC_ICR_HIGH, (apic_id as u32) << 24u32),
            LapicOp::Write(LAPIC_ICR_LOW, 0xc500),
            LapicOp::WaitMs(10),
            LapicOp::Write(LAPIC_ICR_HIGH, (apic_id as u32) << 24u32),
            LapicOp::Write(LAPIC_ICR_LOW, 0x8500),
            LapicOp::WaitMs(10),
            LapicOp::Write(LAPIC_ICR_HIGH, (apic_id as u32) << 24u32),
            LapicOp::Write(LAPIC_ICR_LOW, 0x4600u32 | vector as u32),
            LapicOp::WaitMs(1),
            LapicOp::Write(LAPIC_ICR_HIGH, (apic_id as u32) << 24u32),
            LapicOp::Write(LAPIC_ICR_LOW, 0x4600u32 | vector as u32),
            LapicOp::WaitMs(1),
        ]);
    }
    ops
}

/// Spin iterations for waiting `ms` milliseconds: a running timer (current
/// count not 0) means a faster machine was assumed calibrated, so fewer.
pub fn busy_wait_ms(ms: u64, timer_current: u32) -> (r: u64)
    requires
        ms * 1_000_000 <= u64::MAX,
    ensures
        r == (if timer_current == 0 { ms * 1_000_000 } else { ms * 500_000 }),
{
    if timer_current == 0 {
        ms * 1_000_000
    } else {
        ms * 500_000
    }
}

/// Arming the timer for calibration: one-shot on `vector`, divide by 16,
/// the largest count.
pub fn calibrate_timer(vector: u8) -> (r: Vec<LapicOp>)
    ensures
        r@ == seq![
            LapicOp::Write(LAPIC_TIMER_DIV, 3),
            LapicOp::Write(LAPIC_TIMER, vector as u32),
            LapicOp::Write(LAPIC_TIMER_INIT, 0xffff_ffff),
        ],
{
    let mut ops: Vec<LapicOp> = Vec::new();
    ops.push(LapicOp::Write(LAPIC_TIMER_DIV, 0x3));
    ops.push(LapicOp::Write(LAPIC_TIMER, vector as u32));
    ops.push(LapicOp::Write(LAPIC_TIMER_INIT, 0xffff_ffff));
    proof {
        assert(ops@ =~= seq![
            LapicOp::Write(LAPIC_TIMER_DIV, 3),
            LapicOp::Write(LAPIC_TIMER, vector as u32),
            LapicOp::Write(LAPIC_TIMER_INIT, 0xffff_ffff),
        ]);
    }
    ops
}

/// After one PIT period of 10 ms: the counts the timer took, and the
/// periodic 100 Hz timer armed with that count.
pub fn calibrate_timer_finish(vector: u8, apic_start: u32, apic_end: u32) -> (r: (u32, Vec<LapicOp>))
    ensures
        r.0 == (if apic_start >= apic_end { apic_start - apic_end } else { apic_start + 0x1_0000_0000 - apic_end }),
        r.1@ == seq![
            LapicOp::Write(LAPIC_TIMER, 0x2_0000u32 | vector as u32),
            LapicOp::Write(LAPIC_TIMER_INIT, r.0),
        ],
{
    let counts = apic_start.wrapping_sub(apic_end);
    let mut ops: Vec<LapicOp> = Vec::new();
    ops.push(LapicOp::Write(LAPIC_TIMER, LAPIC_TIMER_PERIODIC | (vector as u32)));
    ops.push(LapicOp::Write(LAPIC_TIMER_INIT, counts));
    proof {
        assert(ops@ =~= seq![
            LapicOp::Write(LAPIC_TIMER, 0x2_0000u32 | vector as u32),
            LapicOp::Write(LAPIC_TIMER_INIT, counts),
        ]);
    }
    (counts, ops)
}

/// Physical address where the startup code of the other processors lies.
pub const TRAMPOLINE_PHYS: u64 = 0x8000;

/// The startup-IPI vector that names the trampoline's page.
pub fn trampoline_phys() -> (r: u8)
    ensures
        r == 8,
{
    let page = TRAMPOLINE_PHYS >> 12;
    proof {
        crate::paging::lemma_bit_constants();
    }
    page as u8
}

/// The register base once the kernel runs in the higher half.
pub fn reload_higher_half(phys_base: u64) -> (r: u64)
    requires
        phys_base <= u64::MAX - KERNEL_VIRT_BASE,
    ensures
        r == KERNEL_VIRT_BASE + phys_base,
{
    phys_to_virt(phys_base)
}

} // verus!
