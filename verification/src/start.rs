//! Machine mode at boot.
use vstd::prelude::*;
use crate::config::{ENTRY_STACKSIZE, NCPU};
use crate::filesystem::bytes::zeros;
use crate::memory_layout::{clint_mtimecmp, CLINT};
use crate::riscv::{MIE_MTIE, MSTATUS_MIE, MSTATUS_MPP_MASK, MSTATUS_MPP_S, SIE_SEIE, SIE_SSIE, SIE_STIE};

verus! {

/// One stack for each CPU.
pub struct Stack0 {
    pub bytes: Vec<u8>,
}

impl Stack0 {
    pub fn zeroed() -> (r: Self)
        ensures
            r.bytes@ == Seq::new((ENTRY_STACKSIZE * NCPU) as nat, |i: int| 0u8),
    {
        Stack0 { bytes: zeros(ENTRY_STACKSIZE * NCPU) }
    }
}

/// The first stack pointer of a CPU, given where the stacks are.
pub fn entry_stack(stack0: u64, hart: u64) -> (r: u64)
    requires
        hart < NCPU,
        stack0 + 4096 * (hart + 1) <= u64::MAX,
    ensures
        r == stack0 + 4096 * (hart + 1),
{
    stack0 + 4096 * (hart + 1)
}

/// The registers that are written before the switch to supervisor mode.
pub struct StartRegisters {
    /// Previous mode is supervisor.
    pub mstatus: u64,
    /// Where supervisor mode begins.
    pub mepc: u64,
    /// No paging for now.
    pub satp: u64,
    /// All exceptions go to supervisor mode.
    pub medeleg: u64,
    /// All interrupts go to supervisor mode.
    pub mideleg: u64,
    pub sie: u64,
    /// Supervisor mode has access to all of physical memory.
    pub pmpaddr0: u64,
    pub pmpcfg0: u64,
}

/// What to write to registers at boot, given two that are read and where `main` is.
pub fn start(mstatus: u64, sie: u64, main: u64) -> (r: StartRegisters)
    ensures
        started(mstatus, sie, main, r),
{
    let mut x = mstatus;
    x = x & !MSTATUS_MPP_MASK;
    x = x | MSTATUS_MPP_S;
    StartRegisters {
        mstatus: x,
        mepc: main,
        satp: 0,
        medeleg: 0xffff,
        mideleg: 0xffff,
        sie: sie | SIE_SEIE | SIE_STIE | SIE_SSIE,
        pmpaddr0: 0x3f_ffff_ffff_ffff,
        pmpcfg0: 0xf,
    }
}

/// What is set up for a hart to receive timer interrupts in machine mode.
pub struct TimerSetup {
    /// Where to write the time of the next interrupt, and that time.
    pub mtimecmp: u64,
    pub next: u64,
    /// Scratch area for the timer's trap handler: space for registers, then the address of the
    /// hart's comparator and the interval.
    pub scratch: Vec<u64>,
    pub mstatus: u64,
    pub mie: u64,
}

/// Cycles between timer interrupts, about 1/10th second in qemu.
pub const TIMER_INTERVAL: u64 = 1000000;

/// Asks for timer interrupts on a hart, given the time and two registers that are read.
pub fn initialize_timer(hart: u64, mtime: u64, mstatus: u64, mie: u64) -> (r: TimerSetup)
    requires
        hart < NCPU,
        mtime + TIMER_INTERVAL <= u64::MAX,
    ensures
        r.mtimecmp == CLINT + 0x4000 + 8 * hart,
        r.next == mtime + TIMER_INTERVAL,
        r.scratch@.len() == 5,
        r.scratch@[0] == 0,
        r.scratch@[1] == 0,
        r.scratch@[2] == 0,
        r.scratch@[3] == CLINT + 0x4000 + 8 * hart,
        r.scratch@[4] == TIMER_INTERVAL,
        r.mstatus == mstatus | MSTATUS_MIE,
        r.mie == mie | MIE_MTIE,
{
    let mtimecmp = clint_mtimecmp(hart);
    let mut scratch: Vec<u64> = Vec::new();
    scratch.push(0);
    scratch.push(0);
    scratch.push(0);
    scratch.push(mtimecmp);
    scratch.push(TIMER_INTERVAL);
    TimerSetup { mtimecmp, next: mtime + TIMER_INTERVAL, scratch, mstatus: mstatus | MSTATUS_MIE, mie: mie | MIE_MTIE }
}

/// What is written to registers at boot.
pub open spec fn started(mstatus: u64, sie: u64, main: u64, r: StartRegisters) -> bool {
    &&& r.mstatus == (mstatus & !MSTATUS_MPP_MASK) | MSTATUS_MPP_S
    &&& r.mepc == main
    &&& r.satp == 0
    &&& r.medeleg == 0xffff
    &&& r.mideleg == 0xffff
    &&& r.sie == sie | SIE_SEIE | SIE_STIE | SIE_SSIE
    &&& r.pmpaddr0 == 0x3f_ffff_ffff_ffff
    &&& r.pmpcfg0 == 0xf
}

/// The hart goes on in supervisor mode, which is number 1 in bits 11 and 12 of its status, at `main`, with
/// external, timer and software interrupts enabled (bits 9, 5 and 1), and no other bit of the two registers
/// changes.
pub proof fn lemma_supervisor(mstatus: u64, sie: u64, main: u64, r: StartRegisters, bit: u64)
    requires
        started(mstatus, sie, main, r),
        bit < 64,
    ensures
        r.mepc == main,
        r.mstatus / 0x800 % 4 == 1,
        bit != 11 && bit != 12 ==> r.mstatus & (1u64 << bit) == mstatus & (1u64 << bit),
        r.sie & (1u64 << bit) == if bit == 1 || bit == 5 || bit == 9 { 1u64 << bit } else { sie & (1u64 << bit) },
{
    lemma_start_bits(mstatus, sie, bit);
}

proof fn lemma_start_bits(mstatus: u64, sie: u64, bit: u64)
    by (bit_vector)
    requires
        bit < 64,
    ensures
        ((mstatus & !0x1800u64) | 0x800) / 0x800 % 4 == 1,
        bit != 11 && bit != 12 ==> ((mstatus & !0x1800u64) | 0x800) & (1u64 << bit) == mstatus & (1u64 << bit),
        (sie | 0x200 | 0x20 | 0x2) & (1u64 << bit) == if bit == 1 || bit == 5 || bit == 9 { 1u64 << bit } else { sie & (1u64 << bit) },
{
}

} // verus!
