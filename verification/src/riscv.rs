//! The RISC-V CPU: control and status registers and paging.
use vstd::prelude::*;

pub mod mmu;
pub mod paging;

verus! {

/// Machine status register: previous mode.
pub const MSTATUS_MPP_MASK: u64 = 0x1800;

pub const MSTATUS_MPP_M: u64 = 0x1800;

pub const MSTATUS_MPP_S: u64 = 0x800;

pub const MSTATUS_MPP_U: u64 = 0;

/// Machine-mode interrupt enable.
pub const MSTATUS_MIE: u64 = 0x8;

/// Supervisor status register: previous mode, 1=Supervisor, 0=User.
pub const SSTATUS_SPP: u64 = 0x100;

/// Supervisor Previous Interrupt Enable.
pub const SSTATUS_SPIE: u64 = 0x20;

/// User Previous Interrupt Enable.
pub const SSTATUS_UPIE: u64 = 0x10;

/// Supervisor Interrupt Enable.
pub const SSTATUS_SIE: u64 = 0x2;

/// User Interrupt Enable.
pub const SSTATUS_UIE: u64 = 0x1;

/// Supervisor interrupt enable: external.
pub const SIE_SEIE: u64 = 0x200;

/// Supervisor interrupt enable: timer.
pub const SIE_STIE: u64 = 0x20;

/// Supervisor interrupt enable: software.
pub const SIE_SSIE: u64 = 0x2;

/// Machine-mode interrupt enable: external.
pub const MIE_MEIE: u64 = 0x800;

/// Machine-mode interrupt enable: timer.
pub const MIE_MTIE: u64 = 0x80;

/// Machine-mode interrupt enable: software.
pub const MIE_MSIE: u64 = 0x8;

/// The Sv39 page table scheme.
pub const SATP_SV39: u64 = 0x8000_0000_0000_0000;

/// The value of the register that selects a page table, given the physical address of its root.
pub fn make_satp(pagetable: u64) -> (r: u64)
    ensures
        r == SATP_SV39 | (pagetable >> 12),
        r == 0x8000_0000_0000_0000 + pagetable / 4096,
{
    proof {
        assert(0x8000_0000_0000_0000u64 | (pagetable >> 12) == 0x8000_0000_0000_0000 + pagetable / 4096) by (bit_vector);
    }
    SATP_SV39 | (pagetable >> 12)
}

/// The supervisor status with device interrupts enabled.
pub fn enable_interrupt(sstatus: u64) -> (r: u64)
    ensures
        r == sstatus | SSTATUS_SIE,
{
    sstatus | SSTATUS_SIE
}

/// The supervisor status with device interrupts disabled.
pub fn disable_interrupt(sstatus: u64) -> (r: u64)
    ensures
        r == sstatus & !SSTATUS_SIE,
{
    sstatus & !SSTATUS_SIE
}

/// Are device interrupts enabled?
pub fn is_interrupt_enabled(sstatus: u64) -> (r: bool)
    ensures
        r == (sstatus & SSTATUS_SIE != 0),
{
    sstatus & SSTATUS_SIE != 0
}

/// Enabling interrupts enables them, disabling disables them, and neither touches another bit.
pub proof fn lemma_interrupt_bit(sstatus: u64)
    ensures
        (sstatus | SSTATUS_SIE) & SSTATUS_SIE != 0,
        (sstatus & !SSTATUS_SIE) & SSTATUS_SIE == 0,
        (sstatus | SSTATUS_SIE) & !SSTATUS_SIE == sstatus & !SSTATUS_SIE,
{
    assert((sstatus | 2) & 2 != 0 && (sstatus & !2u64) & 2 == 0 && (sstatus | 2) & !2u64 == sstatus & !2u64) by (bit_vector);
}

} // verus!
