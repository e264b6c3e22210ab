//! The riscv Platform Level Interrupt Controller (PLIC).
use vstd::prelude::*;
use crate::memory_layout::{plic_sclaim, plic_senable, plic_spriority, sclaim_at, senable_at, spriority_at, PLIC, UART0_IRQ, VIRTIO0_IRQ};

verus! {

/// Addresses and values to write so that the UART and the disk have a priority that is not
/// zero; otherwise they would be disabled.
pub fn initialize() -> (r: Vec<(u64, u32)>)
    ensures
        r@ == seq![((PLIC + UART0_IRQ * 4) as u64, 1u32), ((PLIC + VIRTIO0_IRQ * 4) as u64, 1u32)],
{
    let mut r: Vec<(u64, u32)> = Vec::new();
    r.push((PLIC + UART0_IRQ as u64 * 4, 1));
    r.push((PLIC + VIRTIO0_IRQ as u64 * 4, 1));
    proof {
        assert(r@ =~= seq![((PLIC + UART0_IRQ * 4) as u64, 1u32), ((PLIC + VIRTIO0_IRQ * 4) as u64, 1u32)]);
    }
    r
}

/// Addresses and values to write so that the hart's S-mode gets the interrupts of the UART and
/// the disk, and its priority threshold is 0.
pub fn initialize_for_core(hart: u64) -> (r: Vec<(u64, u32)>)
    requires
        hart <= 0xff_ffff,
    ensures
        r@ == seq![(senable_at(hart as int) as u64, 0x402u32), (spriority_at(hart as int) as u64, 0u32)],
{
    let mut r: Vec<(u64, u32)> = Vec::new();
    proof {
        assert((1u32 << 10) | (1u32 << 1) == 0x402) by (bit_vector);
    }
    r.push((plic_senable(hart), (1u32 << 10) | (1u32 << 1)));
    r.push((plic_spriority(hart), 0));
    proof {
        assert(r@ =~= seq![(senable_at(hart as int) as u64, 0x402u32), (spriority_at(hart as int) as u64, 0u32)]);
    }
    r
}

/// Where to read which interrupt the hart should serve.
pub fn plic_claim(hart: u64) -> (r: u64)
    requires
        hart <= 0xff_ffff,
    ensures
        r == sclaim_at(hart as int),
{
    plic_sclaim(hart)
}

/// Where and what to write to tell that the hart has served an interrupt.
pub fn plic_complete(hart: u64, irq: u32) -> (r: (u64, u32))
    requires
        hart <= 0xff_ffff,
    ensures
        r == (sclaim_at(hart as int) as u64, irq),
{
    (plic_sclaim(hart), irq)
}

} // verus!
