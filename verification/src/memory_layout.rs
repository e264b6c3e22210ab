//! Physical and virtual memory layout of the `virt` machine.
use vstd::prelude::*;
use crate::config::NPROC;
use crate::riscv::paging::{MAXVA, PGSIZE};

verus! {

pub const UART0: u64 = 0x1000_0000;

pub const UART0_IRQ: usize = 10;

pub const VIRTIO0: u64 = 0x1000_1000;

pub const VIRTIO0_IRQ: usize = 1;

pub const CLINT: u64 = 0x200_0000;

/// Cycles since boot.
pub const CLINT_MTIME: u64 = 0x200_bff8;

pub const PLIC: u64 = 0x0c00_0000;

/// First address of physical RAM; the kernel is loaded here.
pub const KERNBASE: u64 = 0x8000_0000;

/// One past the last address of physical RAM.
pub const PHYSTOP: u64 = 0x8800_0000;

/// The trampoline page lies at the highest virtual address.
pub const TRAMPOLINE: u64 = 0x3f_ffff_f000;

/// The trap frame lies just below the trampoline page.
pub const TRAPFRAME: u64 = 0x3f_ffff_e000;

/// The constants above fit together: the trampoline is the last page below `MAXVA`, the
/// trap frame the one before it, and RAM is made of whole pages.
pub proof fn layout_facts()
    ensures
        TRAMPOLINE == MAXVA - PGSIZE,
        TRAPFRAME == TRAMPOLINE - PGSIZE,
        TRAMPOLINE as int % PGSIZE as int == 0,
        TRAPFRAME as int % PGSIZE as int == 0,
        KERNBASE as int % PGSIZE as int == 0,
        PHYSTOP as int % PGSIZE as int == 0,
        KERNBASE < PHYSTOP,
{
}

/// Where the enable register of a hart's S-mode is.
pub open spec fn senable_at(hart: int) -> int {
    PLIC + 0x2080 + hart * 0x100
}

/// Where the priority threshold of a hart's S-mode is.
pub open spec fn spriority_at(hart: int) -> int {
    PLIC + 0x20_1000 + hart * 0x2000
}

/// Where the claim register of a hart's S-mode is.
pub open spec fn sclaim_at(hart: int) -> int {
    PLIC + 0x20_1004 + hart * 0x2000
}

/// The interrupt controller has two contexts for each hart, of which the second is for S-mode. Each context
/// has 0x80 bytes of enable registers from 0x2000 on, and from 0x20_0000 on a page that begins with its
/// threshold and the claim register.
pub proof fn lemma_plic_contexts(hart: int)
    requires
        0 <= hart,
    ensures
        ({
            let context = 2 * hart + 1;
            &&& senable_at(hart) == 0xc00_0000 + 0x2000 + 0x80 * context
            &&& spriority_at(hart) == 0xc00_0000 + 0x20_0000 + 0x1000 * context
            &&& sclaim_at(hart) == spriority_at(hart) + 4
        }),
{
}

/// Address of the enable register of a hart's S-mode in the interrupt controller.
pub fn plic_senable(hart: u64) -> (r: u64)
    requires
        hart <= 0xff_ffff,
    ensures
        r == senable_at(hart as int),
{
    PLIC + 0x2080 + hart * 0x100
}

/// Address of the priority threshold of a hart's S-mode in the interrupt controller.
pub fn plic_spriority(hart: u64) -> (r: u64)
    requires
        hart <= 0xff_ffff,
    ensures
        r == spriority_at(hart as int),
{
    PLIC + 0x20_1000 + hart * 0x2000
}

/// Address of the claim register of a hart's S-mode in the interrupt controller.
pub fn plic_sclaim(hart: u64) -> (r: u64)
    requires
        hart <= 0xff_ffff,
    ensures
        r == sclaim_at(hart as int),
{
    PLIC + 0x20_1004 + hart * 0x2000
}

/// Address of a hart's timer comparator.
pub fn clint_mtimecmp(hart: u64) -> (r: u64)
    requires
        hart <= 0xff_ffff,
    ensures
        r == CLINT + 0x4000 + 8 * hart,
{
    CLINT + 0x4000 + 8 * hart
}

/// Virtual address of kernel stack `index`. Each stack has an unmapped guard page below.
pub open spec fn kstack_spec(index: int) -> int {
    TRAMPOLINE - (index + 1) * 2 * PGSIZE
}

pub fn kstack(index: usize) -> (r: u64)
    requires
        index < NPROC,
    ensures
        r == kstack_spec(index as int),
{
    TRAMPOLINE - (index as u64 + 1) * 2 * PGSIZE
}

/// Number of the kernel stack at `addr`.
pub fn kstack_index(addr: u64) -> (r: usize)
    requires
        kstack_spec(NPROC as int) < addr <= TRAMPOLINE - 2 * PGSIZE,
    ensures
        r == (TRAMPOLINE - addr) / 8192 - 1,
        r < NPROC,
{
    ((TRAMPOLINE - addr) / 8192) as usize - 1
}

/// Every kernel stack's address determines its number.
pub proof fn lemma_kstack_index(index: int)
    requires
        0 <= index < NPROC,
    ensures
        (TRAMPOLINE - kstack_spec(index)) / 8192 - 1 == index,
        kstack_spec(NPROC as int) < kstack_spec(index) <= TRAMPOLINE - 2 * PGSIZE,
{
}

} // verus!
