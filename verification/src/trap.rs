//! Traps from user code and from the kernel itself.
use vstd::prelude::*;
use crate::allocator::{frame_addr, is_frame};
use crate::memory_layout::{TRAMPOLINE, UART0_IRQ, VIRTIO0_IRQ};
use crate::process::process::{Process, ProcessContext};
use crate::process::set_killed;
use crate::process::table::ProcessTable;
use crate::process::trapframe::TrapFrame;
use crate::riscv::paging::PGSIZE;
use crate::riscv::{disable_interrupt, make_satp, SATP_SV39, SSTATUS_SIE, SSTATUS_SPIE, SSTATUS_SPP};

verus! {

/// What the kernel has to do next about a trap from user code.
#[derive(Clone, Copy, Debug, PartialEq, Eq, Structural)]
pub enum UserTrap {
    /// End the process with this status.
    Exit(i32),
    /// Serve the system call with this number.
    Syscall(u64),
    /// Serve the device that interrupted.
    Interrupt,
    /// Let another process run, and then return to user code.
    Pause,
    /// Return to user code.
    Return,
}

/// A device that interrupts.
#[derive(Clone, Copy, Debug, PartialEq, Eq, Structural)]
pub enum Device {
    Uart,
    Disk,
    /// No device that the kernel knows of has this number.
    Unexpected(usize),
}

/// What an interrupt asks for.
#[derive(Clone, Copy, Debug, PartialEq, Eq, Structural)]
pub struct InterruptWork {
    /// 2 if timer interrupt, 1 if other device, 0 if not recognized.
    pub which: usize,
    /// The device to serve.
    pub device: Option<Device>,
    /// The interrupt to complete at the PLIC once it was served.
    pub complete: Option<u32>,
    /// Whether the clock goes on.
    pub tick: bool,
    /// What to write to `sip`.
    pub sip: Option<u64>,
}

/// Registers to set for the way back to user code, and where to jump to.
#[derive(Clone, Copy, Debug, PartialEq, Eq, Structural)]
pub struct UserReturn {
    pub stvec: u64,
    pub sstatus: u64,
    pub sepc: u64,
    /// The argument of the jump.
    pub satp: u64,
    pub entry: u64,
}

/// What the kernel does when it comes back from one of its own traps.
#[derive(Clone, Copy, Debug, PartialEq, Eq, Structural)]
pub struct KernelReturn {
    /// Let another process run first.
    pub pause: bool,
    pub sepc: u64,
    pub sstatus: u64,
}

/// The address of code in the trampoline page, as it is seen in every page table.
pub open spec fn in_trampoline(code: u64, trampoline: u64) -> int {
    TRAMPOLINE + (code - trampoline)
}

fn set_user_trap(user_trap_handler: u64, trampoline: u64) -> (stvec: u64)
    requires
        trampoline <= user_trap_handler,
        user_trap_handler - trampoline < PGSIZE,
    ensures
        stvec == in_trampoline(user_trap_handler, trampoline),
{
    TRAMPOLINE + (user_trap_handler - trampoline)
}

/// The value of `stvec` while the kernel runs: the address of its own trap handler.
pub fn initialize(kernelvec: u64) -> (stvec: u64)
    ensures
        stvec == kernelvec,
{
    kernelvec
}

/// What a trap from user code comes to.
pub open spec fn trapped(c0: ProcessContext, c1: ProcessContext, sepc: u64, cause: u64, killed: bool, r: UserTrap) -> bool {
    &&& c1 == (ProcessContext {
        trapframe: TrapFrame { epc: if cause == 8 && !killed { (sepc + 4) as u64 } else { sepc }, ..c0.trapframe },
        ..c0
    })
    &&& r == if cause == 8 {
        if killed {
            UserTrap::Exit(-1 as i32)
        } else {
            UserTrap::Syscall(c0.trapframe.a7)
        }
    } else {
        UserTrap::Interrupt
    }
}

/// What the end of a system call comes to.
pub open spec fn call_done(c0: ProcessContext, c1: ProcessContext, result: Result<u64, ()>, killed: bool, r: UserTrap) -> bool {
    &&& c1 == (ProcessContext {
        trapframe: TrapFrame {
            a0: match result {
                Ok(v) => v,
                Err(_) => u64::MAX,
            },
            ..c0.trapframe
        },
        ..c0
    })
    &&& r == if killed { UserTrap::Exit(-1 as i32) } else { UserTrap::Return }
}

/// What the end of an interrupt of user code comes to.
pub open spec fn interrupted(procs0: Seq<Process>, procs1: Seq<Process>, current: int, which: usize, r: UserTrap) -> bool {
    &&& procs1 == if which == 0 {
        procs0.update(current, Process { killed: true, ..procs0[current] })
    } else {
        procs0
    }
    &&& r == if which == 0 || procs0[current].killed {
        UserTrap::Exit(-1 as i32)
    } else if which == 2 {
        UserTrap::Pause
    } else {
        UserTrap::Return
    }
}

/// What has to be set for the way back to user code.
pub open spec fn going_back(
    c0: ProcessContext,
    c1: ProcessContext,
    kernel_satp: u64,
    hartid: u64,
    sstatus: u64,
    usertrap: u64,
    user_trap_handler: u64,
    kernel_to_user: u64,
    trampoline: u64,
    r: UserReturn,
) -> bool {
    &&& c1 == (ProcessContext {
        trapframe: TrapFrame {
            kernel_satp,
            kernel_sp: (c0.kstack + PGSIZE) as u64,
            kernel_trap: usertrap,
            kernel_hartid: hartid,
            ..c0.trapframe
        },
        ..c0
    })
    &&& r.stvec == in_trampoline(user_trap_handler, trampoline)
    &&& r.sstatus == ((sstatus & !SSTATUS_SIE) & !SSTATUS_SPP) | SSTATUS_SPIE
    &&& r.sepc == c0.trapframe.epc
    &&& r.satp == SATP_SV39 + frame_addr(c0.pagetable.root()) / 4096
    &&& r.entry == in_trampoline(kernel_to_user, trampoline)
}

/// The cause of a trap is a supervisor external interrupt.
pub open spec fn external(cause: u64) -> bool {
    cause & 0x8000_0000_0000_0000 != 0 && cause & 0xff == 9
}

/// What an interrupt with a cause asks for.
pub open spec fn work_of(cause: u64, irq: u32, cpu: usize, sip: u64) -> InterruptWork {
    if external(cause) {
        InterruptWork {
            which: 1,
            device: if irq == 0 {
                None
            } else if irq == UART0_IRQ {
                Some(Device::Uart)
            } else if irq == VIRTIO0_IRQ {
                Some(Device::Disk)
            } else {
                Some(Device::Unexpected(irq as usize))
            },
            complete: if irq == 0 { None } else { Some(irq) },
            tick: false,
            sip: None,
        }
    } else if cause == 0x8000_0000_0000_0001 {
        InterruptWork { which: 2, device: None, complete: None, tick: cpu == 0, sip: Some(sip & !2u64) }
    } else {
        InterruptWork { which: 0, device: None, complete: None, tick: false, sip: None }
    }
}

/// A trap from user code. `sstatus`, `sepc` and `cause` are what the hart has in its registers,
/// `killed` tells whether the process was told to end.
pub fn usertrap(context: &mut ProcessContext, sstatus: u64, sepc: u64, cause: u64, killed: bool) -> (r: UserTrap)
    requires
        sstatus & SSTATUS_SPP == 0,
        cause == 8 && !killed ==> sepc <= u64::MAX - 4,
    ensures
        trapped(*old(context), *final(context), sepc, cause, killed, r),
{
    context.trapframe.epc = sepc;
    if cause == 8 {
        if killed {
            return UserTrap::Exit(-1);
        }
        // sepc points to the ecall instruction,
        // but we want to return to the next instruction.
        context.trapframe.epc = sepc + 4;
        return UserTrap::Syscall(context.trapframe.a7);
    }
    UserTrap::Interrupt
}

/// Goes on after a system call, with its result in register a0.
pub fn syscall_done(context: &mut ProcessContext, result: Result<u64, ()>, killed: bool) -> (r: UserTrap)
    ensures
        call_done(*old(context), *final(context), result, killed, r),
{
    context.trapframe.a0 = match result {
        Ok(v) => v,
        Err(_) => u64::MAX,
    };
    if killed {
        UserTrap::Exit(-1)
    } else {
        UserTrap::Return
    }
}

/// Goes on after an interrupt. A process whose trap has a cause that is not recognized is told
/// to end.
pub fn interrupt_done(table: &mut ProcessTable, current: usize, which: usize) -> (r: UserTrap)
    requires
        old(table).wf(),
        current < old(table).procs@.len(),
    ensures
        final(table).wf(),
        final(table).next_pid == old(table).next_pid,
        interrupted(old(table).procs@, final(table).procs@, current as int, which, r),
{
    if which == 0 {
        let _ = set_killed(table, Some(current));
    }
    if table.procs[current].killed {
        return UserTrap::Exit(-1);
    }
    if which == 2 {
        return UserTrap::Pause;
    }
    UserTrap::Return
}

/// Prepares the way back to user code. `kernel_satp`, `hartid` and `sstatus` are what the hart
/// has in its registers; the others are addresses of code.
pub fn usertrapret(
    context: &mut ProcessContext,
    kernel_satp: u64,
    hartid: u64,
    sstatus: u64,
    usertrap: u64,
    user_trap_handler: u64,
    kernel_to_user: u64,
    trampoline: u64,
) -> (r: UserReturn)
    requires
        trampoline <= user_trap_handler,
        user_trap_handler - trampoline < PGSIZE,
        trampoline <= kernel_to_user,
        kernel_to_user - trampoline < PGSIZE,
        old(context).kstack <= u64::MAX - PGSIZE,
        is_frame(old(context).pagetable.root()),
    ensures
        going_back(
            *old(context),
            *final(context),
            kernel_satp,
            hartid,
            sstatus,
            usertrap,
            user_trap_handler,
            kernel_to_user,
            trampoline,
            r,
        ),
{
    // we're about to switch the destination of traps from
    // kerneltrap() to usertrap(), so turn off interrupts until
    // we're back in user space, where usertrap() is correct.
    let status = disable_interrupt(sstatus);
    let stvec = set_user_trap(user_trap_handler, trampoline);

    // set up trapframe values that user_trap_handler will need when
    // the process next re-enters the kernel.
    context.trapframe.kernel_satp = kernel_satp;
    context.trapframe.kernel_sp = context.kstack + PGSIZE;
    context.trapframe.kernel_trap = usertrap;
    context.trapframe.kernel_hartid = hartid;

    UserReturn {
        stvec,
        sstatus: (status & !SSTATUS_SPP) | SSTATUS_SPIE,
        sepc: context.trapframe.epc,
        satp: make_satp(context.pagetable.as_u64()),
        entry: TRAMPOLINE + (kernel_to_user - trampoline),
    }
}

/// How the kernel comes back from one of its own traps.
pub open spec fn kernel_return(which: usize, running: bool, sepc: u64, sstatus: u64) -> KernelReturn {
    KernelReturn { pause: which == 2 && running, sepc, sstatus }
}

/// Goes on after a trap from the kernel, whose cause was recognized. The other process may have
/// caused some traps to occur, so the registers are restored.
pub fn kerneltrap(which: usize, running: bool, sepc: u64, sstatus: u64) -> (r: KernelReturn)
    requires
        which != 0,
        sstatus & SSTATUS_SPP != 0,
        sstatus & SSTATUS_SIE == 0,
    ensures
        r == kernel_return(which, running, sepc, sstatus),
{
    KernelReturn { pause: which == 2 && running, sepc, sstatus }
}

/// Whether the cause of a trap is a supervisor external interrupt, via PLIC. Only then there is
/// an interrupt to claim.
pub fn is_external(cause: u64) -> (r: bool)
    ensures
        r == external(cause),
{
    cause & 0x8000_0000_0000_0000 != 0 && cause & 0xff == 9
}

/// Checks if it's an external interrupt or software interrupt, and tells how to handle it. `irq`
/// is what was claimed from the PLIC, where there was anything to claim.
pub fn device_interrupt_handler(cause: u64, irq: u32, cpu: usize, sip: u64) -> (r: InterruptWork)
    ensures
        r == work_of(cause, irq, cpu, sip),
{
    if is_external(cause) {
        // irq indicates which device interrupted.
        let number = irq as usize;
        let device = if number == UART0_IRQ {
            Some(Device::Uart)
        } else if number == VIRTIO0_IRQ {
            Some(Device::Disk)
        } else if number != 0 {
            Some(Device::Unexpected(number))
        } else {
            None
        };
        let complete = if irq != 0 {
            Some(irq)
        } else {
            None
        };
        return InterruptWork { which: 1, device, complete, tick: false, sip: None };
    }
    if cause == 0x8000_0000_0000_0001 {
        return InterruptWork { which: 2, device: None, complete: None, tick: cpu == 0, sip: Some(sip & !2u64) };
    }
    InterruptWork { which: 0, device: None, complete: None, tick: false, sip: None }
}

/// After the way back, a trap from user code is taken with interrupts off and comes from user
/// mode: the bits that `usertrap` and the hart look at are set so.
pub proof fn lemma_return_to_user(sstatus: u64)
    ensures
        (((sstatus & !SSTATUS_SIE) & !SSTATUS_SPP) | SSTATUS_SPIE) & SSTATUS_SPP == 0,
        (((sstatus & !SSTATUS_SIE) & !SSTATUS_SPP) | SSTATUS_SPIE) & SSTATUS_SIE == 0,
        (((sstatus & !SSTATUS_SIE) & !SSTATUS_SPP) | SSTATUS_SPIE) & SSTATUS_SPIE != 0,
{
    assert((((sstatus & !0x2u64) & !0x100u64) | 0x20u64) & 0x100u64 == 0 && (((sstatus & !0x2u64) & !0x100u64) | 0x20u64) & 0x2u64 == 0
        && (((sstatus & !0x2u64) & !0x100u64) | 0x20u64) & 0x20u64 != 0) by (bit_vector);
}

/// All registers of user code but `a0` are the same.
pub open spec fn registers_kept(x: TrapFrame, y: TrapFrame) -> bool {
    &&& x.ra == y.ra
    &&& x.sp == y.sp
    &&& x.gp == y.gp
    &&& x.tp == y.tp
    &&& x.t0 == y.t0
    &&& x.t1 == y.t1
    &&& x.t2 == y.t2
    &&& x.s0 == y.s0
    &&& x.s1 == y.s1
    &&& x.a1 == y.a1
    &&& x.a2 == y.a2
    &&& x.a3 == y.a3
    &&& x.a4 == y.a4
    &&& x.a5 == y.a5
    &&& x.a6 == y.a6
    &&& x.a7 == y.a7
    &&& x.s2 == y.s2
    &&& x.s3 == y.s3
    &&& x.s4 == y.s4
    &&& x.s5 == y.s5
    &&& x.s6 == y.s6
    &&& x.s7 == y.s7
    &&& x.s8 == y.s8
    &&& x.s9 == y.s9
    &&& x.s10 == y.s10
    &&& x.s11 == y.s11
    &&& x.t3 == y.t3
    &&& x.t4 == y.t4
    &&& x.t5 == y.t5
    &&& x.t6 == y.t6
}

/// A system call is answered after its own instruction, which is four bytes long: with its result in
/// register a0, or 2^64 - 1 where it failed, and all other registers as they were. It is the one that
/// register a7 names. The way back is to user mode with interrupts on.
pub proof fn lemma_system_call(
    c0: ProcessContext,
    c1: ProcessContext,
    c2: ProcessContext,
    c3: ProcessContext,
    sepc: u64,
    t: UserTrap,
    result: Result<u64, ()>,
    d: UserTrap,
    kernel_satp: u64,
    hartid: u64,
    sstatus: u64,
    usertrap: u64,
    user_trap_handler: u64,
    kernel_to_user: u64,
    trampoline: u64,
    r: UserReturn,
)
    requires
        sepc <= u64::MAX - 4,
        trapped(c0, c1, sepc, 8, false, t),
        call_done(c1, c2, result, false, d),
        going_back(c2, c3, kernel_satp, hartid, sstatus, usertrap, user_trap_handler, kernel_to_user, trampoline, r),
        trampoline <= kernel_to_user < trampoline + 4096,
        trampoline <= user_trap_handler < trampoline + 4096,
        c0.kstack <= u64::MAX - 4096,
        is_frame(c0.pagetable.root()),
    ensures
        r.satp == 0x8000_0000_0000_0000 + (0x8000_0000 + 4096 * c0.pagetable.root()) / 4096,
        t == UserTrap::Syscall(c0.trapframe.a7),
        d == UserTrap::Return,
        r.sepc == sepc + 4,
        registers_kept(c3.trapframe, c0.trapframe),
        result matches Ok(v) ==> c3.trapframe.a0 == v,
        result is Err ==> c3.trapframe.a0 == 0xffff_ffff_ffff_ffff,
        c3.trapframe.kernel_sp == c0.kstack + 4096,
        c3.trapframe.kernel_trap == usertrap,
        c3.trapframe.kernel_satp == kernel_satp,
        c3.trapframe.kernel_hartid == hartid,
        r.sstatus & 0x100 == 0,
        r.sstatus & 0x20 != 0,
        r.sstatus & 0x2 == 0,
        r.stvec - r.entry == user_trap_handler - kernel_to_user,
        0x3f_ffff_f000 <= r.entry < 0x40_0000_0000,
        0x3f_ffff_f000 <= r.stvec < 0x40_0000_0000,
{
    lemma_return_to_user(sstatus);
}

/// The kernel does not notice that it was interrupted: it goes on at the same instruction with the same
/// status. It lets another process run only at a tick, and only where a process runs.
pub proof fn lemma_kernel_trap(cause: u64, irq: u32, cpu: usize, sip: u64, running: bool, sepc: u64, sstatus: u64)
    ensures
        ({
            let r = kernel_return(work_of(cause, irq, cpu, sip).which, running, sepc, sstatus);
            &&& r.sepc == sepc
            &&& r.sstatus == sstatus
            &&& r.pause <==> cause == 0x8000_0000_0000_0001 && running
        }),
{
    lemma_interrupt_work(cause, irq, cpu, cpu, sip);
}

/// User code does not notice that it was interrupted: it goes on at the same instruction with all
/// registers as they were.
pub proof fn lemma_interrupt_unnoticed(
    c0: ProcessContext,
    c1: ProcessContext,
    c2: ProcessContext,
    sepc: u64,
    cause: u64,
    t: UserTrap,
    kernel_satp: u64,
    hartid: u64,
    sstatus: u64,
    usertrap: u64,
    user_trap_handler: u64,
    kernel_to_user: u64,
    trampoline: u64,
    r: UserReturn,
)
    requires
        cause != 8,
        trapped(c0, c1, sepc, cause, false, t),
        going_back(c1, c2, kernel_satp, hartid, sstatus, usertrap, user_trap_handler, kernel_to_user, trampoline, r),
    ensures
        t == UserTrap::Interrupt,
        r.sepc == sepc,
        registers_kept(c2.trapframe, c0.trapframe),
        c2.trapframe.a0 == c0.trapframe.a0,
{
}

/// A process that was told to end ends at its next trap, with status -1, whether that is before or
/// after a system call or after an interrupt. So does one whose trap has no cause that the kernel
/// knows, and no other one. One that the timer interrupted lets others run.
pub proof fn lemma_killed_ends(
    c0: ProcessContext,
    c1: ProcessContext,
    c2: ProcessContext,
    sepc: u64,
    t: UserTrap,
    result: Result<u64, ()>,
    killed: bool,
    d: UserTrap,
    procs0: Seq<Process>,
    procs1: Seq<Process>,
    current: int,
    which: usize,
    e: UserTrap,
)
    requires
        trapped(c0, c1, sepc, 8, killed, t),
        call_done(c1, c2, result, killed, d),
        0 <= current < procs0.len(),
        interrupted(procs0, procs1, current, which, e),
    ensures
        t is Exit <==> killed,
        d is Exit <==> killed,
        killed ==> t->Exit_0 == -1 && d->Exit_0 == -1,
        e is Exit <==> procs1[current].killed,
        procs1[current].killed <==> procs0[current].killed || which == 0,
        e is Exit ==> e->Exit_0 == -1,
        e is Pause <==> which == 2 && !procs1[current].killed,
        forall|i: int| 0 <= i < procs0.len() && i != current ==> #[trigger] procs1[i] == procs0[i],
        procs1[current].state == procs0[current].state,
        procs1[current].pid == procs0[current].pid,
{
}

/// One CPU alone makes the clock go on, so that a tick of all timers is one tick of the clock. Whatever
/// was claimed is completed, and nothing else. The UART is served where 10 was claimed and the disk where
/// 1 was. A software interrupt is taken back, and no other one.
pub proof fn lemma_interrupt_work(cause: u64, irq: u32, cpu: usize, other: usize, sip: u64)
    ensures
        ({
            let w = work_of(cause, irq, cpu, sip);
            let v = work_of(cause, irq, other, sip);
            &&& w.tick && v.tick ==> cpu == other
            &&& cause == 0x8000_0000_0000_0001 && cpu == 0 <==> w.tick
            &&& w.which == 2 <==> cause == 0x8000_0000_0000_0001
            &&& w.which == 1 <==> cause >= 0x8000_0000_0000_0000 && cause % 256 == 9
            &&& w.which == 0 || w.which == 1 || w.which == 2
            &&& w.complete is Some <==> w.which == 1 && irq != 0
            &&& w.complete matches Some(x) ==> x == irq
            &&& w.device is Some <==> w.complete is Some
            &&& w.which == 1 ==> (w.device == Some(Device::Uart) <==> irq == 10) && (w.device == Some(Device::Disk) <==> irq == 1)
            &&& w.sip is Some <==> w.which == 2
            &&& w.sip matches Some(x) ==> x & 2 == 0 && x | 2 == sip | 2
        }),
{
    assert(cause & 0x8000_0000_0000_0000 != 0 <==> cause >= 0x8000_0000_0000_0000) by (bit_vector);
    assert(cause & 0xff == cause % 256) by (bit_vector);
    assert((sip & !2u64) & 2 == 0 && (sip & !2u64) | 2 == sip | 2) by (bit_vector);
}

} // verus!
