//! The CPUs, and the contexts in which their schedulers wait.
use vstd::prelude::*;
use crate::config::NCPU;
use crate::process::context::CPUContext;
use crate::riscv::SSTATUS_SIE;

verus! {

/// The number of this CPU, from its register `tp`. Interrupts must be off, so that the process
/// does not move to another CPU.
pub fn id(sstatus: u64, tp: u64) -> (r: usize)
    requires
        sstatus & SSTATUS_SIE == 0,
        tp < NCPU,
    ensures
        r == tp,
{
    tp as usize
}

/// Saves the registers in `save` and loads them from `load`.
fn switch(registers: &mut CPUContext, save: &mut CPUContext, load: &CPUContext)
    ensures
        *final(save) == *old(registers),
        *final(registers) == *load,
{
    *save = *registers;
    *registers = *load;
}

/// From the scheduler of a CPU to a process with context `context`.
pub fn dispatch(contexts: &mut Vec<CPUContext>, cpu: usize, registers: &mut CPUContext, context: &CPUContext)
    requires
        old(contexts)@.len() == NCPU,
        cpu < NCPU,
    ensures
        dispatched(old(contexts)@, final(contexts)@, cpu as int, *old(registers), *final(registers), *context),
{
    let mut save = *registers;
    switch(registers, &mut save, context);
    contexts.set(cpu, save);
}

/// From a process back to the scheduler of its CPU.
pub fn preemption(contexts: &Vec<CPUContext>, cpu: usize, registers: &mut CPUContext, context: &mut CPUContext)
    requires
        contexts@.len() == NCPU,
        cpu < NCPU,
    ensures
        preempted(contexts@, cpu as int, *old(registers), *final(registers), *final(context)),
{
    let load = contexts[cpu];
    switch(registers, context, &load);
}

/// The scheduler that dispatched a process goes on, after the process is preempted, with the
/// registers that it had, whatever the process did with them.
pub proof fn lemma_scheduler_resumes(contexts: Seq<CPUContext>, cpu: int, scheduler: CPUContext)
    requires
        contexts.len() == NCPU,
        0 <= cpu < NCPU,
    ensures
        contexts.update(cpu, scheduler)[cpu] == scheduler,
{
}

/// What a switch from the scheduler of a CPU to a process comes to.
pub open spec fn dispatched(
    contexts0: Seq<CPUContext>,
    contexts1: Seq<CPUContext>,
    cpu: int,
    registers0: CPUContext,
    registers1: CPUContext,
    context: CPUContext,
) -> bool {
    &&& contexts1 == contexts0.update(cpu, registers0)
    &&& registers1 == context
}

/// What a switch from a process to the scheduler of its CPU comes to.
pub open spec fn preempted(contexts: Seq<CPUContext>, cpu: int, registers0: CPUContext, registers1: CPUContext, context: CPUContext) -> bool {
    &&& context == registers0
    &&& registers1 == contexts[cpu]
}

/// A scheduler that lets a process run has its registers back when the process stops, and the process has
/// the ones that it stopped with when it is let run again. The schedulers of other CPUs are not concerned.
pub proof fn lemma_there_and_back(
    contexts0: Seq<CPUContext>,
    contexts1: Seq<CPUContext>,
    contexts2: Seq<CPUContext>,
    cpu: int,
    other: int,
    scheduler: CPUContext,
    begin: CPUContext,
    started: CPUContext,
    stopped: CPUContext,
    back: CPUContext,
    saved: CPUContext,
    again: CPUContext,
)
    requires
        contexts0.len() == NCPU,
        0 <= cpu < NCPU,
        0 <= other < NCPU,
        dispatched(contexts0, contexts1, cpu, scheduler, started, begin),
        preempted(contexts1, cpu, stopped, back, saved),
        dispatched(contexts1, contexts2, cpu, back, again, saved),
    ensures
        started == begin,
        back == scheduler,
        again == stopped,
        other != cpu ==> contexts1[other] == contexts0[other],
{
}

} // verus!
