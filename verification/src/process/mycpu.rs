//! The state of a CPU with respect to the process that it runs.
use vstd::prelude::*;

verus! {

/// What a CPU does. `P` names a process.
pub enum CPU<P> {
    Invalid,
    Ready,
    Dispatching(P),
    Running(P),
    Pausing,
    Preempting(P),
}

/// What beginning to switch to a process comes to.
pub open spec fn dispatch_begun<P>(s0: CPU<P>, s1: CPU<P>, process: P, r: Result<(), P>) -> bool {
    if s0 is Ready {
        r == Ok::<(), P>(()) && s1 == CPU::<P>::Dispatching(process)
    } else {
        r == Err::<(), P>(process) && s1 == s0
    }
}

/// What completing the switch to a process comes to.
pub open spec fn dispatch_done<P>(s0: CPU<P>, s1: CPU<P>, r: Result<(), ()>) -> bool {
    match s0 {
        CPU::Dispatching(process) => r is Ok && s1 == CPU::<P>::Running(process),
        _ => r is Err && s1 == s0,
    }
}

/// What stopping a process comes to.
pub open spec fn paused<P>(s0: CPU<P>, s1: CPU<P>, r: Result<P, ()>) -> bool {
    match s0 {
        CPU::Running(process) => r == Ok::<P, ()>(process) && s1 == CPU::<P>::Pausing,
        _ => r is Err && s1 == s0,
    }
}

/// What beginning to switch to the scheduler comes to.
pub open spec fn preemption_begun<P>(s0: CPU<P>, s1: CPU<P>, process: P, r: Result<(), P>) -> bool {
    match s0 {
        CPU::Pausing => r == Ok::<(), P>(()) && s1 == CPU::<P>::Preempting(process),
        _ => r == Err::<(), P>(process) && s1 == s0,
    }
}

/// What completing the switch to the scheduler comes to.
pub open spec fn preemption_done<P>(s0: CPU<P>, s1: CPU<P>, r: Result<P, ()>) -> bool {
    match s0 {
        CPU::Preempting(process) => r == Ok::<P, ()>(process) && s1 == CPU::<P>::Ready,
        _ => r is Err && s1 == s0,
    }
}

impl<P> CPU<P> {
    /// The process that the CPU runs.
    pub fn assigned_process(&self) -> (r: Option<&P>)
        ensures
            match r {
                Some(p) => *self == CPU::<P>::Running(*p),
                None => !(self is Running),
            },
    {
        match self {
            CPU::Running(process) => Some(process),
            _ => None,
        }
    }

    /// Begins to switch to a process. Only a CPU that is ready can; otherwise the process is
    /// handed back.
    pub fn start_dispatch(&mut self, process: P) -> (r: Result<(), P>)
        ensures
            dispatch_begun(*old(self), *final(self), process, r),
    {
        match self {
            CPU::Ready => {
                *self = CPU::Dispatching(process);
                Ok(())
            },
            _ => Err(process),
        }
    }

    /// The switch to the process is complete.
    pub fn finish_dispatch(&mut self) -> (r: Result<(), ()>)
        ensures
            dispatch_done(*old(self), *final(self), r),
    {
        let mut this = CPU::Invalid;
        core::mem::swap(self, &mut this);
        match this {
            CPU::Dispatching(process) => {
                *self = CPU::Running(process);
                Ok(())
            },
            other => {
                *self = other;
                Err(())
            },
        }
    }

    /// The process stops running; it is handed back.
    pub fn pause(&mut self) -> (r: Result<P, ()>)
        ensures
            paused(*old(self), *final(self), r),
    {
        let mut this = CPU::Invalid;
        core::mem::swap(self, &mut this);
        match this {
            CPU::Running(process) => {
                *self = CPU::Pausing;
                Ok(process)
            },
            other => {
                *self = other;
                Err(())
            },
        }
    }

    /// Begins to switch back to the scheduler.
    pub fn start_preemption(&mut self, process: P) -> (r: Result<(), P>)
        ensures
            preemption_begun(*old(self), *final(self), process, r),
    {
        let mut this = CPU::Invalid;
        core::mem::swap(self, &mut this);
        match this {
            CPU::Pausing => {
                *self = CPU::Preempting(process);
                Ok(())
            },
            other => {
                *self = other;
                Err(process)
            },
        }
    }

    /// The switch back to the scheduler is complete.
    pub fn finish_preemption(&mut self) -> (r: Result<P, ()>)
        ensures
            preemption_done(*old(self), *final(self), r),
    {
        let mut this = CPU::Invalid;
        core::mem::swap(self, &mut this);
        match this {
            CPU::Preempting(process) => {
                *self = CPU::Ready;
                Ok(process)
            },
            other => {
                *self = other;
                Err(())
            },
        }
    }
}

/// A CPU goes through its states in one order: it is ready, switches to a process, runs it, stops it,
/// switches back, and is ready again. Whoever is given to it comes back from it, and a step out of turn
/// changes nothing.
pub proof fn lemma_round<P>(
    s0: CPU<P>,
    s1: CPU<P>,
    s2: CPU<P>,
    s3: CPU<P>,
    s4: CPU<P>,
    s5: CPU<P>,
    process: P,
    other: P,
    r1: Result<(), P>,
    r2: Result<(), ()>,
    r3: Result<P, ()>,
    r4: Result<(), P>,
    r5: Result<P, ()>,
)
    requires
        dispatch_begun(s0, s1, process, r1),
        dispatch_done(s1, s2, r2),
        paused(s2, s3, r3),
        preemption_begun(s3, s4, other, r4),
        preemption_done(s4, s5, r5),
    ensures
        s0 is Ready ==> {
            &&& s2 is Running
            &&& r1 is Ok && r2 is Ok
            &&& r3 == Ok::<P, ()>(process)
            &&& r4 is Ok
            &&& r5 == Ok::<P, ()>(other)
            &&& s5 is Ready
        },
        !(s0 is Ready) ==> r1 == Err::<(), P>(process) && s1 == s0,
        !(s1 is Dispatching) ==> r2 is Err && s2 == s1,
        !(s2 is Running) ==> r3 is Err && s3 == s2,
        !(s3 is Pausing) ==> r4 is Err && s4 == s3,
        !(s4 is Preempting) ==> r5 is Err && s5 == s4,
{
}

} // verus!
