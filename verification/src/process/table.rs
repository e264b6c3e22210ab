//! The process table.
use vstd::prelude::*;
use arrayvec::ArrayVec;
use crate::bounded::{no_parents, parents};
use crate::config::NPROC;
use crate::process::process::{Process, ProcessState};

verus! {

/// All processes.
pub struct ProcessTable {
    pub procs: Vec<Process>,
    /// Pairs of parent and child.
    pub parent_maps: ArrayVec<(usize, usize), NPROC>,
    /// The next process number.
    pub next_pid: usize,
}

/// A process that was woken.
pub open spec fn woken(p: Process) -> Process {
    match p.state {
        ProcessState::Sleeping(context, _) => Process { state: ProcessState::Runnable(context), ..p },
        _ => p,
    }
}

/// The number that comes after process number `pid`.
pub open spec fn pid_after(pid: usize) -> usize {
    if pid == usize::MAX {
        0
    } else {
        (pid + 1) as usize
    }
}

/// The process waits for `token`.
pub open spec fn waits_for(p: Process, token: usize) -> bool {
    p.state matches ProcessState::Sleeping(_, on) && on == token
}

/// The first slot that is not in use.
pub open spec fn first_unused(procs: Seq<Process>, i: int) -> bool {
    &&& 0 <= i < procs.len()
    &&& procs[i].state is Unused
    &&& forall|j: int| 0 <= j < i ==> !((#[trigger] procs[j]).state is Unused)
}

/// The first process with number `pid`.
pub open spec fn first_with_pid(procs: Seq<Process>, pid: usize, i: int) -> bool {
    &&& 0 <= i < procs.len()
    &&& procs[i].pid == pid
    &&& forall|j: int| 0 <= j < i ==> (#[trigger] procs[j]).pid != pid
}

/// The difference that waking for `token` makes.
pub open spec fn woke(procs0: Seq<Process>, procs1: Seq<Process>, token: usize, current: Option<usize>) -> bool {
    &&& procs1.len() == procs0.len()
    &&& forall|i: int| 0 <= i < procs0.len() ==> #[trigger] procs1[i] == if current != Some(i as usize) && waits_for(procs0[i], token) {
        woken(procs0[i])
    } else {
        procs0[i]
    }
}

/// The difference that killing process number `pid` makes. `r` is whether there is one.
pub open spec fn killed_by(procs0: Seq<Process>, procs1: Seq<Process>, pid: usize, r: bool) -> bool {
    &&& procs1.len() == procs0.len()
    &&& r == exists|i: int| first_with_pid(procs0, pid, i)
    &&& forall|i: int| 0 <= i < procs0.len() ==> #[trigger] procs1[i] == if first_with_pid(procs0, pid, i) {
        Process { killed: true, ..woken(procs0[i]) }
    } else {
        procs0[i]
    }
}

impl ProcessTable {
    pub open spec fn wf(&self) -> bool {
        &&& self.procs@.len() == NPROC
        &&& forall|i: int| 0 <= i < NPROC ==> (#[trigger] self.procs@[i]).name@.len() == 16
    }

    pub fn new() -> (this: Self)
        ensures
            this.wf(),
            forall|i: int| 0 <= i < NPROC ==> (#[trigger] this.procs@[i]).is_blank(),
            parents(this.parent_maps) == Seq::<(usize, usize)>::empty(),
            this.next_pid == 1,
    {
        let mut procs: Vec<Process> = Vec::new();
        let mut i: usize = 0;
        while i < NPROC
            invariant
                i <= NPROC,
                procs@.len() == i,
                forall|k: int| 0 <= k < i ==> (#[trigger] procs@[k]).is_blank(),
            decreases NPROC - i,
        {
            procs.push(Process::unused());
            i = i + 1;
        }
        ProcessTable { procs, parent_maps: no_parents(), next_pid: 1 }
    }

    /// A process number that was not handed out before, as long as they last.
    pub fn allocate_pid(&mut self) -> (pid: usize)
        ensures
            pid == old(self).next_pid,
            old(self).next_pid < usize::MAX ==> final(self).next_pid == old(self).next_pid + 1,
            *final(self) == (ProcessTable { next_pid: pid_after(old(self).next_pid), ..*old(self) }),
    {
        let pid = self.next_pid;
        self.next_pid = self.next_pid.wrapping_add(1);
        pid
    }

    /// Takes the first slot that is not in use, and gives it a process number.
    pub fn allocate_process(&mut self) -> (r: Option<usize>)
        requires
            old(self).wf(),
        ensures
            final(self).wf(),
            match r {
                Some(i) => {
                    let p = old(self).procs@[i as int];
                    &&& first_unused(old(self).procs@, i as int)
                    &&& final(self).procs@ == old(self).procs@.update(
                        i as int,
                        Process { state: ProcessState::Used, pid: old(self).next_pid, ..p },
                    )
                    &&& final(self).next_pid == pid_after(old(self).next_pid)
                    &&& old(self).next_pid < usize::MAX ==> final(self).next_pid == old(self).next_pid + 1
                },
                None => {
                    &&& *final(self) == *old(self)
                    &&& forall|i: int| 0 <= i < NPROC ==> !((#[trigger] old(self).procs@[i]).state is Unused)
                },
            },
            pids_ok(old(self).procs@, old(self).next_pid) && old(self).next_pid < usize::MAX ==> pids_ok(
                final(self).procs@,
                final(self).next_pid,
            ),
    {
        let mut i: usize = 0;
        while i < NPROC
            invariant
                i <= NPROC,
                self.wf(),
                *self == *old(self),
                forall|j: int| 0 <= j < i ==> !((#[trigger] self.procs@[j]).state is Unused),
            decreases NPROC - i,
        {
            if self.procs[i].state.is_unused() {
                let ghost procs0 = self.procs@;
                let _ = self.procs[i].state.allocate();
                let pid = self.allocate_pid();
                self.procs[i].pid = pid;
                proof {
                    assert(self.procs@ =~= procs0.update(
                        i as int,
                        Process { state: ProcessState::Used, pid, ..procs0[i as int] },
                    ));
                    assert forall|k: int| 0 <= k < NPROC implies (#[trigger] self.procs@[k]).name@.len() == 16 by {
                        assert(procs0[k].name@.len() == 16);
                    }
                }
                return Some(i);
            }
            i = i + 1;
        }
        None
    }

    /// Wakes all processes that wait for `token`, but not the current one.
    pub fn wakeup(&mut self, token: usize, current: Option<usize>)
        requires
            old(self).wf(),
        ensures
            final(self).wf(),
            final(self).next_pid == old(self).next_pid,
            forall|i: int| 0 <= i < NPROC ==> #[trigger] final(self).procs@[i] == if current != Some(i as usize) && waits_for(
                old(self).procs@[i],
                token,
            ) {
                woken(old(self).procs@[i])
            } else {
                old(self).procs@[i]
            },
            woke(old(self).procs@, final(self).procs@, token, current),
    {
        let ghost procs0 = self.procs@;
        let mut i: usize = 0;
        while i < NPROC
            invariant
                i <= NPROC,
                procs0 == old(self).procs@,
                procs0.len() == NPROC,
                self.procs@.len() == NPROC,
                self.next_pid == old(self).next_pid,
                forall|k: int| 0 <= k < NPROC ==> (#[trigger] procs0[k]).name@.len() == 16,
                forall|k: int| 0 <= k < i ==> #[trigger] self.procs@[k] == if current != Some(k as usize) && waits_for(procs0[k], token) {
                    woken(procs0[k])
                } else {
                    procs0[k]
                },
                forall|k: int| i <= k < NPROC ==> #[trigger] self.procs@[k] == procs0[k],
            decreases NPROC - i,
        {
            let skip = match current {
                Some(c) => c == i,
                None => false,
            };
            if !skip && self.procs[i].state.is_sleeping_on(token) {
                let _ = self.procs[i].state.wakeup();
            }
            i = i + 1;
        }
        proof {
            assert forall|k: int| 0 <= k < NPROC implies (#[trigger] self.procs@[k]).name@.len() == 16 by {
                assert(procs0[k].name@.len() == 16);
            }
        }
    }

    /// Tells the process with number `pid` to end, and wakes it if it sleeps. `false` means
    /// that there is none.
    pub fn kill(&mut self, pid: usize) -> (r: bool)
        requires
            old(self).wf(),
        ensures
            final(self).wf(),
            final(self).next_pid == old(self).next_pid,
            r == exists|i: int| first_with_pid(old(self).procs@, pid, i),
            forall|i: int| 0 <= i < NPROC ==> #[trigger] final(self).procs@[i] == if first_with_pid(old(self).procs@, pid, i) {
                Process { killed: true, ..woken(old(self).procs@[i]) }
            } else {
                old(self).procs@[i]
            },
            killed_by(old(self).procs@, final(self).procs@, pid, r),
    {
        let ghost procs0 = self.procs@;
        let mut i: usize = 0;
        while i < NPROC
            invariant
                i <= NPROC,
                self.wf(),
                *self == *old(self),
                procs0 == self.procs@,
                forall|j: int| 0 <= j < i ==> (#[trigger] procs0[j]).pid != pid,
            decreases NPROC - i,
        {
            if self.procs[i].pid == pid {
                self.procs[i].killed = true;
                if self.procs[i].state.is_sleeping() {
                    let _ = self.procs[i].state.wakeup();
                }
                proof {
                    assert(first_with_pid(procs0, pid, i as int));
                    assert forall|k: int| 0 <= k < NPROC implies #[trigger] self.procs@[k] == if first_with_pid(procs0, pid, k) {
                        Process { killed: true, ..woken(procs0[k]) }
                    } else {
                        procs0[k]
                    } by {
                        if k > i {
                            assert(procs0[i as int].pid == pid);
                        }
                    }
                    assert forall|k: int| 0 <= k < NPROC implies (#[trigger] self.procs@[k]).name@.len() == 16 by {
                        assert(procs0[k].name@.len() == 16);
                    }
                }
                return true;
            }
            i = i + 1;
        }
        false
    }
}

/// A process table as it is when the kernel starts.
pub fn get() -> (r: ProcessTable)
    ensures
        r.wf(),
        forall|i: int| 0 <= i < NPROC ==> (#[trigger] r.procs@[i]).is_blank(),
        r.next_pid == 1,
{
    ProcessTable::new()
}


/// No two processes have the same number, and all numbers were handed out before.
pub open spec fn pids_ok(procs: Seq<Process>, next_pid: usize) -> bool {
    &&& forall|i: int| 0 <= i < procs.len() && !((#[trigger] procs[i]).state is Unused) ==> procs[i].pid < next_pid
    &&& forall|i: int, j: int|
        0 <= i < j < procs.len() && !((#[trigger] procs[i]).state is Unused) && !((#[trigger] procs[j]).state is Unused) ==> procs[i].pid
            != procs[j].pid
}

/// A new process has a number of its own, as long as numbers last.
pub proof fn lemma_pid_new(procs0: Seq<Process>, procs1: Seq<Process>, next_pid: usize, n: int)
    requires
        pids_ok(procs0, next_pid),
        next_pid < usize::MAX,
        first_unused(procs0, n),
        procs1 == procs0.update(n, procs1[n]),
        procs1[n].pid == next_pid,
    ensures
        pids_ok(procs1, (next_pid + 1) as usize),
{
}

/// Whatever keeps the numbers of the processes and makes no new one keeps them different.
pub proof fn lemma_pids_kept(procs0: Seq<Process>, procs1: Seq<Process>, next_pid: usize)
    requires
        pids_ok(procs0, next_pid),
        procs1.len() == procs0.len(),
        forall|i: int| 0 <= i < procs1.len() && !((#[trigger] procs1[i]).state is Unused) ==> !(procs0[i].state is Unused) && procs1[i].pid
            == procs0[i].pid,
    ensures
        pids_ok(procs1, next_pid),
{
}

} // verus!
