//! What holds of processes from one call to the next.
use vstd::prelude::*;
use crate::allocator::KernelAllocator;
use crate::config::NPROC;
use crate::process::kernel_stack::KernelStackAllocator;
use crate::process::process::{Process, ProcessState};
use crate::process::table::{first_unused, first_with_pid, killed_by, pid_after, pids_ok, waits_for, woke};
use crate::process::{
    child_token, context_at, exited, first_zombie, fork_came_to, forked, is_status, is_zombie_child, numbered, paused, scheduled, slept, wait_came_to,
    WaitProgress,
};
use crate::riscv::paging::{lookup, page_count, user_byte};

verus! {

/// A fork keeps the numbers of all live processes different and below the next one. The child's
/// number is one that no live process has, and the next number grows by one for it, and not at all
/// where no slot is left.
pub proof fn lemma_fork_numbers(
    procs0: Seq<Process>,
    procs1: Seq<Process>,
    a0: KernelAllocator,
    a1: KernelAllocator,
    stacks0: KernelStackAllocator,
    stacks1: KernelStackAllocator,
    next0: usize,
    next1: usize,
    current: int,
    jump: u64,
    r: Option<usize>,
)
    requires
        procs0.len() == NPROC,
        procs1.len() == NPROC,
        pids_ok(procs0, next0),
        next0 < usize::MAX,
        fork_came_to(procs0, procs1, a0, a1, stacks0, stacks1, next0, current, jump, r),
        numbered(procs0, next0, next1),
    ensures
        pids_ok(procs1, next1),
        next0 <= next1 <= next0 + 1,
        r matches Some(pid) ==> {
            &&& next1 == next0 + 1
            &&& pid < next1
            &&& forall|i: int| 0 <= i < NPROC && !((#[trigger] procs0[i]).state is Unused) ==> procs0[i].pid < pid
        },
        next1 == next0 ==> procs1 == procs0,
{
    match r {
        Some(pid) => {
            let n = choose|n: int| #[trigger] first_unused(procs0, n) && forked(procs0, procs1, a0, a1, current, n, pid, jump);
            assert(first_unused(procs0, n));
            assert(procs0[n].state is Unused);
        },
        None => {
            if forall|i: int| 0 <= i < NPROC ==> !((#[trigger] procs0[i]).state is Unused) {
                assert forall|i: int| 0 <= i < NPROC implies #[trigger] procs1[i] == procs0[i] by {
                    assert(!(procs0[i].state is Unused));
                }
                assert(procs1 =~= procs0);
            } else {
                assert forall|i: int, j: int|
                    0 <= i < j < procs1.len() && !((#[trigger] procs1[i]).state is Unused) && !((#[trigger] procs1[j]).state is Unused) implies procs1[i].pid
                    != procs1[j].pid by {
                    if first_unused(procs0, i) {
                        assert(!first_unused(procs0, j));
                        assert(procs0[j].pid < next0);
                    } else if first_unused(procs0, j) {
                        assert(procs0[i].pid < next0);
                    } else {
                        assert(procs0[i].pid != procs0[j].pid);
                    }
                }
            }
        },
    }
}

/// Numbers that are handed out one after another, from `first` on, count up: no number comes twice as
/// long as they last.
pub proof fn lemma_numbers_count_up(next: Seq<usize>, first: usize, k: int)
    requires
        next.len() > 0,
        next[0] == first,
        first + next.len() <= usize::MAX,
        forall|j: int| 0 <= j < next.len() - 1 ==> #[trigger] next[j + 1] == pid_after(next[j]),
        0 <= k < next.len(),
    ensures
        next[k] == first + k,
        forall|j: int| 0 <= j < k ==> #[trigger] next[j] < next[k],
    decreases k,
{
    if k > 0 {
        lemma_numbers_count_up(next, first, k - 1);
        assert(next[k - 1 + 1] == pid_after(next[k - 1]));
    }
}

/// The child of a fork goes on where its parent does, with the same registers but for a result of
/// zero, the same memory with the same permissions, the same open files and the same directory. It can run. Every other process
/// is as it was.
pub proof fn lemma_fork_child(
    procs0: Seq<Process>,
    procs1: Seq<Process>,
    a0: KernelAllocator,
    a1: KernelAllocator,
    stacks0: KernelStackAllocator,
    stacks1: KernelStackAllocator,
    next0: usize,
    current: int,
    jump: u64,
    pid: usize,
)
    requires
        0 <= current < NPROC,
        procs0.len() == NPROC,
        context_at(procs0, current) is Some,
        fork_came_to(procs0, procs1, a0, a1, stacks0, stacks1, next0, current, jump, Some(pid)),
    ensures
        exists|n: int|
            {
                &&& 0 <= n < NPROC
                &&& (#[trigger] procs0[n]).state is Unused
                &&& procs1[n].pid == pid
                &&& procs1[n].parent == Some(current as usize)
                &&& procs1[n].name@ == procs0[current].name@
                &&& forall|i: int| 0 <= i < NPROC && i != n ==> #[trigger] procs1[i] == procs0[i]
                &&& procs1[n].state matches ProcessState::Runnable(c) && {
                    let p = context_at(procs0, current)->0;
                    &&& c.trapframe.a0 == 0
                    &&& c.trapframe.epc == p.trapframe.epc
                    &&& c.trapframe.ra == p.trapframe.ra
                    &&& c.trapframe.sp == p.trapframe.sp
                    &&& c.trapframe.gp == p.trapframe.gp
                    &&& c.trapframe.tp == p.trapframe.tp
                    &&& c.trapframe.t0 == p.trapframe.t0
                    &&& c.trapframe.s0 == p.trapframe.s0
                    &&& c.trapframe.s1 == p.trapframe.s1
                    &&& c.trapframe.a1 == p.trapframe.a1
                    &&& c.trapframe.a7 == p.trapframe.a7
                    &&& c.trapframe.s11 == p.trapframe.s11
                    &&& c.trapframe.t6 == p.trapframe.t6
                    &&& c.trapframe.t1 == p.trapframe.t1
                    &&& c.trapframe.t2 == p.trapframe.t2
                    &&& c.trapframe.a2 == p.trapframe.a2
                    &&& c.trapframe.a3 == p.trapframe.a3
                    &&& c.trapframe.a4 == p.trapframe.a4
                    &&& c.trapframe.a5 == p.trapframe.a5
                    &&& c.trapframe.a6 == p.trapframe.a6
                    &&& c.trapframe.s2 == p.trapframe.s2
                    &&& c.trapframe.s3 == p.trapframe.s3
                    &&& c.trapframe.s4 == p.trapframe.s4
                    &&& c.trapframe.s5 == p.trapframe.s5
                    &&& c.trapframe.s6 == p.trapframe.s6
                    &&& c.trapframe.s7 == p.trapframe.s7
                    &&& c.trapframe.s8 == p.trapframe.s8
                    &&& c.trapframe.s9 == p.trapframe.s9
                    &&& c.trapframe.s10 == p.trapframe.s10
                    &&& c.trapframe.t3 == p.trapframe.t3
                    &&& c.trapframe.t4 == p.trapframe.t4
                    &&& c.trapframe.t5 == p.trapframe.t5
                    &&& c.context.ra == jump
                    &&& c.context.sp == (c.kstack + 4096) as u64
                    &&& c.ofile@ == p.ofile@
                    &&& c.cwd == p.cwd
                    &&& c.sz == p.sz
                    &&& forall|va: int|
                        0 <= va < p.sz ==> #[trigger] user_byte(a1.frames(), c.pagetable.root(), va) == user_byte(
                            a0.frames(),
                            p.pagetable.root(),
                            va,
                        )
                    &&& forall|va: int|
                        0 <= va < p.sz ==> (#[trigger] lookup(a1.frames(), c.pagetable.root(), va / 4096)) is Some && (lookup(
                            a1.frames(),
                            c.pagetable.root(),
                            va / 4096,
                        )->0).0 & 0x3ff == (lookup(a0.frames(), p.pagetable.root(), va / 4096)->0).0 & 0x3ff
                }
            },
{
    let n = choose|n: int| #[trigger] first_unused(procs0, n) && forked(procs0, procs1, a0, a1, current, n, pid, jump);
    assert(first_unused(procs0, n));
    let p = context_at(procs0, current)->0;
    assert(p.sz <= page_count(p.sz as int) * 4096);
    assert(procs0[n].state is Unused);
}

/// The child of a fork has a page of its own for its registers, which the kernel finds at the address
/// 0x3f_ffff_e000, and user code cannot access.
pub proof fn lemma_fork_trap_frame(
    procs0: Seq<Process>,
    procs1: Seq<Process>,
    a0: KernelAllocator,
    a1: KernelAllocator,
    current: int,
    n: int,
    pid: usize,
    jump: u64,
)
    requires
        forked(procs0, procs1, a0, a1, current, n, pid, jump),
        context_at(procs1, n)->0.trapframe_addr % 4096 == 0,
        context_at(procs1, n)->0.trapframe_addr < 0x100_0000_0000_0000,
    ensures
        ({
            let c = context_at(procs1, n)->0;
            let e = lookup(a1.frames(), c.pagetable.root(), 0x3f_ffff_e000int / 4096);
            &&& e is Some
            &&& e->0.pa() == c.trapframe_addr
            &&& (e->0).0 & 2 != 0
            &&& (e->0).0 & 4 != 0
            &&& (e->0).0 & 16 == 0
        }),
{
    crate::riscv::mmu::lemma_kernel_page_entry(context_at(procs1, n)->0.trapframe_addr);
}

/// Whoever sleeps for what is waked for can run, with all that it had. Nobody else changes, and
/// whoever sleeps for something else sleeps on.
pub proof fn lemma_wakeup(procs0: Seq<Process>, procs1: Seq<Process>, token: usize, current: Option<usize>, i: int)
    requires
        woke(procs0, procs1, token, current),
        0 <= i < procs0.len(),
        procs0.len() <= usize::MAX,
    ensures
        procs1[i].pid == procs0[i].pid,
        procs1[i].parent == procs0[i].parent,
        procs1[i].killed == procs0[i].killed,
        procs1[i].name == procs0[i].name,
        procs0[i].state matches ProcessState::Sleeping(c, on) ==> {
            &&& on == token && current != Some(i as usize) ==> procs1[i].state == ProcessState::Runnable(c)
            &&& on != token ==> procs1[i].state == ProcessState::Sleeping(c, on)
        },
        !(procs0[i].state is Sleeping) ==> procs1[i] == procs0[i],
{
}

/// A process that goes to sleep, is waked for what it sleeps for and is picked by the scheduler runs
/// on with what it had, and nothing is lost on the way.
pub proof fn lemma_sleep_wakeup_run(
    procs0: Seq<Process>,
    procs1: Seq<Process>,
    procs2: Seq<Process>,
    procs3: Seq<Process>,
    cur: int,
    token: usize,
    waker: Option<usize>,
    from: int,
)
    requires
        0 <= cur < procs0.len(),
        procs0.len() <= usize::MAX,
        procs0[cur].state is Running,
        slept(procs0, procs1, cur, token),
        woke(procs1, procs2, token, waker),
        waker != Some(cur as usize),
        scheduled(procs2, procs3, from, Some(cur as usize)),
    ensures
        !(procs1[cur].state is Running || procs1[cur].state is Runnable),
        procs2[cur].state is Runnable,
        procs3[cur] == procs0[cur],
{
}

/// The scheduler passes over no process that can run, lets one process run at most, and leaves all
/// others as they are. A process that gave up the CPU is one that can run.
pub proof fn lemma_schedule(procs0: Seq<Process>, procs1: Seq<Process>, from: int, r: Option<usize>, j: int)
    requires
        0 <= from <= j < procs0.len(),
        procs0.len() <= usize::MAX,
        scheduled(procs0, procs1, from, r),
    ensures
        procs1.len() == procs0.len(),
        procs0[j].state is Runnable ==> (r matches Some(i) && i <= j),
        r matches Some(i) ==> {
            &&& from <= i < procs0.len()
            &&& procs0[i as int].state is Runnable
            &&& procs1[i as int].state is Running
            &&& context_at(procs1, i as int) == context_at(procs0, i as int)
            &&& procs1[i as int].pid == procs0[i as int].pid
            &&& j != i ==> procs1[j] == procs0[j]
        },
        r is None ==> procs1[j] == procs0[j],
{
}

/// A process that gives up the CPU and is picked again is as it was.
pub proof fn lemma_pause_run(procs0: Seq<Process>, procs1: Seq<Process>, procs2: Seq<Process>, cur: int, from: int)
    requires
        0 <= cur < procs0.len(),
        procs0.len() <= usize::MAX,
        procs0[cur].state is Running,
        paused(procs0, procs1, cur),
        scheduled(procs1, procs2, from, Some(cur as usize)),
    ensures
        procs1[cur].state is Runnable,
        procs2 == procs0,
{
    assert(procs2 =~= procs0);
}

/// Killing marks the first process with the number and no other, and makes it able to run if it
/// slept. It succeeds exactly where some slot has the number.
pub proof fn lemma_kill(procs0: Seq<Process>, procs1: Seq<Process>, pid: usize, r: bool, i: int)
    requires
        killed_by(procs0, procs1, pid, r),
        0 <= i < procs0.len(),
    ensures
        procs0[i].pid == pid ==> r,
        r ==> exists|k: int| 0 <= k < procs0.len() && (#[trigger] procs1[k]).pid == pid && procs1[k].killed && !(procs1[k].state is Sleeping),
        procs0[i].pid != pid ==> procs1[i] == procs0[i],
        procs0[i].pid == pid && (forall|j: int| 0 <= j < procs0.len() && j != i ==> (#[trigger] procs0[j]).pid != pid) ==> {
            &&& procs1[i].killed
            &&& procs0[i].state matches ProcessState::Sleeping(c, _) ==> procs1[i].state == ProcessState::Runnable(c)
            &&& !(procs0[i].state is Sleeping) ==> procs1[i].state == procs0[i].state
        },
        procs1[i].pid == procs0[i].pid,
        procs1[i].parent == procs0[i].parent,
        procs1[i].name == procs0[i].name,
{
    if procs0[i].pid == pid {
        lemma_first(procs0, pid, i);
    }
    if r {
        let k = choose|k: int| first_with_pid(procs0, pid, k);
        assert(first_with_pid(procs0, pid, k));
        assert(procs1[k].killed);
    }
}

proof fn lemma_first(procs: Seq<Process>, pid: usize, i: int)
    requires
        0 <= i < procs.len(),
        procs[i].pid == pid,
    ensures
        exists|k: int| first_with_pid(procs, pid, k) && k <= i,
    decreases i,
{
    if exists|j: int| 0 <= j < i && (#[trigger] procs[j]).pid == pid {
        let j = choose|j: int| 0 <= j < i && (#[trigger] procs[j]).pid == pid;
        lemma_first(procs, pid, j);
    } else {
        assert(first_with_pid(procs, pid, i));
    }
}

/// A process that has ended can run no more, and its status waits for its parent. No process has it
/// as its parent any more: its children belong to process number 1. Its parent, if it sleeps for a
/// child, can run, and so can process number 1 if it sleeps for a child and got one.
pub proof fn lemma_exit(procs0: Seq<Process>, procs1: Seq<Process>, cur: int, status: i32, i: int)
    requires
        exited(procs0, procs1, cur, status),
        procs0.len() == NPROC,
        0 <= cur < NPROC,
        procs0[cur].pid != 1,
        procs0[cur].parent != Some(cur as usize),
        0 <= i < NPROC,
        i != cur,
    ensures
        procs1[cur].state matches ProcessState::Zombie(_, s) && s == status,
        procs1[cur].parent == procs0[cur].parent,
        procs1[cur].pid == procs0[cur].pid,
        procs1[i].parent != Some(cur as usize),
        procs0[i].parent == Some(cur as usize) ==> {
            &&& procs1[i].parent matches Some(init) && init < NPROC && procs0[init as int].pid == 1
            &&& forall|k: int|
                0 <= k < NPROC && (#[trigger] procs0[k]).state is Sleeping && procs1[i].parent == Some(k as usize) && waits_for(
                    procs0[k],
                    child_token(k),
                ) ==> procs1[k].state is Runnable
        },
        procs0[i].parent != Some(cur as usize) ==> procs1[i].parent == procs0[i].parent,
        procs1[i].pid == procs0[i].pid,
        procs1[i].killed == procs0[i].killed,
        procs0[cur].parent == Some(i as usize) && waits_for(procs0[i], child_token(i)) ==> procs1[i].state is Runnable,
        !(procs0[i].state is Sleeping) ==> procs1[i].state == procs0[i].state,
        procs0[i].state matches ProcessState::Sleeping(c, on) ==> procs1[i].state == procs0[i].state || procs1[i].state
            == ProcessState::Runnable(c),
        procs1[i].state != procs0[i].state ==> exists|k: int|
            waits_for(procs0[i], #[trigger] child_token(k)) && (procs0[cur].parent == Some(k as usize) || 0 <= k < NPROC && procs0[k].pid == 1),
{
    let init = choose|init: int| {
        &&& #[trigger] first_with_pid(procs0, 1, init)
        &&& forall|i: int| 0 <= i < NPROC && i != cur ==> #[trigger] procs1[i] == crate::process::after_exit(procs0, cur, init, i)
        &&& procs1[cur].parent == crate::process::after_exit(procs0, cur, init, cur).parent
    };
    assert(first_with_pid(procs0, 1, init));
    assert(procs1[i] == crate::process::after_exit(procs0, cur, init, i));
    if procs1[i].state != procs0[i].state {
        if waits_for(procs0[i], child_token(init)) {
        } else {
            let k = procs0[cur].parent->0 as int;
            assert(waits_for(procs0[i], child_token(k)));
        }
    }
}

/// What a process gets when it waits: the number of a child of its own that has ended, which leaves
/// the table, or it fails, for want of a child or because it was killed or its memory does not hold
/// the status. It sleeps only while it has a child and none has ended.
pub proof fn lemma_wait(
    procs0: Seq<Process>,
    procs1: Seq<Process>,
    a0: KernelAllocator,
    a1: KernelAllocator,
    st0: KernelStackAllocator,
    st1: KernelStackAllocator,
    cur: int,
    addr: Option<u64>,
    r: WaitProgress,
    i: int,
)
    requires
        wait_came_to(procs0, procs1, a0, a1, st0, st1, cur, addr, r),
        procs0.len() == NPROC,
        procs1.len() == NPROC,
        0 <= cur < NPROC,
        0 <= i < NPROC,
    ensures
        r matches WaitProgress::Reaped(pid) ==> exists|k: int|
            {
                &&& 0 <= k < NPROC
                &&& (#[trigger] procs0[k]).parent == Some(cur as usize)
                &&& procs0[k].state is Zombie
                &&& procs0[k].pid == pid
                &&& procs1[k].state is Unused
                &&& forall|j: int| 0 <= j < NPROC && j != k ==> #[trigger] procs1[j] == procs0[j]
            },
        r is Sleep ==> procs1 == procs0 && !procs0[cur].killed,
        r is Failed ==> procs1 == procs0,
        procs0[i].parent == Some(cur as usize) && procs0[i].state is Zombie ==> !(r is Sleep) && (addr is None ==> r is Reaped),
        procs0[i].parent == Some(cur as usize) && r is Failed && addr is None ==> procs0[cur].killed,
        (forall|j: int| 0 <= j < NPROC ==> (#[trigger] procs0[j]).parent != Some(cur as usize)) ==> r is Failed,
        procs0[i].parent == Some(cur as usize) && !procs0[cur].killed && (forall|j: int|
            0 <= j < NPROC && (#[trigger] procs0[j]).parent == Some(cur as usize) ==> !(procs0[j].state is Zombie)) ==> r is Sleep,
{
    if procs0[i].parent == Some(cur as usize) && procs0[i].state is Zombie {
        lemma_first_zombie(procs0, cur, i);
    }
    if exists|k: int| first_zombie(procs0, cur, k) {
        let k = choose|k: int| first_zombie(procs0, cur, k);
        assert(first_zombie(procs0, cur, k));
        assert(is_zombie_child(procs0, cur, k));
        assert(procs0[k].parent == Some(cur as usize));
    }
}

proof fn lemma_first_zombie(procs: Seq<Process>, cur: int, i: int)
    requires
        0 <= i < procs.len(),
        is_zombie_child(procs, cur, i),
    ensures
        exists|k: int| first_zombie(procs, cur, k),
    decreases i,
{
    if exists|j: int| 0 <= j < i && #[trigger] is_zombie_child(procs, cur, j) {
        let j = choose|j: int| 0 <= j < i && #[trigger] is_zombie_child(procs, cur, j);
        lemma_first_zombie(procs, cur, j);
    } else {
        assert(first_zombie(procs, cur, i));
    }
}

/// A status is stored with its lowest byte first, a negative one as what it differs from 2^32.
pub proof fn lemma_status_number(bytes: Seq<u8>, status: i32)
    requires
        is_status(bytes, status),
    ensures
        bytes.len() == 4,
        ({
            let n = bytes[0] + 0x100 * bytes[1] + 0x1_0000 * bytes[2] + 0x100_0000 * bytes[3];
            &&& n < 0x8000_0000 ==> status == n
            &&& n >= 0x8000_0000 ==> status == n - 0x1_0000_0000
        }),
{
}

/// No two slots sleep for their children under one token.
pub proof fn lemma_child_tokens(i: int, j: int)
    requires
        0 <= i < NPROC,
        0 <= j < NPROC,
    ensures
        child_token(i) == child_token(j) ==> i == j,
{
}

} // verus!
