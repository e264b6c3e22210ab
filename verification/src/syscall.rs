//! System calls.
use vstd::prelude::*;
use crate::allocator::{Frame, KernelAllocator};
use crate::clock::{sleep, sleep_after, Clock, SleepProgress};
use crate::config::{MAXPATH, NOFILE, NPROC};
use crate::filesystem::bytes::zeros;
use crate::process::kernel_stack::KernelStackAllocator;
use crate::process::memory::others_safe;
use crate::process::process::ProcessContext;
use crate::process::table::{first_with_pid, killed_by, woken, ProcessTable};
use crate::process::trapframe::TrapFrame;
use crate::process::{contexts_wf, kill, wait, WaitProgress};
use crate::riscv::paging::user_byte;
use vstd::utf8::valid_utf8;

pub mod descriptors;
pub mod files;
pub mod laws;
pub mod paths;

verus! {

/// The system calls.
#[derive(Clone, Copy, Debug, PartialEq, Eq, Structural)]
pub enum Call {
    Fork,
    Exit,
    Wait,
    Pipe,
    Read,
    Kill,
    Exec,
    Fstat,
    Chdir,
    Dup,
    Getpid,
    Sbrk,
    Sleep,
    Uptime,
    Open,
    Write,
    Mknod,
    Unlink,
    Link,
    Mkdir,
    Close,
}

/// The number by which programs ask for a call.
pub open spec fn call_number(call: Call) -> int {
    match call {
        Call::Fork => 1,
        Call::Exit => 2,
        Call::Wait => 3,
        Call::Pipe => 4,
        Call::Read => 5,
        Call::Kill => 6,
        Call::Exec => 7,
        Call::Fstat => 8,
        Call::Chdir => 9,
        Call::Dup => 10,
        Call::Getpid => 11,
        Call::Sbrk => 12,
        Call::Sleep => 13,
        Call::Uptime => 14,
        Call::Open => 15,
        Call::Write => 16,
        Call::Mknod => 17,
        Call::Unlink => 18,
        Call::Link => 19,
        Call::Mkdir => 20,
        Call::Close => 21,
    }
}

/// The system call with a number.
pub fn syscall(index: u64) -> (r: Result<Call, ()>)
    ensures
        match r {
            Ok(call) => call_number(call) == index,
            Err(_) => index == 0 || index > 21,
        },
{
    match index {
        1 => Ok(Call::Fork),
        2 => Ok(Call::Exit),
        3 => Ok(Call::Wait),
        4 => Ok(Call::Pipe),
        5 => Ok(Call::Read),
        6 => Ok(Call::Kill),
        7 => Ok(Call::Exec),
        8 => Ok(Call::Fstat),
        9 => Ok(Call::Chdir),
        10 => Ok(Call::Dup),
        11 => Ok(Call::Getpid),
        12 => Ok(Call::Sbrk),
        13 => Ok(Call::Sleep),
        14 => Ok(Call::Uptime),
        15 => Ok(Call::Open),
        16 => Ok(Call::Write),
        17 => Ok(Call::Mknod),
        18 => Ok(Call::Unlink),
        19 => Ok(Call::Link),
        20 => Ok(Call::Mkdir),
        21 => Ok(Call::Close),
        _ => Err(()),
    }
}

/// Every call has a number of its own.
pub proof fn lemma_call_numbers(x: Call, y: Call)
    ensures
        call_number(x) == call_number(y) ==> x == y,
        1 <= call_number(x) <= 21,
{
}

/// Argument `n` of a system call, as the program left it.
pub open spec fn raw_arg(tf: TrapFrame, n: int) -> u64 {
    if n == 0 {
        tf.a0
    } else if n == 1 {
        tf.a1
    } else if n == 2 {
        tf.a2
    } else if n == 3 {
        tf.a3
    } else if n == 4 {
        tf.a4
    } else {
        tf.a5
    }
}

/// Argument `n` of a system call. There are six.
pub fn arg_raw(tf: &TrapFrame, n: usize) -> (r: u64)
    requires
        n < 6,
    ensures
        r == raw_arg(*tf, n as int),
{
    match n {
        0 => tf.a0,
        1 => tf.a1,
        2 => tf.a2,
        3 => tf.a3,
        4 => tf.a4,
        _ => tf.a5,
    }
}

/// The low 32 bits of a register as a signed number.
pub open spec fn low_i32(raw: u64) -> int {
    let low = raw as int % 0x1_0000_0000;
    if low < 0x8000_0000 {
        low
    } else {
        low - 0x1_0000_0000
    }
}

/// Argument `n` as a number of 32 bits.
pub fn arg_i32(tf: &TrapFrame, n: usize) -> (r: i32)
    requires
        n < 6,
    ensures
        r == low_i32(raw_arg(*tf, n as int)),
{
    let low: i64 = (arg_raw(tf, n) % 0x1_0000_0000) as i64;
    if low < 0x8000_0000 {
        low as i32
    } else {
        (low - 0x1_0000_0000) as i32
    }
}

/// `s` is the string in user memory at `va`, which ends in a zero byte.
pub open spec fn is_user_string(ram: Seq<Frame>, root: int, va: int, s: Seq<u8>) -> bool {
    &&& forall|i: int| 0 <= i < s.len() ==> user_byte(ram, root, va + i) == Some(#[trigger] s[i])
    &&& forall|i: int| 0 <= i < s.len() ==> #[trigger] s[i] != 0
    &&& user_byte(ram, root, va + s.len()) == Some(0u8)
}

/// The string in user memory at `va`, where it is shorter than `max` bytes.
pub open spec fn user_string(ram: Seq<Frame>, root: int, va: int, max: int) -> Option<Seq<u8>> {
    if exists|s: Seq<u8>| s.len() < max && #[trigger] is_user_string(ram, root, va, s) {
        Some(choose|s: Seq<u8>| s.len() < max && #[trigger] is_user_string(ram, root, va, s))
    } else {
        None
    }
}

/// There is only one string at an address.
pub proof fn lemma_user_string(ram: Seq<Frame>, root: int, va: int, x: Seq<u8>, y: Seq<u8>)
    requires
        is_user_string(ram, root, va, x),
        is_user_string(ram, root, va, y),
    ensures
        x == y,
{
    if x.len() < y.len() {
        assert(user_byte(ram, root, va + x.len()) == Some(y[x.len() as int]));
    }
    if y.len() < x.len() {
        assert(user_byte(ram, root, va + y.len()) == Some(x[y.len() as int]));
    }
    assert forall|i: int| 0 <= i < x.len() implies x[i] == y[i] by {
        assert(user_byte(ram, root, va + i) == Some(x[i]));
        assert(user_byte(ram, root, va + i) == Some(y[i]));
    }
    assert(x =~= y);
}

/// Copies the string at `addr` in the memory of a process, and its zero byte, to a buffer. The
/// result is the length of the string.
pub fn read_string_from_process_memory(context: &ProcessContext, a: &KernelAllocator, addr: u64, buffer: &mut Vec<u8>) -> (r: Result<usize, ()>)
    requires
        a.wf(),
        context.wf(a),
    ensures
        final(buffer)@.len() == old(buffer)@.len(),
        match r {
            Ok(n) => {
                &&& n < old(buffer)@.len()
                &&& user_string(a.frames(), context.pagetable.root(), addr as int, old(buffer)@.len() as int) == Some(
                    final(buffer)@.take(n as int),
                )
                &&& final(buffer)@[n as int] == 0
            },
            Err(_) => user_string(a.frames(), context.pagetable.root(), addr as int, old(buffer)@.len() as int) is None,
        },
{
    let ghost ram = a.frames();
    let ghost root = context.pagetable.root();
    let ghost max = buffer@.len() as int;
    let r = context.pagetable.read_cstr(a, buffer, addr);
    proof {
        match r {
            Ok(n) => {
                let s = buffer@.take(n as int);
                assert(user_byte(ram, root, addr + n) == Some(buffer@[n as int]));
                assert forall|i: int| 0 <= i < s.len() implies user_byte(ram, root, addr + i) == Some(#[trigger] s[i]) by {
                    assert(user_byte(ram, root, addr + i) == Some(buffer@[i]));
                }
                assert forall|i: int| 0 <= i < s.len() implies #[trigger] s[i] != 0 by {
                    assert(buffer@[i] != 0);
                }
                assert(is_user_string(ram, root, addr as int, s));
                let c = choose|s: Seq<u8>| s.len() < max && #[trigger] is_user_string(ram, root, addr as int, s);
                lemma_user_string(ram, root, addr as int, s, c);
            },
            Err(_) => {
                if exists|s: Seq<u8>| s.len() < max && #[trigger] is_user_string(ram, root, addr as int, s) {
                    let s = choose|s: Seq<u8>| s.len() < max && #[trigger] is_user_string(ram, root, addr as int, s);
                    let n = choose|n: int| {
                        &&& 0 <= n <= max
                        &&& n < max ==> (#[trigger] user_byte(ram, root, addr + n)) is None
                        &&& forall|i: int| 0 <= i < n ==> user_byte(ram, root, addr + i) == Some(#[trigger] buffer@[i])
                        &&& forall|i: int| 0 <= i < n ==> #[trigger] buffer@[i] != 0
                        &&& forall|i: int| n <= i < max ==> #[trigger] buffer@[i] == old(buffer)@[i]
                    };
                    let k = s.len() as int;
                    if k < n {
                        assert(user_byte(ram, root, addr + k) == Some(buffer@[k]));
                    } else if k > n {
                        assert(user_byte(ram, root, addr + n) == Some(s[n]));
                    }
                }
            },
        }
    }
    r
}

/// Whether bytes are valid UTF-8. `core::str::from_utf8` decides it: it succeeds exactly on
/// valid UTF-8.
#[verifier::external_body]
fn is_utf8(bytes: &Vec<u8>) -> (r: bool)
    ensures
        r == valid_utf8(bytes@),
{
    match core::str::from_utf8(bytes) {
        Ok(_) => true,
        Err(_) => false,
    }
}

/// Argument `n` as a path: a string that is not too long and is valid UTF-8.
pub open spec fn path_arg(context: ProcessContext, a: KernelAllocator, n: int) -> Option<Seq<u8>> {
    match user_string(a.frames(), context.pagetable.root(), raw_arg(context.trapframe, n) as int, MAXPATH as int) {
        Some(s) => if valid_utf8(s) {
            Some(s)
        } else {
            None
        },
        None => None,
    }
}

/// Argument `n` as a path.
pub fn arg_string(context: &ProcessContext, a: &KernelAllocator, n: usize) -> (r: Result<Vec<u8>, ()>)
    requires
        n < 6,
        a.wf(),
        context.wf(a),
    ensures
        match r {
            Ok(s) => path_arg(*context, *a, n as int) == Some(s@),
            Err(_) => path_arg(*context, *a, n as int) is None,
        },
{
    let addr = arg_raw(&context.trapframe, n);
    let mut buffer = zeros(MAXPATH);
    match read_string_from_process_memory(context, a, addr, &mut buffer) {
        Ok(len) => {
            let ghost s = buffer@.take(len as int);
            buffer.truncate(len);
            proof {
                assert(buffer@ =~= s);
            }
            if is_utf8(&buffer) {
                Ok(buffer)
            } else {
                Err(())
            }
        },
        Err(_) => Err(()),
    }
}

/// Argument `n` as a file descriptor: the descriptor and the file for which it stands.
pub fn arg_fd(context: &ProcessContext, n: usize) -> (r: Result<(usize, usize), ()>)
    requires
        n < 6,
        context.ofile@.len() == NOFILE,
    ensures
        match r {
            Ok((fd, f)) => fd == raw_arg(context.trapframe, n as int) && fd < NOFILE && context.ofile@[fd as int] == Some(f),
            Err(_) => raw_arg(context.trapframe, n as int) >= NOFILE || context.ofile@[raw_arg(context.trapframe, n as int) as int] is None,
        },
{
    let raw = arg_raw(&context.trapframe, n);
    if raw >= NOFILE as u64 {
        return Err(());
    }
    let fd = raw as usize;
    match context.ofile[fd] {
        Some(f) => Ok((fd, f)),
        None => Err(()),
    }
}

/// The first descriptor that is not in use.
pub open spec fn first_fd(ofile: Seq<Option<usize>>, fd: int) -> bool {
    &&& 0 <= fd < ofile.len()
    &&& ofile[fd] is None
    &&& forall|i: int| 0 <= i < fd ==> (#[trigger] ofile[i]) is Some
}

/// No descriptor is left.
pub open spec fn no_fd(ofile: Seq<Option<usize>>) -> bool {
    forall|i: int| 0 <= i < ofile.len() ==> (#[trigger] ofile[i]) is Some
}

/// The first descriptor that is not in use, if there is one.
pub fn free_fd(context: &ProcessContext) -> (r: Option<usize>)
    ensures
        match r {
            Some(fd) => first_fd(context.ofile@, fd as int),
            None => no_fd(context.ofile@),
        },
{
    let mut fd: usize = 0;
    while fd < context.ofile.len()
        invariant
            fd <= context.ofile@.len(),
            forall|i: int| 0 <= i < fd ==> (#[trigger] context.ofile@[i]) is Some,
        decreases context.ofile@.len() - fd,
    {
        if context.ofile[fd].is_none() {
            return Some(fd);
        }
        fd = fd + 1;
    }
    None
}

/// Lets the first descriptor that is not in use stand for file `f`.
pub fn fdalloc(context: &mut ProcessContext, f: usize) -> (r: Result<usize, ()>)
    ensures
        match r {
            Ok(fd) => {
                &&& first_fd(old(context).ofile@, fd as int)
                &&& final(context).ofile@ == old(context).ofile@.update(fd as int, Some(f))
                &&& *final(context) == (ProcessContext { ofile: final(context).ofile, ..*old(context) })
            },
            Err(_) => no_fd(old(context).ofile@) && *final(context) == *old(context),
        },
{
    match free_fd(context) {
        Some(fd) => {
            context.ofile.set(fd, Some(f));
            Ok(fd)
        },
        None => Err(()),
    }
}

/// The number of the current process.
pub fn sys_getpid(table: &ProcessTable, current: usize) -> (r: Result<u64, ()>)
    requires
        table.wf(),
        current < NPROC,
    ensures
        r == Ok::<u64, ()>(table.procs@[current as int].pid as u64),
{
    Ok(table.procs[current].pid as u64)
}

/// Goes on with waiting for a child. The status goes to the address in the first argument,
/// unless that is 0.
pub fn sys_wait(table: &mut ProcessTable, current: usize, a: &mut KernelAllocator, stacks: &mut KernelStackAllocator) -> (r: WaitProgress)
    requires
        old(table).wf(),
        old(a).wf(),
        old(stacks).wf(),
        contexts_wf(old(table).procs@, *old(a), *old(stacks)),
        current < NPROC,
        old(table).procs@[current as int].state is Running,
    ensures
        final(table).wf(),
        final(a).wf(),
        final(a).end() == old(a).end(),
        final(stacks).wf(),
        final(table).next_pid == old(table).next_pid,
        contexts_wf(final(table).procs@, *final(a), *final(stacks)),
        ({
            let raw = crate::process::context_at(old(table).procs@, current as int)->0.trapframe.a0;
            crate::process::wait_came_to(
                old(table).procs@,
                final(table).procs@,
                *old(a),
                *final(a),
                *old(stacks),
                *final(stacks),
                current as int,
                if raw == 0 { None } else { Some(raw) },
                r,
            )
        }),
{
    let raw = match table.procs[current].context_ref() {
        Some(context) => arg_raw(&context.trapframe, 0),
        None => 0,
    };
    let addr = if raw == 0 {
        None
    } else {
        Some(raw)
    };
    wait(table, current, addr, a, stacks)
}

/// Changes the size of the memory of a process, and returns the old size.
pub fn sys_sbrk(context: &mut ProcessContext, a: &mut KernelAllocator) -> (r: Result<u64, ()>)
    requires
        old(a).wf(),
        old(context).wf(old(a)),
    ensures
        final(a).wf(),
        final(a).end() == old(a).end(),
        final(context).wf(final(a)),
        others_safe(old(a).frames(), final(a).frames(), old(context).pagetable.root()),
        crate::process::process::resized(*old(context), *final(context), *old(a), *final(a), low_i32(old(context).trapframe.a0), r),
{
    let n = arg_i32(&context.trapframe, 0);
    context.resize_memory(a, n as i64)
}

/// Tells a process to end. The result is 1 where there is one with this number.
pub fn sys_kill(table: &mut ProcessTable, current: usize) -> (r: Result<u64, ()>)
    requires
        old(table).wf(),
        current < NPROC,
        old(table).procs@[current as int].state is Running,
    ensures
        final(table).wf(),
        final(table).next_pid == old(table).next_pid,
        ({
            let raw = crate::process::context_at(old(table).procs@, current as int)->0.trapframe.a0;
            let pid = raw as usize;
            &&& raw > usize::MAX ==> r == Ok::<u64, ()>(0) && *final(table) == *old(table)
            &&& raw <= usize::MAX ==> {
                &&& r == Ok::<u64, ()>(if exists|i: int| first_with_pid(old(table).procs@, pid, i) { 1u64 } else { 0u64 })
                &&& forall|i: int|
                    0 <= i < NPROC ==> #[trigger] final(table).procs@[i] == if first_with_pid(old(table).procs@, pid, i) {
                        crate::process::process::Process { killed: true, ..woken(old(table).procs@[i]) }
                    } else {
                        old(table).procs@[i]
                    }
                &&& killed_by(old(table).procs@, final(table).procs@, pid, r == Ok::<u64, ()>(1))
            }
        }),
{
    let raw = match table.procs[current].context_ref() {
        Some(context) => arg_raw(&context.trapframe, 0),
        None => 0,
    };
    if raw > usize::MAX as u64 {
        return Ok(0);
    }
    if kill(table, raw as usize) {
        Ok(1)
    } else {
        Ok(0)
    }
}

/// Goes on with a sleep that began at tick `start`. `None` means that the process has to wait
/// for the next tick.
pub fn sys_sleep(context: &ProcessContext, clock: &Clock, start: u64, killed: bool) -> (r: Option<Result<u64, ()>>)
    requires
        start <= clock.ticks,
    ensures
        r == match sleep_after(clock.ticks, start, context.trapframe.a0, killed) {
            SleepProgress::Over => Some(Ok::<u64, ()>(0)),
            SleepProgress::Killed => Some(Err::<u64, ()>(())),
            SleepProgress::Wait => None,
        },
{
    match sleep(clock, start, arg_raw(&context.trapframe, 0), killed) {
        SleepProgress::Over => Some(Ok(0)),
        SleepProgress::Killed => Some(Err(())),
        SleepProgress::Wait => None,
    }
}

/// The number of ticks since the kernel started.
pub fn sys_uptime(clock: &Clock) -> (r: Result<u64, ()>)
    ensures
        r == Ok::<u64, ()>(clock.ticks),
{
    Ok(crate::clock::get(clock))
}

} // verus!
