//! System calls on file descriptors.
use vstd::prelude::*;
use crate::allocator::KernelAllocator;
use crate::config::{NINODE, NOFILE, NPROC};
use crate::file::table::{
    ends_apart, file_ok, files_ok, inserted, kinds_kept, lemma_file_ok, lemma_files_added, lemma_files_closed,
    lemma_files_fs, lemma_files_pipes, lemma_files_same, lemma_reference_dropped, lemma_users_positive, lemma_users_update,
    same_object, spare, users, FileTable, SharedFile,
};
use crate::file::{all_written, read_came_to, write_came_to, File, Transfer, PIPESIZE};
use crate::filesystem::bytes::{le16, le32, le64, put_u16, put_u32, put_u64, zeros};
use crate::filesystem::device::BlockDevice;
use crate::filesystem::file::{frees, ref_added, ref_removed, same_refs};
use crate::filesystem::inode::InodeKind;
use crate::fs::session::others_same;
use crate::fs::{files_kept, same_files, FileSystem, InodeReference, Stat};
use crate::pipe::{Pipe, PipeInner, PipeWrite, Pipes};
use crate::process::memory::{lemma_safe_written, others_safe, ProcessMemory};
use crate::process::kernel_stack::KernelStackAllocator;
use crate::process::process::{copy_slots, open_files, ProcessContext};
use crate::process::table::{first_with_pid, pid_after, pids_ok, ProcessTable};
use crate::process::{context_at, contexts_wf, exit, exited, fork, fork_came_to, lemma_safe_same, write_memory};
use crate::riscv::paging::{accessible, written, PageTable};
use crate::syscall::{arg_fd, arg_i32, arg_raw, fdalloc, first_fd, free_fd, low_i32, no_fd, raw_arg};

verus! {

/// All descriptors of a process stand for open files.
pub open spec fn fds_ok(ofile: Seq<Option<usize>>, files: FileTable) -> bool {
    forall|fd: int| 0 <= fd < ofile.len() && (#[trigger] ofile[fd]) is Some ==> files.has(ofile[fd]->0 as int)
}

/// Argument `n` is no descriptor of an open file.
pub open spec fn bad_fd(context: ProcessContext, n: int) -> bool {
    let raw = raw_arg(context.trapframe, n);
    raw >= NOFILE || context.ofile@[raw as int] is None
}

/// The file for which argument `n` stands.
pub open spec fn fd_file(context: ProcessContext, n: int) -> int {
    context.ofile@[raw_arg(context.trapframe, n) as int]->0 as int
}

/// The memory of a process.
pub open spec fn memory_of(context: ProcessContext) -> ProcessMemory {
    ProcessMemory { pagetable: PageTable { table: context.pagetable.table }, size: context.sz }
}

fn memory(context: &ProcessContext) -> (r: ProcessMemory)
    ensures
        r == memory_of(*context),
{
    ProcessMemory { pagetable: PageTable { table: context.pagetable.table }, size: context.sz }
}

/// Writing to the memory of a process leaves it and all others in order.
pub proof fn lemma_context_written(context: ProcessContext, a0: KernelAllocator, a1: KernelAllocator, addr: int, bytes: Seq<u8>)
    requires
        a0.wf(),
        context.wf(&a0),
        a1.wf(),
        a1.end() == a0.end(),
        written(a0.frames(), a1.frames(), context.pagetable.root(), addr, bytes),
    ensures
        context.wf(&a1),
        others_safe(a0.frames(), a1.frames(), context.pagetable.root()),
{
    lemma_safe_written(a0.frames(), a1.frames(), context.pagetable.root(), addr, bytes, context.sz as int);
    context.lemma_kernel_page(a0.frames(), a1);
}

/// What a second descriptor for the file of the first argument comes to.
pub open spec fn dup_came_to(c0: ProcessContext, c1: ProcessContext, files0: FileTable, files1: FileTable, r: Result<u64, ()>) -> bool {
    match r {
        Ok(fd) => {
            let f = fd_file(c0, 0);
            &&& !bad_fd(c0, 0)
            &&& first_fd(c0.ofile@, fd as int)
            &&& c1.ofile@ == c0.ofile@.update(fd as int, Some(f as usize))
            &&& c1 == (ProcessContext { ofile: c1.ofile, ..c0 })
            &&& files1.files@ == files0.files@.update(f, Some(SharedFile { file: files0.file(f), count: (files0.count(f) + 1) as usize }))
        },
        Err(_) => {
            &&& bad_fd(c0, 0) || no_fd(c0.ofile@)
            &&& c1 == c0
            &&& files1 == files0
        },
    }
}

/// Lets a second descriptor stand for the file of the first argument.
pub fn sys_dup(context: &mut ProcessContext, files: &mut FileTable) -> (r: Result<u64, ()>)
    requires
        old(files).wf(),
        old(context).ofile@.len() == NOFILE,
        fds_ok(old(context).ofile@, *old(files)),
        forall|f: int| #[trigger] old(files).count(f) < usize::MAX,
    ensures
        final(files).wf(),
        fds_ok(final(context).ofile@, *final(files)),
        dup_came_to(*old(context), *final(context), *old(files), *final(files), r),
{
    let (_, f) = match arg_fd(context, 0) {
        Ok(x) => x,
        Err(_) => {
            return Err(());
        },
    };
    let ghost ofile0 = context.ofile@;
    let ghost files0 = *files;
    match fdalloc(context, f) {
        Ok(fd) => {
            proof {
                assert(files.count(f as int) < usize::MAX);
            }
            files.share(f);
            proof {
                assert forall|i: int| 0 <= i < context.ofile@.len() && (#[trigger] context.ofile@[i]) is Some implies files.has(
                    context.ofile@[i]->0 as int,
                ) by {
                    if i != fd {
                        assert(ofile0[i] is Some);
                    }
                    assert(files0.has(context.ofile@[i]->0 as int));
                }
            }
            Ok(fd as u64)
        },
        Err(_) => Err(()),
    }
}

/// What a read from the descriptor in the first argument comes to: of as many bytes as the third one
/// says, to the address in the second one.
pub open spec fn fd_read<D: BlockDevice>(
    c: ProcessContext,
    files0: FileTable,
    files1: FileTable,
    fs: FileSystem<D>,
    pipes0: Pipes<PIPESIZE>,
    pipes1: Pipes<PIPESIZE>,
    a0: KernelAllocator,
    a1: KernelAllocator,
    killed: bool,
    r: Transfer,
) -> bool {
    if bad_fd(c, 0) {
        r == Transfer::Failed && files1 == files0 && a1 == a0 && pipes1 == pipes0
    } else {
        let f = fd_file(c, 0);
        &&& files1.files@ == files0.files@.update(f, files1.files@[f])
        &&& files1.count(f) == files0.count(f)
        &&& read_came_to(
            files0.file(f),
            files1.file(f),
            fs,
            pipes0,
            pipes1,
            a0,
            a1,
            memory_of(c),
            c.trapframe.a1,
            c.trapframe.a2 as usize,
            killed,
            r,
        )
    }
}

/// Reads from a file.
#[verifier::rlimit(40)]
pub fn sys_read<D: BlockDevice>(
    context: &ProcessContext,
    files: &mut FileTable,
    fs: &mut FileSystem<D>,
    pipes: &mut Pipes<PIPESIZE>,
    a: &mut KernelAllocator,
    killed: bool,
) -> (r: Transfer)
    requires
        old(fs).wf(),
        !bad_fd(*context, 0) ==> old(files).file(fd_file(*context, 0)).read_ok(*old(fs), *old(pipes)),
        old(pipes).wf(),
        files_ok(*old(files), *old(fs), *old(pipes)),
        old(a).wf(),
        context.wf(old(a)),
        fds_ok(context.ofile@, *old(files)),
        context.trapframe.a2 <= usize::MAX,
    ensures
        final(fs).wf(),
        if !bad_fd(*context, 0) && (old(files).file(fd_file(*context, 0)) matches File::Inode { readable: true, .. }) {
            final(fs).can_work() && old(fs).one_call(*final(fs), 0)
        } else {
            *final(fs) == *old(fs)
        },
        same_refs(old(fs).inodes.cache, final(fs).inodes.cache),
        files_kept(*old(fs), *final(fs)),
        final(pipes).wf(),
        files_ok(*final(files), *final(fs), *final(pipes)),
        fds_ok(context.ofile@, *final(files)),
        final(a).wf(),
        context.wf(final(a)),
        others_safe(old(a).frames(), final(a).frames(), context.pagetable.root()),
        fd_read(*context, *old(files), *final(files), *old(fs), *old(pipes), *final(pipes), *old(a), *final(a), killed, r),
{
    let ghost a0 = *a;
    proof {
        reveal(FileSystem::can_work);
        lemma_unwritten(*context, a0);
    }
    let f = match arg_fd(context, 0) {
        Ok((_, f)) => f,
        Err(_) => {
            return Transfer::Failed;
        },
    };
    let addr = arg_raw(&context.trapframe, 1);
    let n = arg_raw(&context.trapframe, 2) as usize;
    let mem = memory(context);
    let ghost files0 = *files;
    let ghost fs0 = *fs;
    let ghost pipes0 = *pipes;
    let ghost fi = f as int;
    proof {
        lemma_file_ok(files0, fs0, pipes0, fi);
    }
    let r = match &mut files.files[f] {
        Some(shared) => shared.file.read(fs, pipes, a, &mem, addr, n, killed),
        None => Transfer::Failed,
    };
    proof {
        assert(files.files@ =~= files0.files@.update(fi, files.files@[fi]));
        let x = files0.file(fi);
        let y = files.file(fi);
        assert(same_object(x, y));
        lemma_files_same(files0, *files, fs0, pipes0, fi);
        lemma_kinds_same(fs0, *fs);
        lemma_files_fs(*files, fs0, *fs, pipes0);
        assert forall|p: int| 0 <= p < pipes0.pipes@.len() implies (#[trigger] pipes.pipes@[p]).read_open == pipes0.pipes@[p].read_open
            && pipes.pipes@[p].write_open == pipes0.pipes@[p].write_open by {
            if x is Pipe && p != x->pipe.number() {
                assert(pipes.pipes@[p] == pipes0.pipes@[p]);
            }
        }
        lemma_files_pipes(*files, *fs, pipes0, *pipes);
        lemma_read_safe(*context, x, y, fs0, pipes0, *pipes, a0, *a, addr, n, killed, r);
    }
    r
}

/// Memory that was not written is in order.
proof fn lemma_unwritten(context: ProcessContext, a: KernelAllocator)
    requires
        a.wf(),
        context.wf(&a),
    ensures
        others_safe(a.frames(), a.frames(), context.pagetable.root()),
{
    lemma_safe_same(a.frames(), context.pagetable.root());
}

/// A file system with the same references and files has the same kinds.
proof fn lemma_kinds_same<D: BlockDevice>(fs0: FileSystem<D>, fs1: FileSystem<D>)
    requires
        fs0.wf(),
        same_refs(fs0.inodes.cache, fs1.inodes.cache),
        files_kept(fs0, fs1),
    ensures
        kinds_kept(fs0, fs1),
        forall|i: int| 0 <= i < NINODE ==> fs0.inodes.cache.counts@[i] <= #[trigger] fs1.inodes.cache.counts@[i],
{
    assert forall|i: int| 0 <= i < NINODE && fs0.inodes.cache.counts@[i] > 0 implies {
        &&& #[trigger] fs1.inum_at(i) == fs0.inum_at(i)
        &&& fs1.file(fs0.inum_at(i)).kind == fs0.file(fs0.inum_at(i)).kind
    } by {
        fs0.lemma_refers(i);
        assert(fs1.file(fs0.inum_at(i)) == fs0.file(fs0.inum_at(i)));
    }
}

/// Reading leaves all processes in order.
proof fn lemma_read_safe<D: BlockDevice>(
    context: ProcessContext,
    f0: File,
    f1: File,
    fs0: FileSystem<D>,
    pipes0: Pipes<PIPESIZE>,
    pipes1: Pipes<PIPESIZE>,
    a0: KernelAllocator,
    a1: KernelAllocator,
    addr: u64,
    n: usize,
    killed: bool,
    r: Transfer,
)
    requires
        a0.wf(),
        context.wf(&a0),
        a1.wf(),
        a1.end() == a0.end(),
        read_came_to(f0, f1, fs0, pipes0, pipes1, a0, a1, memory_of(context), addr, n, killed, r),
    ensures
        context.wf(&a1),
        others_safe(a0.frames(), a1.frames(), context.pagetable.root()),
{
    if a1 == a0 {
        lemma_unwritten(context, a0);
    } else {
        let root = context.pagetable.root();
        let bytes = choose|bytes: Seq<u8>| #[trigger] written(a0.frames(), a1.frames(), root, addr as int, bytes);
        assert(written(a0.frames(), a1.frames(), root, addr as int, bytes));
        lemma_context_written(context, a0, a1, addr as int, bytes);
    }
}

/// A write of as many bytes as the third argument says, from the address in the second one on.
pub open spec fn write_asked(c: ProcessContext, req: PipeWrite) -> bool {
    req == (PipeWrite { addr: c.trapframe.a1, n: c.trapframe.a2 as usize, i: 0 })
}

/// What a write to the descriptor in the first argument comes to.
pub open spec fn fd_written<D: BlockDevice>(
    c: ProcessContext,
    files0: FileTable,
    files1: FileTable,
    fs0: FileSystem<D>,
    fs1: FileSystem<D>,
    pipes0: Pipes<PIPESIZE>,
    pipes1: Pipes<PIPESIZE>,
    a: KernelAllocator,
    req0: PipeWrite,
    req1: PipeWrite,
    killed: bool,
    r: Transfer,
) -> bool {
    if bad_fd(c, 0) {
        &&& r == Transfer::Failed
        &&& files1 == files0
        &&& pipes1 == pipes0
        &&& req1 == req0
        &&& fs1 == fs0
    } else {
        let f = fd_file(c, 0);
        &&& files1.files@ == files0.files@.update(f, files1.files@[f])
        &&& files1.count(f) == files0.count(f)
        &&& all_written(files0.file(f), files1.file(f), fs0, fs1, pipes0, pipes1, a, memory_of(c), req0, req1, killed, r)
    }
}

/// A write that has not begun yet, from the arguments.
pub fn write_request(context: &ProcessContext) -> (req: PipeWrite)
    requires
        context.trapframe.a2 <= usize::MAX,
    ensures
        write_asked(*context, req),
{
    PipeWrite { addr: arg_raw(&context.trapframe, 1), n: arg_raw(&context.trapframe, 2) as usize, i: 0 }
}

/// Writes to a file. `req` is how far the write came so far.
#[verifier::rlimit(40)]
pub fn sys_write<D: BlockDevice>(
    context: &ProcessContext,
    files: &mut FileTable,
    fs: &mut FileSystem<D>,
    pipes: &mut Pipes<PIPESIZE>,
    a: &KernelAllocator,
    req: &mut PipeWrite,
    killed: bool,
) -> (r: Transfer)
    requires
        old(fs).wf(),
        !bad_fd(*context, 0) ==> old(files).file(fd_file(*context, 0)).write_ok(*old(fs), *old(pipes), old(req).n as int),
        old(pipes).wf(),
        files_ok(*old(files), *old(fs), *old(pipes)),
        a.wf(),
        context.wf(a),
        fds_ok(context.ofile@, *old(files)),
        old(req).i <= old(req).n,
        old(req).addr + old(req).i <= u64::MAX,
    ensures
        final(fs).wf(),
        same_refs(old(fs).inodes.cache, final(fs).inodes.cache),
        final(pipes).wf(),
        files_ok(*final(files), *final(fs), *final(pipes)),
        fds_ok(context.ofile@, *final(files)),
        fd_written(
            *context,
            *old(files),
            *final(files),
            *old(fs),
            *final(fs),
            *old(pipes),
            *final(pipes),
            *a,
            *old(req),
            *final(req),
            killed,
            r,
        ),
{
    let f = match arg_fd(context, 0) {
        Ok((_, f)) => f,
        Err(_) => {
            return Transfer::Failed;
        },
    };
    let mem = memory(context);
    let ghost files0 = *files;
    let ghost fs0 = *fs;
    let ghost pipes0 = *pipes;
    let ghost req0 = *req;
    let ghost fi = f as int;
    proof {
        lemma_file_ok(files0, fs0, pipes0, fi);
    }
    let r = match &mut files.files[f] {
        Some(shared) => shared.file.write(fs, pipes, a, &mem, req, killed),
        None => Transfer::Failed,
    };
    proof {
        assert(files.files@ =~= files0.files@.update(fi, files.files@[fi]));
        let x = files0.file(fi);
        let y = files.file(fi);
        assert(same_object(x, y));
        lemma_files_same(files0, *files, fs0, pipes0, fi);
        lemma_kinds_written(fs0, *fs, pipes0, *pipes, x, y, *a, mem, req0, *req, killed, r);
        lemma_files_fs(*files, fs0, *fs, pipes0);
        assert forall|p: int| 0 <= p < pipes0.pipes@.len() implies (#[trigger] pipes.pipes@[p]).read_open == pipes0.pipes@[p].read_open
            && pipes.pipes@[p].write_open == pipes0.pipes@[p].write_open by {
            if x is Pipe && p != x->pipe.number() {
                assert(pipes.pipes@[p] == pipes0.pipes@[p]);
            }
        }
        lemma_files_pipes(*files, *fs, pipes0, *pipes);
    }
    r
}

/// Writing keeps the kinds of all files.
proof fn lemma_kinds_written<D: BlockDevice>(
    fs0: FileSystem<D>,
    fs1: FileSystem<D>,
    pipes0: Pipes<PIPESIZE>,
    pipes1: Pipes<PIPESIZE>,
    f0: File,
    f1: File,
    a: KernelAllocator,
    mem: ProcessMemory,
    req0: PipeWrite,
    req1: PipeWrite,
    killed: bool,
    r: Transfer,
)
    requires
        fs0.wf(),
        f0.wf(fs0, pipes0),
        f0.spares_directories(fs0),
        same_refs(fs0.inodes.cache, fs1.inodes.cache),
        all_written(f0, f1, fs0, fs1, pipes0, pipes1, a, mem, req0, req1, killed, r),
    ensures
        kinds_kept(fs0, fs1),
        forall|i: int| 0 <= i < NINODE ==> fs0.inodes.cache.counts@[i] <= #[trigger] fs1.inodes.cache.counts@[i],
{
    reveal(write_came_to);
    assert forall|i: int| 0 <= i < NINODE && fs0.inodes.cache.counts@[i] > 0 implies {
        &&& #[trigger] fs1.inum_at(i) == fs0.inum_at(i)
        &&& fs1.file(fs0.inum_at(i)).kind == fs0.file(fs0.inum_at(i)).kind
    } by {
        fs0.lemma_refers(i);
        let j = fs0.inum_at(i);
        if f0 is Inode && fs0.inum_at(f0.slot()) == j {
            assert(fs1.file(j).kind == fs0.file(j).kind);
        } else {
            assert(fs1.file(j) == fs0.file(j));
        }
    }
}

/// Gives up one descriptor of file `f`; the file is closed with its last one.
fn close_file<D: BlockDevice>(files: &mut FileTable, fs: &mut FileSystem<D>, pipes: &mut Pipes<PIPESIZE>, f: usize)
    requires
        old(fs).wf(),
        old(pipes).wf(),
        files_ok(*old(files), *old(fs), *old(pipes)),
        old(files).has(f as int),
        old(files).count(f as int) == 1 ==> old(files).file(f as int).drop_ok(*old(fs)),
    ensures
        final(fs).wf(),
        final(fs).volume.activity() == old(fs).volume.activity(),
        old(fs).can_leave_all() ==> final(fs).can_leave_all(),
        final(pipes).wf(),
        files_ok(*final(files), *final(fs), *final(pipes)),
        file_left(*old(files), *final(files), *old(fs), *final(fs), *old(pipes), *final(pipes), f as int),
        forall|k: int| 0 <= k < NINODE ==> #[trigger] spare(*final(files), *final(fs), k) == spare(*old(files), *old(fs), k),
{
    let ghost files0 = *files;
    let ghost fs0 = *fs;
    let ghost pipes0 = *pipes;
    proof {
        lemma_file_ok(files0, fs0, pipes0, f as int);
    }
    match files.remove(f) {
        Some(file) => {
            file.drop(fs, pipes);
            proof {
                let x = files0.file(f as int);
                if fs0.can_leave_all() && !(x is Pipe) {
                    assert(fs0.refers(x.slot()));
                    fs.lemma_leave_all(fs0, x.slot());
                }
                lemma_files_closed(files0, *files, fs0, *fs, pipes0, *pipes, f as int);
            }
        },
        None => {
            proof {
                assert(files.has(f as int));
                lemma_files_same(files0, *files, fs0, pipes0, f as int);
                assert forall|k: int| 0 <= k < NINODE implies #[trigger] spare(*files, *fs, k) == spare(files0, fs0, k) by {
                    lemma_users_update(files0.files@, f as int, files.files@[f as int], k);
                }
            }
        },
    }
}

/// The difference that one descriptor less of file `f` makes.
pub open spec fn file_left<D: BlockDevice>(
    files0: FileTable,
    files1: FileTable,
    fs0: FileSystem<D>,
    fs1: FileSystem<D>,
    pipes0: Pipes<PIPESIZE>,
    pipes1: Pipes<PIPESIZE>,
    f: int,
) -> bool {
    if files0.count(f) > 1 {
        &&& files1.files@ == files0.files@.update(f, Some(SharedFile { file: files0.file(f), count: (files0.count(f) - 1) as usize }))
        &&& fs1 == fs0
        &&& pipes1 == pipes0
    } else {
        &&& files1.files@ == files0.files@.update(f, None)
        &&& match files0.file(f) {
            File::Pipe { pipe } => {
                let p = pipes0.pipes@[pipe.number()];
                &&& fs1 == fs0
                &&& pipes1.pipes@ == pipes0.pipes@.update(
                    pipe.number(),
                    if pipe is Read {
                        PipeInner { read_open: false, ..p }
                    } else {
                        PipeInner { write_open: false, ..p }
                    },
                )
            },
            _ => {
                let i = files0.file(f).slot();
                let j = fs0.inum_at(i);
                &&& pipes1 == pipes0
                &&& ref_removed(fs0.inodes.cache, fs1.inodes.cache, i)
                &&& others_same(fs0, fs1, j)
                &&& if frees(fs0.inodes, i) {
                    &&& fs1.file(j).kind == InodeKind::Unused
                    &&& fs1.file(j).bytes == Seq::<u8>::empty()
                    &&& fs1.file(j).nlink == 0
                } else {
                    fs1.file(j) == fs0.file(j)
                }
            },
        }
    }
}

/// What closing the descriptor in the first argument comes to.
pub open spec fn close_came_to<D: BlockDevice>(
    c0: ProcessContext,
    c1: ProcessContext,
    files0: FileTable,
    files1: FileTable,
    fs0: FileSystem<D>,
    fs1: FileSystem<D>,
    pipes0: Pipes<PIPESIZE>,
    pipes1: Pipes<PIPESIZE>,
    r: Result<u64, ()>,
) -> bool {
    &&& r == if bad_fd(c0, 0) { Err::<u64, ()>(()) } else { Ok::<u64, ()>(0) }
    &&& if r is Err {
        c1 == c0 && files1 == files0 && fs1 == fs0 && pipes1 == pipes0
    } else {
        &&& c1.ofile@ == c0.ofile@.update(raw_arg(c0.trapframe, 0) as int, None)
        &&& c1 == (ProcessContext { ofile: c1.ofile, ..c0 })
        &&& file_left(files0, files1, fs0, fs1, pipes0, pipes1, fd_file(c0, 0))
    }
}

/// Closes a descriptor.
pub fn sys_close<D: BlockDevice>(context: &mut ProcessContext, files: &mut FileTable, fs: &mut FileSystem<D>, pipes: &mut Pipes<PIPESIZE>) -> (r: Result<
    u64,
    (),
>)
    requires
        old(fs).wf(),
        old(pipes).wf(),
        files_ok(*old(files), *old(fs), *old(pipes)),
        old(context).ofile@.len() == NOFILE,
        fds_ok(old(context).ofile@, *old(files)),
        !bad_fd(*old(context), 0) && old(files).count(fd_file(*old(context), 0)) == 1 ==> old(files).file(fd_file(*old(context), 0)).drop_ok(
            *old(fs),
        ),
    ensures
        final(fs).wf(),
        final(fs).volume.activity() == old(fs).volume.activity(),
        final(pipes).wf(),
        files_ok(*final(files), *final(fs), *final(pipes)),
        close_came_to(*old(context), *final(context), *old(files), *final(files), *old(fs), *final(fs), *old(pipes), *final(pipes), r),
        forall|k: int| 0 <= k < NINODE ==> #[trigger] spare(*final(files), *final(fs), k) == spare(*old(files), *old(fs), k),
{
    let (fd, f) = match arg_fd(context, 0) {
        Ok(x) => x,
        Err(_) => {
            return Err(());
        },
    };
    context.ofile.set(fd, None);
    close_file(files, fs, pipes, f);
    Ok(0)
}

/// Attributes of a file as programs get them.
pub open spec fn is_stat_bytes(s: Stat, bytes: Seq<u8>) -> bool {
    &&& bytes.len() == 24
    &&& le32(bytes, 0) == s.device
    &&& le32(bytes, 4) == s.inode
    &&& le16(bytes, 8) == s.kind.code()
    &&& le16(bytes, 10) == s.nlink
    &&& le64(bytes, 16) == s.size
}

fn stat_bytes(s: &Stat) -> (r: Vec<u8>)
    ensures
        is_stat_bytes(*s, r@),
{
    let mut r = zeros(24);
    put_u32(&mut r, 0, s.device);
    put_u32(&mut r, 4, s.inode);
    put_u16(&mut r, 8, s.kind.to_u16());
    put_u16(&mut r, 10, s.nlink);
    put_u64(&mut r, 16, s.size as u64);
    r
}

/// The attributes that a program gets of the file in slot `i`.
pub open spec fn stat_of<D: BlockDevice>(fs: FileSystem<D>, i: int, s: Stat) -> bool {
    let f = fs.file(fs.inum_at(i));
    &&& s.device == fs.device()
    &&& s.inode == fs.inum_at(i)
    &&& s.kind == f.kind
    &&& s.nlink == f.nlink
    &&& s.size == f.bytes.len()
}

/// What asking for the attributes of the file of the first argument comes to.
pub open spec fn stat_came_to<D: BlockDevice>(
    c: ProcessContext,
    files: FileTable,
    fs: FileSystem<D>,
    a0: KernelAllocator,
    a1: KernelAllocator,
    r: Result<u64, ()>,
) -> bool {
    let f = files.file(fd_file(c, 0));
    let root = c.pagetable.root();
    match r {
        Ok(v) => {
            &&& v == 0
            &&& !bad_fd(c, 0)
            &&& !(f is Pipe)
            &&& exists|s: Stat, bytes: Seq<u8>| {
                &&& stat_of(fs, f.slot(), s)
                &&& #[trigger] is_stat_bytes(s, bytes)
                &&& written(a0.frames(), a1.frames(), root, c.trapframe.a1 as int, bytes)
            }
        },
        Err(_) => bad_fd(c, 0) || f is Pipe || !accessible(a0.frames(), root, c.trapframe.a1 as int, 24),
    }
}

/// Writes the attributes of a file to the memory of the process.
#[verifier::rlimit(40)]
pub fn sys_fstat<D: BlockDevice>(
    context: &ProcessContext,
    files: &FileTable,
    fs: &mut FileSystem<D>,
    pipes: &Pipes<PIPESIZE>,
    a: &mut KernelAllocator,
) -> (r: Result<u64, ()>)
    requires
        old(fs).wf(),
        !bad_fd(*context, 0) ==> files.file(fd_file(*context, 0)).stat_ok(*old(fs)),
        files_ok(*files, *old(fs), *pipes),
        old(a).wf(),
        context.wf(old(a)),
        fds_ok(context.ofile@, *files),
    ensures
        final(fs).wf(),
        bad_fd(*context, 0) || files.file(fd_file(*context, 0)) is Pipe || (final(fs).can_work() && old(fs).one_call(*final(fs), 0)),
        same_refs(old(fs).inodes.cache, final(fs).inodes.cache),
        files_kept(*old(fs), *final(fs)),
        files_ok(*files, *final(fs), *pipes),
        final(a).wf(),
        context.wf(final(a)),
        others_safe(old(a).frames(), final(a).frames(), context.pagetable.root()),
        stat_came_to(*context, *files, *old(fs), *old(a), *final(a), r),
{
    let ghost fs0 = *fs;
    proof {
        reveal(FileSystem::can_work);
        lemma_unwritten(*context, *a);
        lemma_kinds_same(fs0, fs0);
    }
    let f = match arg_fd(context, 0) {
        Ok((_, f)) => f,
        Err(_) => {
            return Err(());
        },
    };
    let addr = arg_raw(&context.trapframe, 1);
    proof {
        lemma_file_ok(*files, fs0, *pipes, f as int);
    }
    let stat = match &files.files[f] {
        Some(shared) => shared.file.stat(fs),
        None => Err(()),
    };
    proof {
        lemma_kinds_same(fs0, *fs);
        lemma_files_fs(*files, fs0, *fs, *pipes);
    }
    match stat {
        Ok(s) => {
            let bytes = stat_bytes(&s);
            proof {
                assert(stat_of(fs0, files.file(f as int).slot(), s));
                assert(is_stat_bytes(s, bytes@));
            }
            if write_memory(context, a, addr, &bytes) {
                Ok(0)
            } else {
                Err(())
            }
        },
        Err(_) => Err(()),
    }
}

/// Two numbers as they are written to memory.
pub open spec fn is_pair(bytes: Seq<u8>, x: int, y: int) -> bool {
    &&& bytes.len() == 8
    &&& le32(bytes, 0) == x
    &&& le32(bytes, 4) == y
}

/// The descriptors that the two ends of a new pipe get.
pub open spec fn pipe_fds(ofile: Seq<Option<usize>>, fd0: int, fd1: int) -> bool {
    &&& first_fd(ofile, fd0)
    &&& fd0 < fd1 < ofile.len()
    &&& ofile[fd1] is None
    &&& forall|i: int| fd0 < i < fd1 ==> (#[trigger] ofile[i]) is Some
}

/// The two descriptors for a new pipe, where there are two.
fn two_fds(context: &ProcessContext) -> (r: Option<(usize, usize)>)
    ensures
        match r {
            Some((fd0, fd1)) => pipe_fds(context.ofile@, fd0 as int, fd1 as int),
            None => forall|fd0: int, fd1: int| !#[trigger] pipe_fds(context.ofile@, fd0, fd1),
        },
{
    let fd0 = match free_fd(context) {
        Some(fd0) => fd0,
        None => {
            return None;
        },
    };
    let n = context.ofile.len();
    let mut fd1: usize = fd0 + 1;
    while fd1 < n
        invariant
            n == context.ofile@.len(),
            fd0 < fd1 <= context.ofile@.len(),
            first_fd(context.ofile@, fd0 as int),
            forall|i: int| fd0 < i < fd1 ==> (#[trigger] context.ofile@[i]) is Some,
        decreases context.ofile@.len() - fd1,
    {
        if context.ofile[fd1].is_none() {
            return Some((fd0, fd1));
        }
        fd1 = fd1 + 1;
    }
    proof {
        assert forall|x: int, y: int| !#[trigger] pipe_fds(context.ofile@, x, y) by {
            if pipe_fds(context.ofile@, x, y) {
                if x < fd0 {
                    assert(context.ofile@[x] is Some);
                }
                if fd0 < x {
                    assert(context.ofile@[fd0 as int] is Some);
                }
                assert(context.ofile@[y] is Some);
            }
        }
    }
    None
}

/// Two files are new in a table, one after the other.
pub open spec fn both_inserted(t0: FileTable, t1: FileTable, f: int, file: File, g: int, other: File) -> bool {
    exists|mid: FileTable| #[trigger] inserted(t0, mid, f, file) && inserted(mid, t1, g, other)
}

/// What making a pipe comes to.
pub open spec fn pipe_came_to(
    c0: ProcessContext,
    c1: ProcessContext,
    files0: FileTable,
    files1: FileTable,
    pipes0: Pipes<PIPESIZE>,
    pipes1: Pipes<PIPESIZE>,
    a0: KernelAllocator,
    a1: KernelAllocator,
    r: Result<u64, ()>,
) -> bool {
    let addr = c0.trapframe.a0 as int;
    let root = c0.pagetable.root();
    match r {
        Ok(v) => exists|fd0: int, fd1: int, rf: usize, wf: usize, bytes: Seq<u8>| {
            let p = pipes0.pipes@.len() as int;
            &&& v == 0
            &&& #[trigger] pipe_fds(c0.ofile@, fd0, fd1)
            &&& #[trigger] is_pair(bytes, fd0, fd1)
            &&& written(a0.frames(), a1.frames(), root, addr, bytes)
            &&& c1.ofile@ == #[trigger] c0.ofile@.update(fd0, Some(rf)).update(fd1, Some(wf))
            &&& c1 == (ProcessContext { ofile: c1.ofile, ..c0 })
            &&& both_inserted(
                files0,
                files1,
                rf as int,
                File::Pipe { pipe: Pipe::Read(p as usize) },
                wf as int,
                File::Pipe { pipe: Pipe::Write(p as usize) },
            )
            &&& pipes1.pipes@.len() == p + 1
            &&& pipes1.pipes@.take(p) == pipes0.pipes@
            &&& pipes1.pipes@[p]@ == Seq::<u8>::empty()
            &&& pipes1.pipes@[p].read_open && pipes1.pipes@[p].write_open
        },
        Err(_) => {
            &&& c1 == c0
            &&& files1 == files0
            &&& pipes1 == pipes0
            &&& {
                ||| forall|fd0: int, fd1: int| !#[trigger] pipe_fds(c0.ofile@, fd0, fd1)
                ||| !accessible(a0.frames(), root, addr, 8)
            }
        },
    }
}

/// Makes a pipe. The program gets two descriptors, for reading and for writing, at the address in
/// the first argument.
#[verifier::rlimit(60)]
#[verifier::spinoff_prover]
pub fn sys_pipe<D: BlockDevice>(
    context: &mut ProcessContext,
    files: &mut FileTable,
    fs: &FileSystem<D>,
    pipes: &mut Pipes<PIPESIZE>,
    a: &mut KernelAllocator,
) -> (r: Result<u64, ()>)
    requires
        old(pipes).wf(),
        files_ok(*old(files), *fs, *old(pipes)),
        old(a).wf(),
        old(context).wf(old(a)),
        fds_ok(old(context).ofile@, *old(files)),
    ensures
        final(pipes).wf(),
        files_ok(*final(files), *fs, *final(pipes)),
        final(a).wf(),
        final(context).wf(final(a)),
        fds_ok(final(context).ofile@, *final(files)),
        others_safe(old(a).frames(), final(a).frames(), old(context).pagetable.root()),
        pipe_came_to(*old(context), *final(context), *old(files), *final(files), *old(pipes), *final(pipes), *old(a), *final(a), r),
{
    let ghost a0 = *a;
    let ghost c0 = *context;
    let ghost files0 = *files;
    let ghost pipes0 = *pipes;
    proof {
        lemma_unwritten(c0, a0);
    }
    let (fd0, fd1) = match two_fds(context) {
        Some(x) => x,
        None => {
            return Err(());
        },
    };
    let addr = arg_raw(&context.trapframe, 0);
    let mut bytes = zeros(8);
    put_u32(&mut bytes, 0, fd0 as u32);
    put_u32(&mut bytes, 4, fd1 as u32);
    proof {
        assert(is_pair(bytes@, fd0 as int, fd1 as int));
    }
    if !write_memory(context, a, addr, &bytes) {
        return Err(());
    }
    let (read, write) = match Pipe::allocate(pipes) {
        Some(ends) => ends,
        None => {
            return Err(());
        },
    };
    let ghost p = pipes0.pipes@.len() as int;
    proof {
        assert forall|q: int| 0 <= q < p implies (#[trigger] pipes.pipes@[q]).read_open == pipes0.pipes@[q].read_open && pipes.pipes@[q].write_open
            == pipes0.pipes@[q].write_open by {
            assert(pipes.pipes@.take(p)[q] == pipes0.pipes@[q]);
        }
        lemma_files_pipes(files0, *fs, pipes0, *pipes);
        assert forall|g: int| #[trigger] files0.has(g) implies below(files0.file(g), p) by {
            assert(file_ok(files0.file(g), *fs, pipes0));
        }
    }
    let rf = files.insert(File::new_pipe(read));
    let ghost files1 = *files;
    proof {
        assert(kinds_kept(*fs, *fs));
        assert forall|g: int| #[trigger] files0.has(g) implies ends_apart(files1.file(rf as int), files0.file(g)) by {
            assert(below(files0.file(g), p));
        }
        lemma_files_added(files0, files1, *fs, *fs, *pipes, rf as int);
    }
    let wf = files.insert(File::new_pipe(write));
    proof {
        assert forall|g: int| #[trigger] files1.has(g) implies ends_apart(files.file(wf as int), files1.file(g)) by {
            if g != rf {
                assert(files0.has(g));
                assert(files1.files@[g] == files0.files@[g]);
                assert(below(files0.file(g), p));
            }
        }
        lemma_files_added(files1, *files, *fs, *fs, *pipes, wf as int);
    }
    context.ofile.set(fd0, Some(rf));
    context.ofile.set(fd1, Some(wf));
    proof {
        assert(context.ofile@ == c0.ofile@.update(fd0 as int, Some(rf)).update(fd1 as int, Some(wf)));
        assert forall|i: int| 0 <= i < context.ofile@.len() && (#[trigger] context.ofile@[i]) is Some implies files.has(
            context.ofile@[i]->0 as int,
        ) by {
            if i != fd0 && i != fd1 {
                assert(c0.ofile@[i] is Some);
                assert(files0.has(c0.ofile@[i]->0 as int));
                assert(files1.has(c0.ofile@[i]->0 as int));
            }
        }
        assert(inserted(files0, files1, rf as int, File::Pipe { pipe: read }));
        assert(inserted(files1, *files, wf as int, File::Pipe { pipe: write }));
        assert(both_inserted(files0, *files, rf as int, File::Pipe { pipe: read }, wf as int, File::Pipe { pipe: write }));
        assert(pipe_fds(c0.ofile@, fd0 as int, fd1 as int));
    }
    Ok(0)
}

/// A file is no pipe with number `p` or more.
spec fn below(file: File, p: int) -> bool {
    file matches File::Pipe { pipe } ==> pipe.number() < p
}


/// Number of descriptors that stand for file `f`.
pub open spec fn descriptors(ofile: Seq<Option<usize>>, f: int) -> int
    decreases ofile.len(),
{
    if ofile.len() == 0 {
        0
    } else {
        descriptors(ofile.drop_last(), f) + if ofile.last() == Some(f as usize) && 0 <= f <= usize::MAX { 1int } else { 0int }
    }
}

/// There are not more of them than descriptors.
pub proof fn lemma_descriptors(ofile: Seq<Option<usize>>, f: int)
    ensures
        0 <= descriptors(ofile, f) <= ofile.len(),
    decreases ofile.len(),
{
    if ofile.len() > 0 {
        lemma_descriptors(ofile.drop_last(), f);
    }
}

/// Counts all descriptors of a process once more.
fn share_all(files: &mut FileTable, ofile: &Vec<Option<usize>>)
    requires
        old(files).wf(),
        fds_ok(ofile@, *old(files)),
        forall|f: int| #[trigger] old(files).count(f) + ofile@.len() < usize::MAX,
    ensures
        final(files).wf(),
        forall|f: int| #[trigger] final(files).has(f) == old(files).has(f),
        forall|f: int| old(files).has(f) ==> #[trigger] final(files).file(f) == old(files).file(f),
        forall|f: int| #[trigger] final(files).count(f) == old(files).count(f) + descriptors(ofile@, f),
        final(files).files@.len() == old(files).files@.len(),
        forall|i: int| #[trigger] users(final(files).files@, i) == users(old(files).files@, i),
{
    let ghost files0 = *files;
    let mut fd: usize = 0;
    proof {
        assert(ofile@.take(0) =~= Seq::<Option<usize>>::empty());
    }
    while fd < ofile.len()
        invariant
            fd <= ofile@.len(),
            files0 == *old(files),
            files.wf(),
            fds_ok(ofile@, files0),
            files.files@.len() == files0.files@.len(),
            forall|f: int| #[trigger] files0.count(f) + ofile@.len() < usize::MAX,
            forall|f: int| #[trigger] files.has(f) == files0.has(f),
            forall|f: int| files0.has(f) ==> #[trigger] files.file(f) == files0.file(f),
            forall|f: int| #[trigger] files.count(f) == files0.count(f) + descriptors(ofile@.take(fd as int), f),
            forall|i: int| #[trigger] users(files.files@, i) == users(files0.files@, i),
        decreases ofile@.len() - fd,
    {
        let ghost before = *files;
        let ghost part = ofile@.take(fd as int);
        proof {
            assert(ofile@.take(fd + 1).drop_last() =~= part);
            assert(ofile@.take(fd + 1).last() == ofile@[fd as int]);
        }
        match ofile[fd] {
            Some(g) => {
                proof {
                    assert(files0.has(g as int));
                    lemma_descriptors(part, g as int);
                    assert(before.count(g as int) == files0.count(g as int) + descriptors(part, g as int));
                    assert(files0.count(g as int) + ofile@.len() < usize::MAX);
                }
                files.share(g);
                proof {
                    assert forall|i: int| #[trigger] users(files.files@, i) == users(files0.files@, i) by {
                        lemma_users_update(before.files@, g as int, files.files@[g as int], i);
                        assert(users(before.files@, i) == users(files0.files@, i));
                    }
                    assert forall|f: int| #[trigger] files.has(f) == files0.has(f) by {
                        assert(before.has(f) == files0.has(f));
                    }
                    assert forall|f: int| files0.has(f) implies #[trigger] files.file(f) == files0.file(f) by {
                        assert(before.file(f) == files0.file(f));
                    }
                    assert forall|f: int| #[trigger] files.count(f) == files0.count(f) + descriptors(ofile@.take(fd + 1), f) by {
                        assert(before.count(f) == files0.count(f) + descriptors(part, f));
                        assert(files.has(f) == files0.has(f));
                    }
                }
            },
            None => {
                proof {
                    assert forall|f: int| #[trigger] files.count(f) == files0.count(f) + descriptors(ofile@.take(fd + 1), f) by {
                        assert(before.count(f) == files0.count(f) + descriptors(part, f));
                    }
                }
            },
        }
        fd = fd + 1;
    }
    proof {
        assert(ofile@.take(ofile@.len() as int) =~= ofile@);
    }
}

/// Makes a child of the process. It shares the files and the directory of its parent.
#[verifier::rlimit(40)]
pub fn sys_fork<D: BlockDevice>(
    table: &mut ProcessTable,
    current: usize,
    a: &mut KernelAllocator,
    stacks: &mut KernelStackAllocator,
    files: &mut FileTable,
    fs: &mut FileSystem<D>,
    trampoline: u64,
    jump: u64,
) -> (r: Result<u64, ()>)
    requires
        old(table).wf(),
        old(a).wf(),
        old(stacks).wf(),
        contexts_wf(old(table).procs@, *old(a), *old(stacks)),
        current < NPROC,
        context_at(old(table).procs@, current as int) is Some,
        trampoline <= 0xff_ffff_ffff_0000,
        old(fs).wf(),
        old(files).wf(),
        ({
            let c = context_at(old(table).procs@, current as int)->0;
            &&& fds_ok(c.ofile@, *old(files))
            &&& c.cwd matches Some(i) ==> old(fs).refers(i as int) && old(fs).inodes.cache.counts@[i as int] < usize::MAX
        }),
        forall|f: int| #[trigger] old(files).count(f) + NOFILE < usize::MAX,
    ensures
        final(table).wf(),
        final(a).wf(),
        final(a).end() == old(a).end(),
        final(stacks).wf(),
        contexts_wf(final(table).procs@, *final(a), *final(stacks)),
        final(table).next_pid == if exists|i: int| 0 <= i < NPROC && (#[trigger] old(table).procs@[i]).state is Unused {
            pid_after(old(table).next_pid)
        } else {
            old(table).next_pid
        },
        crate::process::numbered(old(table).procs@, old(table).next_pid, final(table).next_pid),
        pids_ok(old(table).procs@, old(table).next_pid) && old(table).next_pid < usize::MAX ==> pids_ok(
            final(table).procs@,
            final(table).next_pid,
        ),
        final(fs).wf(),
        final(files).wf(),
        same_files(*old(fs), *final(fs)),
        ({
            let c = context_at(old(table).procs@, current as int)->0;
            let pid = match r {
                Ok(pid) => Some(pid as usize),
                Err(_) => None,
            };
            &&& r matches Ok(v) ==> v <= usize::MAX
            &&& fork_came_to(
                old(table).procs@,
                final(table).procs@,
                *old(a),
                *final(a),
                *old(stacks),
                *final(stacks),
                old(table).next_pid,
                current as int,
                jump,
                pid,
            )
            &&& if r is Ok {
                &&& forall|f: int| #[trigger] final(files).has(f) == old(files).has(f)
                &&& forall|f: int| old(files).has(f) ==> #[trigger] final(files).file(f) == old(files).file(f)
                &&& forall|f: int| #[trigger] final(files).count(f) == old(files).count(f) + descriptors(c.ofile@, f)
                &&& forall|i: int| #[trigger] users(final(files).files@, i) == users(old(files).files@, i)
                &&& match c.cwd {
                    Some(i) => ref_added(
                        old(fs).inodes.cache,
                        final(fs).inodes.cache,
                        i as int,
                        old(fs).inodes.cache.keys()[i as int]->0,
                    ),
                    None => *final(fs) == *old(fs),
                }
            } else {
                *final(files) == *old(files) && *final(fs) == *old(fs)
            }
        }),
{
    let ghost procs0 = table.procs@;
    let (ofile, cwd) = match table.procs[current].context_ref() {
        Some(context) => (copy_slots(&context.ofile), context.cwd),
        None => (Vec::new(), None),
    };
    proof {
        assert(context_at(procs0, current as int)->0.wf(a));
        assert forall|f: int| #[trigger] files.count(f) + ofile@.len() < usize::MAX by {
            assert(files.count(f) + NOFILE < usize::MAX);
        }
    }
    match fork(table, current, a, stacks, trampoline, jump) {
        Some(pid) => {
            share_all(files, &ofile);
            if let Some(i) = cwd {
                let _ = InodeReference { cache_index: i }.duplicate(fs);
            }
            Ok(pid as u64)
        },
        None => Err(()),
    }
}

/// The difference that it makes to give up the files of a list, one after another.
pub open spec fn all_left<D: BlockDevice>(
    files0: FileTable,
    files1: FileTable,
    fs0: FileSystem<D>,
    fs1: FileSystem<D>,
    pipes0: Pipes<PIPESIZE>,
    pipes1: Pipes<PIPESIZE>,
    list: Seq<usize>,
) -> bool
    decreases list.len(),
{
    if list.len() == 0 {
        files1 == files0 && fs1 == fs0 && pipes1 == pipes0
    } else {
        exists|files: FileTable, fs: FileSystem<D>, pipes: Pipes<PIPESIZE>|
            all_left(files0, files, fs0, fs, pipes0, pipes, list.drop_last()) && #[trigger] file_left(
                files,
                files1,
                fs,
                fs1,
                pipes,
                pipes1,
                list.last() as int,
            )
    }
}

/// Gives up the files `list` that a process that ends had open.
pub fn release_all<D: BlockDevice>(
    files: &mut FileTable,
    fs: &mut FileSystem<D>,
    pipes: &mut Pipes<PIPESIZE>,
    list: &Vec<usize>,
)
    requires
        old(fs).wf(),
        old(fs).can_leave_all(),
        old(pipes).wf(),
        files_ok(*old(files), *old(fs), *old(pipes)),
        forall|f: int| #[trigger] occurrences(list@, f) <= old(files).count(f),
    ensures
        final(fs).wf(),
        final(fs).volume.activity() == old(fs).volume.activity(),
        final(fs).can_leave_all(),
        final(pipes).wf(),
        files_ok(*final(files), *final(fs), *final(pipes)),
        all_left(*old(files), *final(files), *old(fs), *final(fs), *old(pipes), *final(pipes), list@),
        forall|k: int| 0 <= k < NINODE ==> #[trigger] spare(*final(files), *final(fs), k) == spare(*old(files), *old(fs), k),
        forall|f: int| #[trigger] final(files).count(f) == old(files).count(f) - occurrences(list@, f),
{
    let ghost files0 = *files;
    let mut k: usize = 0;
    proof {
        assert(list@.take(0) =~= Seq::<usize>::empty());
    }
    while k < list.len()
        invariant
            k <= list@.len(),
            files0 == *old(files),
            fs.wf(),
            fs.can_leave_all(),
            fs.volume.activity() == old(fs).volume.activity(),
            pipes.wf(),
            files_ok(*files, *fs, *pipes),
            all_left(files0, *files, *old(fs), *fs, *old(pipes), *pipes, list@.take(k as int)),
            forall|i: int| 0 <= i < NINODE ==> #[trigger] spare(*files, *fs, i) == spare(*old(files), *old(fs), i),
            forall|f: int| #[trigger] occurrences(list@, f) <= files0.count(f),
            forall|f: int| #[trigger] files.count(f) == files0.count(f) - occurrences(list@.take(k as int), f),
        decreases list@.len() - k,
    {
        let f = list[k];
        let ghost before = *files;
        let ghost fs_before = *fs;
        let ghost pipes_before = *pipes;
        proof {
            let next = list@.take(k + 1);
            assert(next.drop_last() =~= list@.take(k as int));
            assert(next.last() == f);
            lemma_occurrences(list@, k + 1, f as int);
            assert(occurrences(list@, f as int) <= files0.count(f as int));
            assert(before.count(f as int) == files0.count(f as int) - occurrences(list@.take(k as int), f as int));
            assert(before.has(f as int));
            lemma_file_ok(before, fs_before, pipes_before, f as int);
            if !(before.file(f as int) is Pipe) {
                assert(fs_before.refers(before.file(f as int).slot()));
            }
        }
        close_file(files, fs, pipes, f);
        proof {
            assert(list@.take(k + 1).drop_last() =~= list@.take(k as int));
            assert(file_left(before, *files, fs_before, *fs, pipes_before, *pipes, list@.take(k + 1).last() as int));
            assert(all_left(files0, *files, *old(fs), *fs, *old(pipes), *pipes, list@.take(k + 1)));
            assert forall|g: int| #[trigger] files.count(g) == files0.count(g) - occurrences(list@.take(k + 1), g) by {
                assert(before.count(g) == files0.count(g) - occurrences(list@.take(k as int), g));
                if g != f {
                    assert(files.has(g) == before.has(g));
                }
            }
        }
        k = k + 1;
    }
    proof {
        assert(list@.take(list@.len() as int) =~= list@);
    }
}

/// How often `f` occurs in a list.
pub open spec fn occurrences(list: Seq<usize>, f: int) -> int
    decreases list.len(),
{
    if list.len() == 0 {
        0
    } else {
        occurrences(list.drop_last(), f) + if list.last() == f { 1int } else { 0int }
    }
}

/// It occurs in the whole at least as often as at the beginning.
proof fn lemma_occurrences(list: Seq<usize>, k: int, f: int)
    requires
        0 <= k <= list.len(),
    ensures
        occurrences(list.take(k), f) <= occurrences(list, f),
    decreases list.len(),
{
    if k == list.len() {
        assert(list.take(k) =~= list);
    } else {
        lemma_occurrences(list.drop_last(), k, f);
        assert(list.drop_last().take(k) =~= list.take(k));
    }
}


/// A process that ends gives up its current directory, in slot `cwd`.
pub open spec fn directory_left<D: BlockDevice>(fs0: FileSystem<D>, fs1: FileSystem<D>, cwd: Option<usize>) -> bool {
    match cwd {
        Some(o) => {
            let j = fs0.inum_at(o as int);
            &&& ref_removed(fs0.inodes.cache, fs1.inodes.cache, o as int)
            &&& others_same(fs0, fs1, j)
            &&& if frees(fs0.inodes, o as int) {
                &&& fs1.file(j).kind == InodeKind::Unused
                &&& fs1.file(j).bytes == Seq::<u8>::empty()
                &&& fs1.file(j).nlink == 0
            } else {
                fs1.file(j) == fs0.file(j)
            }
        },
        None => fs1 == fs0,
    }
}

/// What the end of a process does to files: those that it had open are given up, and then its
/// current directory.
pub open spec fn files_left<D: BlockDevice>(
    files0: FileTable,
    files1: FileTable,
    fs0: FileSystem<D>,
    fs1: FileSystem<D>,
    pipes0: Pipes<PIPESIZE>,
    pipes1: Pipes<PIPESIZE>,
    list: Seq<usize>,
    cwd: Option<usize>,
) -> bool {
    exists|mid: FileSystem<D>|
        #[trigger] all_left(files0, files1, fs0, mid, pipes0, pipes1, list) && directory_left(mid, fs1, cwd)
}

/// Ends the process with `status`, and gives up its files and its current directory.
pub fn end_process<D: BlockDevice>(
    table: &mut ProcessTable,
    current: usize,
    status: i32,
    files: &mut FileTable,
    fs: &mut FileSystem<D>,
    pipes: &mut Pipes<PIPESIZE>,
)
    requires
        old(table).wf(),
        current < NPROC,
        old(table).procs@[current as int].state is Running,
        old(table).procs@[current as int].pid != 1,
        exists|i: int| first_with_pid(old(table).procs@, 1, i),
        forall|i: int| 0 <= i < NPROC && (#[trigger] old(table).procs@[i]).parent is Some ==> old(table).procs@[i].parent->0 < NPROC,
        old(fs).wf(),
        old(fs).can_leave_all(),
        old(pipes).wf(),
        files_ok(*old(files), *old(fs), *old(pipes)),
        ({
            let c = context_at(old(table).procs@, current as int)->0;
            &&& forall|f: int| #[trigger] occurrences(open_files(c.ofile@), f) <= old(files).count(f)
            &&& c.cwd matches Some(o) ==> o < NINODE && spare(*old(files), *old(fs), o as int) > 0
        }),
    ensures
        final(table).wf(),
        final(table).next_pid == old(table).next_pid,
        exited(old(table).procs@, final(table).procs@, current as int, status),
        final(fs).wf(),
        final(fs).volume.activity() == old(fs).volume.activity(),
        final(fs).can_leave_all(),
        final(pipes).wf(),
        files_ok(*final(files), *final(fs), *final(pipes)),
        ({
            let c = context_at(old(table).procs@, current as int)->0;
            &&& files_left(*old(files), *final(files), *old(fs), *final(fs), *old(pipes), *final(pipes), open_files(c.ofile@), c.cwd)
            &&& forall|f: int| #[trigger] final(files).count(f) == old(files).count(f) - occurrences(open_files(c.ofile@), f)
            &&& forall|k: int| 0 <= k < NINODE ==> #[trigger] spare(*final(files), *final(fs), k) == spare(*old(files), *old(fs), k) - if c.cwd
                == Some(k as usize) { 1int } else { 0int }
        }),
{
    let ghost files0 = *files;
    let ghost fs0 = *fs;
    let (list, cwd) = exit(table, current, status);
    release_all(files, fs, pipes, &list);
    let ghost mid = *fs;
    if let Some(o) = cwd {
        proof {
            assert(spare(*files, mid, o as int) == spare(files0, fs0, o as int));
            lemma_users_positive(files.files@, o as int);
            assert(mid.refers(o as int));
        }
        fs.drop_file(InodeReference { cache_index: o });
        proof {
            fs.lemma_leave_all(mid, o as int);
            lemma_reference_dropped(*files, mid, *fs, *pipes, o as int);
        }
    }
    proof {
        assert(directory_left(mid, *fs, cwd));
        assert forall|k: int| 0 <= k < NINODE implies #[trigger] spare(*files, *fs, k) == spare(files0, fs0, k) - if cwd == Some(
            k as usize,
        ) { 1int } else { 0int } by {
            assert(spare(*files, mid, k) == spare(files0, fs0, k));
        }
    }
}

/// Ends the process with the status in the first argument.
pub fn sys_exit<D: BlockDevice>(
    table: &mut ProcessTable,
    current: usize,
    files: &mut FileTable,
    fs: &mut FileSystem<D>,
    pipes: &mut Pipes<PIPESIZE>,
)
    requires
        old(table).wf(),
        current < NPROC,
        old(table).procs@[current as int].state is Running,
        old(table).procs@[current as int].pid != 1,
        exists|i: int| first_with_pid(old(table).procs@, 1, i),
        forall|i: int| 0 <= i < NPROC && (#[trigger] old(table).procs@[i]).parent is Some ==> old(table).procs@[i].parent->0 < NPROC,
        old(fs).wf(),
        old(fs).can_leave_all(),
        old(pipes).wf(),
        files_ok(*old(files), *old(fs), *old(pipes)),
        ({
            let c = context_at(old(table).procs@, current as int)->0;
            &&& forall|f: int| #[trigger] occurrences(open_files(c.ofile@), f) <= old(files).count(f)
            &&& c.cwd matches Some(o) ==> o < NINODE && spare(*old(files), *old(fs), o as int) > 0
        }),
    ensures
        final(table).wf(),
        final(table).next_pid == old(table).next_pid,
        final(fs).wf(),
        final(fs).volume.activity() == old(fs).volume.activity(),
        final(fs).can_leave_all(),
        final(pipes).wf(),
        files_ok(*final(files), *final(fs), *final(pipes)),
        ({
            let c = context_at(old(table).procs@, current as int)->0;
            &&& exited(old(table).procs@, final(table).procs@, current as int, low_i32(c.trapframe.a0) as i32)
            &&& files_left(*old(files), *final(files), *old(fs), *final(fs), *old(pipes), *final(pipes), open_files(c.ofile@), c.cwd)
            &&& forall|f: int| #[trigger] final(files).count(f) == old(files).count(f) - occurrences(open_files(c.ofile@), f)
            &&& forall|k: int| 0 <= k < NINODE ==> #[trigger] spare(*final(files), *final(fs), k) == spare(*old(files), *old(fs), k) - if c.cwd
                == Some(k as usize) { 1int } else { 0int }
        }),
{
    let status = match table.procs[current].context_ref() {
        Some(context) => arg_i32(&context.trapframe, 0),
        None => 0,
    };
    end_process(table, current, status, files, fs, pipes);
}

} // verus!
