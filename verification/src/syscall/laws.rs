//! What programs can rely on from one system call to the next.
use vstd::prelude::*;
use crate::allocator::{Frame, KernelAllocator};
use crate::file::table::FileTable;
use crate::file::{all_written, read_came_to, user_bytes, write_came_to, File, Transfer, PIPESIZE};
use crate::config::NINODE;
use crate::filesystem::device::BlockDevice;
use crate::filesystem::file::{ref_added, ref_removed};
use crate::filesystem::inode::InodeKind;
use crate::fs::create::{moved_to, not_found, not_openable, opened_as};
use crate::fs::{dir_target, slot_of, FileSystem};
use crate::filesystem::path::elements;
use crate::pipe::{PipeWrite, Pipes};
use crate::process::memory::ProcessMemory;
use crate::process::process::{resized, ProcessContext};
use crate::riscv::paging::{lookup, page_count, user_byte, PTE};
use crate::syscall::files::{close_came_to, dup_came_to, fd_read, fd_written, is_stat_bytes, pipe_came_to, stat_came_to, write_asked};
use crate::syscall::paths::{
    chdir_came_to, file_opened, link_came_to, mknod_came_to, mode_create, mode_readable, mode_truncate, mode_writable, open_refused, open_succeeded, unlink_came_to, user_arguments, user_word,
};
use crate::syscall::{is_user_string, lemma_user_string, low_i32, path_arg, user_string};

verus! {

/// The open file of the descriptor `fd`.
pub open spec fn open_file(c: ProcessContext, files: FileTable, fd: int) -> File {
    files.file(c.ofile@[fd]->0 as int)
}

/// The inode of an open file.
pub open spec fn inode_of<D: BlockDevice>(file: File, fs: FileSystem<D>) -> int {
    fs.inum_at(file.slot())
}

/// What the bits of a mode stand for.
pub proof fn lemma_mode(mode: u64)
    ensures
        mode_truncate(mode) <==> mode & 0x400 != 0,
        mode_create(mode) <==> mode & 0x200 != 0,
        mode_readable(mode) <==> mode & 1 == 0,
        mode_writable(mode) <==> mode & 1 != 0 || mode & 2 != 0,
{
}

/// A regular file that is opened with bit 0x400 of the mode set has no bytes, whatever the other bits
/// of the mode are.
pub proof fn lemma_open_empties<D: BlockDevice>(
    c0: ProcessContext,
    c1: ProcessContext,
    a: KernelAllocator,
    fs0: FileSystem<D>,
    fs1: FileSystem<D>,
    files0: FileTable,
    files1: FileTable,
    fd: u64,
)
    requires
        open_succeeded(c0, c1, a, fs0, fs1, files0, files1, fd),
        c0.trapframe.a1 & 0x400 != 0,
        fs1.file(inode_of(open_file(c1, files1, fd as int), fs1)).kind == InodeKind::File,
    ensures
        fs1.file(inode_of(open_file(c1, files1, fd as int), fs1)).bytes.len() == 0,
{
    let p = path_arg(c0, a, 0)->0;
    let f = lemma_opened(c0, c1, a, fs0, fs1, files0, files1, fd);
    lemma_mode(c0.trapframe.a1);
    lemma_emptied(fs0, fs1, files0, files1, p, slot_of(c0.cwd), c0.trapframe.a1, f as int);
}

proof fn lemma_opened<D: BlockDevice>(
    c0: ProcessContext,
    c1: ProcessContext,
    a: KernelAllocator,
    fs0: FileSystem<D>,
    fs1: FileSystem<D>,
    files0: FileTable,
    files1: FileTable,
    fd: u64,
) -> (f: usize)
    requires
        open_succeeded(c0, c1, a, fs0, fs1, files0, files1, fd),
    ensures
        path_arg(c0, a, 0) is Some,
        crate::syscall::paths::descriptor_made(c0, c1, fd as int, f),
        file_opened(fs0, fs1, files0, files1, path_arg(c0, a, 0)->0, slot_of(c0.cwd), c0.trapframe.a1, f as int),
        c1.ofile@[fd as int] == Some(f),
{
    reveal(open_succeeded);
    let p = path_arg(c0, a, 0)->0;
    choose|f: usize| {
        &&& #[trigger] crate::syscall::paths::descriptor_made(c0, c1, fd as int, f)
        &&& file_opened(fs0, fs1, files0, files1, p, slot_of(c0.cwd), c0.trapframe.a1, f as int)
    }
}

proof fn lemma_emptied<D: BlockDevice>(
    fs0: FileSystem<D>,
    fs1: FileSystem<D>,
    files0: FileTable,
    files1: FileTable,
    path: Seq<u8>,
    w: Option<int>,
    mode: u64,
    f: int,
)
    requires
        file_opened(fs0, fs1, files0, files1, path, w, mode, f),
        mode_truncate(mode),
        fs1.file(inode_of(files1.file(f), fs1)).kind == InodeKind::File,
    ensures
        fs1.file(inode_of(files1.file(f), fs1)).bytes.len() == 0,
{
    reveal(file_opened);
}

/// What a program gets from a successful open. The descriptor is the lowest one that was free, and
/// stands for the file at the path, which begins at the address in the first argument. A regular file
/// has no bytes if bit 0x400 of the mode is set, whatever the other bits are, and else those that it
/// had. Only with bit 0x200 a file is made, and it is empty. It can be read unless bit 1 is set, and
/// written if bit 1 or bit 2 is set, and a directory can be opened in mode 0 alone.
pub proof fn lemma_open<D: BlockDevice>(
    c0: ProcessContext,
    c1: ProcessContext,
    a: KernelAllocator,
    fs0: FileSystem<D>,
    fs1: FileSystem<D>,
    files0: FileTable,
    files1: FileTable,
    fd: u64,
    path: Seq<u8>,
)
    requires
        open_succeeded(c0, c1, a, fs0, fs1, files0, files1, fd),
        is_user_string(a.frames(), c0.pagetable.root(), c0.trapframe.a0 as int, path),
    ensures
        ({
            let mode = c0.trapframe.a1;
            let cwd = slot_of(c0.cwd);
            let file = open_file(c1, files1, fd as int);
            let t = inode_of(file, fs1);
            let before = fs0.file(t);
            let after = fs1.file(t);
            &&& fd < c0.ofile@.len()
            &&& c0.ofile@[fd as int] is None
            &&& forall|i: int| 0 <= i < fd ==> (#[trigger] c0.ofile@[i]) is Some
            &&& c1.ofile@[fd as int] is Some
            &&& forall|i: int| 0 <= i < c0.ofile@.len() && i != fd ==> #[trigger] c1.ofile@[i] == c0.ofile@[i]
            &&& mode & 0x400 != 0 && after.kind == InodeKind::File ==> after.bytes.len() == 0
            &&& mode & 0x400 == 0 && before.kind != InodeKind::Unused ==> after == before
            &&& before.kind == InodeKind::Unused && after.kind != InodeKind::Unused ==> mode & 0x200 != 0 && after.kind == InodeKind::File
                && after.bytes.len() == 0
            &&& mode & 0x200 == 0 ==> fs0.target(path, cwd) == Some(t) && after.kind == before.kind
            &&& mode & 0x200 != 0 && before.kind != InodeKind::Unused ==> dir_target(
                fs0.file(fs0.parent(path, cwd)->0).bytes,
                elements(path).last(),
            ) == Some(t)
            &&& after.kind == InodeKind::Directory ==> mode == 0
            &&& match file {
                File::Inode { offset, readable, writable, .. } => {
                    &&& after.kind != InodeKind::Device
                    &&& offset == 0
                    &&& readable <==> mode & 1 == 0
                    &&& writable <==> mode & 1 != 0 || mode & 2 != 0
                },
                File::Device { major, readable, writable, .. } => {
                    &&& after.kind == InodeKind::Device
                    &&& major == after.major
                    &&& readable <==> mode & 1 == 0
                    &&& writable <==> mode & 1 != 0 || mode & 2 != 0
                },
                _ => false,
            }
        }),
{
    let f = lemma_opened(c0, c1, a, fs0, fs1, files0, files1, fd);
    let p = path_arg(c0, a, 0)->0;
    lemma_user_string(a.frames(), c0.pagetable.root(), c0.trapframe.a0 as int, p, path);
    lemma_mode(c0.trapframe.a1);
    reveal(file_opened);
}

/// A second descriptor is the lowest one that was free and stands for the same open file, which
/// counts it. When it is closed, everything is as it was before.
pub proof fn lemma_dup_close<D: BlockDevice>(
    c0: ProcessContext,
    c1: ProcessContext,
    c2: ProcessContext,
    c3: ProcessContext,
    files0: FileTable,
    files1: FileTable,
    files2: FileTable,
    fs0: FileSystem<D>,
    fs1: FileSystem<D>,
    pipes0: Pipes<PIPESIZE>,
    pipes1: Pipes<PIPESIZE>,
    fd: u64,
    r: Result<u64, ()>,
)
    requires
        dup_came_to(c0, c1, files0, files1, Ok(fd)),
        c0.ofile@.len() == 16,
        files0.wf(),
        files0.has(c0.ofile@[c0.trapframe.a0 as int]->0 as int),
        files0.count(c0.ofile@[c0.trapframe.a0 as int]->0 as int) < usize::MAX,
        c2.ofile@ == c1.ofile@,
        c2.trapframe.a0 == fd,
        close_came_to(c2, c3, files1, files2, fs0, fs1, pipes0, pipes1, r),
    ensures
        c0.trapframe.a0 < 16,
        c0.ofile@[fd as int] is None,
        forall|i: int| 0 <= i < fd ==> (#[trigger] c0.ofile@[i]) is Some,
        c1.ofile@[fd as int] == c0.ofile@[c0.trapframe.a0 as int],
        c0.ofile@[c0.trapframe.a0 as int] is Some,
        open_file(c1, files1, fd as int) == open_file(c0, files0, c0.trapframe.a0 as int),
        files1.count(c1.ofile@[fd as int]->0 as int) == files0.count(c1.ofile@[fd as int]->0 as int) + 1,
        r == Ok::<u64, ()>(0),
        c3.ofile@ == c0.ofile@,
        files2.files@ == files0.files@,
        fs1 == fs0,
        pipes1 == pipes0,
{
    let f = c0.ofile@[c0.trapframe.a0 as int]->0 as int;
    assert(c1.ofile@[fd as int] == Some(f as usize));
    assert(files1.has(f));
    assert(c3.ofile@ =~= c0.ofile@);
    assert(files2.files@ =~= files0.files@);
}

/// The file of a descriptor that was closed is there as long as another descriptor stands for it, at
/// the place where it was. The last one takes it away. No other file changes.
pub proof fn lemma_last_close<D: BlockDevice>(
    c0: ProcessContext,
    c1: ProcessContext,
    files0: FileTable,
    files1: FileTable,
    fs0: FileSystem<D>,
    fs1: FileSystem<D>,
    pipes0: Pipes<PIPESIZE>,
    pipes1: Pipes<PIPESIZE>,
    r: Result<u64, ()>,
)
    requires
        close_came_to(c0, c1, files0, files1, fs0, fs1, pipes0, pipes1, r),
        c0.ofile@.len() == 16,
        c0.trapframe.a0 < 16,
        c0.ofile@[c0.trapframe.a0 as int] is Some,
        files0.wf(),
        files0.has(c0.ofile@[c0.trapframe.a0 as int]->0 as int),
    ensures
        r == Ok::<u64, ()>(0),
        c1.ofile@[c0.trapframe.a0 as int] is None,
        forall|i: int| 0 <= i < 16 && i != c0.trapframe.a0 ==> #[trigger] c1.ofile@[i] == c0.ofile@[i],
        ({
            let f = c0.ofile@[c0.trapframe.a0 as int]->0 as int;
            &&& files1.count(f) == files0.count(f) - 1
            &&& files1.has(f) ==> files1.file(f) == files0.file(f) && fs1 == fs0 && pipes1 == pipes0
            &&& forall|g: int| g != f && files0.has(g) ==> #[trigger] files1.file(g) == files0.file(g) && files1.count(g) == files0.count(g)
        }),
{
    let f = c0.ofile@[c0.trapframe.a0 as int]->0 as int;
    assert forall|g: int| g != f && files0.has(g) implies #[trigger] files1.file(g) == files0.file(g) && files1.count(g) == files0.count(g) by {
        assert(files1.files@[g] == files0.files@[g]);
    }
}

/// The other end of a pipe whose last descriptor for writing is closed is not waited for: reading goes
/// on as long as there are bytes, and then gives none.
pub proof fn lemma_pipe_ends<D: BlockDevice>(
    c0: ProcessContext,
    c1: ProcessContext,
    files0: FileTable,
    files1: FileTable,
    fs0: FileSystem<D>,
    fs1: FileSystem<D>,
    pipes0: Pipes<PIPESIZE>,
    pipes1: Pipes<PIPESIZE>,
    pipes2: Pipes<PIPESIZE>,
    a1: KernelAllocator,
    a2: KernelAllocator,
    mem: ProcessMemory,
    p: usize,
    addr: u64,
    n: usize,
    r: Transfer,
)
    requires
        close_came_to(c0, c1, files0, files1, fs0, fs1, pipes0, pipes1, Ok(0)),
        c0.ofile@.len() == 16,
        c0.trapframe.a0 < 16,
        files0.count(c0.ofile@[c0.trapframe.a0 as int]->0 as int) == 1,
        open_file(c0, files0, c0.trapframe.a0 as int) == (File::Pipe { pipe: crate::pipe::Pipe::Write(p) }),
        p < pipes0.pipes@.len(),
        read_came_to(
            File::Pipe { pipe: crate::pipe::Pipe::Read(p) },
            File::Pipe { pipe: crate::pipe::Pipe::Read(p) },
            fs1,
            pipes1,
            pipes2,
            a1,
            a2,
            mem,
            addr,
            n,
            false,
            r,
        ),
    ensures
        pipes1.pipes@[p as int]@ == pipes0.pipes@[p as int]@,
        r is Done,
        pipes0.pipes@[p as int]@.len() == 0 ==> r == Transfer::Done(0),
{
}

/// What a read of a pipe gives: the bytes that were put in first, in order, as many as there are and as
/// were asked for. The others stay. It waits only where there is none and one may come.
pub proof fn lemma_pipe_read<D: BlockDevice>(
    fs: FileSystem<D>,
    pipes0: Pipes<PIPESIZE>,
    pipes1: Pipes<PIPESIZE>,
    a0: KernelAllocator,
    a1: KernelAllocator,
    mem: ProcessMemory,
    p: usize,
    f1: File,
    addr: u64,
    n: usize,
    killed: bool,
    r: Transfer,
    i: int,
)
    requires
        read_came_to(File::Pipe { pipe: crate::pipe::Pipe::Read(p) }, f1, fs, pipes0, pipes1, a0, a1, mem, addr, n, killed, r),
        p < pipes0.pipes@.len(),
        pipes0.pipes@[p as int]@.len() <= usize::MAX,
        forall|x: int| addr <= x < addr + n ==> (#[trigger] user_byte(a0.frames(), mem.pagetable.root(), x)) is Some,
    ensures
        ({
            let s = pipes0.pipes@[p as int]@;
            let t = pipes1.pipes@[p as int]@;
            &&& s.len() > 0 || !pipes0.pipes@[p as int].write_open <==> r is Done
            &&& !(r is Done) ==> r == (if killed { Transfer::Failed } else { Transfer::AwaitData }) && t == s
            &&& r matches Transfer::Done(k) ==> {
                &&& k <= n
                &&& k <= s.len()
                &&& k == n || k == s.len()
                &&& 0 <= i < k ==> user_byte(a1.frames(), mem.pagetable.root(), addr + i) == Some(s[i])
                &&& t.len() == s.len() - k
                &&& 0 <= i < t.len() ==> t[i] == s[k + i]
            }
        }),
{
    let s = pipes0.pipes@[p as int]@;
    let e = if n < s.len() { n as int } else { s.len() as int };
    crate::console::lemma_access(a0.frames(), mem.pagetable.root(), addr as int, e, e);
    if 0 <= i < e && r is Done {
        assert(user_byte(a1.frames(), mem.pagetable.root(), addr + i) == Some(s.take(e)[addr + i - addr]));
    }
}

/// What a write to a pipe does: the bytes come behind those that are in it, in order, as many as there
/// is room for, which is 512 in all. It waits for room only where some are left and the pipe is full.
pub proof fn lemma_pipe_write<D: BlockDevice>(
    fs0: FileSystem<D>,
    fs1: FileSystem<D>,
    pipes0: Pipes<PIPESIZE>,
    pipes1: Pipes<PIPESIZE>,
    a: KernelAllocator,
    mem: ProcessMemory,
    p: usize,
    f1: File,
    req0: PipeWrite,
    req1: PipeWrite,
    r: Transfer,
    i: int,
)
    requires
        all_written(File::Pipe { pipe: crate::pipe::Pipe::Write(p) }, f1, fs0, fs1, pipes0, pipes1, a, mem, req0, req1, false, r),
        p < pipes0.pipes@.len(),
        pipes0.pipes@[p as int]@.len() <= 512,
        pipes0.pipes@[p as int].read_open,
        req0.i <= req0.n,
        req0.addr + req0.n <= mem.size,
        forall|x: int| req0.addr <= x < req0.addr + req0.n ==> (#[trigger] user_byte(a.frames(), mem.pagetable.root(), x)) is Some,
    ensures
        ({
            let s = pipes0.pipes@[p as int]@;
            let t = pipes1.pipes@[p as int]@;
            let k = req1.i - req0.i;
            &&& 0 <= k <= req0.n - req0.i
            &&& t.len() == s.len() + k <= 512
            &&& 0 <= i < s.len() ==> t[i] == s[i]
            &&& 0 <= i < k ==> user_byte(a.frames(), mem.pagetable.root(), req0.addr + req0.i + i) == Some(t[s.len() + i])
            &&& req1.i == req0.n ==> r == Transfer::Done(req0.n)
            &&& req1.i < req0.n ==> r == Transfer::AwaitSpace && t.len() == 512
        }),
{
    let s = pipes0.pipes@[p as int]@;
    let left = req0.n - req0.i;
    let room = 512 - s.len();
    let k = if left < room { left } else { room };
    lemma_readable_all(mem, a, req0.addr + req0.i, k);
    let t = pipes1.pipes@[p as int]@;
    if 0 <= i < k {
        assert(user_byte(a.frames(), mem.pagetable.root(), req0.addr + req0.i + i) == Some(t[s.len() + i]));
    }
}

proof fn lemma_readable_all(mem: ProcessMemory, a: KernelAllocator, addr: int, n: int)
    requires
        0 <= n,
        addr + n <= mem.size,
        forall|x: int| addr <= x < addr + n ==> (#[trigger] user_byte(a.frames(), mem.pagetable.root(), x)) is Some,
    ensures
        crate::pipe::readable_end(mem, a.frames(), addr, n) == n,
    decreases n,
{
    if n > 0 {
        assert(user_byte(a.frames(), mem.pagetable.root(), addr) is Some);
        lemma_readable_all(mem, a, addr + 1, n - 1);
    }
}

/// A pipe whose last descriptor for reading is closed takes no more bytes: writing fails.
pub proof fn lemma_pipe_broken<D: BlockDevice>(
    c0: ProcessContext,
    c1: ProcessContext,
    files0: FileTable,
    files1: FileTable,
    fs0: FileSystem<D>,
    fs1: FileSystem<D>,
    fs2: FileSystem<D>,
    pipes0: Pipes<PIPESIZE>,
    pipes1: Pipes<PIPESIZE>,
    pipes2: Pipes<PIPESIZE>,
    a: KernelAllocator,
    mem: ProcessMemory,
    p: usize,
    f1: File,
    req0: PipeWrite,
    req1: PipeWrite,
    killed: bool,
    r: Transfer,
)
    requires
        close_came_to(c0, c1, files0, files1, fs0, fs1, pipes0, pipes1, Ok(0)),
        c0.ofile@.len() == 16,
        c0.trapframe.a0 < 16,
        files0.count(c0.ofile@[c0.trapframe.a0 as int]->0 as int) == 1,
        open_file(c0, files0, c0.trapframe.a0 as int) == (File::Pipe { pipe: crate::pipe::Pipe::Read(p) }),
        p < pipes0.pipes@.len(),
        all_written(File::Pipe { pipe: crate::pipe::Pipe::Write(p) }, f1, fs1, fs2, pipes1, pipes2, a, mem, req0, req1, killed, r),
        req0.i < req0.n,
    ensures
        r == Transfer::Failed,
        pipes2.pipes@[p as int]@ == pipes0.pipes@[p as int]@,
{
}

/// What a program finds in its memory after a read from a file: the bytes of the file from where the
/// descriptor is on, as many as it asked for or as there are. The descriptor moves on by as many. It
/// gets nothing from a file that it may not read.
pub proof fn lemma_read_file<D: BlockDevice>(
    c: ProcessContext,
    files0: FileTable,
    files1: FileTable,
    fs: FileSystem<D>,
    pipes0: Pipes<PIPESIZE>,
    pipes1: Pipes<PIPESIZE>,
    a0: KernelAllocator,
    a1: KernelAllocator,
    killed: bool,
    r: Transfer,
    i: int,
)
    requires
        fd_read(c, files0, files1, fs, pipes0, pipes1, a0, a1, killed, r),
        c.trapframe.a0 < 16,
        c.ofile@[c.trapframe.a0 as int] is Some,
        open_file(c, files0, c.trapframe.a0 as int) is Inode,
        c.trapframe.a2 <= usize::MAX,
        open_file(c, files0, c.trapframe.a0 as int)->offset + c.trapframe.a2 <= usize::MAX,
    ensures
        ({
            let file = open_file(c, files0, c.trapframe.a0 as int);
            let bytes = fs.file(inode_of(file, fs)).bytes;
            let at = file->offset as int;
            let n = c.trapframe.a2 as int;
            &&& r is Done || r is Failed
            &&& r is Done ==> file->Inode_readable
            &&& r matches Transfer::Done(k) ==> {
                &&& k <= n
                &&& k < n ==> at + k >= bytes.len()
                &&& at < bytes.len() ==> at + k <= bytes.len()
                &&& at >= bytes.len() ==> k == 0
                &&& 0 <= i < k ==> user_byte(a1.frames(), c.pagetable.root(), c.trapframe.a1 + i) == Some(bytes[at + i])
                &&& open_file(c, files1, c.trapframe.a0 as int) matches File::Inode { inode, offset, readable, writable } && offset == at + k && inode
                    == file->Inode_inode && readable == file->Inode_readable && writable == file->Inode_writable
            }
            &&& r is Failed ==> open_file(c, files1, c.trapframe.a0 as int) == file
        }),
{
    let f = c.ofile@[c.trapframe.a0 as int]->0 as int;
    let root = c.pagetable.root();
    if r is Done && 0 <= i < r->Done_0 {
        assert(user_byte(a1.frames(), root, c.trapframe.a1 + i) is Some);
    }
}

/// What a file holds after a successful write: what was in memory, from where the descriptor was on,
/// and around it what it held before. It is as long as needed. The descriptor moves on by as many
/// bytes, and no other file changes.
pub proof fn lemma_write_file<D: BlockDevice>(
    f0: File,
    f1: File,
    fs0: FileSystem<D>,
    fs1: FileSystem<D>,
    pipes0: Pipes<PIPESIZE>,
    pipes1: Pipes<PIPESIZE>,
    a: KernelAllocator,
    mem: ProcessMemory,
    req0: PipeWrite,
    req1: PipeWrite,
    killed: bool,
    n: usize,
    i: int,
)
    requires
        all_written(f0, f1, fs0, fs1, pipes0, pipes1, a, mem, req0, req1, killed, Transfer::Done(n)),
        f0 is Inode,
        f0->offset <= fs0.file(inode_of(f0, fs0)).bytes.len(),
        f0->offset + n <= usize::MAX,
        0 <= i,
    ensures
        ({
            let t = inode_of(f0, fs0);
            let old_bytes = fs0.file(t).bytes;
            let bytes = fs1.file(t).bytes;
            let at = f0->offset as int;
            &&& f0->Inode_writable
            &&& n == req0.n
            &&& bytes.len() == if at + n > old_bytes.len() { at + n } else { old_bytes.len() as int }
            &&& i < n ==> user_byte(a.frames(), mem.pagetable.root(), req0.addr + i) == Some(bytes[at + i])
            &&& i < old_bytes.len() && !(at <= i < at + n) ==> bytes[i] == old_bytes[i]
            &&& fs1.file(t).kind == fs0.file(t).kind
            &&& fs1.file(t).nlink == fs0.file(t).nlink
            &&& f1 matches File::Inode { inode, offset, readable, writable } && offset == at + n && inode == f0->Inode_inode && readable
                == f0->Inode_readable && writable == f0->Inode_writable
        }),
{
    reveal(write_came_to);
    let data = user_bytes(a.frames(), mem.pagetable.root(), req0.addr as int, n as int);
    lemma_access_bound(a, mem.pagetable.root(), req0.addr as int, n as int);
    if 0 <= i < data.len() {
        lemma_user_bytes(a, mem.pagetable.root(), req0.addr as int, n as int, i);
    }
    assert(data.take(n as int) =~= data);
}

proof fn lemma_access_bound(a: KernelAllocator, root: int, va: int, n: int)
    requires
        0 <= n,
    ensures
        0 <= crate::console::access_end(a.frames(), root, va, n) <= n,
    decreases n,
{
    if n > 0 {
        lemma_access_bound(a, root, va + 1, n - 1);
    }
}

proof fn lemma_user_bytes(a: KernelAllocator, root: int, va: int, n: int, i: int)
    requires
        0 <= i < crate::console::access_end(a.frames(), root, va, n),
    ensures
        user_byte(a.frames(), root, va + i) is Some,
    decreases n,
{
    if i > 0 {
        lemma_user_bytes(a, root, va + 1, n - 1, i - 1);
    }
}

/// What a program asked to write is what its file holds then: the bytes from the address in the second
/// argument on, as many as the third one says, from where the descriptor in the first one was on.
pub proof fn lemma_write_call<D: BlockDevice>(
    c: ProcessContext,
    files0: FileTable,
    files1: FileTable,
    fs0: FileSystem<D>,
    fs1: FileSystem<D>,
    pipes0: Pipes<PIPESIZE>,
    pipes1: Pipes<PIPESIZE>,
    a: KernelAllocator,
    req0: PipeWrite,
    req1: PipeWrite,
    killed: bool,
    n: usize,
    i: int,
)
    requires
        write_asked(c, req0),
        fd_written(c, files0, files1, fs0, fs1, pipes0, pipes1, a, req0, req1, killed, Transfer::Done(n)),
        c.trapframe.a2 <= usize::MAX,
        open_file(c, files0, c.trapframe.a0 as int) is Inode,
        open_file(c, files0, c.trapframe.a0 as int)->offset <= fs0.file(inode_of(open_file(c, files0, c.trapframe.a0 as int), fs0)).bytes.len(),
        open_file(c, files0, c.trapframe.a0 as int)->offset + n <= usize::MAX,
        0 <= i,
    ensures
        c.trapframe.a0 < 16,
        c.ofile@[c.trapframe.a0 as int] is Some,
        n == c.trapframe.a2,
        ({
            let f0 = open_file(c, files0, c.trapframe.a0 as int);
            let f1 = open_file(c, files1, c.trapframe.a0 as int);
            let bytes = fs1.file(inode_of(f0, fs0)).bytes;
            &&& i < n ==> user_byte(a.frames(), c.pagetable.root(), c.trapframe.a1 + i) == Some(bytes[f0->offset + i])
            &&& f1 is Inode
            &&& f1->offset == f0->offset + n
        }),
{
    let f = c.ofile@[c.trapframe.a0 as int]->0 as int;
    lemma_write_file(
        files0.file(f),
        files1.file(f),
        fs0,
        fs1,
        pipes0,
        pipes1,
        a,
        crate::syscall::files::memory_of(c),
        req0,
        req1,
        killed,
        n,
        i,
    );
}

/// What is written to a file is what a read at the same place finds.
pub proof fn lemma_write_read<D: BlockDevice>(
    f0: File,
    f1: File,
    fs0: FileSystem<D>,
    fs1: FileSystem<D>,
    pipes0: Pipes<PIPESIZE>,
    pipes1: Pipes<PIPESIZE>,
    pipes2: Pipes<PIPESIZE>,
    a0: KernelAllocator,
    mem: ProcessMemory,
    req0: PipeWrite,
    req1: PipeWrite,
    n: usize,
    c: ProcessContext,
    files1: FileTable,
    files2: FileTable,
    a1: KernelAllocator,
    a2: KernelAllocator,
    k: usize,
    i: int,
)
    requires
        all_written(f0, f1, fs0, fs1, pipes0, pipes1, a0, mem, req0, req1, false, Transfer::Done(n)),
        f0 is Inode,
        f0->offset <= fs0.file(inode_of(f0, fs0)).bytes.len(),
        f0->offset + n <= usize::MAX,
        fd_read(c, files1, files2, fs1, pipes1, pipes2, a1, a2, false, Transfer::Done(k)),
        c.trapframe.a0 < 16,
        c.ofile@[c.trapframe.a0 as int] is Some,
        open_file(c, files1, c.trapframe.a0 as int) is Inode,
        open_file(c, files1, c.trapframe.a0 as int)->offset == f0->offset,
        inode_of(open_file(c, files1, c.trapframe.a0 as int), fs1) == inode_of(f0, fs0),
        c.trapframe.a2 == n,
        0 <= i < n,
    ensures
        k == n,
        user_byte(a2.frames(), c.pagetable.root(), c.trapframe.a1 + i) == user_byte(a0.frames(), mem.pagetable.root(), req0.addr + i),
{
    lemma_write_file(f0, f1, fs0, fs1, pipes0, pipes1, a0, mem, req0, req1, false, n, i);
    lemma_read_file(c, files1, files2, fs1, pipes1, pipes2, a1, a2, false, Transfer::Done(k), i);
}

/// What a program finds at the address in the second argument after asking for the attributes of a
/// file: the kind at byte 8 (1 for a directory, 2 for a regular file, 3 for a device), the number of
/// its names at byte 10 and its size at byte 16, all with the lowest byte first.
pub proof fn lemma_stat<D: BlockDevice>(
    c: ProcessContext,
    files: FileTable,
    fs: FileSystem<D>,
    a0: KernelAllocator,
    a1: KernelAllocator,
    r: Result<u64, ()>,
    bytes: Seq<u8>,
)
    requires
        stat_came_to(c, files, fs, a0, a1, r),
        r is Ok,
        bytes.len() == 24,
        forall|i: int| 0 <= i < 24 ==> user_byte(a1.frames(), c.pagetable.root(), c.trapframe.a1 + i) == Some(#[trigger] bytes[i]),
    ensures
        ({
            let f = open_file(c, files, c.trapframe.a0 as int);
            let t = inode_of(f, fs);
            let file = fs.file(t);
            let w = bytes[16] + 0x100 * bytes[17] + 0x1_0000 * bytes[18] + 0x100_0000 * bytes[19] + 0x1_0000_0000 * bytes[20] + 0x100_0000_0000 * bytes[21]
                + 0x1_0000_0000_0000 * bytes[22] + 0x100_0000_0000_0000 * bytes[23];
            &&& r == Ok::<u64, ()>(0)
            &&& file.bytes.len() == w
            &&& file.nlink == bytes[10] + 0x100 * bytes[11]
            &&& t == bytes[4] + 0x100 * bytes[5] + 0x1_0000 * bytes[6] + 0x100_0000 * bytes[7]
            &&& file.kind == InodeKind::Directory <==> bytes[8] == 1 && bytes[9] == 0
            &&& file.kind == InodeKind::File <==> bytes[8] == 2 && bytes[9] == 0
            &&& file.kind == InodeKind::Device <==> bytes[8] == 3 && bytes[9] == 0
        }),
{
    let root = c.pagetable.root();
    let va = c.trapframe.a1 as int;
    let (s, b) = choose|s: crate::fs::Stat, b: Seq<u8>| {
        &&& crate::syscall::files::stat_of(fs, files.file(crate::syscall::files::fd_file(c, 0)).slot(), s)
        &&& #[trigger] is_stat_bytes(s, b)
        &&& crate::riscv::paging::written(a0.frames(), a1.frames(), root, va, b)
    };
    assert(is_stat_bytes(s, b));
    assert forall|i: int| 0 <= i < 24 implies bytes[i] == b[i] by {
        assert(user_byte(a1.frames(), root, va + i) == Some(bytes[i]));
        assert(user_byte(a1.frames(), root, va + i) == Some(b[va + i - va]));
    }
    assert(bytes =~= b);
}

/// The two descriptors of a new pipe are different ones that were free, the one for reading the lower
/// one, and they are found at the address in the first argument. What stands behind them are the two
/// ends of one empty pipe that nobody else has.
pub proof fn lemma_pipe_descriptors(
    c0: ProcessContext,
    c1: ProcessContext,
    files0: FileTable,
    files1: FileTable,
    pipes0: Pipes<PIPESIZE>,
    pipes1: Pipes<PIPESIZE>,
    a0: KernelAllocator,
    a1: KernelAllocator,
    r: Result<u64, ()>,
    bytes: Seq<u8>,
)
    requires
        pipe_came_to(c0, c1, files0, files1, pipes0, pipes1, a0, a1, r),
        r is Ok,
        c0.ofile@.len() == 16,
        pipes0.pipes@.len() < usize::MAX,
        bytes.len() == 8,
        forall|i: int| 0 <= i < 8 ==> user_byte(a1.frames(), c0.pagetable.root(), c0.trapframe.a0 + i) == Some(#[trigger] bytes[i]),
    ensures
        ({
            let fd0 = bytes[0] as int;
            let fd1 = bytes[4] as int;
            &&& forall|i: int| 0 <= i < 8 && i != 0 && i != 4 ==> #[trigger] bytes[i] == 0
            &&& fd0 < fd1 < 16
            &&& c0.ofile@[fd0] is None && c0.ofile@[fd1] is None
            &&& forall|i: int| 0 <= i < fd1 && i != fd0 ==> (#[trigger] c0.ofile@[i]) is Some
            &&& forall|i: int| 0 <= i < 16 && i != fd0 && i != fd1 ==> #[trigger] c1.ofile@[i] == c0.ofile@[i]
            &&& open_file(c1, files1, fd0) matches File::Pipe { pipe: crate::pipe::Pipe::Read(p) } && p == pipes0.pipes@.len()
            &&& open_file(c1, files1, fd1) matches File::Pipe { pipe: crate::pipe::Pipe::Write(p) } && p == pipes0.pipes@.len()
            &&& pipes1.pipes@[pipes0.pipes@.len() as int]@.len() == 0
        }),
{
    let root = c0.pagetable.root();
    let va = c0.trapframe.a0 as int;
    let p = pipes0.pipes@.len() as int;
    let (fd0, fd1, rf, wf, b) = choose|fd0: int, fd1: int, rf: usize, wf: usize, b: Seq<u8>| {
        &&& #[trigger] crate::syscall::files::pipe_fds(c0.ofile@, fd0, fd1)
        &&& #[trigger] crate::syscall::files::is_pair(b, fd0, fd1)
        &&& crate::riscv::paging::written(a0.frames(), a1.frames(), root, va, b)
        &&& c1.ofile@ == #[trigger] c0.ofile@.update(fd0, Some(rf)).update(fd1, Some(wf))
        &&& crate::syscall::files::both_inserted(
            files0,
            files1,
            rf as int,
            File::Pipe { pipe: crate::pipe::Pipe::Read(p as usize) },
            wf as int,
            File::Pipe { pipe: crate::pipe::Pipe::Write(p as usize) },
        )
    };
    assert(crate::syscall::files::pipe_fds(c0.ofile@, fd0, fd1));
    assert(crate::syscall::files::is_pair(b, fd0, fd1));
    assert forall|i: int| 0 <= i < 8 implies bytes[i] == b[i] by {
        assert(user_byte(a1.frames(), root, va + i) == Some(bytes[i]));
        assert(user_byte(a1.frames(), root, va + i) == Some(b[va + i - va]));
    }
    assert(bytes =~= b);
    assert(b[0] + b[1] * 256 + b[2] * 65536 + b[3] * 16777216 == fd0);
    assert(b[4] + b[5] * 256 + b[6] * 65536 + b[7] * 16777216 == fd1);
    assert(c1.ofile@[fd0] == Some(rf));
    assert(c1.ofile@[fd1] == Some(wf));
}

/// A program that asks for more memory gets the old size, and memory that is zero from the next page
/// on, which it can read and write and not execute, and keeps what it has. When it gives back as much, its size is as before, and so is all that it
/// had.
pub proof fn lemma_sbrk(
    c0: ProcessContext,
    c1: ProcessContext,
    c2: ProcessContext,
    a0: KernelAllocator,
    a1: KernelAllocator,
    a2: KernelAllocator,
    n: int,
    r1: Result<u64, ()>,
    r2: Result<u64, ()>,
    va: int,
)
    requires
        n >= 0,
        resized(c0, c1, a0, a1, n, r1),
        r1 is Ok,
        c0.sz + n <= u64::MAX,
        resized(c1, c2, a1, a2, -n, r2),
        0 <= va,
    ensures
        r1 == Ok::<u64, ()>(c0.sz),
        c1.sz == c0.sz + n,
        va < c0.sz ==> user_byte(a1.frames(), c0.pagetable.root(), va) == user_byte(a0.frames(), c0.pagetable.root(), va),
        (c0.sz + 4095) / 4096 * 4096 <= va < c1.sz ==> user_byte(a1.frames(), c0.pagetable.root(), va) == Some(0u8),
        (c0.sz + 4095) / 4096 * 4096 <= va < c1.sz ==> {
            let e = lookup(a1.frames(), c0.pagetable.root(), va / 4096)->0;
            e.0 & 2 != 0 && e.0 & 4 != 0 && e.0 & 8 == 0 && e.0 & 16 != 0
        },
        va < c0.sz ==> lookup(a1.frames(), c0.pagetable.root(), va / 4096) == lookup(a0.frames(), c0.pagetable.root(), va / 4096),
        r2 == Ok::<u64, ()>(c1.sz),
        c2.sz == c0.sz,
        va < c0.sz ==> user_byte(a2.frames(), c0.pagetable.root(), va) == user_byte(a0.frames(), c0.pagetable.root(), va),
{
    assert(c0.sz <= page_count(c0.sz as int) * 4096);
    assert(c1.sz <= page_count(c1.sz as int) * 4096);
    if (c0.sz + 4095) / 4096 * 4096 <= va < c1.sz {
        let vp = va / 4096;
        assert(page_count(c0.sz as int) <= vp < page_count(c1.sz as int));
        assert(crate::riscv::paging::has_page(a1.frames(), c0.pagetable.root(), vp, crate::riscv::paging::grown_flags(PTE::W)));
        crate::exec::laws::lemma_stack_bits((lookup(a1.frames(), c0.pagetable.root(), vp)->0).0);
    }
}

/// An argument of 32 bits is the only number of that range from which the register differs by a
/// multiple of 2^32.
pub proof fn lemma_argument(raw: u64, x: int)
    ensures
        -0x8000_0000 <= x < 0x8000_0000 ==> ((raw - x) % 0x1_0000_0000 == 0 <==> low_i32(raw) == x),
{
}

/// Wherever a path leads is a number that a directory can hold, or where it began.
proof fn lemma_walk_range<D: BlockDevice>(fs: FileSystem<D>, j: int, names: Seq<Seq<u8>>)
    requires
        0 <= j <= usize::MAX,
    ensures
        fs.walk(j, names) matches Some(t) ==> 0 <= t <= usize::MAX,
    decreases names.len(),
{
    if names.len() > 0 {
        match dir_target(fs.file(j).bytes, names[0]) {
            Some(t) => lemma_walk_range(fs, t, names.skip(1)),
            None => {},
        }
    }
}

/// The slot that a directory was changed to holds the new directory.
proof fn lemma_moved<D: BlockDevice>(fs0: FileSystem<D>, fs1: FileSystem<D>, w: Option<int>, y: int, t: int)
    requires
        moved_to(fs0, fs1, w, y, t),
        fs0.inodes.cache.wf(),
        w matches Some(o) ==> 0 < fs0.inodes.cache.counts@[o] < usize::MAX,
    ensures
        0 <= y < NINODE,
        fs1.inodes.cache.keys()[y] == Some(fs0.key(t)),
{
    if let Some(o) = w {
        let mid = choose|mid: FileSystem<D>| {
            &&& #[trigger] ref_added(fs0.inodes.cache, mid.inodes.cache, y, fs0.key(t))
            &&& ref_removed(mid.inodes.cache, fs1.inodes.cache, o)
        };
        assert(ref_added(fs0.inodes.cache, mid.inodes.cache, y, fs0.key(t)));
        assert(o == y ==> mid.inodes.cache.counts@[y] > 1);
    }
}

/// After a change of directory to a path, relative paths begin at the directory that the path led to, and
/// nothing else of the process has changed.
pub proof fn lemma_chdir<D: BlockDevice>(
    c0: ProcessContext,
    c1: ProcessContext,
    a: KernelAllocator,
    fs0: FileSystem<D>,
    fs1: FileSystem<D>,
    r: Result<u64, ()>,
    path: Seq<u8>,
    rel: Seq<u8>,
)
    requires
        chdir_came_to(c0, c1, a, fs0, fs1, r),
        fs0.inodes.cache.wf(),
        is_user_string(a.frames(), c0.pagetable.root(), c0.trapframe.a0 as int, path),
        r is Ok,
        c0.cwd matches Some(o) ==> 0 < fs0.inodes.cache.counts@[o as int] < usize::MAX,
        rel.len() > 0,
        rel[0] != 0x2f,
    ensures
        r == Ok::<u64, ()>(0),
        ({
            let t = fs0.target(path, slot_of(c0.cwd));
            &&& t is Some
            &&& fs0.file(t->0).kind == InodeKind::Directory
            &&& fs1.target(rel, slot_of(c1.cwd)) == fs1.walk(t->0, elements(rel))
        }),
        c1.ofile == c0.ofile,
        c1.trapframe == c0.trapframe,
        c1.sz == c0.sz,
{
    let p = path_arg(c0, a, 0)->0;
    lemma_user_string(a.frames(), c0.pagetable.root(), c0.trapframe.a0 as int, p, path);
    let w = slot_of(c0.cwd);
    let t = fs0.target(path, w)->0;
    lemma_moved(fs0, fs1, w, c1.cwd->0 as int, t);
    lemma_walk_range(fs0, fs0.origin(path, w)->0, elements(path));
}

/// The arguments for a new program are the strings that a row of addresses leads to, in order: eight bytes
/// for each, up to an address of zero, and 32 at most.
pub proof fn lemma_arguments_read(c: ProcessContext, ram: Seq<Frame>, va: int, from: int, k: int)
    requires
        user_arguments(c, ram, va, from) is Some,
        0 <= from <= 32,
        0 <= k,
    ensures
        ({
            let argv = user_arguments(c, ram, va, from)->0;
            &&& from + argv.len() <= 32
            &&& user_word(c, ram, va + 8 * (from + argv.len())) == Some(0int)
            &&& k < argv.len() ==> {
                let addr = user_word(c, ram, va + 8 * (from + k));
                &&& addr is Some
                &&& addr != Some(0int)
                &&& is_user_string(ram, c.pagetable.root(), addr->0, argv[k])
                &&& argv[k].len() < 4096
            }
        }),
    decreases 33 - from,
{
    let word = user_word(c, ram, va + 8 * from);
    if word != Some(0int) {
        lemma_arguments_read(c, ram, va, from + 1, if k > 0 { k - 1 } else { 0 });
        let rest = user_arguments(c, ram, va, from + 1)->0;
        let s = user_string(ram, c.pagetable.root(), word->0, 4096)->0;
        let argv = user_arguments(c, ram, va, from)->0;
        assert(argv == seq![s] + rest);
        if 0 < k < argv.len() {
            assert(argv[k] == rest[k - 1]);
        }
    }
}

/// A word of memory has its lowest byte first, and lies within the memory of the process.
pub proof fn lemma_user_word(c: ProcessContext, ram: Seq<Frame>, va: int, bytes: Seq<u8>)
    requires
        bytes.len() == 8,
        0 <= va,
        forall|i: int| 0 <= i < 8 ==> user_byte(ram, c.pagetable.root(), va + i) == Some(#[trigger] bytes[i]),
    ensures
        user_word(c, ram, va) is Some <==> va + 8 <= c.sz,
        user_word(c, ram, va) matches Some(w) ==> w == bytes[0] + 0x100 * bytes[1] + 0x1_0000 * bytes[2] + 0x100_0000 * bytes[3] + 0x1_0000_0000
            * bytes[4] + 0x100_0000_0000 * bytes[5] + 0x1_0000_0000_0000 * bytes[6] + 0x100_0000_0000_0000 * bytes[7],
{
    let root = c.pagetable.root();
    assert forall|x: int| va <= x < va + 8 implies (#[trigger] user_byte(ram, root, x)) is Some by {
        assert(user_byte(ram, root, va + (x - va)) == Some(bytes[x - va]));
    }
    let s = Seq::new(8, |i: int| user_byte(ram, root, va + i)->0);
    assert(s =~= bytes);
}

/// A second name that a program asked for, at the path that begins at the second argument, leads to the
/// file that the path at the first argument leads to, and the file counts it.
pub proof fn lemma_link<D: BlockDevice>(
    c: ProcessContext,
    a: KernelAllocator,
    fs0: FileSystem<D>,
    fs1: FileSystem<D>,
    r: Result<u64, ()>,
    path: Seq<u8>,
    new: Seq<u8>,
)
    requires
        link_came_to(c, a, fs0, fs1, r),
        r is Ok,
        is_user_string(a.frames(), c.pagetable.root(), c.trapframe.a0 as int, path),
        is_user_string(a.frames(), c.pagetable.root(), c.trapframe.a1 as int, new),
        fs0.wf(),
        fs0.links_ok(),
        fs0.origin_ok(slot_of(c.cwd)),
    ensures
        ({
            let w = slot_of(c.cwd);
            let t = fs0.target(path, w);
            let p = fs0.parent(new, w);
            &&& t is Some
            &&& p is Some
            &&& dir_target(fs0.file(p->0).bytes, elements(new).last()) is None ==> dir_target(fs1.file(p->0).bytes, elements(new).last()) == t
                && fs1.file(t->0).nlink == fs0.file(t->0).nlink + 1 && fs1.file(t->0).bytes == fs0.file(t->0).bytes
        }),
{
    let x = path_arg(c, a, 0)->0;
    let y = path_arg(c, a, 1)->0;
    lemma_user_string(a.frames(), c.pagetable.root(), c.trapframe.a0 as int, x, path);
    lemma_user_string(a.frames(), c.pagetable.root(), c.trapframe.a1 as int, y, new);
    let p = fs0.parent(new, slot_of(c.cwd))->0;
    if dir_target(fs0.file(p).bytes, elements(new).last()) is None {
        crate::fs::laws::lemma_no_target(fs0.file(p).bytes, elements(new).last());
        crate::fs::laws::lemma_link_counts(fs0, fs1, new, path, slot_of(c.cwd));
    }
}

/// A file for a device has the numbers in the second and the third argument, of which the low 16 bits
/// count, is found under its path, and has no bytes.
pub proof fn lemma_mknod<D: BlockDevice>(
    c: ProcessContext,
    a: KernelAllocator,
    fs0: FileSystem<D>,
    fs1: FileSystem<D>,
    r: Result<u64, ()>,
    path: Seq<u8>,
)
    requires
        mknod_came_to(c, a, fs0, fs1, r),
        r is Ok,
        is_user_string(a.frames(), c.pagetable.root(), c.trapframe.a0 as int, path),
        fs0.wf(),
        fs0.links_ok(),
        fs0.origin_ok(slot_of(c.cwd)),
    ensures
        ({
            let p = fs0.parent(path, slot_of(c.cwd))->0;
            let t = dir_target(fs1.file(p).bytes, elements(path).last());
            let f = fs1.file(t->0);
            &&& dir_target(fs0.file(p).bytes, elements(path).last()) is None
            &&& t is Some
            &&& f.kind == InodeKind::Device
            &&& f.major == c.trapframe.a1 as int % 0x1_0000
            &&& f.minor == c.trapframe.a2 as int % 0x1_0000
            &&& f.nlink == 1
            &&& f.bytes.len() == 0
        }),
{
    let x = path_arg(c, a, 0)->0;
    lemma_user_string(a.frames(), c.pagetable.root(), c.trapframe.a0 as int, x, path);
    let major = c.trapframe.a1 as int % 65536;
    let minor = c.trapframe.a2 as int % 65536;
    let t = choose|t: int| #[trigger] fs0.create_new(fs1, path, slot_of(c.cwd), InodeKind::Device, major, minor, t);
    crate::fs::laws::lemma_created(fs0, fs1, path, slot_of(c.cwd), InodeKind::Device, major, minor, t);
}

/// A removed name is one that the program named in the first argument, and no other name of the same length
/// in its directory changes.
pub proof fn lemma_unlink<D: BlockDevice>(
    c: ProcessContext,
    a: KernelAllocator,
    fs0: FileSystem<D>,
    fs1: FileSystem<D>,
    r: Result<u64, ()>,
    path: Seq<u8>,
    y: Seq<u8>,
)
    requires
        unlink_came_to(c, a, fs0, fs1, r),
        r is Ok,
        is_user_string(a.frames(), c.pagetable.root(), c.trapframe.a0 as int, path),
        fs0.wf(),
        fs0.links_ok(),
        fs0.origin_ok(slot_of(c.cwd)),
        crate::fs::laws::names_differ(elements(path).last(), y),
    ensures
        ({
            let p = fs0.parent(path, slot_of(c.cwd))->0;
            &&& dir_target(fs0.file(p).bytes, elements(path).last()) is Some
            &&& dir_target(fs1.file(p).bytes, y) == dir_target(fs0.file(p).bytes, y)
        }),
{
    let x = path_arg(c, a, 0)->0;
    lemma_user_string(a.frames(), c.pagetable.root(), c.trapframe.a0 as int, x, path);
    crate::fs::laws::lemma_removable(fs0, fs1, path, slot_of(c.cwd), 0);
    crate::fs::laws::lemma_removed_beside(fs0, fs1, path, slot_of(c.cwd), y);
}

/// An open that is refused takes nothing away: every regular file has the bytes that it had, whatever the
/// mode was.
pub proof fn lemma_open_refused<D: BlockDevice>(
    fs0: FileSystem<D>,
    fs1: FileSystem<D>,
    path: Seq<u8>,
    w: Option<int>,
    mode: u64,
    has_slot: bool,
    x: int,
)
    requires
        open_refused(fs0, fs1, path, w, mode, has_slot),
        0 <= x < fs0.sb().ninodes,
        fs0.file(x).kind == InodeKind::File,
    ensures
        fs1.file(x).bytes == fs0.file(x).bytes,
        fs1.file(x).kind == InodeKind::File,
{
    reveal(open_refused);
    if !not_found(fs0, fs1, path, w, mode_create(mode)) {
        let t = choose|t: int| {
            &&& #[trigger] opened_as(fs0, fs1, path, w, mode_create(mode), false, t)
            &&& not_openable(fs1.file(t), mode == 0, has_slot)
        };
        assert(opened_as(fs0, fs1, path, w, mode_create(mode), false, t));
        if fs0.create_new(fs1, path, w, InodeKind::File, 0, 0, t) {
            let p = fs0.parent(path, w)->0;
            assert(fs0.file(p).kind == InodeKind::Directory);
            assert(crate::fs::first_unused(fs0, t));
        }
    }
}

/// A program that gives back memory keeps what is below its new size, and gets the old size. One that would
/// give back more than it has gives back nothing.
pub proof fn lemma_sbrk_less(c0: ProcessContext, c1: ProcessContext, a0: KernelAllocator, a1: KernelAllocator, n: int, r: Result<u64, ()>, va: int)
    requires
        n < 0,
        resized(c0, c1, a0, a1, n, r),
        0 <= va,
    ensures
        r == Ok::<u64, ()>(c0.sz),
        c0.sz + n >= 0 ==> c1.sz == c0.sz + n,
        c0.sz + n < 0 ==> c1.sz == c0.sz,
        va < c1.sz ==> user_byte(a1.frames(), c0.pagetable.root(), va) == user_byte(a0.frames(), c0.pagetable.root(), va),
        a1.free().len() == a0.free().len() + (c0.sz + 4095) / 4096 - (c1.sz + 4095) / 4096,
{
    assert(c0.sz <= page_count(c0.sz as int) * 4096);
    assert(c1.sz <= page_count(c1.sz as int) * 4096);
}

} // verus!
