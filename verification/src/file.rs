//! Open files.
use vstd::prelude::*;
use crate::allocator::{Frame, KernelAllocator};
use crate::config::{MAXOPBLOCKS, NDEV, NINODE};
use crate::console::{access_end, lemma_access, Console};
use crate::filesystem::buffer::BSIZE;
use crate::filesystem::device::BlockDevice;
use crate::filesystem::file::{chunk_len, frees, overwritten, partly_written, readable, ref_removed, refs_bounded, same_refs};
use crate::filesystem::inode::InodeKind;
use crate::fs::session::{disk_full_of, others_same, piece_written};
use crate::fs::{files_kept, only_freed, FileSystem, FileView, InodeReference, Stat};
use crate::pipe::{min, readable_end, Pipe, PipeProgress, PipeWrite, Pipes};
use crate::process::memory::ProcessMemory;
use crate::riscv::paging::{accessible, is_page, user_byte, written};

pub mod table;

verus! {

/// Capacity of a pipe.
pub const PIPESIZE: usize = 512;

/// What a file descriptor stands for.
pub enum File {
    Pipe { pipe: Pipe<PIPESIZE> },
    Inode { inode: InodeReference, offset: usize, readable: bool, writable: bool },
    Device { inode: InodeReference, major: usize, readable: bool, writable: bool },
}

/// The driver of a device file, by its major number.
#[derive(Clone, Copy, Debug, PartialEq, Eq, Structural)]
pub struct DeviceFile {
    pub major: usize,
}

/// How far a read or write of a file came.
#[derive(Clone, Copy, Debug, PartialEq, Eq, Structural)]
pub enum Transfer {
    /// So many bytes were read or written.
    Done(usize),
    Failed,
    /// The process has to wait for space in a pipe, or for data.
    AwaitSpace,
    AwaitData,
    /// The driver has to do it.
    Device(DeviceFile),
}

/// The bytes of user memory from `va` on, as many of `n` as user code may access.
pub open spec fn user_bytes(ram: Seq<Frame>, root: int, va: int, n: int) -> Seq<u8> {
    Seq::new(access_end(ram, root, va, n) as nat, |i: int| user_byte(ram, root, va + i)->0)
}

/// Files are written in pieces of this size, to avoid exceeding the maximum log transaction
/// size: the end of the piece of a write of `n` bytes in which byte `w` lies.
pub open spec fn piece_end(w: int, n: int) -> int {
    min((w / 3072 + 1) * 3072, n)
}

/// A file after the first `w` bytes of `data` were written at `offset`.
pub open spec fn written_to(f: FileView, offset: int, data: Seq<u8>, w: int) -> FileView {
    if w == 0 {
        f
    } else {
        FileView { bytes: overwritten(f.bytes, offset, data.take(w)), ..f }
    }
}

/// Number of transactions, of 3072 bytes each but for the last one, in which `n` bytes are
/// written when `w` of them count as written.
pub open spec fn pieces_tried(w: int, n: int) -> int {
    if w == n {
        (n + 3071) / 3072
    } else {
        w / 3072 + 1
    }
}

/// The files that a file is while `n` bytes are written to it at `offset`, from `f0` to `f1`: one
/// transaction, of 3072 bytes at most, leads from each to the next. `w` of the bytes count as
/// written, and `data` is what can be accessed of them.
pub open spec fn went_by(steps: Seq<FileView>, f0: FileView, f1: FileView, data: Seq<u8>, offset: int, n: int, w: int) -> bool {
    &&& steps.len() == pieces_tried(w, n) + 1
    &&& steps[0] == f0
    &&& steps.last() == f1
    &&& forall|p: int| 0 <= p < steps.len() - 1 ==> #[trigger] is_step(steps[p], steps[p + 1], data, offset, n, w, p)
}

/// Piece `p` of a write, from `f0` to `f1`.
pub open spec fn is_step(f0: FileView, f1: FileView, data: Seq<u8>, offset: int, n: int, w: int, p: int) -> bool {
    let i = 3072 * p;
    let count = min(n - i, 3072);
    let src = data.subrange(i, i + min(data.len() - i, count));
    exists|full: bool| #[trigger] piece_written(f0, f1, src, offset + i, count, min(w - i, count), full)
}

/// So many transactions were made. They are committed where no other system call is active.
pub open spec fn calls_made<D: BlockDevice>(fs0: FileSystem<D>, fs1: FileSystem<D>, pieces: int) -> bool {
    if fs0.volume.storage.log.outstanding == 0 {
        fs1.commits() == fs0.commits() + pieces && (pieces > 0 ==> fs1.volume.used() == 0)
    } else {
        fs1.commits() == fs0.commits() && fs1.volume.used() <= fs0.volume.used() + pieces * MAXOPBLOCKS
    }
}

/// How a write of `n` bytes at `offset` changes a file from `f0` to `f1`, when `w` of the bytes
/// count as written: all of them, or the bytes up to the piece that failed. A piece fails as a
/// whole where it would make the file too large or where the disk is full; otherwise it ends
/// before the first block whose bytes user code may not access. `data` is what can be accessed.
#[verifier::opaque]
pub open spec fn write_came_to(f0: FileView, f1: FileView, data: Seq<u8>, offset: int, n: int, w: int, full: bool) -> bool {
    let end = piece_end(w, n);
    let part = written_to(f0, offset, data, w);
    &&& 0 <= w <= data.len()
    &&& w <= n
    &&& if w == n {
        f1 == part
    } else {
        ||| {
            &&& w % 3072 == 0
            &&& f1 == part
            &&& offset + w > part.bytes.len() || offset + end > 274432
        }
        ||| {
            &&& w % 3072 == 0 || (offset + w) % 1024 == 0
            &&& f1 == part
            &&& w + chunk_len(offset + w, end - w) > data.len()
        }
        ||| {
            &&& full
            &&& w % 3072 == 0
            &&& f1 == (FileView { bytes: f1.bytes, ..part })
            &&& exists|u: int| #[trigger] partly_written(
                part.bytes,
                f1.bytes,
                offset + w,
                data.subrange(w, min(end, data.len() as int)),
                u,
            )
        }
    }
}

/// Access to a part of a range of user memory.
proof fn lemma_access_from(ram: Seq<Frame>, root: int, va: int, n: int, i: int, count: int)
    requires
        0 <= i <= access_end(ram, root, va, n),
        i + count <= n,
        0 <= count,
    ensures
        access_end(ram, root, va + i, count) == min(access_end(ram, root, va, n) - i, count),
        user_bytes(ram, root, va + i, count) == user_bytes(ram, root, va, n).subrange(i, i + min(access_end(ram, root, va, n) - i, count)),
    decreases i,
{
    let acc = access_end(ram, root, va, n);
    let s = min(acc - i, count);
    lemma_access_end(ram, root, va, n);
    assert forall|k: int| 0 <= k < s implies (#[trigger] user_byte(ram, root, va + i + k)) is Some by {
        assert(user_byte(ram, root, va + (i + k)) is Some);
    }
    if s < count {
        assert(user_byte(ram, root, va + acc) is None);
        assert(va + i + s == va + acc);
    }
    lemma_access(ram, root, va + i, count, s);
    assert(user_bytes(ram, root, va + i, count) =~= user_bytes(ram, root, va, n).subrange(i, i + s)) by {
        assert forall|k: int| 0 <= k < s implies user_byte(ram, root, va + i + k) == #[trigger] user_byte(ram, root, va + (i + k)) by {}
    }
}

/// What the length of the accessible part says.
proof fn lemma_access_end(ram: Seq<Frame>, root: int, va: int, n: int)
    requires
        0 <= n,
    ensures
        0 <= access_end(ram, root, va, n) <= n,
        forall|k: int| 0 <= k < access_end(ram, root, va, n) ==> (#[trigger] user_byte(ram, root, va + k)) is Some,
        access_end(ram, root, va, n) < n ==> user_byte(ram, root, va + access_end(ram, root, va, n)) is None,
    decreases n,
{
    if n > 0 && user_byte(ram, root, va) is Some {
        lemma_access_end(ram, root, va + 1, n - 1);
        assert forall|k: int| 0 <= k < access_end(ram, root, va, n) implies (#[trigger] user_byte(ram, root, va + k)) is Some by {
            if k > 0 {
                assert(user_byte(ram, root, va + 1 + (k - 1)) is Some);
                assert(va + 1 + (k - 1) == va + k);
            }
        }
        assert(va + 1 + access_end(ram, root, va + 1, n - 1) == va + access_end(ram, root, va, n));
    }
}

/// Two writes in a row, the second one where the first one ended, make one.
proof fn lemma_overwritten_join(c: Seq<u8>, offset: int, x: Seq<u8>, y: Seq<u8>)
    requires
        0 <= offset <= c.len(),
    ensures
        overwritten(overwritten(c, offset, x), offset + x.len(), y) == overwritten(c, offset, x + y),
{
    assert(overwritten(overwritten(c, offset, x), offset + x.len(), y) =~= overwritten(c, offset, x + y));
}

/// What a read of at most `n` bytes to `addr` does: to the file, from `f0` to `f1`, to the pipes
/// and to memory.
pub open spec fn read_came_to<D: BlockDevice>(
    f0: File,
    f1: File,
    fs0: FileSystem<D>,
    pipes0: Pipes<PIPESIZE>,
    pipes1: Pipes<PIPESIZE>,
    a0: KernelAllocator,
    a1: KernelAllocator,
    mem: ProcessMemory,
    addr: u64,
    n: usize,
    killed: bool,
    r: Transfer,
) -> bool {
    match f0 {
        File::Pipe { pipe } => {
            let p0 = pipes0.pipes@[pipe.number()];
            let p1 = pipes1.pipes@[pipe.number()];
            &&& f1 == f0
            &&& p1.read_open == p0.read_open && p1.write_open == p0.write_open
            &&& p1.write == p0.write
            &&& forall|i: int| 0 <= i < pipes0.pipes@.len() && i != pipe.number() ==> #[trigger] pipes1.pipes@[i]
                == pipes0.pipes@[i]
            &&& if pipe is Write || (p0@.len() == 0 && p0.write_open) {
                &&& r == if pipe is Write || killed { Transfer::Failed } else { Transfer::AwaitData }
                &&& p1 == p0
                &&& a1 == a0
            } else {
                let e = min(n as int, p0@.len() as int);
                let k = access_end(a0.frames(), mem.pagetable.root(), addr as int, e);
                &&& r == Transfer::Done(k as usize)
                &&& written(a0.frames(), a1.frames(), mem.pagetable.root(), addr as int, p0@.take(k))
                &&& p1@ == p0@.skip(if k < e { k + 1 } else { k })
            }
        },
        File::Inode { inode, offset, readable: can_read, writable } => {
            let bytes = readable(fs0.file(fs0.inum_at(inode.cache_index as int)).bytes, offset as int, n as int);
            &&& pipes1 == pipes0
            &&& if !can_read {
                r == Transfer::Failed && f1 == f0 && a1 == a0
            } else if accessible(a0.frames(), mem.pagetable.root(), addr as int, bytes.len() as int) {
                &&& r == Transfer::Done(bytes.len() as usize)
                &&& written(a0.frames(), a1.frames(), mem.pagetable.root(), addr as int, bytes)
                &&& f1 == (File::Inode { inode, offset: (offset + bytes.len()) as usize, readable: can_read, writable })
            } else {
                &&& r == Transfer::Failed
                &&& f1 == f0
                &&& exists|k: int| 0 <= k < bytes.len() && #[trigger] written(
                    a0.frames(),
                    a1.frames(),
                    mem.pagetable.root(),
                    addr as int,
                    bytes.take(k),
                )
            }
        },
        File::Device { major, readable: can_read, .. } => {
            &&& f1 == f0
            &&& pipes1 == pipes0
            &&& a1 == a0
            &&& r == if can_read && major < NDEV { Transfer::Device(DeviceFile { major }) } else { Transfer::Failed }
        },
    }
}

/// What a write does: to the file, from `f0` to `f1`, to the file system and to the pipes.
pub open spec fn all_written<D: BlockDevice>(
    f0: File,
    f1: File,
    fs0: FileSystem<D>,
    fs1: FileSystem<D>,
    pipes0: Pipes<PIPESIZE>,
    pipes1: Pipes<PIPESIZE>,
    a: KernelAllocator,
    mem: ProcessMemory,
    req0: PipeWrite,
    req1: PipeWrite,
    killed: bool,
    r: Transfer,
) -> bool {
    match f0 {
        File::Pipe { pipe } => {
            let p0 = pipes0.pipes@[pipe.number()];
            let p1 = pipes1.pipes@[pipe.number()];
            let i = req0.i as int;
            let left = req0.n - i;
            let room = PIPESIZE - p0@.len();
            let src = req0.addr + i;
            let k = readable_end(mem, a.frames(), src, min(left, room));
            &&& f1 == f0
            &&& p1.read_open == p0.read_open && p1.write_open == p0.write_open
            &&& p1.read == p0.read
            &&& fs1 == fs0
            &&& forall|x: int| 0 <= x < pipes0.pipes@.len() && x != pipe.number() ==> #[trigger] pipes1.pipes@[x]
                == pipes0.pipes@[x]
            &&& if pipe is Read || (left > 0 && (!p0.read_open || killed)) {
                r == Transfer::Failed && p1@ == p0@ && req1.i == i
            } else {
                &&& req1.i == i + k
                &&& p1@.len() == p0@.len() + k
                &&& p0@.is_prefix_of(p1@)
                &&& forall|x: int| 0 <= x < k ==> user_byte(a.frames(), mem.pagetable.root(), src + x) == Some(
                    #[trigger] p1@[p0@.len() + x],
                )
                &&& r == if k == room && k < left { Transfer::AwaitSpace } else { Transfer::Done((i + k) as usize) }
            }
        },
        File::Inode { inode, offset, readable, writable } => {
            let j = fs0.inum_at(inode.cache_index as int);
            let n = req0.n as int;
            let data = user_bytes(a.frames(), mem.pagetable.root(), req0.addr as int, n);
            &&& pipes1 == pipes0
            &&& req1 == req0
            &&& others_same(fs0, fs1, j)
            &&& fs1.volume.activity() == fs0.volume.activity()
            &&& if !writable {
                r == Transfer::Failed && f1 == f0 && fs1 == fs0
            } else {
                exists|w: int, full: bool| {
                    &&& #[trigger] write_came_to(fs0.file(j), fs1.file(j), data, offset as int, n, w, full)
                    &&& full ==> disk_full_of(fs1)
                    &&& exists|steps: Seq<FileView>| #[trigger] went_by(steps, fs0.file(j), fs1.file(j), data, offset as int, n, w)
                    &&& calls_made(fs0, fs1, pieces_tried(w, n))
                    &&& f1 == (File::Inode { inode, offset: (offset + w) as usize, readable, writable })
                    &&& r == if w == n { Transfer::Done(n as usize) } else { Transfer::Failed }
                }
            }
        },
        File::Device { major, writable, .. } => {
            &&& f1 == f0
            &&& pipes1 == pipes0
            &&& req1 == req0
            &&& fs1 == fs0
            &&& r == if writable && major < NDEV { Transfer::Device(DeviceFile { major }) } else { Transfer::Failed }
        },
    }
}

impl File {
    /// The file refers to an inode that the file system holds, or to a pipe.
    pub open spec fn wf<D: BlockDevice>(&self, fs: FileSystem<D>, pipes: Pipes<PIPESIZE>) -> bool {
        match self {
            File::Pipe { pipe } => pipe.number() < pipes.pipes@.len(),
            File::Inode { inode, .. } => fs.refers(inode.cache_index as int),
            File::Device { inode, .. } => fs.refers(inode.cache_index as int),
        }
    }

    /// Nothing can be written to a directory through the file.
    pub open spec fn spares_directories<D: BlockDevice>(&self, fs: FileSystem<D>) -> bool {
        self matches File::Inode { inode, writable: true, .. } ==> fs.file(fs.inum_at(inode.cache_index as int)).kind != InodeKind::Directory
    }

    /// The file can be read from.
    pub open spec fn read_ok<D: BlockDevice>(&self, fs: FileSystem<D>, pipes: Pipes<PIPESIZE>) -> bool {
        match self {
            File::Pipe { pipe } => pipe.number() < pipes.pipes@.len(),
            File::Inode { inode, readable, .. } => *readable ==> fs.can_work() && fs.refers(inode.cache_index as int),
            File::Device { .. } => true,
        }
    }

    /// `n` bytes can be written to the file.
    pub open spec fn write_ok<D: BlockDevice>(&self, fs: FileSystem<D>, pipes: Pipes<PIPESIZE>, n: int) -> bool {
        match self {
            File::Pipe { pipe } => {
                &&& pipe.number() < pipes.pipes@.len()
                &&& pipes.pipes@[pipe.number()].read + PIPESIZE <= usize::MAX
            },
            File::Inode { inode, writable, .. } => *writable && n > 0 ==> {
                &&& fs.can_work()
                &&& fs.refers(inode.cache_index as int)
                &&& fs.file(fs.inum_at(inode.cache_index as int)).kind != InodeKind::Directory
                &&& fs.room_for(n)
            },
            File::Device { .. } => true,
        }
    }

    /// The attributes of the file can be had.
    pub open spec fn stat_ok<D: BlockDevice>(&self, fs: FileSystem<D>) -> bool {
        !(self is Pipe) ==> fs.can_work() && fs.device() <= u32::MAX && fs.refers(self.slot())
    }

    /// The file can be given up.
    pub open spec fn drop_ok<D: BlockDevice>(&self, fs: FileSystem<D>) -> bool {
        !(self is Pipe) ==> fs.wf() && fs.can_begin() && fs.refers(self.slot()) && fs.leave_fits(self.slot())
    }

    pub fn new_pipe(pipe: Pipe<PIPESIZE>) -> (this: Self)
        ensures
            this == (File::Pipe { pipe }),
    {
        File::Pipe { pipe }
    }

    pub fn new_inode(inode: InodeReference, readable: bool, writable: bool) -> (this: Self)
        ensures
            this == (File::Inode { inode, offset: 0, readable, writable }),
    {
        File::Inode { inode, offset: 0, readable, writable }
    }

    pub fn new_device(inode: InodeReference, major: usize, readable: bool, writable: bool) -> (this: Self)
        ensures
            this == (File::Device { inode, major, readable, writable }),
    {
        File::Device { inode, major, readable, writable }
    }

    /// The attributes of the file. A pipe has none.
    pub fn stat<D: BlockDevice>(&self, fs: &mut FileSystem<D>) -> (r: Result<Stat, ()>)
        requires
            self.stat_ok(*old(fs)),
        ensures
            self is Pipe ==> *final(fs) == *old(fs),
            !(self is Pipe) ==> final(fs).can_work() && old(fs).one_call(*final(fs), 0),
            same_refs(old(fs).inodes.cache, final(fs).inodes.cache),
            files_kept(*old(fs), *final(fs)),
            r is Err <==> self is Pipe,
            r matches Ok(s) ==> {
                let i = self.slot();
                let f = old(fs).file(old(fs).inum_at(i));
                &&& s.device == old(fs).device()
                &&& s.inode == old(fs).inum_at(i)
                &&& s.kind == f.kind
                &&& s.nlink == f.nlink
                &&& s.size == f.bytes.len()
            },
    {
        match self {
            File::Pipe { .. } => Err(()),
            File::Inode { inode, .. } => Ok(fs.stat_file(inode)),
            File::Device { inode, .. } => Ok(fs.stat_file(inode)),
        }
    }

    /// The slot of the inode.
    pub open spec fn slot(&self) -> int {
        match self {
            File::Inode { inode, .. } => inode.cache_index as int,
            File::Device { inode, .. } => inode.cache_index as int,
            File::Pipe { .. } => -1,
        }
    }

    /// Reads at most `n` bytes to `addr` in the memory of a process.
    #[verifier::rlimit(30)]
    pub fn read<D: BlockDevice>(
        &mut self,
        fs: &mut FileSystem<D>,
        pipes: &mut Pipes<PIPESIZE>,
        a: &mut KernelAllocator,
        mem: &ProcessMemory,
        addr: u64,
        n: usize,
        killed: bool,
    ) -> (r: Transfer)
        requires
            old(pipes).wf(),
            old(self).read_ok(*old(fs), *old(pipes)),
            old(a).wf(),
            mem.wf(old(a)),
        ensures
            if *old(self) matches File::Inode { readable: true, .. } {
                final(fs).can_work() && old(fs).one_call(*final(fs), 0)
            } else {
                *final(fs) == *old(fs)
            },
            same_refs(old(fs).inodes.cache, final(fs).inodes.cache),
            files_kept(*old(fs), *final(fs)),
            final(pipes).wf(),
            final(pipes).pipes@.len() == old(pipes).pipes@.len(),
            final(a).wf(),
            mem.wf(final(a)),
            final(a).end() == old(a).end(),
            final(a).free() == old(a).free(),
            read_came_to(*old(self), *final(self), *old(fs), *old(pipes), *final(pipes), *old(a), *final(a), *mem, addr, n, killed, r),
    {
        match self {
            File::Pipe { pipe } => to_transfer(pipe.read(pipes, a, mem, addr, n, killed)),
            File::Inode { inode, offset, readable, .. } => {
                if !*readable {
                    return Transfer::Failed;
                }
                proof {
                    reveal(FileSystem::can_work);
                    fs.lemma_refers(inode.cache_index as int);
                    fs.lemma_file_size(fs.inum_at(inode.cache_index as int));
                }
                let bytes = fs.read_file(inode, *offset, n);
                let ok = mem.write(a, addr, &bytes);
                if !ok {
                    return Transfer::Failed;
                }
                let read = bytes.len();
                *offset = *offset + read;
                Transfer::Done(read)
            },
            File::Device { major, readable, .. } => {
                if !*readable {
                    return Transfer::Failed;
                }
                if *major < NDEV {
                    Transfer::Device(DeviceFile { major: *major })
                } else {
                    Transfer::Failed
                }
            },
        }
    }

    /// Writes the `req.n` bytes from `req.addr` on in the memory of a process. To an inode they
    /// go in transactions of at most 3072 bytes each.
    #[verifier::rlimit(30)]
    pub fn write<D: BlockDevice>(
        &mut self,
        fs: &mut FileSystem<D>,
        pipes: &mut Pipes<PIPESIZE>,
        a: &KernelAllocator,
        mem: &ProcessMemory,
        req: &mut PipeWrite,
        killed: bool,
    ) -> (r: Transfer)
        requires
            old(pipes).wf(),
            old(self).write_ok(*old(fs), *old(pipes), old(req).n as int),
            a.wf(),
            mem.wf(a),
            old(req).i <= old(req).n,
            old(req).addr + old(req).i <= u64::MAX,
        ensures
            old(fs).wf() ==> final(fs).wf(),
            same_refs(old(fs).inodes.cache, final(fs).inodes.cache),
            final(pipes).wf(),
            final(pipes).pipes@.len() == old(pipes).pipes@.len(),
            final(req).addr == old(req).addr,
            final(req).n == old(req).n,
            all_written(*old(self), *final(self), *old(fs), *final(fs), *old(pipes), *final(pipes), *a, *mem, *old(req), *final(req), killed, r),
    {
        match self {
            File::Pipe { pipe } => to_transfer(pipe.write(pipes, a, mem, req, killed)),
            File::Inode { inode, offset, writable, .. } => {
                if !*writable {
                    return Transfer::Failed;
                }
                let addr = req.addr;
                let n = req.n;
                let ghost fs0 = *fs;
                let ghost o = *offset as int;
                let w = write_pieces(fs, a, mem, inode, offset, addr, n);
                proof {
                    let j = fs0.inum_at(inode.cache_index as int);
                    let data = user_bytes(a.frames(), mem.pagetable.root(), addr as int, n as int);
                    let steps = choose|steps: Seq<FileView>| #[trigger] went_by(steps, fs0.file(j), fs.file(j), data, o, n as int, w as int);
                    assert(went_by(steps, fs0.file(j), fs.file(j), data, o, n as int, w as int));
                    let full = choose|full: bool| #[trigger] write_came_to(fs0.file(j), fs.file(j), data, o, n as int, w as int, full) && (full ==>
                        disk_full_of(*fs));
                    assert(write_came_to(fs0.file(j), fs.file(j), data, o, n as int, w as int, full));
                }
                if w == n {
                    Transfer::Done(n)
                } else {
                    Transfer::Failed
                }
            },
            File::Device { major, writable, .. } => {
                if !*writable {
                    return Transfer::Failed;
                }
                if *major < NDEV {
                    Transfer::Device(DeviceFile { major: *major })
                } else {
                    Transfer::Failed
                }
            },
        }
    }

    /// Gives up the file: the inode loses a reference, or one end of the pipe is closed.
    pub fn drop<D: BlockDevice>(self, fs: &mut FileSystem<D>, pipes: &mut Pipes<PIPESIZE>)
        requires
            old(pipes).wf(),
            self.drop_ok(*old(fs)),
            self matches File::Pipe { pipe } ==> {
                let p = old(pipes).pipes@[pipe.number()];
                pipe.number() < old(pipes).pipes@.len() && if pipe is Read { p.read_open } else { p.write_open }
            },
        ensures
            final(pipes).wf(),
            match self {
                File::Pipe { pipe } => {
                    let p0 = old(pipes).pipes@[pipe.number()];
                    &&& *final(fs) == *old(fs)
                    &&& final(pipes).pipes@ == old(pipes).pipes@.update(
                        pipe.number(),
                        if pipe is Read {
                            crate::pipe::PipeInner { read_open: false, ..p0 }
                        } else {
                            crate::pipe::PipeInner { write_open: false, ..p0 }
                        },
                    )
                },
                _ => {
                    let i = self.slot();
                    let j = old(fs).inum_at(i);
                    &&& *final(pipes) == *old(pipes)
                    &&& final(fs).wf()
                    &&& final(fs).volume.activity() == old(fs).volume.activity()
                    &&& if old(fs).volume.storage.log.outstanding == 0 {
                        final(fs).commits() == old(fs).commits() + 1 && final(fs).volume.used() == 0
                    } else {
                        &&& final(fs).commits() == old(fs).commits()
                        &&& old(fs).file(j).nlink > 0 ==> final(fs).volume.used() == old(fs).volume.used()
                    }
                    &&& final(fs).volume.owner == old(fs).volume.owner
                    &&& only_freed(*old(fs), *final(fs))
                    &&& ref_removed(old(fs).inodes.cache, final(fs).inodes.cache, i)
                    &&& others_same(*old(fs), *final(fs), j)
                    &&& if frees(old(fs).inodes, i) {
                        &&& final(fs).file(j).kind == InodeKind::Unused
                        &&& final(fs).file(j).bytes == Seq::<u8>::empty()
                        &&& final(fs).file(j).nlink == 0
                    } else {
                        final(fs).file(j) == old(fs).file(j)
                    }
                },
            },
    {
        match self {
            File::Pipe { pipe } => {
                pipe.close(pipes);
            },
            File::Inode { inode, .. } => {
                fs.drop_file(inode);
            },
            File::Device { inode, .. } => {
                fs.drop_file(inode);
            },
        }
    }
}

/// Writes `n` bytes from `addr` on to an open file, a few blocks at a time to avoid exceeding
/// the maximum log transaction size, including i-node, indirect block, allocation blocks, and 2
/// blocks of slop for non-aligned writes. The result is how many of them count as written.
#[verifier::rlimit(60)]
#[verifier::spinoff_prover]
fn write_pieces<D: BlockDevice>(
    fs: &mut FileSystem<D>,
    a: &KernelAllocator,
    mem: &ProcessMemory,
    inode: &InodeReference,
    offset: &mut usize,
    addr: u64,
    n: usize,
) -> (r: usize)
    requires
        n > 0 ==> {
            &&& old(fs).can_work()
            &&& old(fs).refers(inode.cache_index as int)
            &&& old(fs).file(old(fs).inum_at(inode.cache_index as int)).kind != InodeKind::Directory
            &&& old(fs).room_for(n as int)
        },
        a.wf(),
        mem.wf(a),
    ensures
        old(fs).wf() ==> final(fs).wf(),
        n == 0 ==> *final(fs) == *old(fs),
        same_refs(old(fs).inodes.cache, final(fs).inodes.cache),
        final(fs).volume.activity() == old(fs).volume.activity(),
        calls_made(*old(fs), *final(fs), pieces_tried(r as int, n as int)),
        ({
            let j = old(fs).inum_at(inode.cache_index as int);
            let data = user_bytes(a.frames(), mem.pagetable.root(), addr as int, n as int);
            &&& others_same(*old(fs), *final(fs), j)
            &&& exists|full: bool| {
                &&& #[trigger] write_came_to(old(fs).file(j), final(fs).file(j), data, *old(offset) as int, n as int, r as int, full)
                &&& full ==> disk_full_of(*final(fs))
            }
            &&& exists|steps: Seq<FileView>| #[trigger]
                went_by(steps, old(fs).file(j), final(fs).file(j), data, *old(offset) as int, n as int, r as int)
            &&& *final(offset) == *old(offset) + r
        }),
{
    let ghost fs0 = *fs;
    let ghost ram = a.frames();
    let ghost root = mem.pagetable.root();
    let ghost data = user_bytes(ram, root, addr as int, n as int);
    let ghost o = *offset as int;
    let max = ((MAXOPBLOCKS - 1 - 1 - 2) / 2) * BSIZE;
    let ghost j = fs0.inum_at(inode.cache_index as int);
    let ghost mut steps: Seq<FileView> = seq![fs0.file(j)];
    let mut i: usize = 0;
    proof {
        lemma_access_end(ram, root, addr as int, n as int);
        if n == 0 {
            reveal(write_came_to);
            assert(write_came_to(fs0.file(j), fs0.file(j), data, o, 0, 0, false));
            assert(went_by(steps, fs0.file(j), fs0.file(j), data, o, 0, 0));
        }
    }
    if n == 0 {
        return 0;
    }
    proof {
        reveal(source_ok);
        reveal(write_progress);
        reveal(FileSystem::can_work);
        fs0.lemma_refers(inode.cache_index as int);
    }
    while i < n
        invariant
            n > 0,
            j == fs0.inum_at(inode.cache_index as int),
            steps.len() == (i + 3071) / 3072 + 1,
            steps[0] == fs0.file(j),
            steps.last() == fs.file(j),
            forall|p: int| 0 <= p < steps.len() - 1 ==> #[trigger] is_step(steps[p], steps[p + 1], data, o, n as int, i as int, p),
            max == 3072,
            i <= n,
            i % 3072 == 0 || i == n,
            write_progress(fs0, *fs, inode.cache_index as int, data, o, i as int, n as int),
            source_ok(*a, *mem),
            data == user_bytes(a.frames(), mem.pagetable.root(), addr as int, n as int),
            *offset == o + i,
            i <= data.len() <= n,
            data.len() == access_end(a.frames(), mem.pagetable.root(), addr as int, n as int),
            fs0 == *old(fs),
            o == *old(offset),
        decreases n - i,
    {
        let rest = n - i;
        let count = if rest < max {
            rest
        } else {
            max
        };
        let wrote = write_next(fs, a, mem, inode, *offset, addr, n, i, count, Ghost(fs0));
        *offset = *offset + wrote;
        proof {
            let steps0 = steps;
            steps = steps0.push(fs.file(j));
            lemma_step_added(steps0, steps, data, o, n as int, i as int, count as int, wrote as int);
            lemma_pieces(i as int, count as int, wrote as int, n as int);
            if wrote != count {
                assert(went_by(steps, fs0.file(j), fs.file(j), data, o, n as int, i + wrote));
            }
        }
        if wrote != count {
            return i + wrote;
        }
        i = i + count;
    }
    proof {
        reveal(write_progress);
        reveal(write_came_to);
        assert(went_by(steps, fs0.file(j), fs.file(j), data, o, n as int, n as int));
        assert(write_came_to(
            fs0.file(fs0.inum_at(inode.cache_index as int)),
            fs.file(fs0.inum_at(inode.cache_index as int)),
            data,
            o,
            n as int,
            n as int,
            false,
        ));
    }
    n
}

/// The state in which the first `i` bytes of `data` were written.
#[verifier::opaque]
spec fn write_progress<D: BlockDevice>(fs0: FileSystem<D>, fs: FileSystem<D>, slot: int, data: Seq<u8>, o: int, i: int, n: int) -> bool {
    let j = fs0.inum_at(slot);
    &&& fs.wf()
    &&& refs_bounded(fs.inodes.cache, 0)
    &&& fs0.room_for(n)
    &&& fs0.can_begin()
    &&& fs.volume.activity() == fs0.volume.activity()
    &&& fs0.volume.storage.log.outstanding == 0 ==> fs.volume.used() <= fs0.volume.used()
    &&& fs.refers(slot)
    &&& fs.inum_at(slot) == j
    &&& same_refs(fs0.inodes.cache, fs.inodes.cache)
    &&& others_same(fs0, fs, j)
    &&& 0 <= j < fs0.sb().ninodes
    &&& i < n ==> fs0.file(j).kind != InodeKind::Directory
    &&& calls_made(fs0, fs, (i + 3071) / 3072)
    &&& fs.file(j) == written_to(fs0.file(j), o, data, i)
    &&& i > 0 ==> o <= fs0.file(j).bytes.len()
}

/// One piece more is one transaction more.
proof fn lemma_pieces(i: int, count: int, wrote: int, n: int)
    requires
        0 <= i < n,
        i % 3072 == 0,
        count == min(n - i, 3072),
        0 <= wrote <= count,
    ensures
        (i + count + 3071) / 3072 == (i + 3071) / 3072 + 1,
        wrote != count ==> pieces_tried(i + wrote, n) == (i + 3071) / 3072 + 1,
{
}

/// One piece more is one step more.
proof fn lemma_step_added(s0: Seq<FileView>, s1: Seq<FileView>, data: Seq<u8>, o: int, n: int, i: int, count: int, wrote: int)
    requires
        0 <= i < n,
        i % 3072 == 0,
        count == min(n - i, 3072),
        0 <= wrote <= count,
        s0.len() == i / 3072 + 1,
        s1 == s0.push(s1.last()),
        forall|p: int| 0 <= p < s0.len() - 1 ==> #[trigger] is_step(s0[p], s0[p + 1], data, o, n, i, p),
        exists|full: bool| #[trigger]
            piece_written(s0.last(), s1.last(), data.subrange(i, i + min(data.len() - i, count)), o + i, count, wrote, full),
    ensures
        forall|p: int| 0 <= p < s1.len() - 1 ==> #[trigger] is_step(s1[p], s1[p + 1], data, o, n, i + wrote, p),
{
    assert forall|p: int| 0 <= p < s1.len() - 1 implies #[trigger] is_step(s1[p], s1[p + 1], data, o, n, i + wrote, p) by {
        if p < s0.len() - 1 {
            assert(is_step(s0[p], s0[p + 1], data, o, n, i, p));
            let at = 3072 * p;
            let c = min(n - at, 3072);
            let src = data.subrange(at, at + min(data.len() - at, c));
            assert(at + 3072 <= i);
            assert(min(i - at, c) == c && min(i + wrote - at, c) == c);
            let full = choose|full: bool| #[trigger] piece_written(s0[p], s0[p + 1], src, o + at, c, c, full);
            assert(piece_written(s1[p], s1[p + 1], src, o + at, c, min(i + wrote - at, c), full));
        } else {
            assert(3072 * p == i);
            assert(s1[p] == s0.last());
            assert(s1[p + 1] == s1.last());
            let src = data.subrange(i, i + min(data.len() - i, count));
            let full = choose|full: bool| #[trigger] piece_written(s0.last(), s1.last(), src, o + i, count, wrote, full);
            assert(piece_written(s1[p], s1[p + 1], src, o + i, count, min(i + wrote - i, count), full));
        }
    }
}

/// Writes the piece that begins at byte `i`.
#[verifier::rlimit(90)]
#[verifier::spinoff_prover]
fn write_next<D: BlockDevice>(
    fs: &mut FileSystem<D>,
    a: &KernelAllocator,
    mem: &ProcessMemory,
    inode: &InodeReference,
    offset: usize,
    addr: u64,
    n: usize,
    i: usize,
    count: usize,
    Ghost(fs0): Ghost<FileSystem<D>>,
) -> (wrote: usize)
    requires
        source_ok(*a, *mem),
        i < n,
        i % 3072 == 0,
        i <= offset,
        count == min(n - i, 3072),
        ({
            let data = user_bytes(a.frames(), mem.pagetable.root(), addr as int, n as int);
            &&& write_progress(fs0, *old(fs), inode.cache_index as int, data, offset - i, i as int, n as int)
            &&& i <= data.len() <= n
            &&& data.len() == access_end(a.frames(), mem.pagetable.root(), addr as int, n as int)
        }),
    ensures
        ({
            let j = fs0.inum_at(inode.cache_index as int);
            let data = user_bytes(a.frames(), mem.pagetable.root(), addr as int, n as int);
            &&& wrote <= count
            &&& i + wrote <= data.len()
            &&& offset + wrote <= usize::MAX
            &&& wrote == count ==> write_progress(fs0, *final(fs), inode.cache_index as int, data, offset - i, i + count, n as int)
            &&& exists|full: bool| #[trigger]
                piece_written(
                    old(fs).file(j),
                    final(fs).file(j),
                    data.subrange(i as int, i + min(data.len() - i, count as int)),
                    offset as int,
                    count as int,
                    wrote as int,
                    full,
                )
            &&& wrote != count ==> {
                &&& final(fs).wf()
                &&& final(fs).volume.activity() == fs0.volume.activity()
                &&& calls_made(fs0, *final(fs), pieces_tried(i + wrote, n as int))
                &&& same_refs(fs0.inodes.cache, final(fs).inodes.cache)
                &&& others_same(fs0, *final(fs), j)
                &&& exists|full: bool| {
                    &&& #[trigger] write_came_to(fs0.file(j), final(fs).file(j), data, offset - i, n as int, i + wrote, full)
                    &&& full ==> disk_full_of(*final(fs))
                }
            }
        }),
{
    let ghost fs1 = *fs;
    let ghost slot = inode.cache_index as int;
    let ghost j = fs0.inum_at(slot);
    let ghost ram = a.frames();
    let ghost root = mem.pagetable.root();
    let ghost data = user_bytes(ram, root, addr as int, n as int);
    let ghost src = user_bytes(ram, root, addr + i, count as int);
    proof {
        reveal(write_progress);
        reveal(FileSystem::can_work);
        lemma_access_end(ram, root, addr as int, n as int);
        if i > 0 {
            assert(user_byte(ram, root, addr + (i - 1)) is Some);
            assert(is_page((addr + (i - 1)) / 4096));
        }
    }
    let wrote = write_piece(fs, a, mem, inode, offset, addr + i as u64, count);
    proof {
        let full = choose|full: bool| (full ==> disk_full_of(*fs)) && #[trigger] piece_written(
            fs1.file(j),
            fs.file(j),
            src,
            offset as int,
            count as int,
            wrote as int,
            full,
        );
        assert(piece_written(fs1.file(j), fs.file(j), src, offset as int, count as int, wrote as int, full));
        lemma_access_from(ram, root, addr as int, n as int, i as int, count as int);
        assert forall|x: int| 0 <= x < fs0.sb().ninodes && x != j implies #[trigger] fs.file(x) == fs0.file(x) by {
            assert(fs.file(x) == fs1.file(x));
        }
        assert(fs.inodes.cache.counts@[slot] == fs1.inodes.cache.counts@[slot]);
        assert forall|k: int| 0 <= k < NINODE implies #[trigger] fs.inodes.cache.counts@[k] + 0 < usize::MAX by {
            assert(fs1.inodes.cache.counts@[k] + 0 < usize::MAX);
        }
        lemma_piece(
            fs0.file(j),
            fs1.file(j),
            fs.file(j),
            data,
            src,
            offset - i,
            n as int,
            i as int,
            count as int,
            wrote as int,
            full,
        );
        lemma_pieces(i as int, count as int, wrote as int, n as int);
        if wrote != count {
            assert(write_came_to(fs0.file(j), fs.file(j), data, offset - i, n as int, i + wrote, full));
        }
    }
    wrote
}

/// Memory that can be read.
#[verifier::opaque]
spec fn source_ok(a: KernelAllocator, mem: ProcessMemory) -> bool {
    a.wf() && mem.wf(&a)
}

/// Writes one piece, in one transaction.
fn write_piece<D: BlockDevice>(
    fs: &mut FileSystem<D>,
    a: &KernelAllocator,
    mem: &ProcessMemory,
    inode: &InodeReference,
    offset: usize,
    addr: u64,
    count: usize,
) -> (wrote: usize)
    requires
        old(fs).can_work(),
        old(fs).volume.fits(MAXOPBLOCKS as int),
        old(fs).refers(inode.cache_index as int),
        old(fs).file(old(fs).inum_at(inode.cache_index as int)).kind != InodeKind::Directory,
        source_ok(*a, *mem),
        count <= 3072,
    ensures
        final(fs).wf(),
        old(fs).one_call(*final(fs), MAXOPBLOCKS as int),
        same_refs(old(fs).inodes.cache, final(fs).inodes.cache),
        ({
            let j = old(fs).inum_at(inode.cache_index as int);
            let src = user_bytes(a.frames(), mem.pagetable.root(), addr as int, count as int);
            &&& others_same(*old(fs), *final(fs), j)
            &&& exists|full: bool| {
                &&& full ==> disk_full_of(*final(fs))
                &&& #[trigger] piece_written(old(fs).file(j), final(fs).file(j), src, offset as int, count as int, wrote as int, full)
            }
        }),
{
    proof {
        reveal(source_ok);
        lemma_access_end(a.frames(), mem.pagetable.root(), addr as int, count as int);
    }
    let src = Console::write(a, &mem.pagetable, addr, count);
    proof {
        assert(src@ =~= user_bytes(a.frames(), mem.pagetable.root(), addr as int, count as int));
    }
    fs.write_file(inode, &src, offset, count)
}

/// One piece more of a write.
#[verifier::rlimit(30)]
proof fn lemma_piece(
    f0: FileView,
    f1: FileView,
    f2: FileView,
    data: Seq<u8>,
    src: Seq<u8>,
    o: int,
    n: int,
    i: int,
    count: int,
    wrote: int,
    full: bool,
)
    requires
        0 <= o,
        0 <= i < n,
        i % 3072 == 0,
        count == min(n - i, 3072),
        i <= data.len() <= n,
        src == data.subrange(i, i + min(data.len() - i, count)),
        f1 == written_to(f0, o, data, i),
        i > 0 ==> o <= f0.bytes.len(),
        piece_written(f1, f2, src, o + i, count, wrote, full),
    ensures
        0 <= wrote <= count,
        i + wrote <= data.len(),
        o + i + wrote <= 274432 || wrote == 0,
        wrote > 0 ==> o <= f0.bytes.len(),
        wrote == count ==> f2 == written_to(f0, o, data, i + count),
        wrote != count ==> write_came_to(f0, f2, data, o, n, i + wrote, full),
{
    reveal(piece_written);
    reveal(write_came_to);
    let w = i + wrote;
    assert(piece_end(i, n) == i + count);
    if o + i > f1.bytes.len() || o + i + count > 274432 {
    } else if wrote <= src.len() && (wrote == count || wrote + chunk_len(o + w, count - wrote) > src.len()) && f2 == (FileView {
        bytes: overwritten(f1.bytes, o + i, src.take(wrote)),
        ..f1
    }) && (wrote == 0 || wrote == count || (o + w) % 1024 == 0) {
        assert(o <= f0.bytes.len());
        let x = data.take(i);
        let y = src.take(wrote);
        lemma_overwritten_join(f0.bytes, o, x, y);
        assert(x + y =~= data.take(w));
        assert(overwritten(f0.bytes, o, data.take(0)) =~= f0.bytes);
        assert(overwritten(f1.bytes, o + i, src.take(0)) =~= f1.bytes);
        assert(f2 == written_to(f0, o, data, w));
        if wrote != count {
            assert(w / 3072 == i / 3072);
            assert(piece_end(w, n) == i + count);
            assert(chunk_len(o + w, count - wrote) <= count - wrote);
        }
    } else {
        assert(min(i + count, data.len() as int) == i + min(data.len() - i, count));
        let u = choose|u: int| #[trigger] partly_written(f1.bytes, f2.bytes, o + i, src, u);
        assert(partly_written(f1.bytes, f2.bytes, o + i, data.subrange(i, min(piece_end(i, n), data.len() as int)), u));
    }
}

/// The same step, of a pipe and of a file.
fn to_transfer(p: PipeProgress) -> (r: Transfer)
    ensures
        r == match p {
            PipeProgress::Done(n) => Transfer::Done(n),
            PipeProgress::Failed => Transfer::Failed,
            PipeProgress::AwaitSpace => Transfer::AwaitSpace,
            PipeProgress::AwaitData => Transfer::AwaitData,
        },
{
    match p {
        PipeProgress::Done(n) => Transfer::Done(n),
        PipeProgress::Failed => Transfer::Failed,
        PipeProgress::AwaitSpace => Transfer::AwaitSpace,
        PipeProgress::AwaitData => Transfer::AwaitData,
    }
}

impl DeviceFile {
    /// What the driver's answer means: a negative number is an error.
    pub fn complete(&self, result: i32) -> (r: Result<usize, ()>)
        ensures
            r == if result < 0 { Err::<usize, ()>(()) } else { Ok::<usize, ()>(result as usize) },
    {
        if result < 0 {
            Err(())
        } else {
            Ok(result as usize)
        }
    }
}

} // verus!
