//! Pipes.
use vstd::prelude::*;
use crate::allocator::KernelAllocator;
use crate::console::{access_end, lemma_access};
use crate::filesystem::bytes::zeros;
use crate::process::memory::ProcessMemory;
use crate::riscv::paging::{is_page, user_byte, written};
use crate::uart::lemma_other_place;

verus! {

/// One end of a pipe, by the number of the pipe.
#[derive(Clone, Copy)]
pub enum Pipe<const SIZE: usize> {
    Read(usize),
    Write(usize),
}

/// The pipes of the kernel.
pub struct Pipes<const SIZE: usize> {
    pub pipes: Vec<PipeInner<SIZE>>,
}

/// How far a read or write of a pipe came.
#[derive(Clone, Copy, Debug, PartialEq, Eq, Structural)]
pub enum PipeProgress {
    /// A writer waits for space. Readers have to be woken.
    AwaitSpace,
    /// A reader waits for data.
    AwaitData,
    /// The call is complete, with this many bytes. The other side has to be woken.
    Done(usize),
    /// The pipe is closed on the other side, or the process was killed, or this is the wrong end.
    Failed,
}

/// A pipe: a ring of `SIZE` bytes.
pub struct PipeInner<const SIZE: usize> {
    pub data: Vec<u8>,
    pub read: usize,
    pub write: usize,
    pub read_open: bool,
    pub write_open: bool,
}

impl<const SIZE: usize> View for PipeInner<SIZE> {
    type V = Seq<u8>;

    /// The bytes that were written and not read yet.
    open spec fn view(&self) -> Seq<u8> {
        Seq::new((self.write - self.read) as nat, |i: int| self.data@[(self.read + i) % (SIZE as int)])
    }
}

/// Number of the `n` bytes from `addr` on that lie in the memory of the process and that it may
/// access.
pub open spec fn readable_end(mem: ProcessMemory, ram: Seq<crate::allocator::Frame>, addr: int, n: int) -> int
    decreases n,
{
    if n <= 0 || addr >= mem.size || user_byte(ram, mem.pagetable.root(), addr) is None {
        0
    } else {
        1 + readable_end(mem, ram, addr + 1, n - 1)
    }
}

/// A write of `n` bytes from `addr` on, of which `i` are in the pipe.
pub struct PipeWrite {
    pub addr: u64,
    pub n: usize,
    pub i: usize,
}

pub open spec fn min(a: int, b: int) -> int {
    if a < b {
        a
    } else {
        b
    }
}

impl<const SIZE: usize> PipeInner<SIZE> {
    pub open spec fn wf(&self) -> bool {
        &&& SIZE > 0
        &&& self.data@.len() == SIZE
        &&& self.read <= self.write <= self.read + SIZE
    }

    pub fn new() -> (this: Self)
        requires
            SIZE > 0,
        ensures
            this.wf(),
            this@ == Seq::<u8>::empty(),
            this.read_open,
            this.write_open,
            this.read == 0,
    {
        let this = PipeInner { data: zeros(SIZE), read: 0, write: 0, read_open: true, write_open: true };
        proof {
            assert(this@ =~= Seq::<u8>::empty());
        }
        this
    }

    /// Closes the end for reading. Writers have to be woken.
    pub fn close_read(&mut self)
        requires
            old(self).read_open,
        ensures
            *final(self) == (PipeInner { read_open: false, ..*old(self) }),
    {
        self.read_open = false;
    }

    /// Closes the end for writing. Readers have to be woken.
    pub fn close_write(&mut self)
        requires
            old(self).write_open,
        ensures
            *final(self) == (PipeInner { write_open: false, ..*old(self) }),
    {
        self.write_open = false;
    }

    /// Adds a byte at the end.
    fn push(&mut self, ch: u8)
        requires
            old(self).wf(),
            old(self)@.len() < SIZE,
            old(self).write < usize::MAX,
        ensures
            final(self).wf(),
            final(self)@ == old(self)@.push(ch),
            final(self).read == old(self).read,
            final(self).write == old(self).write + 1,
            final(self).read_open == old(self).read_open,
            final(self).write_open == old(self).write_open,
    {
        let ghost p0 = *self;
        let index = self.write % SIZE;
        self.data.set(index, ch);
        self.write = self.write + 1;
        proof {
            assert forall|i: int| 0 <= i < p0@.len() implies #[trigger] self@[i] == p0@[i] by {
                lemma_other_place(p0.read + i, p0.write as int, SIZE as int);
            }
            assert(self@ =~= p0@.push(ch));
        }
    }

    /// Goes on with a write by the process whose memory is `mem`. `killed` tells whether it was
    /// told to end.
    #[verifier::rlimit(40)]
    pub fn write(&mut self, a: &KernelAllocator, mem: &ProcessMemory, req: &mut PipeWrite, killed: bool) -> (r: PipeProgress)
        requires
            old(self).wf(),
            a.wf(),
            mem.wf(a),
            old(req).i <= old(req).n,
            old(req).addr + old(req).i <= u64::MAX,
            old(self).read + SIZE <= usize::MAX,
        ensures
            final(self).wf(),
            final(self).read == old(self).read,
            final(self).read_open == old(self).read_open,
            final(self).write_open == old(self).write_open,
            final(req).addr == old(req).addr,
            final(req).n == old(req).n,
            ({
                let i = old(req).i as int;
                let left = old(req).n - i;
                let room = SIZE - old(self)@.len();
                let src = old(req).addr + i;
                let k = readable_end(*mem, a.frames(), src, min(left, room));
                if left > 0 && (!old(self).read_open || killed) {
                    r == PipeProgress::Failed && final(self)@ == old(self)@ && final(req).i == i
                } else {
                    &&& final(req).i == i + k
                    &&& final(self)@.len() == old(self)@.len() + k
                    &&& old(self)@.is_prefix_of(final(self)@)
                    &&& forall|x: int| 0 <= x < k ==> user_byte(a.frames(), mem.pagetable.root(), src + x) == Some(
                        #[trigger] final(self)@[old(self)@.len() + x],
                    )
                    &&& r == if k == room && k < left {
                        PipeProgress::AwaitSpace
                    } else {
                        PipeProgress::Done((i + k) as usize)
                    }
                }
            }),
    {
        let ghost p0 = *self;
        let ghost ram = a.frames();
        let ghost root = mem.pagetable.root();
        let ghost i0 = req.i as int;
        let ghost left = req.n - i0;
        let ghost room = SIZE - p0@.len();
        let ghost m = min(left, room);
        let ghost src = req.addr + i0;
        if req.i < req.n && (!self.read_open || killed) {
            return PipeProgress::Failed;
        }
        let ghost mut k: int = 0;
        while req.i < req.n
            invariant
                a.wf(),
                mem.wf(a),
                ram == a.frames(),
                root == mem.pagetable.root(),
                p0.wf(),
                p0.read + SIZE <= usize::MAX,
                self.wf(),
                self.read == p0.read,
                self.read_open == p0.read_open,
                self.write_open == p0.write_open,
                p0 == *old(self),
                req.addr == old(req).addr,
                req.n == old(req).n,
                req.addr + req.i <= u64::MAX,
                i0 == old(req).i,
                i0 <= req.n,
                left == req.n - i0,
                room == SIZE - p0@.len(),
                m == min(left, room),
                src == req.addr + i0,
                left > 0 ==> p0.read_open && !killed,
                0 <= k <= m,
                req.i == i0 + k,
                self@.len() == p0@.len() + k,
                p0@.is_prefix_of(self@),
                forall|x: int| 0 <= x < k ==> user_byte(ram, root, src + x) == Some(#[trigger] self@[p0@.len() + x]),
                readable_end(*mem, ram, src, m) == k + readable_end(*mem, ram, src + k, m - k),
            decreases req.n - req.i,
        {
            if self.write == self.read + SIZE {
                return PipeProgress::AwaitSpace;
            }
            let ghost before = *self;
            match mem.read(a, req.addr + req.i as u64, 1) {
                Some(bytes) => {
                    let ch = bytes[0];
                    proof {
                        assert(user_byte(ram, root, src + k + 0) == Some(bytes@[0]));
                        assert(is_page((src + k) / 4096));
                    }
                    self.push(ch);
                    req.i = req.i + 1;
                    proof {
                        assert(readable_end(*mem, ram, src + k, m - k) == 1 + readable_end(*mem, ram, src + k + 1, m - k - 1));
                        assert forall|x: int| 0 <= x < k + 1 implies user_byte(ram, root, src + x) == Some(#[trigger] self@[p0@.len() + x]) by {
                            if x < k {
                                assert(self@[p0@.len() + x] == before@[p0@.len() + x]);
                            }
                        }
                        k = k + 1;
                    }
                },
                None => {
                    proof {
                        assert(!crate::riscv::paging::accessible(ram, root, src + k, 1) || src + k >= mem.size || src + k + 1 > mem.size);
                        if src + k < mem.size && user_byte(ram, root, src + k) is Some {
                            assert(crate::riscv::paging::accessible(ram, root, src + k, 1));
                        }
                        assert(readable_end(*mem, ram, src + k, m - k) == 0);
                    }
                    return PipeProgress::Done(req.i);
                },
            }
        }
        PipeProgress::Done(req.i)
    }

    /// Goes on with a read of at most `n` bytes to `addr`.
    #[verifier::rlimit(40)]
    pub fn read(&mut self, a: &mut KernelAllocator, mem: &ProcessMemory, addr: u64, n: usize, killed: bool) -> (r: PipeProgress)
        requires
            old(self).wf(),
            old(a).wf(),
            mem.wf(old(a)),
        ensures
            final(self).wf(),
            final(self).write == old(self).write,
            final(self).read == old(self).read + (old(self)@.len() - final(self)@.len()),
            final(self).read_open == old(self).read_open,
            final(self).write_open == old(self).write_open,
            final(a).wf(),
            mem.wf(final(a)),
            final(a).end() == old(a).end(),
            final(a).free() == old(a).free(),
            if old(self)@.len() == 0 && old(self).write_open {
                &&& r == if killed { PipeProgress::Failed } else { PipeProgress::AwaitData }
                &&& *final(self) == *old(self)
                &&& *final(a) == *old(a)
            } else {
                let e = min(n as int, old(self)@.len() as int);
                let k = access_end(old(a).frames(), mem.pagetable.root(), addr as int, e);
                &&& r == PipeProgress::Done(k as usize)
                &&& written(old(a).frames(), final(a).frames(), mem.pagetable.root(), addr as int, old(self)@.take(k))
                &&& final(self)@ == old(self)@.skip(if k < e { k + 1 } else { k })
            },
    {
        let ghost p0 = *self;
        let ghost s = self@;
        let ghost ram = a.frames();
        let ghost root = mem.pagetable.root();
        if self.read == self.write && self.write_open {
            if killed {
                return PipeProgress::Failed;
            }
            return PipeProgress::AwaitData;
        }
        let len = self.write - self.read;
        let e = if n < len {
            n
        } else {
            len
        };
        let mut bytes: Vec<u8> = Vec::new();
        let mut i: usize = 0;
        while i < e
            invariant
                i <= e,
                self.wf(),
                e <= self.write - self.read,
                s == self@,
                bytes@ =~= s.take(i as int),
            decreases e - i,
        {
            bytes.push(self.data[(self.read + i) % SIZE]);
            i = i + 1;
        }
        match mem.pagetable.write(a, addr, &bytes) {
            Ok(_) => {
                self.read = self.read + e;
                proof {
                    assert forall|i: int| 0 <= i < e implies (#[trigger] user_byte(ram, root, addr + i)) is Some by {}
                    lemma_access(ram, root, addr as int, e as int, e as int);
                    assert(self@ =~= s.skip(e as int));
                    crate::process::memory::lemma_safe_written(ram, a.frames(), root, addr as int, bytes@, mem.size as int);
                }
                PipeProgress::Done(e)
            },
            Err(k) => {
                self.read = self.read + k + 1;
                proof {
                    assert forall|i: int| 0 <= i < k implies (#[trigger] user_byte(ram, root, addr + i)) is Some by {}
                    lemma_access(ram, root, addr as int, e as int, k as int);
                    assert(self@ =~= s.skip(k + 1));
                    assert(s.take(e as int).take(k as int) =~= s.take(k as int));
                    crate::process::memory::lemma_safe_written(ram, a.frames(), root, addr as int, bytes@.take(k as int), mem.size as int);
                }
                PipeProgress::Done(k)
            },
        }
    }
}

impl<const SIZE: usize> Pipes<SIZE> {
    pub open spec fn wf(&self) -> bool {
        forall|i: int| 0 <= i < self.pipes@.len() ==> (#[trigger] self.pipes@[i]).wf()
    }
}

impl<const SIZE: usize> Pipe<SIZE> {
    pub open spec fn number(&self) -> int {
        match self {
            Pipe::Read(p) => *p as int,
            Pipe::Write(p) => *p as int,
        }
    }

    /// Makes a pipe. The results are its two ends, for reading and for writing.
    pub fn allocate(pipes: &mut Pipes<SIZE>) -> (r: Option<(Self, Self)>)
        requires
            old(pipes).wf(),
            SIZE > 0,
        ensures
            final(pipes).wf(),
            ({
                let p = old(pipes).pipes@.len();
                &&& p <= usize::MAX
                &&& r == Some((Pipe::<SIZE>::Read(p as usize), Pipe::<SIZE>::Write(p as usize)))
                &&& final(pipes).pipes@.len() == p + 1
                &&& final(pipes).pipes@.take(p as int) == old(pipes).pipes@
                &&& final(pipes).pipes@[p as int]@ == Seq::<u8>::empty()
                &&& final(pipes).pipes@[p as int].read_open
                &&& final(pipes).pipes@[p as int].write_open
            }),
    {
        let ghost v0 = pipes.pipes@;
        let p = pipes.pipes.len();
        pipes.pipes.push(PipeInner::new());
        proof {
            assert(pipes.pipes@.take(p as int) =~= v0);
            assert forall|i: int| 0 <= i < pipes.pipes@.len() implies (#[trigger] pipes.pipes@[i]).wf() by {
                if i < p {
                    assert(v0[i].wf());
                }
            }
        }
        Some((Pipe::Read(p), Pipe::Write(p)))
    }

    /// Writes to the pipe; only the end for writing can.
    pub fn write(&self, pipes: &mut Pipes<SIZE>, a: &KernelAllocator, mem: &ProcessMemory, req: &mut PipeWrite, killed: bool) -> (r: PipeProgress)
        requires
            old(pipes).wf(),
            self.number() < old(pipes).pipes@.len(),
            a.wf(),
            mem.wf(a),
            old(req).i <= old(req).n,
            old(req).addr + old(req).i <= u64::MAX,
            old(pipes).pipes@[self.number()].read + SIZE <= usize::MAX,
        ensures
            final(req).addr == old(req).addr,
            final(req).n == old(req).n,
            final(pipes).wf(),
            final(pipes).pipes@.len() == old(pipes).pipes@.len(),
            final(pipes).pipes@[self.number()].read == old(pipes).pipes@[self.number()].read,
            final(pipes).pipes@[self.number()].read_open == old(pipes).pipes@[self.number()].read_open,
            final(pipes).pipes@[self.number()].write_open == old(pipes).pipes@[self.number()].write_open,
            forall|i: int| 0 <= i < old(pipes).pipes@.len() && i != self.number() ==> #[trigger] final(pipes).pipes@[i] == old(pipes).pipes@[i],
            ({
                let p0 = old(pipes).pipes@[self.number()];
                let p1 = final(pipes).pipes@[self.number()];
                let i = old(req).i as int;
                let left = old(req).n - i;
                let room = SIZE - p0@.len();
                let src = old(req).addr + i;
                let k = readable_end(*mem, a.frames(), src, min(left, room));
                if self is Read || (left > 0 && (!p0.read_open || killed)) {
                    r == PipeProgress::Failed && p1@ == p0@ && final(req).i == i
                } else {
                    &&& final(req).i == i + k
                    &&& p1@.len() == p0@.len() + k
                    &&& p0@.is_prefix_of(p1@)
                    &&& forall|x: int| 0 <= x < k ==> user_byte(a.frames(), mem.pagetable.root(), src + x) == Some(#[trigger] p1@[p0@.len() + x])
                    &&& r == if k == room && k < left {
                        PipeProgress::AwaitSpace
                    } else {
                        PipeProgress::Done((i + k) as usize)
                    }
                }
            }),
    {
        match self {
            Pipe::Read(_) => PipeProgress::Failed,
            Pipe::Write(p) => {
                let p: usize = *p;
                proof {
                    assert(pipes.pipes@[p as int].wf());
                }
                let r = pipes.pipes[p].write(a, mem, req, killed);
                r
            },
        }
    }

    /// Reads from the pipe; only the end for reading can.
    pub fn read(&self, pipes: &mut Pipes<SIZE>, a: &mut KernelAllocator, mem: &ProcessMemory, addr: u64, n: usize, killed: bool) -> (r: PipeProgress)
        requires
            old(pipes).wf(),
            self.number() < old(pipes).pipes@.len(),
            old(a).wf(),
            mem.wf(old(a)),
        ensures
            final(pipes).wf(),
            final(pipes).pipes@.len() == old(pipes).pipes@.len(),
            final(pipes).pipes@[self.number()].write == old(pipes).pipes@[self.number()].write,
            final(pipes).pipes@[self.number()].read_open == old(pipes).pipes@[self.number()].read_open,
            final(pipes).pipes@[self.number()].write_open == old(pipes).pipes@[self.number()].write_open,
            forall|i: int| 0 <= i < old(pipes).pipes@.len() && i != self.number() ==> #[trigger] final(pipes).pipes@[i] == old(pipes).pipes@[i],
            final(a).wf(),
            mem.wf(final(a)),
            final(a).end() == old(a).end(),
            final(a).free() == old(a).free(),
            ({
                let p0 = old(pipes).pipes@[self.number()];
                let p1 = final(pipes).pipes@[self.number()];
                if self is Write {
                    r == PipeProgress::Failed && p1 == p0 && *final(a) == *old(a)
                } else if p0@.len() == 0 && p0.write_open {
                    &&& r == if killed { PipeProgress::Failed } else { PipeProgress::AwaitData }
                    &&& p1 == p0
                    &&& *final(a) == *old(a)
                } else {
                    let e = min(n as int, p0@.len() as int);
                    let k = access_end(old(a).frames(), mem.pagetable.root(), addr as int, e);
                    &&& r == PipeProgress::Done(k as usize)
                    &&& written(old(a).frames(), final(a).frames(), mem.pagetable.root(), addr as int, p0@.take(k))
                    &&& p1@ == p0@.skip(if k < e { k + 1 } else { k })
                }
            }),
    {
        match self {
            Pipe::Write(_) => PipeProgress::Failed,
            Pipe::Read(p) => {
                let p: usize = *p;
                proof {
                    assert(pipes.pipes@[p as int].wf());
                }
                let r = pipes.pipes[p].read(a, mem, addr, n, killed);
                r
            },
        }
    }

    /// Closes this end of the pipe. The other side has to be woken.
    pub fn close(self, pipes: &mut Pipes<SIZE>)
        requires
            old(pipes).wf(),
            self.number() < old(pipes).pipes@.len(),
            self is Read ==> old(pipes).pipes@[self.number()].read_open,
            self is Write ==> old(pipes).pipes@[self.number()].write_open,
        ensures
            final(pipes).wf(),
            final(pipes).pipes@.len() == old(pipes).pipes@.len(),
            final(pipes).pipes@ == old(pipes).pipes@.update(
                self.number(),
                if self is Read {
                    PipeInner { read_open: false, ..old(pipes).pipes@[self.number()] }
                } else {
                    PipeInner { write_open: false, ..old(pipes).pipes@[self.number()] }
                },
            ),
    {
        let ghost v0 = pipes.pipes@;
        proof {
            assert(v0[self.number()].wf());
        }
        match self {
            Pipe::Read(p) => {
                pipes.pipes[p].close_read();
            },
            Pipe::Write(p) => {
                pipes.pipes[p].close_write();
            },
        }
        proof {
            assert(pipes.pipes@ =~= v0.update(self.number(), pipes.pipes@[self.number()]));
            assert forall|i: int| 0 <= i < pipes.pipes@.len() implies (#[trigger] pipes.pipes@[i]).wf() by {
                assert(v0[i].wf());
            }
        }
    }
}

/// A pipe hands out its bytes in the order in which they came: what is read after a write
/// begins with what was there before.
pub proof fn lemma_pipe_in_order<const SIZE: usize>(p0: PipeInner<SIZE>, p1: PipeInner<SIZE>, p2: PipeInner<SIZE>, new: Seq<u8>, k: int)
    requires
        p1@ == p0@ + new,
        0 <= k <= p1@.len(),
        p2@ == p1@.skip(k),
    ensures
        p1@.take(k) + p2@ == p0@ + new,
        k <= p0@.len() ==> p1@.take(k) == p0@.take(k),
{
    assert(p1@.take(k) + p2@ =~= p0@ + new);
    if k <= p0@.len() {
        assert(p1@.take(k) =~= p0@.take(k));
    }
}

} // verus!
