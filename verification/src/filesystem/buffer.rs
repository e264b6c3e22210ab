//! The buffer cache: copies of disk blocks in memory.
//!
//! A buffer is taken by one user at a time and given back with `release`. It stays in the
//! cache as long as somebody uses it or has pinned it.
use vstd::prelude::*;
use crate::cache::{exact_eq, CacheRc};
#[allow(unused_imports)]

use crate::filesystem::bytes::{copy_into, zeros};
#[allow(unused_imports)]
use crate::filesystem::bytes::spliced;
use crate::filesystem::device::BlockDevice;
#[allow(unused_imports)]
use crate::filesystem::device::sized;

verus! {

/// Bytes in a block.
pub const BSIZE: usize = 1024;

/// Names a block.
pub struct BufferKey {
    pub device: usize,
    pub block: usize,
}

impl PartialEq for BufferKey {
    fn eq(&self, other: &Self) -> (b: bool) {
        self.device == other.device && self.block == other.block
    }
}

impl vstd::std_specs::cmp::PartialEqSpecImpl for BufferKey {
    open spec fn obeys_eq_spec() -> bool {
        true
    }

    open spec fn eq_spec(&self, other: &Self) -> bool {
        self.device == other.device && self.block == other.block
    }
}

/// A buffer that somebody has taken.
pub struct Buffer {
    pub block_number: usize,
    pub cache_index: usize,
}

impl Buffer {
    pub fn block_number(this: &Self) -> (r: usize)
        ensures
            r == this.block_number,
    {
        this.block_number
    }
}

/// `CSIZE` buffers of `BSIZE` bytes.
pub struct BufferCache<const BSIZE: usize, const CSIZE: usize> {
    pub buffers: Vec<Vec<u8>>,
    pub taken: Vec<bool>,
    pub cache: CacheRc<BufferKey, CSIZE>,
}

/// Two caches differ in slot `i` at most.
pub open spec fn same_but<const BSIZE: usize, const CSIZE: usize>(
    old: BufferCache<BSIZE, CSIZE>,
    new: BufferCache<BSIZE, CSIZE>,
    i: int,
) -> bool {
    forall|j: int| 0 <= j < CSIZE && j != i ==> {
        &&& #[trigger] new.data(j) == old.data(j)
        &&& new.taken@[j] == old.taken@[j]
        &&& new.keys()[j] == old.keys()[j]
        &&& new.users(j) == old.users(j)
    }
}

impl<const BSIZE: usize, const CSIZE: usize> BufferCache<BSIZE, CSIZE> {
    /// The bytes in slot `i`.
    pub open spec fn data(&self, i: int) -> Seq<u8> {
        self.buffers@[i]@
    }

    pub open spec fn keys(&self) -> Seq<Option<BufferKey>> {
        self.cache.keys()
    }

    /// Users and pins of slot `i`.
    pub open spec fn users(&self, i: int) -> usize {
        self.cache.counts@[i]
    }

    pub open spec fn wf(&self) -> bool {
        &&& self.cache.wf()
        &&& self.buffers@.len() == CSIZE
        &&& self.taken@.len() == CSIZE
        &&& forall|i: int| 0 <= i < CSIZE ==> (#[trigger] self.data(i)).len() == BSIZE
        &&& forall|i: int| 0 <= i < CSIZE && #[trigger] self.taken@[i] ==> self.users(i) > 0
        &&& forall|i: int| 0 <= i < CSIZE ==> #[trigger] self.users(i) < usize::MAX
    }

    /// Whether slot `i` holds block `block`.
    pub open spec fn holds(&self, i: int, device: usize, block: usize) -> bool {
        0 <= i < CSIZE && self.keys()[i] == Some(BufferKey { device, block })
    }

    /// `b` was taken from this cache and not given back.
    pub open spec fn has(&self, b: Buffer) -> bool {
        &&& b.cache_index < CSIZE
        &&& self.taken@[b.cache_index as int]
        &&& self.keys()[b.cache_index as int] is Some
        &&& self.keys()[b.cache_index as int]->0.block == b.block_number
    }

    /// An empty cache.
    pub fn new() -> (this: Self)
        requires
            CSIZE > 0,
        ensures
            this.wf(),
            forall|i: int| 0 <= i < CSIZE ==> (#[trigger] this.keys()[i]) is None,
            forall|i: int| 0 <= i < CSIZE ==> !(#[trigger] this.taken@[i]),
    {
        let mut buffers: Vec<Vec<u8>> = Vec::new();
        let mut taken: Vec<bool> = Vec::new();
        let mut i: usize = 0;
        while i < CSIZE
            invariant
                i <= CSIZE,
                buffers@.len() == i,
                taken@.len() == i,
                forall|k: int| 0 <= k < i ==> (#[trigger] buffers@[k])@.len() == BSIZE,
                forall|k: int| 0 <= k < i ==> !(#[trigger] taken@[k]),
            decreases CSIZE - i,
        {
            buffers.push(zeros(BSIZE));
            taken.push(false);
            i = i + 1;
        }
        BufferCache { buffers, taken, cache: CacheRc::new() }
    }

    /// Takes the buffer of a block, which nobody else may have taken. The second component
    /// tells that the buffer does not hold the block's contents yet.
    pub fn get(&mut self, device: usize, block: usize) -> (r: Option<(Buffer, bool)>)
        requires
            old(self).wf(),
            forall|i: int| #[trigger] old(self).holds(i, device, block) ==> !old(self).taken@[i] && old(self).users(i) < usize::MAX - 1,
        ensures
            final(self).wf(),
            match r {
                Some((b, is_new)) => {
                    let i = b.cache_index as int;
                    &&& b.block_number == block
                    &&& final(self).holds(i, device, block)
                    &&& final(self).has(b)
                    &&& final(self).data(i) == old(self).data(i)
                    &&& final(self).users(i) == old(self).users(i) + 1
                    &&& is_new <==> !old(self).holds(i, device, block)
                    &&& is_new <==> (forall|j: int| !#[trigger] old(self).holds(j, device, block))
                    &&& is_new ==> old(self).keys()[i] is None && old(self).users(i) == 0
                    &&& same_but(*old(self), *final(self), i)
                },
                None => {
                    &&& *final(self) == *old(self)
                    &&& forall|i: int| 0 <= i < CSIZE ==> (#[trigger] old(self).keys()[i]) is Some
                    &&& forall|i: int| !#[trigger] old(self).holds(i, device, block)
                },
            },
    {
        let key = BufferKey { device, block };
        let ghost k = key;
        proof {
            assert(exact_eq::<BufferKey>());
            assert forall|i: int| 0 <= i < CSIZE implies #[trigger] self.cache.counts@[i] < usize::MAX by {
                assert(self.users(i) < usize::MAX);
            }
        }
        match self.cache.get(key) {
            Some((index, is_new)) => {
                proof {
                    if is_new {
                        assert forall|j: int| !#[trigger] old(self).holds(j, device, block) by {
                            if old(self).holds(j, device, block) {
                                assert(old(self).keys().contains(Some(k)));
                            }
                        }
                        assert(old(self).cache.counts@[index as int] == 0);
                    } else {
                        assert(old(self).holds(index as int, device, block));
                    }
                }
                self.taken.set(index, true);
                proof {
                    assert forall|i: int| 0 <= i < CSIZE implies #[trigger] self.users(i) < usize::MAX by {
                        assert(old(self).users(i) < usize::MAX);
                    }
                    assert forall|i: int| 0 <= i < CSIZE && #[trigger] self.taken@[i] implies self.users(i) > 0 by {
                        assert(i == index || old(self).taken@[i]);
                    }
                    assert forall|i: int| 0 <= i < CSIZE implies (#[trigger] self.data(i)).len() == BSIZE by {
                        assert(self.data(i) == old(self).data(i));
                    }
                }
                Some((Buffer { block_number: block, cache_index: index }, is_new))
            },
            None => {
                proof {
                    assert forall|i: int| !#[trigger] old(self).holds(i, device, block) by {
                        if old(self).holds(i, device, block) {
                            assert(old(self).keys().contains(Some(k)));
                        }
                    }
                }
                None
            },
        }
    }

    /// Takes the buffer of a block, reading the block where the cache does not hold it.
    pub fn with_read<D: BlockDevice>(&mut self, disk: &mut D, device: usize, block: usize) -> (r: Option<Buffer>)
        requires
            old(self).wf(),
            forall|i: int| #[trigger] old(self).holds(i, device, block) ==> !old(self).taken@[i] && old(self).users(i) < usize::MAX - 1,
            block < old(disk).blocks().len(),
            sized(old(disk).blocks(), BSIZE as int),
        ensures
            final(self).wf(),
            final(disk).blocks() == old(disk).blocks(),
            final(disk).trace() == old(disk).trace(),
            match r {
                Some(b) => {
                    let i = b.cache_index as int;
                    &&& b.block_number == block
                    &&& final(self).holds(i, device, block)
                    &&& final(self).has(b)
                    &&& final(self).users(i) == old(self).users(i) + 1
                    &&& if old(self).holds(i, device, block) {
                        final(self).data(i) == old(self).data(i)
                    } else {
                        &&& final(self).data(i) == old(disk).blocks()[block as int]
                        &&& old(self).keys()[i] is None
                        &&& old(self).users(i) == 0
                        &&& forall|j: int| !#[trigger] old(self).holds(j, device, block)
                    }
                    &&& same_but(*old(self), *final(self), i)
                },
                None => {
                    &&& *final(self) == *old(self)
                    &&& forall|i: int| 0 <= i < CSIZE ==> (#[trigger] old(self).keys()[i]) is Some
                    &&& forall|i: int| !#[trigger] old(self).holds(i, device, block)
                },
            },
    {
        match self.get(device, block) {
            Some((b, is_new)) => {
                if is_new {
                    let data = disk.read_block(block);
                    let ghost before = *self;
                    self.buffers.set(b.cache_index, data);
                    proof {
                        lemma_data_set(before, *self, b.cache_index as int);
                    }
                }
                Some(b)
            },
            None => None,
        }
    }

    /// Takes the buffer of a block and overwrites its first bytes with `src`. The block is
    /// not read, so where the cache does not hold it, the bytes after `src` are left over
    /// from what the buffer held before.
    pub fn with_write(&mut self, device: usize, block: usize, src: &Vec<u8>) -> (r: Option<Buffer>)
        requires
            old(self).wf(),
            forall|i: int| #[trigger] old(self).holds(i, device, block) ==> !old(self).taken@[i] && old(self).users(i) < usize::MAX - 1,
            src@.len() <= BSIZE,
        ensures
            final(self).wf(),
            match r {
                Some(b) => {
                    let i = b.cache_index as int;
                    &&& b.block_number == block
                    &&& final(self).holds(i, device, block)
                    &&& final(self).has(b)
                    &&& final(self).users(i) == old(self).users(i) + 1
                    &&& final(self).data(i) == spliced(old(self).data(i), 0, src@)
                    &&& !old(self).holds(i, device, block) ==> {
                        &&& old(self).keys()[i] is None
                        &&& old(self).users(i) == 0
                        &&& forall|j: int| !#[trigger] old(self).holds(j, device, block)
                    }
                    &&& same_but(*old(self), *final(self), i)
                },
                None => {
                    &&& *final(self) == *old(self)
                    &&& forall|i: int| 0 <= i < CSIZE ==> (#[trigger] old(self).keys()[i]) is Some
                    &&& forall|i: int| !#[trigger] old(self).holds(i, device, block)
                },
            },
    {
        match self.get(device, block) {
            Some((b, _)) => {
                self.overwrite(&b, 0, src);
                Some(b)
            },
            None => None,
        }
    }

    /// Overwrites bytes of a buffer from `at` on.
    pub fn overwrite(&mut self, b: &Buffer, at: usize, src: &Vec<u8>)
        requires
            old(self).wf(),
            old(self).has(*b),
            at + src@.len() <= BSIZE,
        ensures
            final(self).wf(),
            final(self).has(*b),
            final(self).cache == old(self).cache,
            final(self).taken == old(self).taken,
            final(self).data(b.cache_index as int) == spliced(old(self).data(b.cache_index as int), at as int, src@),
            same_but(*old(self), *final(self), b.cache_index as int),
    {
        let ghost before = *self;
        let i = b.cache_index;
        let mut data = zeros(0);
        proof {
            assert(self.data(i as int).len() == BSIZE);
        }
        self.buffers.set_and_swap(i, &mut data);
        copy_into(&mut data, at, src, 0, src.len());
        proof {
            assert(src@.subrange(0, src@.len() as int) =~= src@);
        }
        self.buffers.set(i, data);
        proof {
            lemma_data_set(before, *self, i as int);
        }
    }

    /// A copy of the bytes of a buffer.
    pub fn contents(&self, b: &Buffer) -> (data: Vec<u8>)
        requires
            self.wf(),
            self.has(*b),
        ensures
            data@ == self.data(b.cache_index as int),
    {
        crate::riscv::paging::clone_bytes(&self.buffers[b.cache_index])
    }

    /// Writes a buffer to its block.
    pub fn flush<D: BlockDevice>(&self, disk: &mut D, b: &Buffer)
        requires
            self.wf(),
            self.has(*b),
            b.block_number < old(disk).blocks().len(),
            sized(old(disk).blocks(), BSIZE as int),
        ensures
            final(disk).blocks() == old(disk).blocks().update(b.block_number as int, self.data(b.cache_index as int)),
            final(disk).trace() == old(disk).trace().push((b.block_number as int, self.data(b.cache_index as int))),
    {
        proof {
            assert(self.data(b.cache_index as int).len() == BSIZE);
        }
        disk.write_block(b.block_number, &self.buffers[b.cache_index]);
    }

    /// Gives a buffer back. It leaves the cache where nobody has pinned it.
    pub fn release(&mut self, b: Buffer)
        requires
            old(self).wf(),
            old(self).has(b),
        ensures
            final(self).wf(),
            !final(self).taken@[b.cache_index as int],
            final(self).data(b.cache_index as int) == old(self).data(b.cache_index as int),
            final(self).users(b.cache_index as int) == old(self).users(b.cache_index as int) - 1,
            final(self).keys()[b.cache_index as int] == if old(self).users(b.cache_index as int) == 1 {
                None
            } else {
                old(self).keys()[b.cache_index as int]
            },
            same_but(*old(self), *final(self), b.cache_index as int),
    {
        let i = b.cache_index;
        proof {
            assert(old(self).users(i as int) > 0);
        }
        self.taken.set(i, false);
        let _ = self.cache.release(i);
        proof {
            assert forall|j: int| 0 <= j < CSIZE implies #[trigger] self.users(j) < usize::MAX by {
                assert(old(self).users(j) < usize::MAX);
            }
            assert forall|j: int| 0 <= j < CSIZE && #[trigger] self.taken@[j] implies self.users(j) > 0 by {
                assert(old(self).taken@[j]);
            }
            assert forall|j: int| 0 <= j < CSIZE implies (#[trigger] self.data(j)).len() == BSIZE by {
                assert(self.data(j) == old(self).data(j));
            }
        }
    }

    /// Keeps a buffer in the cache after it is given back.
    pub fn pin(&mut self, b: &Buffer)
        requires
            old(self).wf(),
            old(self).has(*b),
            old(self).users(b.cache_index as int) < usize::MAX - 1,
        ensures
            final(self).wf(),
            final(self).has(*b),
            final(self).taken == old(self).taken,
            final(self).keys() == old(self).keys(),
            final(self).data(b.cache_index as int) == old(self).data(b.cache_index as int),
            final(self).users(b.cache_index as int) == old(self).users(b.cache_index as int) + 1,
            same_but(*old(self), *final(self), b.cache_index as int),
    {
        proof {
            assert(old(self).users(b.cache_index as int) > 0);
        }
        let _ = self.cache.duplicate(b.cache_index);
        proof {
            assert forall|j: int| 0 <= j < CSIZE implies #[trigger] self.users(j) < usize::MAX by {
                assert(old(self).users(j) < usize::MAX);
            }
            assert forall|j: int| 0 <= j < CSIZE && #[trigger] self.taken@[j] implies self.users(j) > 0 by {
                assert(old(self).users(j) > 0);
            }
            assert forall|j: int| 0 <= j < CSIZE implies (#[trigger] self.data(j)).len() == BSIZE by {
                assert(self.data(j) == old(self).data(j));
            }
        }
    }

    /// Undoes one `pin`.
    pub fn unpin(&mut self, b: &Buffer)
        requires
            old(self).wf(),
            old(self).has(*b),
            old(self).users(b.cache_index as int) > 1,
        ensures
            final(self).wf(),
            final(self).has(*b),
            final(self).taken == old(self).taken,
            final(self).keys() == old(self).keys(),
            final(self).data(b.cache_index as int) == old(self).data(b.cache_index as int),
            final(self).users(b.cache_index as int) == old(self).users(b.cache_index as int) - 1,
            same_but(*old(self), *final(self), b.cache_index as int),
    {
        let _ = self.cache.release(b.cache_index);
        proof {
            assert forall|j: int| 0 <= j < CSIZE implies #[trigger] self.users(j) < usize::MAX by {
                assert(old(self).users(j) < usize::MAX);
            }
            assert forall|j: int| 0 <= j < CSIZE && #[trigger] self.taken@[j] implies self.users(j) > 0 by {
                assert(old(self).users(j) > 0);
            }
            assert forall|j: int| 0 <= j < CSIZE implies (#[trigger] self.data(j)).len() == BSIZE by {
                assert(self.data(j) == old(self).data(j));
            }
        }
    }
}

/// Replacing the bytes of one slot keeps the cache well-formed.
proof fn lemma_data_set<const BSIZE: usize, const CSIZE: usize>(
    old: BufferCache<BSIZE, CSIZE>,
    new: BufferCache<BSIZE, CSIZE>,
    i: int,
)
    requires
        old.wf(),
        0 <= i < CSIZE,
        new.cache == old.cache,
        new.taken == old.taken,
        new.buffers@.len() == CSIZE,
        new.data(i).len() == BSIZE,
        forall|j: int| 0 <= j < CSIZE && j != i ==> #[trigger] new.buffers@[j] == old.buffers@[j],
    ensures
        new.wf(),
        same_but(old, new, i),
{
    assert forall|j: int| 0 <= j < CSIZE implies (#[trigger] new.data(j)).len() == BSIZE by {
        if j != i {
            assert(new.buffers@[j] == old.buffers@[j]);
            assert(new.data(j) == old.data(j));
        }
    }
    assert forall|j: int| 0 <= j < CSIZE implies #[trigger] new.users(j) < usize::MAX by {
        assert(old.users(j) < usize::MAX);
    }
    assert forall|j: int| 0 <= j < CSIZE && #[trigger] new.taken@[j] implies new.users(j) > 0 by {
        assert(old.taken@[j]);
        assert(old.users(j) > 0);
    }
}

} // verus!
