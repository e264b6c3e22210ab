//! Buffers that are read when they are first needed and written through.
use vstd::prelude::*;
use crate::filesystem::buffer::{same_but, Buffer, BufferCache as Cache};
use crate::filesystem::bytes::{spliced, zeros};
use crate::filesystem::device::{sized, BlockDevice};

verus! {

/// A cache of `CSIZE` buffers of `BSIZE` bytes.
pub struct BufferCache<const BSIZE: usize, const CSIZE: usize> {
    pub cache: Cache<BSIZE, CSIZE>,
    /// Whether a buffer holds the contents of its block.
    pub is_initialized: Vec<bool>,
}

/// A buffer that somebody has taken.
pub struct BufferGuard {
    pub buffer: Buffer,
}

impl<const BSIZE: usize, const CSIZE: usize> BufferCache<BSIZE, CSIZE> {
    pub open spec fn wf(&self) -> bool {
        self.cache.wf() && self.is_initialized@.len() == CSIZE
    }

    /// `g` was taken from this cache and not given back.
    pub open spec fn has(&self, g: BufferGuard) -> bool {
        self.cache.has(g.buffer)
    }

    /// The bytes that a user of the buffer sees, where `disk` has the blocks.
    pub open spec fn seen(&self, disk: Seq<Seq<u8>>, g: BufferGuard) -> Seq<u8> {
        if self.is_initialized@[g.buffer.cache_index as int] {
            self.cache.data(g.buffer.cache_index as int)
        } else {
            disk[g.buffer.block_number as int]
        }
    }

    pub fn new() -> (this: Self)
        requires
            CSIZE > 0,
        ensures
            this.wf(),
            forall|i: int| 0 <= i < CSIZE ==> (#[trigger] this.cache.keys()[i]) is None,
            forall|i: int| 0 <= i < CSIZE ==> !(#[trigger] this.cache.taken@[i]),
    {
        let mut is_initialized: Vec<bool> = Vec::new();
        let mut i: usize = 0;
        while i < CSIZE
            invariant
                i <= CSIZE,
                is_initialized@.len() == i,
            decreases CSIZE - i,
        {
            is_initialized.push(false);
            i = i + 1;
        }
        BufferCache { cache: Cache::new(), is_initialized }
    }

    /// Takes the buffer of a block, which nobody else may have taken. `None` means that all
    /// buffers are in use.
    pub fn get(&mut self, device: usize, block: usize) -> (r: Option<BufferGuard>)
        requires
            old(self).wf(),
            forall|i: int| #[trigger] old(self).cache.holds(i, device, block) ==> !old(self).cache.taken@[i] && old(self).cache.users(i) < usize::MAX - 1,
        ensures
            final(self).wf(),
            match r {
                Some(g) => {
                    let i = g.buffer.cache_index as int;
                    &&& g.buffer.block_number == block
                    &&& final(self).cache.holds(i, device, block)
                    &&& final(self).has(g)
                    &&& final(self).cache.users(i) == old(self).cache.users(i) + 1
                    &&& final(self).cache.data(i) == old(self).cache.data(i)
                    &&& same_but(old(self).cache, final(self).cache, i)
                    &&& final(self).is_initialized@ == if old(self).cache.holds(i, device, block) {
                        old(self).is_initialized@
                    } else {
                        old(self).is_initialized@.update(i, false)
                    }
                },
                None => {
                    &&& *final(self) == *old(self)
                    &&& forall|i: int| 0 <= i < CSIZE ==> (#[trigger] old(self).cache.keys()[i]) is Some
                    &&& forall|i: int| !#[trigger] old(self).cache.holds(i, device, block)
                },
            },
    {
        match self.cache.get(device, block) {
            Some((buffer, is_new)) => {
                if is_new {
                    self.is_initialized.set(buffer.cache_index, false);
                }
                Some(BufferGuard { buffer })
            },
            None => None,
        }
    }
}

impl BufferGuard {
    /// The size of the buffer in bytes.
    pub fn size<const BSIZE: usize, const CSIZE: usize>(&self, cache: &BufferCache<BSIZE, CSIZE>) -> (r: usize)
        ensures
            r == BSIZE,
    {
        BSIZE
    }

    pub fn block_number(&self) -> (r: usize)
        ensures
            r == self.buffer.block_number,
    {
        self.buffer.block_number
    }

    /// Keeps the buffer in the cache after it is given back.
    pub fn pin<const BSIZE: usize, const CSIZE: usize>(&self, cache: &mut BufferCache<BSIZE, CSIZE>)
        requires
            old(cache).wf(),
            old(cache).has(*self),
            old(cache).cache.users(self.buffer.cache_index as int) < usize::MAX - 1,
        ensures
            final(cache).wf(),
            final(cache).has(*self),
            final(cache).is_initialized == old(cache).is_initialized,
            final(cache).cache.users(self.buffer.cache_index as int) == old(cache).cache.users(self.buffer.cache_index as int) + 1,
            final(cache).cache.data(self.buffer.cache_index as int) == old(cache).cache.data(self.buffer.cache_index as int),
            same_but(old(cache).cache, final(cache).cache, self.buffer.cache_index as int),
    {
        cache.cache.pin(&self.buffer);
    }

    /// Undoes one `pin`.
    pub fn unpin<const BSIZE: usize, const CSIZE: usize>(&self, cache: &mut BufferCache<BSIZE, CSIZE>)
        requires
            old(cache).wf(),
            old(cache).has(*self),
            old(cache).cache.users(self.buffer.cache_index as int) > 1,
        ensures
            final(cache).wf(),
            final(cache).has(*self),
            final(cache).is_initialized == old(cache).is_initialized,
            final(cache).cache.users(self.buffer.cache_index as int) == old(cache).cache.users(self.buffer.cache_index as int) - 1,
            final(cache).cache.data(self.buffer.cache_index as int) == old(cache).cache.data(self.buffer.cache_index as int),
            same_but(old(cache).cache, final(cache).cache, self.buffer.cache_index as int),
    {
        cache.cache.unpin(&self.buffer);
    }

    /// Fills the buffer with zeros.
    pub fn clear<const BSIZE: usize, const CSIZE: usize>(&mut self, cache: &mut BufferCache<BSIZE, CSIZE>)
        requires
            old(cache).wf(),
            old(cache).has(*old(self)),
        ensures
            final(cache).wf(),
            *final(self) == *old(self),
            final(cache).has(*final(self)),
            final(cache).cache.data(old(self).buffer.cache_index as int) == Seq::new(BSIZE as nat, |i: int| 0u8),
            final(cache).is_initialized@ == old(cache).is_initialized@.update(old(self).buffer.cache_index as int, true),
            same_but(old(cache).cache, final(cache).cache, old(self).buffer.cache_index as int),
    {
        let ghost i = self.buffer.cache_index as int;
        proof {
            assert(cache.cache.data(i).len() == BSIZE);
        }
        cache.cache.overwrite(&self.buffer, 0, &zeros(BSIZE));
        cache.is_initialized.set(self.buffer.cache_index, true);
        proof {
            assert(cache.cache.data(i) =~= Seq::new(BSIZE as nat, |i: int| 0u8));
        }
    }

    /// Reads the block where that was not done yet.
    fn load<D: BlockDevice, const BSIZE: usize, const CSIZE: usize>(&self, cache: &mut BufferCache<BSIZE, CSIZE>, disk: &mut D)
        requires
            old(cache).wf(),
            old(cache).has(*self),
            self.buffer.block_number < old(disk).blocks().len(),
            sized(old(disk).blocks(), BSIZE as int),
        ensures
            final(cache).wf(),
            final(cache).has(*self),
            final(disk).blocks() == old(disk).blocks(),
            final(disk).trace() == old(disk).trace(),
            final(cache).cache.data(self.buffer.cache_index as int) == old(cache).seen(old(disk).blocks(), *self),
            final(cache).is_initialized@ == old(cache).is_initialized@.update(self.buffer.cache_index as int, true),
            same_but(old(cache).cache, final(cache).cache, self.buffer.cache_index as int),
    {
        let ghost i = self.buffer.cache_index as int;
        if !cache.is_initialized[self.buffer.cache_index] {
            let data = disk.read_block(self.buffer.block_number);
            proof {
                assert(cache.cache.data(i).len() == BSIZE);
            }
            cache.cache.overwrite(&self.buffer, 0, &data);
            cache.is_initialized.set(self.buffer.cache_index, true);
            proof {
                assert(cache.cache.data(i) =~= data@);
            }
        }
        proof {
            assert(cache.is_initialized@ =~= old(cache).is_initialized@.update(i, true));
        }
    }

    /// The bytes of the block, as an array of elements of `size` bytes: as many as fit.
    pub fn read_array<D: BlockDevice, const BSIZE: usize, const CSIZE: usize>(
        &mut self,
        cache: &mut BufferCache<BSIZE, CSIZE>,
        disk: &mut D,
        size: usize,
    ) -> (r: Vec<u8>)
        requires
            old(cache).wf(),
            old(cache).has(*old(self)),
            old(self).buffer.block_number < old(disk).blocks().len(),
            sized(old(disk).blocks(), BSIZE as int),
            size > 0,
        ensures
            final(cache).wf(),
            *final(self) == *old(self),
            final(cache).has(*final(self)),
            final(disk).blocks() == old(disk).blocks(),
            r@ == old(cache).seen(old(disk).blocks(), *old(self)).take(BSIZE as int / size as int * size as int),
            final(cache).seen(final(disk).blocks(), *final(self)) == old(cache).seen(old(disk).blocks(), *old(self)),
            same_but(old(cache).cache, final(cache).cache, old(self).buffer.cache_index as int),
    {
        self.load(cache, disk);
        let mut r = cache.cache.contents(&self.buffer);
        proof {
            assert(cache.cache.data(self.buffer.cache_index as int).len() == BSIZE);
            vstd::arithmetic::div_mod::lemma_fundamental_div_mod(BSIZE as int, size as int);
            vstd::arithmetic::div_mod::lemma_div_pos_is_pos(BSIZE as int, size as int);
            assert(0 <= BSIZE as int / size as int * size as int <= BSIZE) by (nonlinear_arith)
                requires
                    BSIZE as int == size as int * (BSIZE as int / size as int) + BSIZE as int % size as int,
                    0 <= BSIZE as int % size as int,
                    BSIZE as int / size as int >= 0,
                    size > 0,
            ;
        }
        let n = BSIZE / size * size;
        r.truncate(n);
        r
    }

    /// The first `n` bytes of the block.
    pub fn read<D: BlockDevice, const BSIZE: usize, const CSIZE: usize>(
        &mut self,
        cache: &mut BufferCache<BSIZE, CSIZE>,
        disk: &mut D,
        n: usize,
    ) -> (r: Vec<u8>)
        requires
            old(cache).wf(),
            old(cache).has(*old(self)),
            old(self).buffer.block_number < old(disk).blocks().len(),
            sized(old(disk).blocks(), BSIZE as int),
            n <= BSIZE,
        ensures
            final(cache).wf(),
            *final(self) == *old(self),
            final(cache).has(*final(self)),
            final(disk).blocks() == old(disk).blocks(),
            r@ == old(cache).seen(old(disk).blocks(), *old(self)).take(n as int),
            final(cache).seen(final(disk).blocks(), *final(self)) == old(cache).seen(old(disk).blocks(), *old(self)),
            same_but(old(cache).cache, final(cache).cache, old(self).buffer.cache_index as int),
    {
        self.load(cache, disk);
        let mut r = cache.cache.contents(&self.buffer);
        proof {
            assert(cache.cache.data(self.buffer.cache_index as int).len() == BSIZE);
        }
        r.truncate(n);
        r
    }

    /// Overwrites the first bytes of the buffer, and writes it to the disk. Where the block was
    /// not read before, the bytes after `src` are left over from what the buffer held before.
    pub fn write<D: BlockDevice, const BSIZE: usize, const CSIZE: usize>(
        &mut self,
        cache: &mut BufferCache<BSIZE, CSIZE>,
        disk: &mut D,
        src: &Vec<u8>,
    )
        requires
            old(cache).wf(),
            old(cache).has(*old(self)),
            old(self).buffer.block_number < old(disk).blocks().len(),
            sized(old(disk).blocks(), BSIZE as int),
            src@.len() <= BSIZE,
        ensures
            final(cache).wf(),
            *final(self) == *old(self),
            final(cache).has(*final(self)),
            ({
                let i = old(self).buffer.cache_index as int;
                let data = spliced(old(cache).cache.data(i), 0, src@);
                &&& final(cache).cache.data(i) == data
                &&& final(cache).is_initialized@ == old(cache).is_initialized@.update(i, true)
                &&& final(disk).blocks() == old(disk).blocks().update(old(self).buffer.block_number as int, data)
                &&& same_but(old(cache).cache, final(cache).cache, i)
            }),
    {
        cache.cache.overwrite(&self.buffer, 0, src);
        cache.cache.flush(disk, &self.buffer);
        cache.is_initialized.set(self.buffer.cache_index, true);
    }

    /// Gives the buffer back. It leaves the cache where nobody has pinned it.
    pub fn release<const BSIZE: usize, const CSIZE: usize>(self, cache: &mut BufferCache<BSIZE, CSIZE>)
        requires
            old(cache).wf(),
            old(cache).has(self),
        ensures
            final(cache).wf(),
            !final(cache).cache.taken@[self.buffer.cache_index as int],
            final(cache).is_initialized == old(cache).is_initialized,
            final(cache).cache.users(self.buffer.cache_index as int) == old(cache).cache.users(self.buffer.cache_index as int) - 1,
            final(cache).cache.data(self.buffer.cache_index as int) == old(cache).cache.data(self.buffer.cache_index as int),
            same_but(old(cache).cache, final(cache).cache, self.buffer.cache_index as int),
    {
        cache.cache.release(self.buffer);
    }
}

/// What was written to a block is what is read from it, from the buffer and from the disk.
pub proof fn lemma_written_is_seen<const BSIZE: usize, const CSIZE: usize>(
    c: BufferCache<BSIZE, CSIZE>,
    disk: Seq<Seq<u8>>,
    g: BufferGuard,
    data: Seq<u8>,
    src: Seq<u8>,
)
    requires
        c.has(g),
        c.is_initialized@[g.buffer.cache_index as int],
        src.len() <= data.len(),
        c.cache.data(g.buffer.cache_index as int) == spliced(data, 0, src),
        g.buffer.block_number < disk.len(),
        disk[g.buffer.block_number as int] == spliced(data, 0, src),
    ensures
        c.seen(disk, g).take(src.len() as int) == src,
        disk[g.buffer.block_number as int].take(src.len() as int) == src,
{
    assert(c.seen(disk, g).take(src.len() as int) =~= src);
}

} // verus!
