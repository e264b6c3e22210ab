//! The log, which makes the block writes of a transaction happen together or not at all.
//!
//! A transaction is made of the updates of several system calls. It is committed when none
//! of them is active any more: first the changed blocks are written to the log, then the
//! log's header, which is the moment of commitment, then the blocks themselves, and last an
//! empty header. The header block lists the home blocks; the block after it and so on hold
//! their contents.
use vstd::prelude::*;
use crate::config::{LOGSIZE, MAXOPBLOCKS, NBUF};
use crate::filesystem::buffer::{Buffer, BufferCache, BSIZE};
#[allow(unused_imports)]
use crate::filesystem::buffer::same_but;
use crate::filesystem::bytes::{get_u32, put_u32, zeros};
#[allow(unused_imports)]
use crate::filesystem::bytes::{le32, lemma_le_kept, spliced};
use crate::filesystem::device::BlockDevice;
#[allow(unused_imports)]
use crate::filesystem::device::sized;
use crate::filesystem::superblock::SuperBlock;

verus! {

/// Bytes of the header on disk.
pub const HEADER_BYTES: usize = 124;

/// Number of logged blocks according to a header block.
pub open spec fn header_n(bytes: Seq<u8>) -> int {
    le32(bytes, 0)
}

/// Home of logged block `i` according to a header block.
pub open spec fn header_block(bytes: Seq<u8>, i: int) -> int {
    le32(bytes, 4 + 4 * i)
}

/// Which blocks are logged.
pub struct LogHeader {
    pub n: u32,
    pub block: Vec<u32>,
}

impl LogHeader {
    pub open spec fn wf(&self) -> bool {
        self.block@.len() == LOGSIZE && self.n <= LOGSIZE
    }

    /// Home blocks of the logged blocks.
    pub open spec fn homes(&self) -> Seq<int> {
        Seq::new(self.n as nat, |i: int| self.block@[i] as int)
    }

    /// `bytes` is a header block that says the same.
    pub open spec fn stored_in(&self, bytes: Seq<u8>) -> bool {
        &&& header_n(bytes) == self.n
        &&& forall|i: int| 0 <= i < LOGSIZE ==> #[trigger] header_block(bytes, i) == self.block@[i]
    }

    pub fn empty() -> (this: Self)
        ensures
            this.wf(),
            this.n == 0,
            this.block@ == Seq::new(LOGSIZE as nat, |i: int| 0u32),
    {
        let mut block: Vec<u32> = Vec::new();
        let mut i: usize = 0;
        while i < LOGSIZE
            invariant
                i <= LOGSIZE,
                block@ =~= Seq::new(i as nat, |k: int| 0u32),
            decreases LOGSIZE - i,
        {
            block.push(0);
            i = i + 1;
        }
        LogHeader { n: 0, block }
    }

    fn from_bytes(bytes: &Vec<u8>) -> (this: Self)
        requires
            bytes@.len() == BSIZE,
        ensures
            this.block@.len() == LOGSIZE,
            this.stored_in(bytes@),
    {
        let mut block: Vec<u32> = Vec::new();
        let mut i: usize = 0;
        while i < LOGSIZE
            invariant
                i <= LOGSIZE,
                bytes@.len() == BSIZE,
                block@.len() == i,
                forall|k: int| 0 <= k < i ==> #[trigger] header_block(bytes@, k) == block@[k],
            decreases LOGSIZE - i,
        {
            block.push(get_u32(bytes, 4 + 4 * i));
            i = i + 1;
        }
        LogHeader { n: get_u32(bytes, 0), block }
    }

    fn to_bytes(&self) -> (bytes: Vec<u8>)
        requires
            self.block@.len() == LOGSIZE,
        ensures
            bytes@.len() == HEADER_BYTES,
            self.stored_in(bytes@),
    {
        let mut bytes = zeros(HEADER_BYTES);
        put_u32(&mut bytes, 0, self.n);
        let mut i: usize = 0;
        while i < LOGSIZE
            invariant
                i <= LOGSIZE,
                self.block@.len() == LOGSIZE,
                bytes@.len() == HEADER_BYTES,
                header_n(bytes@) == self.n,
                forall|k: int| 0 <= k < i ==> #[trigger] header_block(bytes@, k) == self.block@[k],
            decreases LOGSIZE - i,
        {
            let ghost before = bytes@;
            put_u32(&mut bytes, 4 + 4 * i, self.block[i]);
            proof {
                lemma_le_kept(before, bytes@, 4 + 4 * i, 4, 0);
                assert forall|k: int| 0 <= k < i implies #[trigger] header_block(bytes@, k) == self.block@[k] by {
                    assert(header_block(before, k) == self.block@[k]);
                    lemma_le_kept(before, bytes@, 4 + 4 * i, 4, 4 + 4 * k);
                }
            }
            i = i + 1;
        }
        bytes
    }
}

/// A header written over the beginning of a block is read back from it.
proof fn lemma_header_spliced(header: LogHeader, bytes: Seq<u8>, block: Seq<u8>)
    requires
        bytes.len() == HEADER_BYTES,
        header.stored_in(bytes),
        block.len() == BSIZE,
    ensures
        header.stored_in(spliced(block, 0, bytes)),
{
    let new = spliced(block, 0, bytes);
    assert(forall|i: int| 0 <= i < 124 ==> #[trigger] new[i] == bytes[i]);
    assert forall|i: int| 0 <= i < LOGSIZE implies #[trigger] header_block(new, i) == header.block@[i] by {
        assert(header_block(bytes, i) == header.block@[i]);
    }
}

/// The state of the log.
pub struct Log {
    pub start: usize,
    pub size: usize,
    pub outstanding: usize,
    pub committing: bool,
    pub device: usize,
    pub header: LogHeader,
    /// How many transactions were committed.
    pub commits: Ghost<nat>,
}

/// The log has room for one more system call beside those that are active.
pub open spec fn may_begin(log: Log) -> bool {
    log.header.n + (log.outstanding + 1) * MAXOPBLOCKS <= LOGSIZE
}

impl Log {
    pub open spec fn homes(&self) -> Seq<int> {
        self.header.homes()
    }

    /// Block `b` belongs to the log itself.
    pub open spec fn in_area(&self, b: int) -> bool {
        self.start <= b < self.start + self.size
    }

    /// `k` more blocks can be logged.
    pub open spec fn room(&self, k: int) -> bool {
        self.header.n + k <= self.size - 1 && self.header.n + k < LOGSIZE
    }

    /// The log fits on a device of `len` blocks, and what is logged does not lie in it.
    pub open spec fn wf(&self, len: int) -> bool {
        &&& self.header.wf()
        &&& 0 < self.size
        &&& self.start + self.size <= len
        &&& len <= usize::MAX
        &&& self.header.n < self.size
        &&& self.header.n < LOGSIZE
        &&& self.outstanding * MAXOPBLOCKS <= LOGSIZE
        &&& self.homes().no_duplicates()
        &&& forall|i: int| 0 <= i < self.homes().len() ==> 0 <= #[trigger] self.homes()[i] < len && !self.in_area(self.homes()[i])
    }

    fn new() -> (this: Self)
        ensures
            this.header.wf(),
            this.header.n == 0,
            this.start == 0,
            this.size == 0,
            this.outstanding == 0,
            !this.committing,
            this.device == 0,
    {
        Log { start: 0, size: 0, outstanding: 0, committing: false, device: 0, header: LogHeader::empty(), commits: Ghost(0) }
    }

    /// A log that knows no device yet.
    pub fn uninit() -> (this: Self)
        ensures
            this.header.wf(),
            this.header.n == 0,
            this.start == 0,
            this.size == 0,
            this.outstanding == 0,
            !this.committing,
            this.device == 0,
    {
        Log::new()
    }

    /// Begins a system call. While a commit is going on, or where the log might run full,
    /// the caller has to wait and try again.
    pub fn start(&mut self) -> (r: Option<Logger>)
        requires
            old(self).header.wf(),
            old(self).outstanding * MAXOPBLOCKS <= LOGSIZE,
        ensures
            r is Some <==> !old(self).committing && may_begin(*old(self)),
            r is Some ==> *final(self) == (Log { outstanding: (old(self).outstanding + 1) as usize, ..*old(self) }),
            r is None ==> *final(self) == *old(self),
    {
        let is_full = self.header.n as usize + (self.outstanding + 1) * MAXOPBLOCKS > LOGSIZE;
        if self.committing || is_full {
            None
        } else {
            self.outstanding = self.outstanding + 1;
            Some(Logger {  })
        }
    }

    /// Notes that a buffer was changed. The buffer stays in the cache until the commit.
    pub fn write(&mut self, buffers: &mut BufferCache<BSIZE, NBUF>, buf: &Buffer)
        requires
            old(self).header.wf(),
            old(self).header.n < LOGSIZE,
            old(self).header.n + 1 < old(self).size,
            old(self).outstanding > 0,
            buf.block_number <= u32::MAX,
            old(buffers).wf(),
            old(buffers).has(*buf),
            old(buffers).users(buf.cache_index as int) < usize::MAX - 1,
        ensures
            final(self).header.wf(),
            final(buffers).wf(),
            final(buffers).has(*buf),
            final(buffers).taken == old(buffers).taken,
            final(buffers).keys() == old(buffers).keys(),
            same_but(*old(buffers), *final(buffers), buf.cache_index as int),
            final(buffers).data(buf.cache_index as int) == old(buffers).data(buf.cache_index as int),
            final(self).start == old(self).start,
            final(self).size == old(self).size,
            final(self).outstanding == old(self).outstanding,
            final(self).committing == old(self).committing,
            final(self).device == old(self).device,
            final(self).commits == old(self).commits,
            if old(self).homes().contains(buf.block_number as int) {
                &&& final(self).header == old(self).header
                &&& *final(buffers) == *old(buffers)
            } else {
                &&& final(self).homes() == old(self).homes().push(buf.block_number as int)
                &&& final(buffers).users(buf.cache_index as int) == old(buffers).users(buf.cache_index as int) + 1
            },
    {
        let len = self.header.n as usize;
        let block = Buffer::block_number(buf) as u32;
        let ghost homes0 = self.homes();
        let mut i: usize = 0;
        while i < len
            invariant
                i <= len,
                len == self.header.n,
                self.header.wf(),
                homes0 == self.homes(),
                block == buf.block_number,
                *self == *old(self),
                *buffers == *old(buffers),
                buffers.wf(),
                buffers.has(*buf),
                forall|k: int| 0 <= k < i ==> #[trigger] homes0[k] != block,
            decreases len - i,
        {
            if self.header.block[i] == block {
                proof {
                    assert(homes0[i as int] == block);
                }
                return ;
            }
            i = i + 1;
        }
        buffers.pin(buf);
        self.header.block.set(len, block);
        self.header.n = self.header.n + 1;
        proof {
            assert(self.homes() =~= homes0.push(block as int));
        }
    }
}

/// A system call that changes blocks.
pub struct Logger {}

impl Logger {
    /// Notes that a buffer was changed.
    pub fn write<D: BlockDevice>(&self, storage: &mut Storage<D>, buf: &Buffer)
        requires
            old(storage).log.header.wf(),
            old(storage).log.header.n < LOGSIZE,
            old(storage).log.header.n + 1 < old(storage).log.size,
            old(storage).log.outstanding > 0,
            buf.block_number <= u32::MAX,
            old(storage).buffers.wf(),
            old(storage).buffers.has(*buf),
            old(storage).buffers.users(buf.cache_index as int) < usize::MAX - 1,
        ensures
            final(storage).device == old(storage).device,
            final(storage).buffers.data(buf.cache_index as int) == old(storage).buffers.data(buf.cache_index as int),
            same_but(old(storage).buffers, final(storage).buffers, buf.cache_index as int),
            if old(storage).log.homes().contains(buf.block_number as int) {
                *final(storage) == *old(storage)
            } else {
                &&& final(storage).log.homes() == old(storage).log.homes().push(buf.block_number as int)
                &&& final(storage).buffers.users(buf.cache_index as int) == old(storage).buffers.users(buf.cache_index as int) + 1
            },
    {
        storage.log.write(&mut storage.buffers, buf);
    }
}

/// A device with its buffers and its log.
pub struct Storage<D> {
    pub device: D,
    pub buffers: BufferCache<BSIZE, NBUF>,
    pub log: Log,
}

impl<D: BlockDevice> Storage<D> {
    /// Slot of the buffer cache that holds block `b`.
    pub open spec fn slot_of(&self, b: int) -> int {
        choose|i: int| #[trigger] self.buffers.holds(i, self.log.device, b as usize)
    }

    /// No buffer is taken, and from log entry `lo` on exactly the logged blocks are in the
    /// cache, pinned once.
    pub open spec fn pinned_from(&self, lo: int) -> bool {
        &&& self.buffers.wf()
        &&& forall|i: int| 0 <= i < NBUF ==> !(#[trigger] self.buffers.taken@[i])
        &&& forall|i: int| 0 <= i < NBUF && (#[trigger] self.buffers.keys()[i]) is Some ==> {
            &&& self.buffers.keys()[i]->0.device == self.log.device
            &&& self.log.homes().skip(lo).contains(self.buffers.keys()[i]->0.block as int)
            &&& self.buffers.users(i) == 1
        }
        &&& forall|j: int| lo <= j < self.log.homes().len() ==> self.buffers.holds(
            self.slot_of(#[trigger] self.log.homes()[j]),
            self.log.device,
            self.log.homes()[j] as usize,
        )
    }

    pub open spec fn wf(&self) -> bool {
        &&& sized(self.device.blocks(), BSIZE as int)
        &&& self.log.wf(self.device.blocks().len() as int)
        &&& !self.log.committing
        &&& self.pinned_from(0)
    }

    /// The blocks as system calls see them: logged blocks come from the cache.
    pub open spec fn view(&self) -> Seq<Seq<u8>> {
        Seq::new(
            self.device.blocks().len(),
            |b: int|
                if self.log.homes().contains(b) {
                    self.buffers.data(self.slot_of(b))
                } else {
                    self.device.blocks()[b]
                },
        )
    }

    /// A block is in one slot only.
    proof fn lemma_slot(&self, i: int, b: int)
        requires
            self.buffers.wf(),
            0 <= b <= usize::MAX,
            self.buffers.holds(i, self.log.device, b as usize),
        ensures
            self.slot_of(b) == i,
    {
        let s = self.slot_of(b);
        assert(self.buffers.holds(s, self.log.device, b as usize));
        if s != i {
            assert(self.buffers.cache.cache.links@[s].key == self.buffers.keys()[s]);
            assert(self.buffers.cache.cache.links@[i].key == self.buffers.keys()[i]);
            if s < i {
                assert(self.buffers.cache.cache.links@[s].key != self.buffers.cache.cache.links@[i].key);
            } else {
                assert(self.buffers.cache.cache.links@[i].key != self.buffers.cache.cache.links@[s].key);
            }
        }
    }

    /// While fewer blocks are logged than there are slots, a slot is free.
    proof fn lemma_free_slot(&self, lo: int)
        requires
            self.pinned_from(lo),
            0 <= lo <= self.log.homes().len(),
            self.log.homes().len() < NBUF,
        ensures
            exists|i: int| 0 <= i < NBUF && (#[trigger] self.buffers.keys()[i]) is None,
    {
        if forall|i: int| 0 <= i < NBUF ==> (#[trigger] self.buffers.keys()[i]) is Some {
            let homes = self.log.homes().skip(lo);
            let s = Seq::new(NBUF as nat, |i: int| self.buffers.keys()[i]->0.block as int);
            assert(s.no_duplicates()) by {
                assert forall|i: int, j: int| 0 <= i < j < s.len() implies s[i] != s[j] by {
                    assert(self.buffers.cache.cache.links@[i].key == self.buffers.keys()[i]);
                    assert(self.buffers.cache.cache.links@[j].key == self.buffers.keys()[j]);
                    assert(self.buffers.keys()[i]->0.device == self.buffers.keys()[j]->0.device);
                }
            }
            assert(s.to_set().subset_of(homes.to_set())) by {
                assert forall|b: int| s.to_set().contains(b) implies homes.to_set().contains(b) by {
                    let i = choose|i: int| 0 <= i < s.len() && s[i] == b;
                    assert(self.buffers.keys()[i] is Some);
                }
            }
            s.unique_seq_to_set();
            homes.lemma_cardinality_of_set();
            vstd::set_lib::lemma_len_subset(s.to_set(), homes.to_set());
            assert(false);
        }
    }

    /// The contents of block `b`.
    pub fn load(&mut self, b: usize) -> (data: Vec<u8>)
        requires
            old(self).wf(),
            b < old(self).device.blocks().len(),
        ensures
            final(self).wf(),
            data@ == old(self).view()[b as int],
            data@.len() == BSIZE,
            final(self).view() == old(self).view(),
            final(self).log == old(self).log,
            final(self).device.blocks() == old(self).device.blocks(),
            final(self).device.trace() == old(self).device.trace(),
    {
        proof {
            self.lemma_load_ready(0, b);
        }
        self.load_from(Ghost(0), b)
    }

    proof fn lemma_load_ready(&self, lo: int, b: usize)
        requires
            self.pinned_from(lo),
            0 <= lo <= self.log.homes().len(),
            self.log.wf(self.device.blocks().len() as int),
        ensures
            forall|i: int| #[trigger] self.buffers.holds(i, self.log.device, b) ==> !self.buffers.taken@[i] && self.buffers.users(i) < usize::MAX - 1,
            forall|i: int| #[trigger] self.buffers.holds(i, self.log.device, b) ==> self.slot_of(b as int) == i && self.log.homes().skip(
                lo,
            ).contains(b as int),
            exists|i: int| 0 <= i < NBUF && (#[trigger] self.buffers.keys()[i]) is None,
    {
        assert forall|i: int| #[trigger] self.buffers.holds(i, self.log.device, b) implies !self.buffers.taken@[i] && self.buffers.users(i)
            < usize::MAX - 1 && self.slot_of(b as int) == i && self.log.homes().skip(lo).contains(b as int) by {
            assert(self.buffers.keys()[i] is Some);
            self.lemma_slot(i, b as int);
        }
        self.lemma_free_slot(lo);
    }

    /// Reads a block while the log entries before `lo` are installed already.
    #[verifier::rlimit(40)]
    fn load_from(&mut self, Ghost(lo): Ghost<int>, b: usize) -> (data: Vec<u8>)
        requires
            old(self).pinned_from(lo),
            sized(old(self).device.blocks(), BSIZE as int),
            old(self).log.wf(old(self).device.blocks().len() as int),
            0 <= lo <= old(self).log.homes().len(),
            b < old(self).device.blocks().len(),
        ensures
            final(self).pinned_from(lo),
            data@.len() == BSIZE,
            data@ == if old(self).log.homes().skip(lo).contains(b as int) {
                old(self).buffers.data(old(self).slot_of(b as int))
            } else {
                old(self).device.blocks()[b as int]
            },
            final(self).log == old(self).log,
            final(self).device.blocks() == old(self).device.blocks(),
            final(self).device.trace() == old(self).device.trace(),
            forall|j: int| lo <= j < old(self).log.homes().len() ==> final(self).buffers.data(
                final(self).slot_of(#[trigger] old(self).log.homes()[j]),
            ) == old(self).buffers.data(old(self).slot_of(old(self).log.homes()[j])),
            lo == 0 ==> final(self).view() == old(self).view(),
    {
        let ghost s0 = *self;
        let ghost dev = self.log.device;
        proof {
            self.lemma_load_ready(lo, b);
        }
        let buf = match self.buffers.with_read(&mut self.device, self.log.device, b) {
            Some(buf) => buf,
            None => {
                proof {
                    assert(false);
                }
                return zeros(BSIZE);
            },
        };
        let ghost i = buf.cache_index as int;
        let data = self.buffers.contents(&buf);
        proof {
            assert(self.buffers.data(i).len() == BSIZE);
        }
        let ghost s1 = *self;
        self.buffers.release(buf);
        proof {
            lemma_slots_back(s0, s1, *self, lo, i, b);
            if s0.log.homes().skip(lo).contains(b as int) {
                let j = choose|j: int| 0 <= j < s0.log.homes().skip(lo).len() && s0.log.homes().skip(lo)[j] == b;
                assert(s0.log.homes()[j + lo] == b);
                assert(s0.buffers.holds(s0.slot_of(b as int), dev, b));
            }
            if lo == 0 {
                assert(self.view() =~= s0.view()) by {
                    assert forall|x: int| 0 <= x < s0.view().len() implies self.view()[x] == s0.view()[x] by {
                        if s0.log.homes().contains(x) {
                            let j = choose|j: int| 0 <= j < s0.log.homes().len() && s0.log.homes()[j] == x;
                            assert(self.buffers.data(self.slot_of(s0.log.homes()[j])) == s0.buffers.data(s0.slot_of(s0.log.homes()[j])));
                        }
                    }
                }
            }
        }
        data
    }
}

/// Taking a buffer and giving it back changes nothing that matters.
proof fn lemma_slots_back<D: BlockDevice>(s0: Storage<D>, s1: Storage<D>, s2: Storage<D>, lo: int, i: int, b: usize)
    requires
        s0.pinned_from(lo),
        s0.log.wf(s0.device.blocks().len() as int),
        0 <= lo <= s0.log.homes().len(),
        s1.log == s0.log,
        s2.log == s0.log,
        s2.buffers.wf(),
        0 <= i < NBUF,
        s1.buffers.holds(i, s0.log.device, b),
        s1.buffers.users(i) == s0.buffers.users(i) + 1,
        s0.buffers.holds(i, s0.log.device, b) ==> s1.buffers.data(i) == s0.buffers.data(i),
        !s0.buffers.holds(i, s0.log.device, b) ==> s0.buffers.keys()[i] is None && s0.buffers.users(i) == 0,
        same_but(s0.buffers, s1.buffers, i),
        same_but(s1.buffers, s2.buffers, i),
        !s2.buffers.taken@[i],
        s2.buffers.data(i) == s1.buffers.data(i),
        s2.buffers.users(i) == s1.buffers.users(i) - 1,
        s2.buffers.keys()[i] == if s1.buffers.users(i) == 1 { None } else { s1.buffers.keys()[i] },
    ensures
        s2.pinned_from(lo),
        forall|j: int| lo <= j < s0.log.homes().len() ==> s2.buffers.data(s2.slot_of(#[trigger] s0.log.homes()[j])) == s0.buffers.data(
            s0.slot_of(s0.log.homes()[j]),
        ),
        s2.buffers.keys() == s0.buffers.keys(),
{
    assert forall|k: int| 0 <= k < NBUF implies s2.buffers.keys()[k] == s0.buffers.keys()[k] && s2.buffers.users(k) == s0.buffers.users(
        k,
    ) && !(#[trigger] s2.buffers.taken@[k]) && (s0.buffers.keys()[k] is Some ==> s2.buffers.data(k) == s0.buffers.data(k)) by {
        assert(!s0.buffers.taken@[k]);
        if k != i {
            assert(s1.buffers.data(k) == s0.buffers.data(k));
            assert(s2.buffers.data(k) == s1.buffers.data(k));
        } else if s0.buffers.keys()[i] is Some {
            assert(s0.buffers.users(i) == 1);
        }
    }
    assert(s2.buffers.keys() =~= s0.buffers.keys()) by {
        assert forall|k: int| 0 <= k < NBUF implies s2.buffers.keys()[k] == s0.buffers.keys()[k] by {
            assert(!s2.buffers.taken@[k]);
        }
    }
    assert forall|k: int| 0 <= k < NBUF && (#[trigger] s2.buffers.keys()[k]) is Some implies {
        &&& s2.buffers.keys()[k]->0.device == s2.log.device
        &&& s2.log.homes().skip(lo).contains(s2.buffers.keys()[k]->0.block as int)
        &&& s2.buffers.users(k) == 1
    } by {
        assert(!s2.buffers.taken@[k]);
        assert(s0.buffers.keys()[k] is Some);
    }
    assert forall|j: int| lo <= j < s0.log.homes().len() implies s2.buffers.data(s2.slot_of(#[trigger] s0.log.homes()[j]))
        == s0.buffers.data(s0.slot_of(s0.log.homes()[j])) && s2.buffers.holds(
        s2.slot_of(s0.log.homes()[j]),
        s0.log.device,
        s0.log.homes()[j] as usize,
    ) by {
        let x = s0.log.homes()[j];
        let k = s0.slot_of(x);
        assert(s0.buffers.holds(k, s0.log.device, x as usize));
        assert(!s2.buffers.taken@[k]);
        assert(s2.buffers.holds(k, s0.log.device, x as usize));
        s2.lemma_slot(k, x);
    }
}

/// Logged contents, in the order of the log.
pub open spec fn logged_data<D: BlockDevice>(s: Storage<D>) -> Seq<Seq<u8>> {
    Seq::new(s.log.homes().len(), |j: int| s.buffers.data(s.slot_of(s.log.homes()[j])))
}

/// The first `k` writes to the log.
pub open spec fn log_part(start: int, data: Seq<Seq<u8>>, k: int) -> Seq<(int, Seq<u8>)> {
    Seq::new(k as nat, |i: int| (start + 1 + i, data[i]))
}

/// The first `k` writes to home blocks.
pub open spec fn home_part(homes: Seq<int>, data: Seq<Seq<u8>>, k: int) -> Seq<(int, Seq<u8>)> {
    Seq::new(k as nat, |i: int| (homes[i], data[i]))
}

/// All writes of a commit, in order. `h1` is the header that commits and `h2` the empty one.
pub open spec fn commit_writes(
    start: int,
    homes: Seq<int>,
    data: Seq<Seq<u8>>,
    h1: Seq<u8>,
    h2: Seq<u8>,
) -> Seq<(int, Seq<u8>)> {
    let n = homes.len() as int;
    log_part(start, data, n).push((start, h1)) + home_part(homes, data, n).push((start, h2))
}

/// A disk after some writes.
pub open spec fn apply_writes(disk: Seq<Seq<u8>>, writes: Seq<(int, Seq<u8>)>) -> Seq<Seq<u8>>
    decreases writes.len(),
{
    if writes.len() == 0 {
        disk
    } else {
        apply_writes(disk, writes.drop_last()).update(writes.last().0, writes.last().1)
    }
}

/// A disk after the first `k` log blocks were copied to their homes.
pub open spec fn installed(disk: Seq<Seq<u8>>, start: int, homes: Seq<int>, k: int) -> Seq<Seq<u8>>
    decreases k,
{
    if k <= 0 {
        disk
    } else {
        installed(disk, start, homes, k - 1).update(homes[k - 1], disk[start + k])
    }
}

/// Homes that a header block lists.
pub open spec fn header_homes(bytes: Seq<u8>) -> Seq<int> {
    Seq::new(header_n(bytes) as nat, |i: int| header_block(bytes, i))
}

/// What recovery makes of a disk, apart from the header block.
pub open spec fn recovered(disk: Seq<Seq<u8>>, start: int) -> Seq<Seq<u8>> {
    installed(disk, start, header_homes(disk[start]), header_n(disk[start]))
}

pub proof fn lemma_apply_len(disk: Seq<Seq<u8>>, writes: Seq<(int, Seq<u8>)>)
    requires
        forall|i: int| 0 <= i < writes.len() ==> 0 <= (#[trigger] writes[i]).0 < disk.len(),
    ensures
        apply_writes(disk, writes).len() == disk.len(),
    decreases writes.len(),
{
    if writes.len() > 0 {
        lemma_apply_len(disk, writes.drop_last());
    }
}

proof fn lemma_apply_add(disk: Seq<Seq<u8>>, s: Seq<(int, Seq<u8>)>, t: Seq<(int, Seq<u8>)>)
    ensures
        apply_writes(disk, s + t) == apply_writes(apply_writes(disk, s), t),
    decreases t.len(),
{
    if t.len() == 0 {
        assert(s + t =~= s);
    } else {
        assert((s + t).drop_last() =~= s + t.drop_last());
        lemma_apply_add(disk, s, t.drop_last());
    }
}

proof fn lemma_apply_push(disk: Seq<Seq<u8>>, s: Seq<(int, Seq<u8>)>, w: (int, Seq<u8>))
    ensures
        apply_writes(disk, s.push(w)) == apply_writes(disk, s).update(w.0, w.1),
{
    assert(s.push(w).drop_last() =~= s);
}

/// What the writes to the log do.
proof fn lemma_log_part(disk: Seq<Seq<u8>>, start: int, data: Seq<Seq<u8>>, k: int, b: int)
    requires
        0 <= k <= data.len(),
        0 <= start,
        start + 1 + k <= disk.len(),
        0 <= b < disk.len(),
    ensures
        apply_writes(disk, log_part(start, data, k))[b] == if start < b <= start + k {
            data[b - start - 1]
        } else {
            disk[b]
        },
    decreases k,
{
    if k > 0 {
        lemma_log_part(disk, start, data, k - 1, b);
        assert(log_part(start, data, k).drop_last() =~= log_part(start, data, k - 1));
        lemma_apply_len(disk, log_part(start, data, k - 1));
    }
}

/// What the writes to home blocks do.
proof fn lemma_home_part(disk: Seq<Seq<u8>>, homes: Seq<int>, data: Seq<Seq<u8>>, k: int, b: int)
    requires
        0 <= k <= data.len(),
        data.len() == homes.len(),
        homes.no_duplicates(),
        forall|i: int| 0 <= i < homes.len() ==> 0 <= #[trigger] homes[i] < disk.len(),
        0 <= b < disk.len(),
    ensures
        forall|i: int| 0 <= i < k && #[trigger] homes[i] == b ==> apply_writes(disk, home_part(homes, data, k))[b] == data[i],
        (forall|i: int| 0 <= i < k ==> #[trigger] homes[i] != b) ==> apply_writes(disk, home_part(homes, data, k))[b] == disk[b],
    decreases k,
{
    if k > 0 {
        lemma_home_part(disk, homes, data, k - 1, b);
        assert(home_part(homes, data, k).drop_last() =~= home_part(homes, data, k - 1));
        lemma_apply_len(disk, home_part(homes, data, k - 1));
    }
}

/// What installing does.
pub proof fn lemma_installed(disk: Seq<Seq<u8>>, start: int, homes: Seq<int>, k: int, b: int)
    requires
        0 <= k <= homes.len(),
        homes.no_duplicates(),
        forall|i: int| 0 <= i < homes.len() ==> 0 <= #[trigger] homes[i] < disk.len(),
        0 <= b < disk.len(),
    ensures
        installed(disk, start, homes, k).len() == disk.len(),
        forall|i: int| 0 <= i < k && #[trigger] homes[i] == b ==> installed(disk, start, homes, k)[b] == disk[start + i + 1],
        (forall|i: int| 0 <= i < k ==> #[trigger] homes[i] != b) ==> installed(disk, start, homes, k)[b] == disk[b],
    decreases k,
{
    if k > 0 {
        lemma_installed(disk, start, homes, k - 1, b);
    }
}

/// A commit is atomic: wherever it is cut short between two writes, recovery finds either
/// the disk before the transaction or the disk after it, in all blocks outside of the log.
pub proof fn lemma_commit_atomic(
    disk: Seq<Seq<u8>>,
    start: int,
    size: int,
    homes: Seq<int>,
    data: Seq<Seq<u8>>,
    h1: Seq<u8>,
    h2: Seq<u8>,
    k: int,
    b: int,
)
    requires
        0 <= start,
        homes.len() < size,
        start + size <= disk.len(),
        data.len() == homes.len(),
        homes.no_duplicates(),
        forall|i: int| 0 <= i < homes.len() ==> 0 <= #[trigger] homes[i] < disk.len() && !(start <= homes[i] < start + size),
        header_n(disk[start]) == 0,
        header_n(h1) == homes.len(),
        header_homes(h1) == homes,
        header_n(h2) == 0,
        0 <= k <= commit_writes(start, homes, data, h1, h2).len(),
        0 <= b < disk.len(),
        !(start <= b < start + size),
    ensures
        ({
            let cut = apply_writes(disk, commit_writes(start, homes, data, h1, h2).take(k));
            let after = recovered(cut, start)[b];
            if k <= homes.len() {
                after == disk[b]
            } else {
                &&& homes.contains(b) ==> exists|i: int| 0 <= i < homes.len() && #[trigger] homes[i] == b && after == data[i]
                &&& !homes.contains(b) ==> after == disk[b]
            }
        }),
{
    let n = homes.len() as int;
    let writes = commit_writes(start, homes, data, h1, h2);
    let lp = log_part(start, data, n);
    let hp = home_part(homes, data, n);
    let cut = apply_writes(disk, writes.take(k));
    assert forall|i: int| 0 <= i < k implies 0 <= (#[trigger] writes.take(k)[i]).0 < disk.len() by {
        if i > n && i <= 2 * n {
            assert(writes[i].0 == homes[i - n - 1]);
        }
    }
    lemma_apply_len(disk, writes.take(k));
    let none = Seq::<int>::empty();
    if k <= n {
        assert(writes.take(k) =~= log_part(start, data, k));
        lemma_log_part(disk, start, data, k, start);
        lemma_log_part(disk, start, data, k, b);
        assert(header_homes(cut[start]) =~= none);
        lemma_installed(cut, start, none, 0, b);
    } else {
        let d1 = apply_writes(disk, lp);
        let d2 = d1.update(start, h1);
        lemma_apply_len(disk, lp);
        lemma_apply_push(disk, lp, (start, h1));
        if k <= 2 * n + 1 {
            let m = k - n - 1;
            assert(writes.take(k) =~= lp.push((start, h1)) + home_part(homes, data, m));
            lemma_apply_add(disk, lp.push((start, h1)), home_part(homes, data, m));
            assert(cut == apply_writes(d2, home_part(homes, data, m)));
            assert forall|x: int| start <= x < start + size implies #[trigger] cut[x] == d2[x] by {
                lemma_home_part(d2, homes, data, m, x);
            }
            lemma_home_part(d2, homes, data, m, b);
            assert(cut[start] == h1);
            lemma_installed(cut, start, homes, n, b);
            lemma_log_part(disk, start, data, n, b);
            if homes.contains(b) {
                let i = choose|i: int| 0 <= i < homes.len() && homes[i] == b;
                lemma_log_part(disk, start, data, n, start + i + 1);
                assert(cut[start + i + 1] == data[i]);
                assert(homes[i] == b);
            } else {
                assert forall|i: int| 0 <= i < n implies #[trigger] homes[i] != b by {
                    assert(homes.contains(homes[i]));
                }
            }
        } else {
            assert(writes.take(k) =~= writes);
            lemma_apply_add(disk, lp.push((start, h1)), hp.push((start, h2)));
            lemma_apply_push(d2, hp, (start, h2));
            let d3 = apply_writes(d2, hp);
            lemma_apply_len(d2, hp);
            assert(cut == d3.update(start, h2));
            assert(header_homes(cut[start]) =~= none);
            lemma_installed(cut, start, none, 0, b);
            lemma_home_part(d2, homes, data, n, b);
            lemma_log_part(disk, start, data, n, b);
            if homes.contains(b) {
                let i = choose|i: int| 0 <= i < homes.len() && homes[i] == b;
                assert(homes[i] == b);
            } else {
                assert forall|i: int| 0 <= i < n implies #[trigger] homes[i] != b by {
                    assert(homes.contains(homes[i]));
                }
            }
        }
    }
}


impl<D: BlockDevice> Storage<D> {
    /// Replaces the contents of block `b` and logs the change.
    #[verifier::rlimit(60)]
    pub fn store(&mut self, b: usize, data: &Vec<u8>)
        requires
            old(self).wf(),
            b < old(self).device.blocks().len(),
            b <= u32::MAX,
            !old(self).log.in_area(b as int),
            old(self).log.outstanding > 0,
            old(self).log.room(1),
            data@.len() == BSIZE,
        ensures
            final(self).wf(),
            final(self).view() == old(self).view().update(b as int, data@),
            final(self).device == old(self).device,
            final(self).log.start == old(self).log.start,
            final(self).log.size == old(self).log.size,
            final(self).log.outstanding == old(self).log.outstanding,
            final(self).log.device == old(self).log.device,
            final(self).log.commits == old(self).log.commits,
            final(self).log.homes() == if old(self).log.homes().contains(b as int) {
                old(self).log.homes()
            } else {
                old(self).log.homes().push(b as int)
            },
    {
        let ghost s0 = *self;
        let ghost dev = self.log.device;
        proof {
            self.lemma_load_ready(0, b);
        }
        let buf = match self.buffers.with_write(self.log.device, b, data) {
            Some(buf) => buf,
            None => {
                proof {
                    assert(false);
                }
                return ;
            },
        };
        let ghost i = buf.cache_index as int;
        let ghost s1 = *self;
        proof {
            assert(s0.buffers.data(i).len() == BSIZE);
            assert(s1.buffers.data(i) =~= data@);
            assert(s0.buffers.users(i) <= 1);
        }
        self.log.write(&mut self.buffers, &buf);
        let ghost s2 = *self;
        self.buffers.release(buf);
        proof {
            lemma_stored(s0, s1, s2, *self, i, b, data@);
        }
    }
}

/// Changing and pinning a buffer changes what is seen of its block.
#[verifier::rlimit(60)]
proof fn lemma_stored<D: BlockDevice>(
    s0: Storage<D>,
    s1: Storage<D>,
    s2: Storage<D>,
    s3: Storage<D>,
    i: int,
    b: usize,
    data: Seq<u8>,
)
    requires
        s0.wf(),
        b < s0.device.blocks().len(),
        !s0.log.in_area(b as int),
        s0.log.room(1),
        0 <= i < NBUF,
        s1.log == s0.log,
        s1.device == s0.device,
        s2.device == s0.device,
        s3.device == s0.device,
        s3.log == s2.log,
        s3.buffers.wf(),
        s1.buffers.holds(i, s0.log.device, b),
        s1.buffers.users(i) == s0.buffers.users(i) + 1,
        s1.buffers.data(i) == data,
        !s0.buffers.holds(i, s0.log.device, b) ==> {
            &&& s0.buffers.keys()[i] is None
            &&& s0.buffers.users(i) == 0
            &&& forall|j: int| !#[trigger] s0.buffers.holds(j, s0.log.device, b)
        },
        same_but(s0.buffers, s1.buffers, i),
        same_but(s1.buffers, s2.buffers, i),
        same_but(s2.buffers, s3.buffers, i),
        s2.buffers.data(i) == data,
        s3.buffers.data(i) == data,
        s2.buffers.keys() == s1.buffers.keys(),
        s2.log.start == s0.log.start,
        s2.log.size == s0.log.size,
        s2.log.outstanding == s0.log.outstanding,
        s2.log.committing == s0.log.committing,
        s2.log.device == s0.log.device,
        s2.log.header.wf(),
        if s0.log.homes().contains(b as int) {
            s2.log.header == s0.log.header && s2.buffers.users(i) == s1.buffers.users(i)
        } else {
            &&& s2.log.homes() == s0.log.homes().push(b as int)
            &&& s2.buffers.users(i) == s1.buffers.users(i) + 1
        },
        !s3.buffers.taken@[i],
        s3.buffers.users(i) == s2.buffers.users(i) - 1,
        s3.buffers.keys()[i] == if s2.buffers.users(i) == 1 { None } else { s2.buffers.keys()[i] },
    ensures
        s3.wf(),
        s3.view() == s0.view().update(b as int, data),
{
    let homes0 = s0.log.homes();
    let homes3 = s3.log.homes();
    let dev = s0.log.device;
    if homes0.contains(b as int) {
        let j = choose|j: int| 0 <= j < homes0.len() && homes0[j] == b;
        assert(s0.buffers.holds(s0.slot_of(homes0[j]), dev, b));
        assert(s0.buffers.holds(i, dev, b));
        assert(s0.buffers.keys()[i] is Some);
        assert(s0.buffers.users(i) == 1);
    } else {
        if s0.buffers.holds(i, dev, b) {
            assert(s0.buffers.keys()[i] is Some);
            assert(s0.log.homes().skip(0) =~= homes0);
        }
        assert(homes3[homes0.len() as int] == b);
    }
    assert(s3.buffers.holds(i, dev, b));
    assert(s3.buffers.users(i) == 1);
    assert(homes3.contains(b as int));
    assert forall|x: int| homes3.contains(x) <==> #[trigger] homes0.contains(x) || x == b by {
        if homes0.contains(x) {
            let j = choose|j: int| 0 <= j < homes0.len() && homes0[j] == x;
            assert(homes3[j] == x);
        }
        if homes3.contains(x) {
            let j = choose|j: int| 0 <= j < homes3.len() && homes3[j] == x;
            if j < homes0.len() {
                assert(homes0[j] == x);
            }
        }
    }
    assert(homes3.skip(0) =~= homes3);
    assert(homes0.skip(0) =~= homes0);
    assert forall|k: int| 0 <= k < NBUF implies !(#[trigger] s3.buffers.taken@[k]) && (k != i ==> s3.buffers.keys()[k]
        == s0.buffers.keys()[k] && s3.buffers.users(k) == s0.buffers.users(k) && s3.buffers.data(k) == s0.buffers.data(k)) by {
        assert(!s0.buffers.taken@[k]);
        if k != i {
            assert(s1.buffers.data(k) == s0.buffers.data(k));
            assert(s2.buffers.data(k) == s1.buffers.data(k));
            assert(s3.buffers.data(k) == s2.buffers.data(k));
        }
    }
    assert forall|k: int| 0 <= k < NBUF && (#[trigger] s3.buffers.keys()[k]) is Some implies {
        &&& s3.buffers.keys()[k]->0.device == s3.log.device
        &&& homes3.skip(0).contains(s3.buffers.keys()[k]->0.block as int)
        &&& s3.buffers.users(k) == 1
    } by {
        assert(!s3.buffers.taken@[k]);
        if k != i {
            assert(s0.buffers.keys()[k] is Some);
            assert(homes0.contains(s0.buffers.keys()[k]->0.block as int));
        }
    }
    assert forall|j: int| 0 <= j < homes3.len() implies s3.buffers.holds(s3.slot_of(#[trigger] homes3[j]), dev, homes3[j] as usize) && (
    homes3[j] != b ==> s3.buffers.data(s3.slot_of(homes3[j])) == s0.buffers.data(s0.slot_of(homes3[j]))) by {
        let x = homes3[j];
        if x == b {
            s3.lemma_slot(i, x);
        } else {
            assert(j < homes0.len());
            assert(homes0[j] == x);
            let k = s0.slot_of(x);
            assert(s0.buffers.holds(k, dev, x as usize));
            assert(k != i);
            assert(!s3.buffers.taken@[k]);
            assert(s3.buffers.holds(k, dev, x as usize));
            s3.lemma_slot(k, x);
        }
    }
    s3.lemma_slot(i, b as int);
    assert forall|x: int| 0 <= x < s0.view().len() implies #[trigger] s3.view()[x] == s0.view().update(b as int, data)[x] by {
        assert(homes3.contains(x) <==> homes0.contains(x) || x == b);
        if x != b && homes0.contains(x) {
            let j = choose|j: int| 0 <= j < homes3.len() && homes3[j] == x;
            assert(s3.buffers.data(s3.slot_of(homes3[j])) == s0.buffers.data(s0.slot_of(homes3[j])));
        }
    }
    assert(s3.view() =~= s0.view().update(b as int, data));
    assert(homes3.no_duplicates());
    assert forall|j: int| 0 <= j < homes3.len() implies 0 <= #[trigger] homes3[j] < s0.device.blocks().len() && !s3.log.in_area(homes3[j]) by {
        if j < homes0.len() {
            assert(homes0[j] == homes3[j]);
        }
    }
}


impl<D: BlockDevice> Storage<D> {
    /// Everything that holds while a commit is going on: the log entries before `lo` are
    /// installed.
    pub open spec fn working(&self, lo: int) -> bool {
        &&& sized(self.device.blocks(), BSIZE as int)
        &&& self.log.wf(self.device.blocks().len() as int)
        &&& 0 <= lo <= self.log.homes().len()
        &&& self.pinned_from(lo)
    }

    /// Overwrites the beginning of a block that is not in the cache, at once on the device.
    /// What is written is returned.
    #[verifier::rlimit(40)]
    fn write_through(&mut self, Ghost(lo): Ghost<int>, b: usize, src: &Vec<u8>) -> (w: Ghost<Seq<u8>>)
        requires
            old(self).working(lo),
            b < old(self).device.blocks().len(),
            !old(self).log.homes().skip(lo).contains(b as int),
            src@.len() <= BSIZE,
        ensures
            final(self).working(lo),
            final(self).log == old(self).log,
            w@.len() == BSIZE,
            exists|x: Seq<u8>| #![trigger spliced(x, 0, src@)] x.len() == BSIZE && w@ == spliced(x, 0, src@),
            src@.len() == BSIZE ==> w@ == src@,
            final(self).device.blocks() == old(self).device.blocks().update(b as int, w@),
            final(self).device.trace() == old(self).device.trace().push((b as int, w@)),
            forall|j: int| lo <= j < old(self).log.homes().len() ==> final(self).buffers.data(
                final(self).slot_of(#[trigger] old(self).log.homes()[j]),
            ) == old(self).buffers.data(old(self).slot_of(old(self).log.homes()[j])),
    {
        let ghost s0 = *self;
        proof {
            self.lemma_load_ready(lo, b);
        }
        let buf = match self.buffers.with_write(self.log.device, b, src) {
            Some(buf) => buf,
            None => {
                proof {
                    assert(false);
                }
                return Ghost(Seq::empty());
            },
        };
        let ghost i = buf.cache_index as int;
        let ghost s1 = *self;
        let ghost w = s1.buffers.data(i);
        proof {
            assert(s0.buffers.data(i).len() == BSIZE);
            assert(w == spliced(s0.buffers.data(i), 0, src@));
            if src@.len() == BSIZE {
                assert(w =~= src@);
            }
        }
        self.buffers.flush(&mut self.device, &buf);
        self.buffers.release(buf);
        proof {
            lemma_slots_back(s0, s1, *self, lo, i, b);
        }
        Ghost(w)
    }

    /// Copies the changed blocks to the log.
    #[verifier::rlimit(40)]
    fn write_log(&mut self)
        requires
            old(self).working(0),
        ensures
            final(self).working(0),
            final(self).log == old(self).log,
            logged_data(*final(self)) == logged_data(*old(self)),
            final(self).device.blocks() == apply_writes(
                old(self).device.blocks(),
                log_part(old(self).log.start as int, logged_data(*old(self)), old(self).log.homes().len() as int),
            ),
            final(self).device.trace() == old(self).device.trace() + log_part(
                old(self).log.start as int,
                logged_data(*old(self)),
                old(self).log.homes().len() as int,
            ),
    {
        let ghost s0 = *self;
        let ghost homes = self.log.homes();
        let ghost data0 = logged_data(s0);
        let ghost start = self.log.start as int;
        let n = self.log.header.n as usize;
        let mut tail: usize = 0;
        proof {
            assert(log_part(start, data0, 0) =~= Seq::empty());
            assert(s0.device.trace() + log_part(start, data0, 0) =~= s0.device.trace());
        }
        while tail < n
            invariant
                s0.working(0),
                n == homes.len(),
                homes == s0.log.homes(),
                data0 == logged_data(s0),
                start == s0.log.start,
                tail <= n,
                self.working(0),
                self.log == s0.log,
                self.device.blocks().len() == s0.device.blocks().len(),
                logged_data(*self) == data0,
                self.device.blocks() == apply_writes(s0.device.blocks(), log_part(start, data0, tail as int)),
                self.device.trace() == s0.device.trace() + log_part(start, data0, tail as int),
            decreases n - tail,
        {
            let ghost s1 = *self;
            let from = self.log.header.block[tail] as usize;
            let to = self.log.start + tail + 1;
            proof {
                assert(homes[tail as int] == from);
                assert(homes.skip(0) =~= homes);
                assert(homes.contains(from as int));
                assert(!homes.contains(to as int)) by {
                    if homes.contains(to as int) {
                        let j = choose|j: int| 0 <= j < homes.len() && homes[j] == to;
                        assert(!self.log.in_area(homes[j]));
                    }
                }
                assert(data0[tail as int] == s1.buffers.data(s1.slot_of(from as int))) by {
                    assert(logged_data(s1)[tail as int] == data0[tail as int]);
                }
            }
            let data = self.load_from(Ghost(0), from);
            let ghost s2 = *self;
            let _w = self.write_through(Ghost(0), to, &data);
            proof {
                assert(logged_data(*self) =~= data0) by {
                    assert forall|j: int| 0 <= j < homes.len() implies #[trigger] logged_data(*self)[j] == data0[j] by {
                        assert(logged_data(s1)[j] == data0[j]);
                        assert(self.buffers.data(self.slot_of(homes[j])) == s2.buffers.data(s2.slot_of(homes[j])));
                        assert(s2.buffers.data(s2.slot_of(homes[j])) == s1.buffers.data(s1.slot_of(homes[j])));
                    }
                }
                let w = (to as int, data0[tail as int]);
                assert(log_part(start, data0, tail + 1) =~= log_part(start, data0, tail as int).push(w));
                lemma_apply_push(s0.device.blocks(), log_part(start, data0, tail as int), w);
                assert(s0.device.trace() + log_part(start, data0, tail + 1) =~= (s0.device.trace() + log_part(
                    start,
                    data0,
                    tail as int,
                )).push(w));
            }
            tail = tail + 1;
        }
    }

    /// Writes the header to the device. What is written is returned.
    fn write_header(&mut self, Ghost(lo): Ghost<int>) -> (w: Ghost<Seq<u8>>)
        requires
            old(self).working(lo),
        ensures
            final(self).working(lo),
            final(self).log == old(self).log,
            w@.len() == BSIZE,
            old(self).log.header.stored_in(w@),
            final(self).device.blocks() == old(self).device.blocks().update(old(self).log.start as int, w@),
            final(self).device.trace() == old(self).device.trace().push((old(self).log.start as int, w@)),
            forall|j: int| lo <= j < old(self).log.homes().len() ==> final(self).buffers.data(
                final(self).slot_of(#[trigger] old(self).log.homes()[j]),
            ) == old(self).buffers.data(old(self).slot_of(old(self).log.homes()[j])),
    {
        let bytes = self.log.header.to_bytes();
        proof {
            let homes = self.log.homes().skip(lo);
            if homes.contains(self.log.start as int) {
                let j = choose|j: int| 0 <= j < homes.len() && homes[j] == self.log.start;
                assert(!self.log.in_area(self.log.homes()[j + lo]));
            }
        }
        let ghost header = self.log.header;
        let start = self.log.start;
        let w = self.write_through(Ghost(lo), start, &bytes);
        proof {
            let x = choose|x: Seq<u8>| #![trigger spliced(x, 0, bytes@)] x.len() == BSIZE && w@ == spliced(x, 0, bytes@);
            lemma_header_spliced(header, bytes@, x);
        }
        w
    }

    /// Reads the header from the device.
    fn read_header(&mut self)
        requires
            old(self).working(0),
            old(self).log.header.n == 0,
        ensures
            final(self).device.blocks() == old(self).device.blocks(),
            final(self).device.trace() == old(self).device.trace(),
            final(self).log == (Log { header: final(self).log.header, ..old(self).log }),
            final(self).log.header.block@.len() == LOGSIZE,
            final(self).log.header.stored_in(old(self).device.blocks()[old(self).log.start as int]),
            final(self).buffers.wf(),
            forall|i: int| 0 <= i < NBUF ==> (#[trigger] final(self).buffers.keys()[i]) is None,
            forall|i: int| 0 <= i < NBUF ==> !(#[trigger] final(self).buffers.taken@[i]),
    {
        proof {
            assert(self.log.homes().skip(0) =~= Seq::empty());
        }
        let start = self.log.start;
        let bytes = self.load_from(Ghost(0), start);
        self.log.header = LogHeader::from_bytes(&bytes);
    }

    /// Writes one block home from the log and takes its buffer out of the cache.
    #[verifier::rlimit(60)]
    fn install_one(&mut self, tail: usize, data: &Vec<u8>)
        requires
            old(self).working(tail as int),
            tail < old(self).log.homes().len(),
            data@.len() == BSIZE,
        ensures
            final(self).working(tail + 1),
            final(self).log == old(self).log,
            final(self).device.blocks() == old(self).device.blocks().update(old(self).log.homes()[tail as int], data@),
            final(self).device.trace() == old(self).device.trace().push((old(self).log.homes()[tail as int], data@)),
    {
        let ghost s0 = *self;
        let ghost homes = self.log.homes();
        let ghost dev = self.log.device;
        let b = self.log.header.block[tail] as usize;
        proof {
            assert(homes[tail as int] == b);
            self.lemma_load_ready(tail as int, b);
            assert(s0.buffers.holds(s0.slot_of(homes[tail as int]), dev, b));
        }
        let buf = match self.buffers.with_write(self.log.device, b, data) {
            Some(buf) => buf,
            None => {
                proof {
                    assert(false);
                }
                return ;
            },
        };
        let ghost i = buf.cache_index as int;
        let ghost s1 = *self;
        proof {
            assert(s0.buffers.holds(i, dev, b));
            assert(s0.buffers.keys()[i] is Some);
            assert(s0.buffers.users(i) == 1);
            assert(s0.buffers.data(i).len() == BSIZE);
            assert(s1.buffers.data(i) =~= data@);
        }
        self.buffers.unpin(&buf);
        let ghost s2 = *self;
        self.buffers.flush(&mut self.device, &buf);
        self.buffers.release(buf);
        proof {
            let s3 = *self;
            assert forall|k: int| 0 <= k < NBUF implies !(#[trigger] s3.buffers.taken@[k]) && (k != i ==> s3.buffers.keys()[k]
                == s0.buffers.keys()[k] && s3.buffers.users(k) == s0.buffers.users(k)) && (k == i ==> s3.buffers.keys()[k] is None) by {
                assert(!s0.buffers.taken@[k]);
                if k != i {
                    assert(s1.buffers.data(k) == s0.buffers.data(k));
                    assert(s2.buffers.data(k) == s1.buffers.data(k));
                    assert(s3.buffers.data(k) == s2.buffers.data(k));
                }
            }
            assert forall|k: int| 0 <= k < NBUF && (#[trigger] s3.buffers.keys()[k]) is Some implies {
                &&& s3.buffers.keys()[k]->0.device == s3.log.device
                &&& homes.skip(tail + 1).contains(s3.buffers.keys()[k]->0.block as int)
                &&& s3.buffers.users(k) == 1
            } by {
                assert(!s3.buffers.taken@[k]);
                let x = s0.buffers.keys()[k]->0.block as int;
                assert(s0.buffers.keys()[k] is Some);
                assert(homes.skip(tail as int).contains(x));
                let j = choose|j: int| 0 <= j < homes.skip(tail as int).len() && homes.skip(tail as int)[j] == x;
                if j == 0 {
                    assert(s0.buffers.holds(k, dev, b));
                    s0.lemma_slot(k, b as int);
                    s0.lemma_slot(i, b as int);
                } else {
                    assert(homes.skip(tail + 1)[j - 1] == x);
                }
            }
            assert forall|j: int| tail + 1 <= j < homes.len() implies s3.buffers.holds(s3.slot_of(#[trigger] homes[j]), dev, homes[j] as usize) by {
                let x = homes[j];
                let k = s0.slot_of(x);
                assert(s0.buffers.holds(k, dev, x as usize));
                assert(x != homes[tail as int]);
                assert(k != i);
                assert(!s3.buffers.taken@[k]);
                assert(s3.buffers.holds(k, dev, x as usize));
            }
        }
    }

    /// Copies the logged blocks to their homes and empties the header.
    #[verifier::rlimit(60)]
    fn install_blocks(&mut self, recovering: bool)
        requires
            old(self).working(if recovering { old(self).log.homes().len() as int } else { 0 }),
        ensures
            final(self).working(0),
            final(self).log.header.n == 0,
            final(self).log == (Log {
                header: LogHeader { n: 0, block: old(self).log.header.block },
                ..old(self).log
            }),
            ({
                let homes = old(self).log.homes();
                let data = log_contents(old(self).device.blocks(), old(self).log.start as int, homes.len() as int);
                &&& final(self).device.blocks() == apply_writes(old(self).device.blocks(), home_part(homes, data, homes.len() as int))
                &&& final(self).device.trace() == old(self).device.trace() + home_part(homes, data, homes.len() as int)
            }),
    {
        let ghost s0 = *self;
        let ghost homes = self.log.homes();
        let ghost start = self.log.start as int;
        let ghost d0 = self.device.blocks();
        let ghost data0 = log_contents(d0, start, homes.len() as int);
        let n = self.log.header.n as usize;
        let mut tail: usize = 0;
        proof {
            assert(home_part(homes, data0, 0) =~= Seq::empty());
            assert(s0.device.trace() + home_part(homes, data0, 0) =~= s0.device.trace());
        }
        while tail < n
            invariant
                n == homes.len(),
                homes == s0.log.homes(),
                start == s0.log.start,
                d0 == s0.device.blocks(),
                data0 == log_contents(d0, start, homes.len() as int),
                tail <= n,
                self.working(if recovering { homes.len() as int } else { tail as int }),
                self.log == s0.log,
                self.device.blocks().len() == d0.len(),
                self.device.blocks() == apply_writes(d0, home_part(homes, data0, tail as int)),
                self.device.trace() == s0.device.trace() + home_part(homes, data0, tail as int),
            decreases n - tail,
        {
            let ghost s1 = *self;
            let ghost lo = if recovering { homes.len() as int } else { tail as int };
            let from = self.log.start + tail + 1;
            let to = self.log.header.block[tail] as usize;
            proof {
                assert(homes[tail as int] == to);
                assert(!homes.skip(lo).contains(from as int)) by {
                    if homes.skip(lo).contains(from as int) {
                        let j = choose|j: int| 0 <= j < homes.skip(lo).len() && homes.skip(lo)[j] == from;
                        assert(!self.log.in_area(homes[j + lo]));
                    }
                }
                lemma_home_part(d0, homes, data0, tail as int, from as int);
                assert forall|i: int| 0 <= i < tail implies #[trigger] homes[i] != from by {
                    assert(!self.log.in_area(homes[i]));
                }
                assert(self.device.blocks()[from as int] == data0[tail as int]);
            }
            let data = self.load_from(Ghost(lo), from);
            if recovering {
                proof {
                    assert(homes.skip(lo) =~= Seq::empty());
                }
                let _w = self.write_through(Ghost(lo), to, &data);
            } else {
                self.install_one(tail, &data);
            }
            proof {
                let w = (to as int, data0[tail as int]);
                assert(home_part(homes, data0, tail + 1) =~= home_part(homes, data0, tail as int).push(w));
                lemma_apply_push(d0, home_part(homes, data0, tail as int), w);
                assert(s0.device.trace() + home_part(homes, data0, tail + 1) =~= (s0.device.trace() + home_part(
                    homes,
                    data0,
                    tail as int,
                )).push(w));
            }
            tail = tail + 1;
        }
        let ghost s4 = *self;
        self.log.header.n = 0;
        proof {
            assert(homes.skip(homes.len() as int) =~= Seq::empty());
            assert(self.log.homes() =~= Seq::empty());
            assert forall|i: int| 0 <= i < NBUF implies (#[trigger] self.buffers.keys()[i]) is None by {
                if self.buffers.keys()[i] is Some {
                    assert(s4.buffers.keys()[i] is Some);
                    assert(homes.skip(homes.len() as int).contains(s4.buffers.keys()[i]->0.block as int));
                }
            }
            assert forall|i: int| 0 <= i < NBUF implies !(#[trigger] self.buffers.taken@[i]) by {
                assert(!s4.buffers.taken@[i]);
            }
        }
    }
}

/// The contents of the first `n` log blocks.
pub open spec fn log_contents(disk: Seq<Seq<u8>>, start: int, n: int) -> Seq<Seq<u8>> {
    Seq::new(n as nat, |i: int| disk[start + 1 + i])
}


/// A commit happened between two states: the device went through the writes of a commit,
/// the log is empty, and outside of the log the blocks are seen as before.
pub open spec fn committed<D: BlockDevice>(old: Storage<D>, new: Storage<D>) -> bool {
    &&& new.log.header.n == 0
    &&& new.log.start == old.log.start
    &&& new.log.size == old.log.size
    &&& new.log.device == old.log.device
    &&& new.log.commits@ == old.log.commits@ + 1
    &&& new.device.blocks().len() == old.device.blocks().len()
    &&& forall|b: int|
        0 <= b < old.view().len() && !old.log.in_area(b) ==> #[trigger] new.view()[b] == old.view()[b] && new.device.blocks()[b]
            == old.view()[b]
    &&& if old.log.homes().len() == 0 {
        new.device == old.device
    } else {
        exists|h1: Seq<u8>, h2: Seq<u8>|
            {
                let writes = #[trigger] commit_writes(old.log.start as int, old.log.homes(), logged_data(old), h1, h2);
                &&& header_n(h1) == old.log.homes().len()
                &&& header_homes(h1) == old.log.homes()
                &&& header_n(h2) == 0
                &&& new.device.blocks() == apply_writes(old.device.blocks(), writes)
                &&& new.device.trace() == old.device.trace() + writes
            }
    }
}

impl<D: BlockDevice> Storage<D> {
    /// Writes the changes of all finished system calls to the device.
    #[verifier::rlimit(60)]
    fn commit(&mut self)
        requires
            old(self).wf(),
        ensures
            final(self).wf(),
            final(self).log.outstanding == old(self).log.outstanding,
            committed(*old(self), *final(self)),
    {
        let ghost s0 = *self;
        let ghost homes = s0.log.homes();
        let ghost data0 = logged_data(s0);
        let ghost start = s0.log.start as int;
        let ghost n = homes.len() as int;
        self.log.committing = true;
        proof {
            assert(self.log.homes() == homes);
            assert forall|j: int| 0 <= j < homes.len() implies #[trigger] s0.slot_of(homes[j]) == self.slot_of(homes[j]) by {
                let k = s0.slot_of(homes[j]);
                assert(s0.buffers.holds(k, s0.log.device, homes[j] as usize));
                assert(self.buffers.holds(k, s0.log.device, homes[j] as usize));
                self.lemma_slot(k, homes[j]);
            }
            assert(logged_data(*self) =~= data0) by {
                assert forall|j: int| 0 <= j < homes.len() implies logged_data(*self)[j] == data0[j] by {
                    assert(s0.slot_of(homes[j]) == self.slot_of(homes[j]));
                }
            }
            assert(self.pinned_from(0)) by {
                assert forall|j: int| 0 <= j < homes.len() implies self.buffers.holds(
                    self.slot_of(#[trigger] homes[j]),
                    self.log.device,
                    homes[j] as usize,
                ) by {
                    assert(s0.slot_of(homes[j]) == self.slot_of(homes[j]));
                    assert(s0.buffers.holds(s0.slot_of(homes[j]), s0.log.device, homes[j] as usize));
                }
            }
        }
        let ghost s1 = *self;
        if self.log.header.n > 0 {
            self.write_log();
            let ghost s2 = *self;
            let h1 = self.write_header(Ghost(0));
            let ghost s3 = *self;
            proof {
                lemma_log_disk(s0, s2, s3, h1@);
            }
            self.install_blocks(false);
            let ghost s4 = *self;
            let h2 = self.write_header(Ghost(0));
            proof {
                let d0 = s0.device.blocks();
                let writes = commit_writes(start, homes, data0, h1@, h2@);
                assert(header_homes(h1@) =~= homes) by {
                    assert forall|i: int| 0 <= i < homes.len() implies header_homes(h1@)[i] == homes[i] by {
                        assert(header_block(h1@, i) == s0.log.header.block@[i]);
                    }
                }
                let lp = log_part(start, data0, n);
                let hp = home_part(homes, data0, n);
                lemma_apply_push(d0, lp, (start, h1@));
                lemma_apply_add(d0, lp.push((start, h1@)), hp.push((start, h2@)));
                lemma_apply_push(s3.device.blocks(), hp, (start, h2@));
                assert(self.device.blocks() == apply_writes(d0, writes));
                assert(s0.device.trace() + writes =~= ((s0.device.trace() + lp).push((start, h1@)) + hp).push((start, h2@)));
                lemma_committed_view(s0, s3.device.blocks(), h1@, h2@);
                assert(self.log.homes() =~= Seq::empty());
            }
        }
        self.log.committing = false;
        self.log.commits = Ghost((s0.log.commits@ + 1) as nat);
        proof {
            assert(self.log.homes() =~= Seq::empty());
            assert(self.log.homes().skip(0) =~= Seq::empty());
            assert forall|b: int| 0 <= b < s0.view().len() && !s0.log.in_area(b) implies #[trigger] self.view()[b] == s0.view()[b]
                && self.device.blocks()[b] == s0.view()[b] by {
                if homes.len() == 0 {
                    assert(!homes.contains(b));
                }
            }
        }
    }

    /// Ends a system call. The last one that is active commits. Whoever waits to begin one
    /// may try again.
    pub fn end(&mut self)
        requires
            old(self).wf(),
            old(self).log.outstanding > 0,
        ensures
            final(self).wf(),
            final(self).log.outstanding == old(self).log.outstanding - 1,
            if old(self).log.outstanding > 1 {
                &&& final(self).view() == old(self).view()
                &&& final(self).log == (Log { outstanding: (old(self).log.outstanding - 1) as usize, ..old(self).log })
                &&& final(self).device == old(self).device
            } else {
                committed(*old(self), *final(self))
            },
    {
        let ghost s0 = *self;
        self.log.outstanding = self.log.outstanding - 1;
        proof {
            lemma_outstanding(s0, *self);
        }
        if self.log.outstanding == 0 {
            self.commit();
        }
    }

    /// Begins a system call. `false` means that the caller has to wait and try again.
    pub fn begin(&mut self) -> (r: bool)
        requires
            old(self).wf(),
        ensures
            final(self).wf(),
            r <==> may_begin(old(self).log),
            final(self).view() == old(self).view(),
            final(self).device == old(self).device,
            final(self).log == (Log {
                outstanding: (old(self).log.outstanding + if r { 1int } else { 0int }) as usize,
                ..old(self).log
            }),
    {
        let ghost s0 = *self;
        let r = self.log.start().is_some();
        proof {
            lemma_outstanding(s0, *self);
        }
        r
    }
}

/// Starting and ending system calls changes no block.
proof fn lemma_outstanding<D: BlockDevice>(s0: Storage<D>, s1: Storage<D>)
    requires
        s0.wf(),
        s1.device == s0.device,
        s1.buffers == s0.buffers,
        s1.log == (Log { outstanding: s1.log.outstanding, ..s0.log }),
        s1.log.outstanding * MAXOPBLOCKS <= LOGSIZE,
    ensures
        s1.wf(),
        s1.view() == s0.view(),
        logged_data(s1) == logged_data(s0),
        s1.log.homes() == s0.log.homes(),
{
    let homes = s0.log.homes();
    assert(s1.log.homes() =~= homes);
    assert forall|j: int| 0 <= j < homes.len() implies #[trigger] s0.slot_of(homes[j]) == s1.slot_of(homes[j]) && s1.buffers.holds(
        s1.slot_of(homes[j]),
        s1.log.device,
        homes[j] as usize,
    ) by {
        let k = s0.slot_of(homes[j]);
        assert(s0.buffers.holds(k, s0.log.device, homes[j] as usize));
        assert(s1.buffers.holds(k, s0.log.device, homes[j] as usize));
        s1.lemma_slot(k, homes[j]);
    }
    assert forall|j: int| 0 <= j < homes.len() implies s1.buffers.holds(
        s1.slot_of(#[trigger] s1.log.homes()[j]),
        s1.log.device,
        s1.log.homes()[j] as usize,
    ) by {
        assert(s0.slot_of(homes[j]) == s1.slot_of(homes[j]));
    }
    assert(logged_data(s1) =~= logged_data(s0)) by {
        assert forall|j: int| 0 <= j < homes.len() implies logged_data(s1)[j] == logged_data(s0)[j] by {
            assert(s0.slot_of(homes[j]) == s1.slot_of(homes[j]));
        }
    }
    assert(s1.view() =~= s0.view()) by {
        assert forall|b: int| 0 <= b < s0.view().len() implies s1.view()[b] == s0.view()[b] by {
            if homes.contains(b) {
                let j = choose|j: int| 0 <= j < homes.len() && homes[j] == b;
                assert(s0.slot_of(homes[j]) == s1.slot_of(homes[j]));
            }
        }
    }
}

/// The log holds the data after it was written.
proof fn lemma_log_disk<D: BlockDevice>(s0: Storage<D>, s2: Storage<D>, s3: Storage<D>, h1: Seq<u8>)
    requires
        s0.wf(),
        s2.device.blocks() == apply_writes(
            s0.device.blocks(),
            log_part(s0.log.start as int, logged_data(s0), s0.log.homes().len() as int),
        ),
        s3.device.blocks() == s2.device.blocks().update(s0.log.start as int, h1),
    ensures
        s3.device.blocks().len() == s0.device.blocks().len(),
        log_contents(s3.device.blocks(), s0.log.start as int, s0.log.homes().len() as int) == logged_data(s0),
{
    let n = s0.log.homes().len() as int;
    let start = s0.log.start as int;
    let lp = log_part(start, logged_data(s0), n);
    assert forall|i: int| 0 <= i < lp.len() implies 0 <= (#[trigger] lp[i]).0 < s0.device.blocks().len() by {
    }
    lemma_apply_len(s0.device.blocks(), lp);
    assert forall|i: int| 0 <= i < n implies #[trigger] log_contents(s3.device.blocks(), start, n)[i] == logged_data(s0)[i] by {
        lemma_log_part(s0.device.blocks(), start, logged_data(s0), n, start + 1 + i);
    }
    assert(log_contents(s3.device.blocks(), start, n) =~= logged_data(s0));
}

/// After the writes of a commit, the device holds what was seen before.
proof fn lemma_committed_view<D: BlockDevice>(s0: Storage<D>, d3: Seq<Seq<u8>>, h1: Seq<u8>, h2: Seq<u8>)
    requires
        s0.wf(),
        s0.log.homes().len() > 0,
        d3 == apply_writes(
            s0.device.blocks(),
            log_part(s0.log.start as int, logged_data(s0), s0.log.homes().len() as int),
        ).update(s0.log.start as int, h1),
    ensures
        ({
            let n = s0.log.homes().len() as int;
            let d4 = apply_writes(d3, home_part(s0.log.homes(), logged_data(s0), n)).update(s0.log.start as int, h2);
            &&& d4.len() == s0.device.blocks().len()
            &&& forall|b: int| 0 <= b < s0.view().len() && !s0.log.in_area(b) ==> #[trigger] d4[b] == s0.view()[b]
        }),
{
    let n = s0.log.homes().len() as int;
    let start = s0.log.start as int;
    let homes = s0.log.homes();
    let data0 = logged_data(s0);
    let d0 = s0.device.blocks();
    let lp = log_part(start, data0, n);
    let hp = home_part(homes, data0, n);
    assert forall|i: int| 0 <= i < lp.len() implies 0 <= (#[trigger] lp[i]).0 < d0.len() by {
    }
    lemma_apply_len(d0, lp);
    assert forall|i: int| 0 <= i < hp.len() implies 0 <= (#[trigger] hp[i]).0 < d3.len() by {
        assert(hp[i].0 == homes[i]);
    }
    lemma_apply_len(d3, hp);
    let d4 = apply_writes(d3, hp).update(start, h2);
    assert forall|b: int| 0 <= b < s0.view().len() && !s0.log.in_area(b) implies #[trigger] d4[b] == s0.view()[b] by {
        lemma_home_part(d3, homes, data0, n, b);
        lemma_log_part(d0, start, data0, n, b);
        if homes.contains(b) {
            let i = choose|i: int| 0 <= i < homes.len() && homes[i] == b;
            assert(homes[i] == b);
        } else {
            assert forall|i: int| 0 <= i < n implies #[trigger] homes[i] != b by {
                assert(homes.contains(homes[i]));
            }
        }
    }
}

/// A header block that a commit may have left on a device of `len` blocks.
pub open spec fn valid_header(bytes: Seq<u8>, start: int, size: int, len: int) -> bool {
    &&& header_n(bytes) < size
    &&& header_n(bytes) < LOGSIZE
    &&& header_homes(bytes).no_duplicates()
    &&& forall|i: int|
        0 <= i < header_homes(bytes).len() ==> 0 <= #[trigger] header_homes(bytes)[i] < len && !(start <= header_homes(bytes)[i]
            < start + size)
}

/// Begins a system call. `None` means that the caller has to wait and try again.
pub fn start<D: BlockDevice>(storage: &mut Storage<D>) -> (r: Option<Logger>)
    requires
        old(storage).wf(),
    ensures
        final(storage).wf(),
        r is Some <==> may_begin(old(storage).log),
        final(storage).view() == old(storage).view(),
        final(storage).device == old(storage).device,
        final(storage).log == (Log {
            outstanding: (old(storage).log.outstanding + if r is Some { 1int } else { 0int }) as usize,
            ..old(storage).log
        }),
{
    if storage.begin() {
        Some(Logger {  })
    } else {
        None
    }
}

/// Finds the log of a device and completes the commit that its header tells of, if any.
#[verifier::rlimit(40)]
pub fn initialize<D: BlockDevice>(storage: &mut Storage<D>, device: usize, sb: &SuperBlock)
    requires
        old(storage).buffers.wf(),
        forall|i: int| 0 <= i < NBUF ==> (#[trigger] old(storage).buffers.keys()[i]) is None,
        forall|i: int| 0 <= i < NBUF ==> !(#[trigger] old(storage).buffers.taken@[i]),
        old(storage).log.header.wf(),
        old(storage).log.header.n == 0,
        old(storage).log.outstanding == 0,
        !old(storage).log.committing,
        sized(old(storage).device.blocks(), BSIZE as int),
        old(storage).device.blocks().len() <= usize::MAX,
        0 < sb.nlog,
        sb.logstart + sb.nlog <= old(storage).device.blocks().len(),
        valid_header(
            old(storage).device.blocks()[sb.logstart as int],
            sb.logstart as int,
            sb.nlog as int,
            old(storage).device.blocks().len() as int,
        ),
    ensures
        final(storage).wf(),
        final(storage).log.start == sb.logstart,
        final(storage).log.size == sb.nlog,
        final(storage).log.device == device,
        final(storage).log.header.n == 0,
        final(storage).log.outstanding == 0,
        final(storage).device.blocks().len() == old(storage).device.blocks().len(),
        header_n(final(storage).device.blocks()[sb.logstart as int]) == 0,
        forall|b: int| 0 <= b < old(storage).device.blocks().len() && b != sb.logstart ==>
            #[trigger] final(storage).device.blocks()[b] == recovered(old(storage).device.blocks(), sb.logstart as int)[b],
        final(storage).view() == final(storage).device.blocks(),
{
    let ghost d0 = storage.device.blocks();
    let ghost start = sb.logstart as int;
    storage.log.start = sb.logstart as usize;
    storage.log.size = sb.nlog as usize;
    storage.log.device = device;
    proof {
        assert(storage.log.homes() =~= Seq::empty());
    }
    storage.read_header();
    let ghost homes = header_homes(d0[start]);
    proof {
        assert(storage.log.homes() =~= homes) by {
            assert forall|i: int| 0 <= i < homes.len() implies storage.log.homes()[i] == homes[i] by {
                assert(header_block(d0[start], i) == storage.log.header.block@[i]);
            }
        }
        assert(homes.skip(homes.len() as int) =~= Seq::empty());
        assert forall|i: int| 0 <= i < homes.len() implies 0 <= #[trigger] storage.log.homes()[i] < d0.len() && !storage.log.in_area(
            storage.log.homes()[i],
        ) by {
            assert(0 <= homes[i] < d0.len());
        }
    }
    storage.install_blocks(true);
    let ghost d1 = storage.device.blocks();
    let h = storage.write_header(Ghost(0));
    proof {
        let n = homes.len() as int;
        let data = log_contents(d0, start, n);
        assert forall|i: int| 0 <= i < n implies 0 <= (#[trigger] home_part(homes, data, n)[i]).0 < d0.len() by {
            assert(0 <= homes[i] < d0.len());
        }
        lemma_apply_len(d0, home_part(homes, data, n));
        assert forall|b: int| 0 <= b < d0.len() && b != start implies #[trigger] storage.device.blocks()[b] == recovered(d0, start)[b] by {
            lemma_home_part(d0, homes, data, n, b);
            lemma_installed(d0, start, homes, n, b);
            if homes.contains(b) {
                let i = choose|i: int| 0 <= i < homes.len() && homes[i] == b;
                assert(homes[i] == b);
                assert(data[i] == d0[start + i + 1]);
            } else {
                assert forall|i: int| 0 <= i < n implies #[trigger] homes[i] != b by {
                    assert(homes.contains(homes[i]));
                }
            }
        }
        assert(storage.log.homes() =~= Seq::empty());
        assert(storage.view() =~= storage.device.blocks());
    }
}

} // verus!
