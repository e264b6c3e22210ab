//! A disk with a file system on it: the free map and the table of inodes.
use vstd::prelude::*;
use crate::bitmap::Bitmap;
#[allow(unused_imports)]
use crate::bitmap::bit_at;
use crate::config::LOGSIZE;
use crate::filesystem::BITMAP_BITS;
use crate::filesystem::buffer::BSIZE;
use crate::filesystem::bytes::{copy_into, zeros};
#[allow(unused_imports)]
use crate::filesystem::bytes::spliced;
use crate::filesystem::device::BlockDevice;
use crate::filesystem::inode::{Inode, InodeKind};
#[allow(unused_imports)]
use crate::filesystem::inode::{inode_at, lemma_inode_at, InodeView};
use crate::filesystem::log::Storage;
use crate::filesystem::superblock::SuperBlock;

verus! {

/// The parts of the disk follow each other: log, inodes, free map, data.
pub open spec fn layout_wf(sb: SuperBlock, len: int) -> bool {
    &&& 1 < sb.logstart
    &&& 0 < sb.nlog
    &&& sb.logstart + sb.nlog <= sb.inodestart
    &&& sb.inodestart + sb.ninodes / 16 + 1 <= sb.bmapstart
    &&& data_start(sb) <= sb.size
    &&& sb.size <= len
    &&& len <= 0xffff_0000
    &&& sb.ninodes <= 65536
}

/// First data block.
pub open spec fn data_start(sb: SuperBlock) -> int {
    sb.bmapstart + sb.size / 8192 + 1
}

pub open spec fn is_data(sb: SuperBlock, b: int) -> bool {
    data_start(sb) <= b < sb.size
}

/// Whether the free map marks block `b` as used.
pub open spec fn in_use(v: Seq<Seq<u8>>, sb: SuperBlock, b: int) -> bool {
    bit_at(v[sb.bmapstart + b / 8192], b % 8192)
}

/// Whether `i` is the number of an inode.
pub open spec fn is_inode(sb: SuperBlock, i: int) -> bool {
    0 < i < sb.ninodes
}

/// Inode `i` on disk.
pub open spec fn disk_inode(v: Seq<Seq<u8>>, sb: SuperBlock, i: int) -> InodeView {
    inode_at(v[sb.inodestart + i / 16], (i % 16) * 64)
}

/// Block `b` is the first one that is not in use.
pub open spec fn first_free(v: Seq<Seq<u8>>, sb: SuperBlock, b: int) -> bool {
    &&& 0 <= b < sb.size
    &&& !in_use(v, sb, b)
    &&& forall|x: int| 0 <= x < b ==> #[trigger] in_use(v, sb, x)
}

pub open spec fn disk_full(v: Seq<Seq<u8>>, sb: SuperBlock) -> bool {
    forall|x: int| 0 <= x < sb.size ==> #[trigger] in_use(v, sb, x)
}

/// Number of free blocks below block `n`.
pub open spec fn free_below(v: Seq<Seq<u8>>, sb: SuperBlock, n: int) -> int
    decreases n,
{
    if n <= 0 {
        0
    } else {
        free_below(v, sb, n - 1) + if in_use(v, sb, n - 1) { 0int } else { 1int }
    }
}

/// Number of free blocks.
pub open spec fn free_blocks(v: Seq<Seq<u8>>, sb: SuperBlock) -> int {
    free_below(v, sb, sb.size as int)
}

proof fn lemma_free_below(v0: Seq<Seq<u8>>, v1: Seq<Seq<u8>>, sb: SuperBlock, b: int, n: int)
    requires
        0 <= n,
        0 <= b < n ==> !in_use(v0, sb, b) && in_use(v1, sb, b),
        forall|x: int| 0 <= x < n && x != b ==> #[trigger] in_use(v1, sb, x) == in_use(v0, sb, x),
    ensures
        free_below(v1, sb, n) == free_below(v0, sb, n) - if 0 <= b < n { 1int } else { 0int },
        free_below(v0, sb, n) >= 0,
    decreases n,
{
    if n > 0 {
        lemma_free_below(v0, v1, sb, b, n - 1);
        if n - 1 != b {
            assert(in_use(v1, sb, n - 1) == in_use(v0, sb, n - 1));
        }
    }
}

/// The number of free blocks stays where the free map stays.
pub proof fn lemma_free_same(v0: Seq<Seq<u8>>, v1: Seq<Seq<u8>>, sb: SuperBlock)
    requires
        forall|x: int| 0 <= x < sb.size ==> #[trigger] in_use(v1, sb, x) == in_use(v0, sb, x),
    ensures
        free_blocks(v1, sb) == free_blocks(v0, sb),
{
    lemma_free_below(v0, v1, sb, -1, sb.size as int);
}

/// One block less is free after one was taken.
pub proof fn lemma_free_taken(v0: Seq<Seq<u8>>, v1: Seq<Seq<u8>>, sb: SuperBlock, b: int)
    requires
        0 <= b < sb.size,
        !in_use(v0, sb, b),
        taken(v0, v1, sb, b),
    ensures
        free_blocks(v1, sb) == free_blocks(v0, sb) - 1,
{
    lemma_free_below(v0, v1, sb, b, sb.size as int);
}

proof fn lemma_none_below(v: Seq<Seq<u8>>, sb: SuperBlock, n: int)
    ensures
        free_below(v, sb, n) >= 0,
        free_below(v, sb, n) == 0 <==> forall|x: int| 0 <= x < n ==> #[trigger] in_use(v, sb, x),
    decreases n,
{
    if n > 0 {
        lemma_none_below(v, sb, n - 1);
        if free_below(v, sb, n) == 0 {
            assert forall|x: int| 0 <= x < n implies #[trigger] in_use(v, sb, x) by {}
        } else if in_use(v, sb, n - 1) {
            let x = choose|x: int| 0 <= x < n - 1 && !#[trigger] in_use(v, sb, x);
            assert(!in_use(v, sb, x));
        }
    }
}

/// A disk is full where no block is free.
pub proof fn lemma_full(v: Seq<Seq<u8>>, sb: SuperBlock)
    ensures
        free_blocks(v, sb) >= 0,
        disk_full(v, sb) <==> free_blocks(v, sb) == 0,
{
    lemma_none_below(v, sb, sb.size as int);
}

/// Blocks that never belong to a file are marked as used.
pub open spec fn meta_in_use(v: Seq<Seq<u8>>, sb: SuperBlock) -> bool {
    forall|b: int| 0 <= b < data_start(sb) ==> #[trigger] in_use(v, sb, b)
}

/// A storage device with a file system on it. `owner` tells which inode, and which of its
/// addresses, a data block was handed out for.
pub struct Volume<D> {
    pub storage: Storage<D>,
    pub superblock: SuperBlock,
    pub owner: Ghost<Map<int, (int, int)>>,
}

impl<D: BlockDevice> Volume<D> {
    /// The blocks as system calls see them.
    pub open spec fn blocks(&self) -> Seq<Seq<u8>> {
        self.storage.view()
    }

    pub open spec fn sb(&self) -> SuperBlock {
        self.superblock
    }

    /// How many system calls are active, and the number of the device.
    pub open spec fn activity(&self) -> (usize, usize) {
        (self.storage.log.outstanding, self.storage.log.device)
    }

    /// How many system calls are active, the number of the device, and how many transactions
    /// were committed.
    pub open spec fn session(&self) -> (usize, usize, nat) {
        (self.storage.log.outstanding, self.storage.log.device, self.storage.log.commits@)
    }

    pub open spec fn mounted(&self) -> bool {
        &&& self.storage.wf()
        &&& layout_wf(self.sb(), self.blocks().len() as int)
        &&& self.storage.log.start == self.sb().logstart
        &&& self.storage.log.size == self.sb().nlog
        &&& self.storage.log.outstanding == 0 ==> self.storage.log.header.n == 0
    }

    pub open spec fn wf(&self) -> bool {
        self.mounted() && meta_in_use(self.blocks(), self.sb())
    }

    /// Logged blocks.
    pub open spec fn logged(&self) -> Set<int> {
        self.storage.log.homes().to_set()
    }

    /// Number of logged blocks.
    pub open spec fn used(&self) -> int {
        self.storage.log.header.n as int
    }

    /// Number of logged blocks, counting the blocks `more`.
    pub open spec fn used_with(&self, more: Set<int>) -> int {
        (self.logged() + more).len() as int
    }

    /// Blocks that a change of inode `j` adds to the log.
    pub open spec fn inode_due(&self, j: int) -> int {
        if self.logged().contains(inode_block(self.sb(), j)) {
            0
        } else {
            1
        }
    }

    /// Blocks of the free map that change when inode `j` gives its blocks back.
    pub open spec fn map_of(&self, j: int) -> Set<int> {
        map_of(self.blocks(), self.sb(), self.owner@, j)
    }

    /// A system call is active and may change `k` more blocks.
    pub open spec fn room(&self, k: int) -> bool {
        self.storage.log.outstanding > 0 && self.fits(k)
    }

    /// The log has room for `k` changed blocks. One place stays free.
    pub open spec fn fits(&self, k: int) -> bool {
        &&& self.used() + k + 1 <= self.sb().nlog - 1
        &&& self.used() + k + 1 < LOGSIZE
    }

    /// The log has room for the blocks `more` and `k` others.
    pub open spec fn fits_with(&self, more: Set<int>, k: int) -> bool {
        &&& self.used_with(more) + k + 1 <= self.sb().nlog - 1
        &&& self.used_with(more) + k + 1 < LOGSIZE
    }

    /// As many blocks are logged as the set of them has.
    pub proof fn lemma_logged(&self)
        requires
            self.mounted(),
        ensures
            self.logged().finite(),
            self.logged().len() == self.used(),
    {
        self.storage.log.homes().unique_seq_to_set();
    }

    /// Where no other blocks were logged than `more`, there are no more than counted.
    pub proof fn lemma_used_with(&self, vol0: Volume<D>, more: Set<int>)
        requires
            self.mounted(),
            vol0.mounted(),
            more.finite(),
            self.logged().subset_of(vol0.logged() + more),
        ensures
            self.used() <= vol0.used_with(more),
    {
        self.lemma_logged();
        vol0.lemma_logged();
        vstd::set_lib::lemma_len_subset(self.logged(), vol0.logged() + more);
    }

    /// A block that is counted already has its place.
    pub proof fn lemma_spare(&self, vol0: Volume<D>, more: Set<int>, b: int)
        requires
            self.mounted(),
            vol0.mounted(),
            more.finite(),
            self.logged().subset_of(vol0.logged() + more),
            more.contains(b),
        ensures
            self.used() + (if self.logged().contains(b) { 0int } else { 1int }) <= vol0.used_with(more),
    {
        self.lemma_logged();
        vol0.lemma_logged();
        vstd::set_lib::lemma_len_subset(self.logged().insert(b), vol0.logged() + more);
    }

    /// Blocks that were logged in the meantime count once.
    pub proof fn lemma_used_more(&self, vol0: Volume<D>, more: Set<int>)
        requires
            self.mounted(),
            vol0.mounted(),
            more.finite(),
            vol0.logged().subset_of(self.logged()),
        ensures
            self.used_with(more) <= vol0.used_with(more) + self.used() - vol0.used(),
            vol0.used() <= self.used(),
            self.used() <= self.used_with(more),
    {
        self.lemma_logged();
        vol0.lemma_logged();
        let fresh = self.logged() - vol0.logged();
        let with0 = vol0.logged() + more;
        assert(vol0.logged() + fresh =~= self.logged());
        vstd::set_lib::lemma_set_disjoint_lens(vol0.logged(), fresh);
        assert(self.logged() + more =~= with0 + (fresh - more));
        vstd::set_lib::lemma_len_subset(fresh - more, fresh);
        vstd::set_lib::lemma_set_disjoint_lens(with0, fresh - more);
        vstd::set_lib::lemma_len_subset(self.logged(), self.logged() + more);
    }

    /// Fewer blocks more need no more room.
    pub proof fn lemma_used_less(&self, x: Set<int>, y: Set<int>)
        requires
            self.mounted(),
            y.finite(),
            x.subset_of(y),
        ensures
            self.used_with(x) <= self.used_with(y),
            x.subset_of(self.logged()) ==> self.used_with(x) == self.used(),
    {
        self.lemma_logged();
        vstd::set_lib::lemma_len_subset(self.logged() + x, self.logged() + y);
        if x.subset_of(self.logged()) {
            assert(self.logged() + x =~= self.logged());
        }
    }

    /// The contents of block `b`.
    pub fn load(&mut self, b: usize) -> (data: Vec<u8>)
        requires
            old(self).mounted(),
            b < old(self).blocks().len(),
        ensures
            final(self).mounted(),
            data@ == old(self).blocks()[b as int],
            data@.len() == BSIZE,
            same_volume(*old(self), *final(self)),
    {
        self.storage.load(b)
    }

    /// Replaces the contents of a block of the inode table, the free map or the data area.
    pub fn store(&mut self, b: usize, data: &Vec<u8>)
        requires
            old(self).mounted(),
            old(self).sb().inodestart <= b < old(self).blocks().len(),
            old(self).room(if old(self).logged().contains(b as int) { 0 } else { 1 }),
            data@.len() == BSIZE,
        ensures
            final(self).mounted(),
            final(self).blocks() == old(self).blocks().update(b as int, data@),
            final(self).sb() == old(self).sb(),
            final(self).owner == old(self).owner,
            final(self).logged() == old(self).logged().insert(b as int),
            final(self).used() == old(self).used() + if old(self).logged().contains(b as int) { 0int } else { 1int },
            final(self).session() == old(self).session(),
    {
        let ghost homes0 = self.storage.log.homes();
        self.storage.store(b, data);
        proof {
            let homes1 = self.storage.log.homes();
            assert(homes1.len() == self.used() && homes0.len() == old(self).used());
            if homes0.contains(b as int) {
                assert(self.logged() =~= homes0.to_set().insert(b as int));
            } else {
                assert(homes1.to_set() =~= homes0.to_set().insert(b as int)) by {
                    assert forall|x: int| homes1.to_set().contains(x) <==> homes0.to_set().insert(b as int).contains(x) by {
                        if homes1.contains(x) {
                            let j = choose|j: int| 0 <= j < homes1.len() && homes1[j] == x;
                            if j < homes0.len() {
                                assert(homes0[j] == x);
                            }
                        }
                        if homes0.contains(x) {
                            let j = choose|j: int| 0 <= j < homes0.len() && homes0[j] == x;
                            assert(homes1[j] == x);
                        }
                        assert(homes1[homes0.len() as int] == b);
                    }
                }
            }
        }
    }
}

/// The block that holds inode `j`.
pub open spec fn inode_block(sb: SuperBlock, j: int) -> int {
    sb.inodestart + j / 16
}

/// The block of the free map that tells whether block `b` is in use.
pub open spec fn map_block(sb: SuperBlock, b: int) -> int {
    sb.bmapstart + b / 8192
}

/// Block `b` is in use by inode `j`.
pub open spec fn belongs(v: Seq<Seq<u8>>, sb: SuperBlock, o: Map<int, (int, int)>, b: int, j: int) -> bool {
    &&& is_data(sb, b)
    &&& in_use(v, sb, b)
    &&& o.contains_key(b)
    &&& o[b].0 == j
}

/// Blocks of the free map for the blocks that inode `j` uses.
pub open spec fn map_of(v: Seq<Seq<u8>>, sb: SuperBlock, o: Map<int, (int, int)>, j: int) -> Set<int> {
    free_map(sb).filter(|m: int| exists|b: int| #[trigger] belongs(v, sb, o, b, j) && map_block(sb, b) == m)
}

/// Where no more blocks are in use, no more of the free map is needed.
pub proof fn lemma_map_less(v0: Seq<Seq<u8>>, v1: Seq<Seq<u8>>, sb: SuperBlock, o: Map<int, (int, int)>, j: int)
    requires
        forall|b: int| 0 <= b < sb.size && #[trigger] in_use(v1, sb, b) ==> in_use(v0, sb, b),
    ensures
        map_of(v1, sb, o, j).subset_of(map_of(v0, sb, o, j)),
        map_of(v0, sb, o, j).finite(),
{
    lemma_free_map(sb);
    assert forall|m: int| #[trigger] map_of(v1, sb, o, j).contains(m) implies map_of(v0, sb, o, j).contains(m) by {
        let b = choose|b: int| #[trigger] belongs(v1, sb, o, b, j) && map_block(sb, b) == m;
        assert(belongs(v0, sb, o, b, j));
    }
}

/// Blocks of the free map.
pub open spec fn free_map(sb: SuperBlock) -> Set<int> {
    vstd::set_lib::set_int_range(sb.bmapstart as int, data_start(sb))
}

pub proof fn lemma_free_map(sb: SuperBlock)
    ensures
        free_map(sb).finite(),
        forall|b: int| #[trigger] free_map(sb).contains(b) <==> sb.bmapstart <= b < data_start(sb),
{
    vstd::set_lib::lemma_int_range(sb.bmapstart as int, data_start(sb));
}

/// Nothing that matters differs.
pub open spec fn same_volume<D: BlockDevice>(old: Volume<D>, new: Volume<D>) -> bool {
    &&& new.blocks() == old.blocks()
    &&& new.sb() == old.sb()
    &&& new.owner == old.owner
    &&& new.storage.log == old.storage.log
    &&& new.used() == old.used()
}

/// Block `b` went from free to used, and holds zeros; nothing else changed.
pub open spec fn taken(old: Seq<Seq<u8>>, new: Seq<Seq<u8>>, sb: SuperBlock, b: int) -> bool {
    &&& new.len() == old.len()
    &&& new[b] == Seq::new(BSIZE as nat, |i: int| 0u8)
    &&& forall|x: int| 0 <= x < sb.size ==> #[trigger] in_use(new, sb, x) == (x == b || in_use(old, sb, x))
    &&& forall|x: int| 0 <= x < old.len() && x != b && !(sb.bmapstart <= x < data_start(sb)) ==> #[trigger] new[x] == old[x]
}

/// Block `b` went from used to free; nothing else changed.
pub open spec fn freed(old: Seq<Seq<u8>>, new: Seq<Seq<u8>>, sb: SuperBlock, b: int) -> bool {
    &&& new.len() == old.len()
    &&& forall|x: int| 0 <= x < sb.size ==> #[trigger] in_use(new, sb, x) == (x != b && in_use(old, sb, x))
    &&& forall|x: int| 0 <= x < old.len() && !(sb.bmapstart <= x < data_start(sb)) ==> #[trigger] new[x] == old[x]
}

/// Changing one bit of the free map.
proof fn lemma_free_map_bit(v: Seq<Seq<u8>>, new: Seq<Seq<u8>>, sb: SuperBlock, k: int, block: Seq<u8>, i: int, value: bool)
    requires
        layout_wf(sb, v.len() as int),
        0 <= k * 8192 + i < sb.size,
        0 <= i < 8192,
        0 <= k,
        new == v.update(sb.bmapstart + k, block),
        forall|j: int| 0 <= j < 8192 ==> #[trigger] bit_at(block, j) == if j == i { value } else { bit_at(v[sb.bmapstart + k], j) },
    ensures
        forall|x: int| 0 <= x < sb.size ==> #[trigger] in_use(new, sb, x) == if x == k * 8192 + i { value } else { in_use(v, sb, x) },
{
    assert forall|x: int| 0 <= x < sb.size implies #[trigger] in_use(new, sb, x) == if x == k * 8192 + i {
        value
    } else {
        in_use(v, sb, x)
    } by {
        if x / 8192 == k {
            assert(bit_at(block, x % 8192) == if x % 8192 == i { value } else { bit_at(v[sb.bmapstart + k], x % 8192) });
        }
    }
}

impl<D: BlockDevice> Volume<D> {
    /// Takes the first free block and fills it with zeros.
    #[verifier::rlimit(60)]
    pub(crate) fn allocate_block(&mut self, Ghost(inum): Ghost<int>, Ghost(slot): Ghost<int>) -> (r: Option<usize>)
        requires
            old(self).wf(),
            old(self).room(2),
        ensures
            final(self).wf(),
            final(self).sb() == old(self).sb(),
            final(self).session() == old(self).session(),
            match r {
                Some(b) => {
                    &&& first_free(old(self).blocks(), old(self).sb(), b as int)
                    &&& is_data(old(self).sb(), b as int)
                    &&& taken(old(self).blocks(), final(self).blocks(), old(self).sb(), b as int)
                    &&& free_blocks(final(self).blocks(), old(self).sb()) == free_blocks(old(self).blocks(), old(self).sb()) - 1
                    &&& final(self).owner@ == old(self).owner@.insert(b as int, (inum, slot))
                    &&& final(self).logged() == old(self).logged().insert(map_block(old(self).sb(), b as int)).insert(b as int)
                    &&& final(self).used() <= old(self).used() + 2
                },
                None => {
                    &&& free_blocks(old(self).blocks(), old(self).sb()) == 0
                    &&& disk_full(old(self).blocks(), old(self).sb())
                    &&& same_volume(*old(self), *final(self))
                },
            },
    {
        let ghost vol0 = *self;
        let ghost v0 = self.blocks();
        let ghost sb = self.sb();
        let size = self.superblock.size as usize;
        let mut bi: usize = 0;
        let mut k: usize = 0;
        while bi < size
            invariant
                vol0 == *old(self),
                vol0.wf(),
                vol0.room(2),
                v0 == vol0.blocks(),
                sb == vol0.sb(),
                self.wf(),
                same_volume(vol0, *self),
                size == sb.size,
                bi == k * 8192,
                k <= size / 8192 + 1,
                forall|x: int| 0 <= x < bi && x < size ==> #[trigger] in_use(v0, sb, x),
            decreases size + 8192 - bi,
        {
            let at = self.superblock.bitmap_at(bi);
            proof {
                assert(at == sb.bmapstart + k);
            }
            let data = self.load(at);
            let mut bitmap: Bitmap<BITMAP_BITS> = Bitmap { bitmap: data };
            let ghost bits0 = bitmap@;
            match bitmap.allocate() {
                Some(index) => {
                    if bi + index < size {
                        let block = bi + index;
                        proof {
                            lemma_free_map(sb);
                            assert forall|x: int| 0 <= x < block implies #[trigger] in_use(v0, sb, x) by {
                                if x >= bi {
                                    assert(x / 8192 == k && x % 8192 == x - bi);
                                    assert(bits0[x - bi]);
                                }
                            }
                            assert(!in_use(v0, sb, block as int)) by {
                                assert(block as int / 8192 == k && block as int % 8192 == index);
                                assert(!bits0[index as int]);
                            }
                            assert(block >= data_start(sb)) by {
                                if block < data_start(sb) {
                                    assert(in_use(v0, sb, block as int));
                                }
                            }
                        }
                        self.store(at, &bitmap.bitmap);
                        let ghost v1 = self.blocks();
                        proof {
                            assert(at == map_block(sb, block as int));
                            assert forall|j: int| 0 <= j < 8192 implies #[trigger] bit_at(bitmap.bitmap@, j) == if j == index {
                                true
                            } else {
                                bit_at(v0[at as int], j)
                            } by {
                                assert(bitmap@[j] == bits0.update(index as int, true)[j]);
                            }
                            lemma_free_map_bit(v0, v1, sb, k as int, bitmap.bitmap@, index as int, true);
                        }
                        let zero = zeros(BSIZE);
                        self.store(block, &zero);
                        proof {
                            self.owner = Ghost(self.owner@.insert(block as int, (inum, slot)));
                            let v2 = self.blocks();
                            assert forall|x: int| 0 <= x < sb.size implies #[trigger] in_use(v2, sb, x) == (x == block || in_use(
                                v0,
                                sb,
                                x,
                            )) by {
                                assert(in_use(v1, sb, x) == if x == k * 8192 + index { true } else { in_use(v0, sb, x) });
                                assert(v2[sb.bmapstart + x / 8192] == v1[sb.bmapstart + x / 8192]);
                            }
                            lemma_free_taken(v0, v2, sb, block as int);
                        }
                        return Some(block);
                    }
                    let _ = bitmap.deallocate(index);
                    proof {
                        assert forall|x: int| 0 <= x < size implies #[trigger] in_use(v0, sb, x) by {
                            if x >= bi {
                                assert(x / 8192 == k && x % 8192 == x - bi);
                                assert(bits0[x - bi]);
                            }
                        }
                        lemma_full(v0, sb);
                    }
                    return None;
                },
                None => {},
            }
            proof {
                assert forall|x: int| 0 <= x < bi + 8192 && x < size implies #[trigger] in_use(v0, sb, x) by {
                    if x >= bi {
                        assert(x / 8192 == k && x % 8192 == x - bi);
                        assert(bits0[x - bi]);
                    }
                }
            }
            bi = bi + BITMAP_BITS;
            k = k + 1;
        }
        proof {
            lemma_full(v0, sb);
        }
        None
    }

    /// Marks a data block that is in use as free.
    #[verifier::rlimit(40)]
    pub(crate) fn deallocate_block(&mut self, block: usize)
        requires
            old(self).wf(),
            old(self).room(if old(self).logged().contains(map_block(old(self).sb(), block as int)) { 0 } else { 1 }),
            is_data(old(self).sb(), block as int),
            in_use(old(self).blocks(), old(self).sb(), block as int),
        ensures
            final(self).wf(),
            final(self).sb() == old(self).sb(),
            final(self).owner == old(self).owner,
            final(self).session() == old(self).session(),
            final(self).logged() == old(self).logged().insert(map_block(old(self).sb(), block as int)),
            freed(old(self).blocks(), final(self).blocks(), old(self).sb(), block as int),
    {
        let ghost v0 = self.blocks();
        let ghost sb = self.sb();
        let at = self.superblock.bitmap_at(block);
        let ghost k = block as int / 8192;
        let data = self.load(at);
        let mut bitmap: Bitmap<BITMAP_BITS> = Bitmap { bitmap: data };
        let ghost bits0 = bitmap@;
        let index = block % BITMAP_BITS;
        proof {
            assert(bits0[index as int]);
        }
        let _ = bitmap.deallocate(index);
        proof {
            lemma_free_map(sb);
        }
        self.store(at, &bitmap.bitmap);
        proof {
            let v1 = self.blocks();
            assert forall|j: int| 0 <= j < 8192 implies #[trigger] bit_at(bitmap.bitmap@, j) == if j == index {
                false
            } else {
                bit_at(v0[at as int], j)
            } by {
                assert(bitmap@[j] == bits0.update(index as int, false)[j]);
            }
            lemma_free_map_bit(v0, v1, sb, k, bitmap.bitmap@, index as int, false);
            assert(block == k * 8192 + index);
            assert forall|x: int| 0 <= x < sb.size implies #[trigger] in_use(v1, sb, x) == (x != block && in_use(v0, sb, x)) by {
                assert(in_use(v1, sb, x) == if x == k * 8192 + index { false } else { in_use(v0, sb, x) });
            }
            assert forall|b: int| 0 <= b < data_start(sb) implies #[trigger] in_use(v1, sb, b) by {
                assert(in_use(v0, sb, b));
            }
        }
    }
}


/// Inode `i` on disk became `ino`; nothing else changed.
pub open spec fn inode_set(old: Seq<Seq<u8>>, new: Seq<Seq<u8>>, sb: SuperBlock, i: int, ino: InodeView) -> bool {
    &&& new.len() == old.len()
    &&& disk_inode(new, sb, i) == ino
    &&& forall|j: int| 0 <= j < sb.ninodes && j != i ==> #[trigger] disk_inode(new, sb, j) == disk_inode(old, sb, j)
    &&& forall|b: int| 0 <= b < old.len() && !(sb.inodestart <= b < sb.bmapstart) ==> #[trigger] new[b] == old[b]
}

proof fn lemma_inode_set(old: Seq<Seq<u8>>, sb: SuperBlock, i: int, bytes: Seq<u8>, new: Seq<Seq<u8>>)
    requires
        layout_wf(sb, old.len() as int),
        0 <= i < sb.ninodes,
        bytes.len() == 64,
        crate::filesystem::device::sized(old, BSIZE as int),
        new == old.update(sb.inodestart + i / 16, spliced(old[sb.inodestart + i / 16], (i % 16) * 64, bytes)),
    ensures
        inode_set(old, new, sb, i, inode_at(bytes, 0)),
{
    let at = (i % 16) * 64;
    let bo = sb.inodestart + i / 16;
    assert(old[bo].len() == 1024);
    assert forall|k: int| 0 <= k < 64 implies #[trigger] new[bo][at + k] == bytes[k] by {
    }
    lemma_inode_at(bytes, at, new[bo]);
    assert forall|j: int| 0 <= j < sb.ninodes && j != i implies #[trigger] disk_inode(new, sb, j) == disk_inode(old, sb, j) by {
        if j / 16 == i / 16 {
            let aj = (j % 16) * 64;
            let part = old[bo].subrange(aj, aj + 64);
            assert forall|k: int| 0 <= k < 64 implies #[trigger] new[bo][aj + k] == part[k] by {
                assert(!(at <= aj + k < at + 64));
            }
            assert forall|k: int| 0 <= k < 64 implies #[trigger] old[bo][aj + k] == part[k] by {
            }
            lemma_inode_at(part, aj, new[bo]);
            lemma_inode_at(part, aj, old[bo]);
        }
    }
}

impl<D: BlockDevice> Volume<D> {
    /// All blocks have the size of a block.
    pub proof fn lemma_sized(&self)
        requires
            self.mounted(),
        ensures
            crate::filesystem::device::sized(self.blocks(), BSIZE as int),
    {
        assert forall|b: int| 0 <= b < self.blocks().len() implies (#[trigger] self.blocks()[b]).len() == BSIZE by {
            let homes = self.storage.log.homes();
            if homes.contains(b) {
                let j = choose|j: int| 0 <= j < homes.len() && homes[j] == b;
                let s = self.storage.slot_of(homes[j]);
                assert(self.storage.buffers.holds(s, self.storage.log.device, homes[j] as usize));
                assert(self.storage.buffers.data(s).len() == BSIZE);
            }
        }
    }

    /// Changes outside of the free map leave it alone.
    pub proof fn lemma_meta_kept(old: Seq<Seq<u8>>, new: Seq<Seq<u8>>, sb: SuperBlock)
        requires
            layout_wf(sb, old.len() as int),
            forall|b: int| sb.bmapstart <= b < data_start(sb) ==> #[trigger] new[b] == old[b],
        ensures
            forall|b: int| 0 <= b < sb.size ==> #[trigger] in_use(new, sb, b) == in_use(old, sb, b),
    {
        assert forall|b: int| 0 <= b < sb.size implies #[trigger] in_use(new, sb, b) == in_use(old, sb, b) by {
            assert(new[sb.bmapstart + b / 8192] == old[sb.bmapstart + b / 8192]);
        }
    }

    /// Reads inode `inum`.
    pub(crate) fn read_inode(&mut self, inum: usize) -> (ino: Inode)
        requires
            old(self).wf(),
            inum < old(self).sb().ninodes,
        ensures
            final(self).wf(),
            same_volume(*old(self), *final(self)),
            ino.wf(),
            ino@ == disk_inode(old(self).blocks(), old(self).sb(), inum as int),
    {
        let block_index = self.superblock.inode_block_at(inum);
        let in_block_index = inum % crate::filesystem::INODES_PER_BLOCK;
        let block = self.load(block_index);
        Inode::from_bytes(&block, in_block_index * 64)
    }

    /// Writes inode `inum`.
    pub(crate) fn write_inode(&mut self, inum: usize, ino: &Inode)
        requires
            old(self).wf(),
            inum < old(self).sb().ninodes,
            old(self).room(old(self).inode_due(inum as int)),
            ino.wf(),
        ensures
            final(self).wf(),
            final(self).sb() == old(self).sb(),
            final(self).owner == old(self).owner,
            final(self).session() == old(self).session(),
            final(self).logged() == old(self).logged().insert(inode_block(old(self).sb(), inum as int)),
            final(self).used() == old(self).used() + old(self).inode_due(inum as int),
            inode_set(old(self).blocks(), final(self).blocks(), old(self).sb(), inum as int, ino@),
    {
        let ghost v0 = self.blocks();
        let ghost sb = self.sb();
        proof {
            self.lemma_sized();
            lemma_free_map(sb);
        }
        let block_index = self.superblock.inode_block_at(inum);
        let in_block_index = inum % crate::filesystem::INODES_PER_BLOCK;
        let mut block = self.load(block_index);
        let bytes = ino.to_bytes();
        copy_into(&mut block, in_block_index * 64, &bytes, 0, 64);
        proof {
            assert(bytes@.subrange(0, 64) =~= bytes@);
        }
        self.store(block_index, &block);
        proof {
            lemma_inode_set(v0, sb, inum as int, bytes@, self.blocks());
            Self::lemma_meta_kept(v0, self.blocks(), sb);
            assert forall|b: int| 0 <= b < data_start(sb) implies #[trigger] in_use(self.blocks(), sb, b) by {
                assert(in_use(v0, sb, b));
            }
        }
    }

    /// Takes the first unused inode and gives it a kind.
    pub(crate) fn allocate_inode(&mut self, kind: InodeKind) -> (r: Result<usize, ()>)
        requires
            old(self).wf(),
            old(self).room(1),
        ensures
            final(self).wf(),
            final(self).sb() == old(self).sb(),
            final(self).owner == old(self).owner,
            final(self).session() == old(self).session(),
            match r {
                Ok(i) => {
                    &&& is_inode(old(self).sb(), i as int)
                    &&& disk_inode(old(self).blocks(), old(self).sb(), i as int).kind == InodeKind::Unused
                    &&& forall|j: int| 0 < j < i ==> (#[trigger] disk_inode(old(self).blocks(), old(self).sb(), j)).kind
                        != InodeKind::Unused
                    &&& inode_set(
                        old(self).blocks(),
                        final(self).blocks(),
                        old(self).sb(),
                        i as int,
                        (InodeView { kind, ..disk_inode(old(self).blocks(), old(self).sb(), i as int) }),
                    )
                    &&& final(self).logged() == old(self).logged().insert(inode_block(old(self).sb(), i as int))
                    &&& final(self).used() <= old(self).used() + 1
                },
                Err(_) => {
                    &&& forall|j: int| is_inode(old(self).sb(), j) ==> (#[trigger] disk_inode(
                        old(self).blocks(),
                        old(self).sb(),
                        j,
                    )).kind != InodeKind::Unused
                    &&& same_volume(*old(self), *final(self))
                },
            },
    {
        let ninodes = self.superblock.ninodes as usize;
        let mut inum: usize = 1;
        while inum < ninodes
            invariant
                1 <= inum,
                inum <= ninodes || ninodes == 0,
                ninodes == old(self).sb().ninodes,
                self.wf(),
                old(self).room(1),
                same_volume(*old(self), *self),
                forall|j: int| 0 < j < inum ==> (#[trigger] disk_inode(old(self).blocks(), old(self).sb(), j)).kind != InodeKind::Unused,
            decreases ninodes - inum,
        {
            let mut inode = self.read_inode(inum);
            if inode.kind == InodeKind::Unused {
                let ghost ino0 = inode@;
                inode.kind = kind;
                proof {
                    assert(inode@.addrs =~= ino0.addrs);
                }
                self.write_inode(inum, &inode);
                return Ok(inum);
            }
            inum = inum + 1;
        }
        Err(())
    }
}

} // verus!
