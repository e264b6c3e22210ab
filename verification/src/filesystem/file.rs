//! Files and directories in memory, one inode at a time.
use vstd::prelude::*;
use crate::filesystem::{MAXFILE, NDIRECT, NINDIRECT};
use crate::filesystem::buffer::BSIZE;
use crate::filesystem::bytes::{copy_into, get_u32, put_u32};
use crate::filesystem::bytes::{le32, lemma_le_kept, spliced};
use crate::cache::{exact_eq, gettable, CacheRc};
use crate::config::NINODE;
use crate::filesystem::bytes::le16;
use crate::filesystem::device::BlockDevice;
use crate::filesystem::directory_entry::{entry_bytes, name_is, padded, DirectoryEntry, ENTRY_SIZE};
use crate::filesystem::inode::{Inode, InodeKind, InodeView};
use crate::filesystem::layout::{
    addr, addr_wf, behind, blank, block_of, contents, grown, inode_wf, lemma_grown_trans, lemma_other_file,
    lemma_set_chain, lemma_set_data, lemma_set_direct, lemma_set_indirect, lemma_taken, lemma_touched_trans,
    nblocks, others_kept, same_attrs, slot_for, synced, touched, tracks,
};
use crate::filesystem::stat::Stat;
use crate::filesystem::superblock::SuperBlock;
use crate::filesystem::volume::{
    belongs, data_start, disk_full, disk_inode, free_blocks, freed, in_use, inode_block, inode_set, is_data, is_inode, layout_wf, lemma_free_map, lemma_free_same,
    free_map, lemma_full, map_block, same_volume, Volume,
};

verus! {

/// An inode in memory.
pub struct CachedInode {
    pub inode: Inode,
    pub device: usize,
    pub inode_number: usize,
    pub is_initialized: bool,
}

/// `n` bytes from `offset` on touch that many blocks.
pub open spec fn chunks(offset: int, n: int) -> int {
    if n <= 0 {
        0
    } else {
        (offset + n - 1) / 1024 - offset / 1024 + 1
    }
}

/// Length of the first piece of `n` bytes from `offset` on that lies in one block.
pub open spec fn chunk_len(offset: int, n: int) -> int {
    if n < 1024 - offset % 1024 {
        n
    } else {
        1024 - offset % 1024
    }
}

/// The bytes of a file after `src` was written at `offset`.
pub open spec fn overwritten(old: Seq<u8>, offset: int, src: Seq<u8>) -> Seq<u8> {
    Seq::new(
        if offset + src.len() > old.len() {
            (offset + src.len()) as nat
        } else {
            old.len()
        },
        |i: int|
            if offset <= i < offset + src.len() {
                src[i - offset]
            } else {
                old[i]
            },
    )
}

impl CachedInode {
    /// The inode belongs to the volume, and memory and disk are both well-formed.
    pub open spec fn valid<D: BlockDevice>(&self, vol: Volume<D>) -> bool {
        &&& vol.wf()
        &&& self.inode.wf()
        &&& is_inode(vol.sb(), self.inode_number as int)
        &&& self.inode@.kind != InodeKind::Unused
        &&& tracks(vol.blocks(), vol.sb(), vol.owner@, self.inode_number as int, self.inode@)
    }

    /// The bytes of the file.
    pub open spec fn bytes<D: BlockDevice>(&self, vol: Volume<D>) -> Seq<u8> {
        contents(vol.blocks(), self.inode@)
    }

    /// An entry that holds no inode.
    pub fn zeroed() -> (this: Self)
        ensures
            this.inode.wf(),
            this.inode@ == (InodeView {
                kind: InodeKind::Unused,
                major: 0,
                minor: 0,
                nlink: 0,
                size: 0,
                addrs: Seq::new(12, |i: int| 0int),
                chain: 0,
            }),
            this.device == 0,
            this.inode_number == 0,
            !this.is_initialized,
    {
        CachedInode { inode: Inode::zeroed(), device: 0, inode_number: 0, is_initialized: false }
    }

    pub fn is_directory(&self) -> (b: bool)
        ensures
            b == (self.inode.kind == InodeKind::Directory),
    {
        matches!(self.inode.kind, InodeKind::Directory)
    }

    pub fn is_file(&self) -> (b: bool)
        ensures
            b == (self.inode.kind == InodeKind::File),
    {
        matches!(self.inode.kind, InodeKind::File)
    }

    pub fn is_device(&self) -> (b: bool)
        ensures
            b == (self.inode.kind == InodeKind::Device),
    {
        matches!(self.inode.kind, InodeKind::Device)
    }

    /// Number of names of the file.
    pub fn counf_of_link(&self) -> (r: usize)
        ensures
            r == self.inode.nlink,
    {
        self.inode.nlink as usize
    }

    pub fn increment_link(&mut self)
        requires
            old(self).inode.nlink < u16::MAX,
        ensures
            *final(self) == (CachedInode {
                inode: Inode { nlink: (old(self).inode.nlink + 1) as u16, ..old(self).inode },
                ..*old(self)
            }),
    {
        self.inode.nlink = self.inode.nlink + 1;
    }

    pub fn decrement_link(&mut self)
        requires
            old(self).inode.nlink > 0,
        ensures
            *final(self) == (CachedInode {
                inode: Inode { nlink: (old(self).inode.nlink - 1) as u16, ..old(self).inode },
                ..*old(self)
            }),
    {
        self.inode.nlink = self.inode.nlink - 1;
    }

    /// Bytes in the file.
    pub fn size(&self) -> (r: usize)
        ensures
            r == self.inode.size,
    {
        self.inode.size as usize
    }

    pub fn device_major(&self) -> (r: Option<usize>)
        ensures
            r == if self.inode.kind == InodeKind::Device { Some(self.inode.major as usize) } else { None },
    {
        if self.is_device() {
            Some(self.inode.major as usize)
        } else {
            None
        }
    }

    pub fn device_minor(&self) -> (r: Option<usize>)
        ensures
            r == if self.inode.kind == InodeKind::Device { Some(self.inode.minor as usize) } else { None },
    {
        if self.is_device() {
            Some(self.inode.minor as usize)
        } else {
            None
        }
    }

    /// The attributes of the file.
    pub fn stat(&self) -> (r: Stat)
        requires
            self.device <= u32::MAX,
            self.inode_number <= u32::MAX,
        ensures
            r == (Stat {
                device: self.device as u32,
                inode: self.inode_number as u32,
                kind: self.inode.kind,
                nlink: self.inode.nlink,
                size: self.inode.size as usize,
            }),
    {
        Stat {
            device: self.device as u32,
            inode: self.inode_number as u32,
            kind: self.inode.kind,
            nlink: self.inode.nlink,
            size: self.inode.size as usize,
        }
    }

    /// Reads the inode from disk, where it must be in use.
    pub(crate) fn initialize<D: BlockDevice>(&mut self, vol: &mut Volume<D>)
        requires
            old(vol).wf(),
            old(self).inode_number < old(vol).sb().ninodes,
            disk_inode(old(vol).blocks(), old(vol).sb(), old(self).inode_number as int).kind != InodeKind::Unused,
        ensures
            final(vol).wf(),
            same_volume(*old(vol), *final(vol)),
            final(self).inode.wf(),
            final(self).inode@ == disk_inode(old(vol).blocks(), old(vol).sb(), old(self).inode_number as int),
            final(self).device == old(self).device,
            final(self).inode_number == old(self).inode_number,
            final(self).is_initialized == old(self).is_initialized,
    {
        self.inode = vol.read_inode(self.inode_number);
    }

    /// The block that holds byte `offset` of the file. Where there is none yet, one is
    /// allocated.
    #[verifier::rlimit(100)]
    pub(crate) fn offset_to_block<D: BlockDevice>(&mut self, vol: &mut Volume<D>, offset: usize) -> (r: Option<usize>)
        requires
            old(self).valid(*old(vol)),
            offset / 1024 < 268 && block_of(old(vol).blocks(), old(self).inode@, offset as int / 1024) == 0 ==> old(vol).room(
                block_due(*old(vol), old(self).inode@, offset as int / 1024),
            ),
        ensures
            final(self).valid(*final(vol)),
            final(self).device == old(self).device,
            final(self).inode_number == old(self).inode_number,
            final(self).is_initialized == old(self).is_initialized,
            same_attrs(final(self).inode@, old(self).inode@),
            final(vol).sb() == old(vol).sb(),
            final(vol).session() == old(vol).session(),
            final(vol).used() <= old(vol).used() + block_due(*old(vol), old(self).inode@, offset as int / 1024),
            offset < 12288 && direct_logged(old(vol).logged(), old(vol).sb(), old(self).inode@) ==> direct_logged(final(vol).logged(), old(vol).sb(), final(self).inode@),
            old(vol).logged().subset_of(final(vol).logged()),
            offset < 12288 ==> final(self).inode@.chain == old(self).inode@.chain,
            touched(
                old(vol).blocks(),
                final(vol).blocks(),
                old(vol).sb(),
                old(vol).owner@,
                final(vol).owner@,
                old(self).inode_number as int,
            ),
            grown(old(vol).blocks(), old(self).inode@, final(vol).blocks(), final(self).inode@),
            ({
                let k = offset as int / 1024;
                let free0 = free_blocks(old(vol).blocks(), old(vol).sb());
                let free1 = free_blocks(final(vol).blocks(), old(vol).sb());
                let wanted = if k >= 12 && old(self).inode@.chain == 0 { 2int } else { 1int };
                match r {
                    Some(b) => {
                        &&& k < 268
                        &&& b != 0
                        &&& free1 == free0 - if block_of(old(vol).blocks(), old(self).inode@, k) == 0 { wanted } else { 0int }
                        &&& b == block_of(final(vol).blocks(), final(self).inode@, k)
                        &&& block_of(old(vol).blocks(), old(self).inode@, k) == 0 ==> {
                            &&& final(vol).logged().contains(b as int)
                            &&& k >= 12 ==> chain_due(*final(vol), final(self).inode@) == 0
                        }
                        &&& block_of(old(vol).blocks(), old(self).inode@, k) != 0 ==> same_volume(*old(vol), *final(vol)) && *final(self)
                            == *old(self)
                    },
                    None => {
                        &&& k >= 268 ==> same_volume(*old(vol), *final(vol)) && *final(self) == *old(self)
                        &&& k < 268 ==> {
                            &&& disk_full(final(vol).blocks(), old(vol).sb())
                            &&& free0 < wanted
                            &&& block_of(old(vol).blocks(), old(self).inode@, k) == 0
                        }
                    },
                }
            }),
    {
        let index = offset / BSIZE;
        let ghost vol0 = *vol;
        let ghost v0 = vol.blocks();
        let ghost sb = vol.sb();
        let ghost o0 = vol.owner@;
        let ghost i0 = self.inode@;
        let ghost inum = self.inode_number as int;
        let ghost disk = disk_inode(v0, sb, inum);
        proof {
            reveal(direct_logged);
            assert(grown(v0, i0, v0, i0));
            assert(touched(v0, v0, sb, o0, o0, inum));
        }
        if index < NDIRECT {
            if self.inode.addrs[index] == 0 {
                proof {
                    assert(block_of(v0, i0, index as int) == 0);
                }
                let b = match vol.allocate_block(Ghost(inum), Ghost(index as int)) {
                    Some(b) => b,
                    None => {
                        return None;
                    },
                };
                let ghost v1 = vol.blocks();
                self.inode.addrs.set(index, b as u32);
                proof {
                    lemma_taken(v0, v1, sb, o0, b as int, inum, index as int);
                    assert(inode_wf(v0, sb, o0, inum, i0));
                    assert(inode_wf(v0, sb, o0, inum, disk));
                    assert(disk_inode(v1, sb, inum) == disk);
                    let i1 = self.inode@;
                    assert(i1.addrs =~= i0.addrs.update(index as int, b as int));
                    assert(in_use(v1, sb, b as int));
                    lemma_set_direct(v1, sb, vol.owner@, inum, i0, i1, index as int, b as int);
                    lemma_grown_trans(v0, i0, v1, i0, v1, i1);
                    assert(behind(disk, i1)) by {
                        assert(disk.addrs[index as int] == 0 || disk.addrs[index as int] == i0.addrs[index as int]);
                    }
                }
                return Some(b);
            }
            proof {
                assert(block_of(v0, i0, index as int) != 0);
            }
            return Some(self.inode.addrs[index] as usize);
        }
        if index < NDIRECT + NINDIRECT {
            let index = index - NDIRECT;
            let ghost k = index as int + 12;
            if self.inode.chain == 0 {
                proof {
                    assert(block_of(v0, i0, k) == 0);
                }
                let b = match vol.allocate_block(Ghost(inum), Ghost(12)) {
                    Some(b) => b,
                    None => {
                        return None;
                    },
                };
                self.inode.chain = b as u32;
                proof {
                    let v1 = vol.blocks();
                    lemma_taken(v0, v1, sb, o0, b as int, inum, 12);
                    assert(inode_wf(v0, sb, o0, inum, i0));
                    assert(inode_wf(v0, sb, o0, inum, disk));
                    assert(disk_inode(v1, sb, inum) == disk);
                    let i1 = self.inode@;
                    assert(i1.addrs =~= i0.addrs);
                    assert(in_use(v1, sb, b as int));
                    lemma_set_chain(v1, sb, vol.owner@, inum, i0, i1, b as int);
                    lemma_grown_trans(v0, i0, v1, i0, v1, i1);
                    assert(behind(disk, i1));
                }
            }
            let ghost v1 = vol.blocks();
            let ghost o1 = vol.owner@;
            let ghost i1 = self.inode@;
            let ghost vol1 = *vol;
            proof {
                assert(addr_wf(v1, sb, o1, inum, i1, 12));
                assert(addr(v1, i1, 12) == i1.chain);
                assert(is_data(sb, i1.chain));
            }
            let chain = self.inode.chain as usize;
            let mut table = vol.load(chain);
            let ghost table0 = table@;
            let entry = get_u32(&table, index * 4);
            proof {
                assert(addr(v1, i1, 13 + index) == entry);
                assert(block_of(v1, i1, k) == entry);
            }
            if entry == 0 {
                proof {
                    if block_of(v0, i0, k) != 0 {
                        assert(addr(v0, i0, slot_for(k)) != 0);
                        assert(addr(v1, i1, slot_for(k)) == addr(v0, i0, slot_for(k)));
                    }
                }
                let b = match vol.allocate_block(Ghost(inum), Ghost(13 + index as int)) {
                    Some(b) => b,
                    None => {
                        proof {
                            assert(vol.blocks() == v1);
                            lemma_full(v1, sb);
                        }
                        return None;
                    },
                };
                let ghost v2 = vol.blocks();
                let ghost o2 = vol.owner@;
                proof {
                    lemma_taken(v1, v2, sb, o1, b as int, inum, 13 + index as int);
                    assert(inode_wf(v1, sb, o1, inum, i1));
                    assert(inode_wf(v1, sb, o1, inum, disk));
                    assert(disk_inode(v2, sb, inum) == disk);
                    assert(in_use(v2, sb, b as int));
                    assert(in_use(v2, sb, i1.chain));
                    assert(i1.chain != b);
                    lemma_touched_trans(v0, v1, v2, sb, o0, o1, o2, inum);
                    lemma_grown_trans(v0, i0, v1, i1, v2, i1);
                    assert(v2[i1.chain] == v1[i1.chain]);
                }
                put_u32(&mut table, index * 4, b as u32);
                proof {
                    assert forall|j: int| 0 <= j < 256 && j != index implies #[trigger] le32(table@, j * 4) == le32(table0, j * 4) by {
                        lemma_le_kept(table0, table@, index * 4, 4, j * 4);
                    }
                }
                vol.store(chain, &table);
                proof {
                    let v3 = vol.blocks();
                    assert(addr(v2, i1, 13 + index) == addr(v1, i1, 13 + index));
                    lemma_set_indirect(v2, v3, sb, o2, inum, i1, index as int, b as int);
                    assert(inode_wf(v2, sb, o2, inum, disk));
                    assert(disk_inode(v3, sb, inum) == disk);
                    lemma_touched_trans(v0, v2, v3, sb, o0, o2, o2, inum);
                    lemma_grown_trans(v0, i0, v2, i1, v3, i1);
                    Volume::<D>::lemma_meta_kept(v2, v3, sb);
                    lemma_map_same(v2, v3, sb);
                    assert forall|x: int| 0 <= x < data_start(sb) implies #[trigger] in_use(v3, sb, x) by {
                        assert(in_use(v2, sb, x));
                    }
                }
                return Some(b);
            }
            proof {
                if block_of(v0, i0, k) != 0 {
                    assert(i0.chain != 0);
                }
            }
            return Some(entry as usize);
        }
        None
    }
}


/// Blocks that the first change of an indirect address of a file adds to the log: the one that
/// holds these addresses, unless it was changed before.
pub open spec fn chain_due<D: BlockDevice>(vol: Volume<D>, ino: InodeView) -> int {
    if ino.chain == 0 || !vol.logged().contains(ino.chain) {
        1
    } else {
        0
    }
}

/// Blocks that block `k` of a file adds to the log at most where it has to be allocated: the
/// block itself, those of the free map, and the one that holds its address.
pub open spec fn block_due<D: BlockDevice>(vol: Volume<D>, ino: InodeView, k: int) -> int {
    if k < 12 {
        2
    } else {
        1 + (if ino.chain == 0 { 2int } else { 1int }) + chain_due(vol, ino)
    }
}

/// Blocks that writing `count` bytes at `offset` of a file of `size` bytes adds to the log at
/// most, besides the inode: those of the bytes and, for each block that has to be allocated, one
/// of the free map, and the one that holds their addresses.
pub open spec fn write_due(size: int, offset: int, count: int) -> int {
    chunks(offset, count) + if grows(size, offset + count) {
        blocks_for(size, offset + count) + if nblocks(offset + count) > 12 { 1int } else { 0int }
    } else {
        0int
    }
}

/// A file of `size` bytes gets blocks when it is written up to byte `end`.
pub open spec fn grows(size: int, end: int) -> bool {
    nblocks(size) < nblocks(end)
}

/// No piece of a write that is a transaction of its own adds more blocks to the log than a system
/// call may change.
pub proof fn lemma_write_due(size: int, offset: int, count: int)
    requires
        0 <= offset <= size,
        0 <= count <= 3072,
    ensures
        0 <= write_due(size, offset, count) <= 9,
{
}

/// Writing over what is there adds no other blocks to the log.
pub proof fn lemma_write_inside(size: int, offset: int, count: int)
    requires
        0 <= offset,
        offset + count <= size,
    ensures
        write_due(size, offset, count) == chunks(offset, count),
{
}

/// What one more entry of a directory adds to the log.
pub proof fn lemma_entry_due(c: Seq<u8>)
    ensures
        1 <= entry_due(c) <= 4,
        c.len() == 0 ==> entry_due(c) == 2,
        c.len() == 16 ==> entry_due(c) == 1,
{
    reveal(entry_due);
}

/// An inode without blocks.
pub proof fn lemma_blank_logged(logged: Set<int>, sb: SuperBlock, ino: InodeView)
    requires
        blank(ino),
    ensures
        direct_logged(logged, sb, ino),
{
    reveal(direct_logged);
}

/// What is logged stays logged.
pub proof fn lemma_still_logged(logged0: Set<int>, logged1: Set<int>, sb: SuperBlock, i0: InodeView, i1: InodeView)
    requires
        direct_logged(logged0, sb, i0),
        i1.chain == i0.chain,
        i1.addrs == i0.addrs,
        logged0.subset_of(logged1),
    ensures
        direct_logged(logged1, sb, i1),
{
    reveal(direct_logged);
}

/// An inode has no indirect blocks, and the blocks of the free map for the others are logged.
#[verifier::opaque]
pub open spec fn direct_logged(logged: Set<int>, sb: SuperBlock, ino: InodeView) -> bool {
    &&& ino.chain == 0
    &&& forall|i: int| 0 <= i < 12 && #[trigger] ino.addrs[i] != 0 ==> logged.contains(map_block(sb, ino.addrs[i]))
}

/// Blocks of the free map for the blocks of an inode.
pub open spec fn blocks_map(v: Seq<Seq<u8>>, sb: SuperBlock, ino: InodeView) -> Set<int> {
    free_map(sb).filter(|m: int| exists|s: int| 0 <= s < 269 && #[trigger] addr(v, ino, s) != 0 && map_block(sb, addr(v, ino, s)) == m)
}

proof fn lemma_blocks_map(v: Seq<Seq<u8>>, sb: SuperBlock, o: Map<int, (int, int)>, inum: int, ino: InodeView)
    requires
        layout_wf(sb, v.len() as int),
        inode_wf(v, sb, o, inum, ino),
    ensures
        blocks_map(v, sb, ino).finite(),
        forall|s: int| 0 <= s < 269 && #[trigger] addr(v, ino, s) != 0 ==> blocks_map(v, sb, ino).contains(map_block(sb, addr(v, ino, s))),
{
    lemma_free_map(sb);
    assert forall|s: int| 0 <= s < 269 && #[trigger] addr(v, ino, s) != 0 implies blocks_map(v, sb, ino).contains(map_block(sb, addr(v, ino, s))) by {
        assert(addr_wf(v, sb, o, inum, ino, s));
    }
}

/// Inodes with the same blocks give back the same.
pub proof fn lemma_same_map(v0: Seq<Seq<u8>>, v1: Seq<Seq<u8>>, sb: SuperBlock, i0: InodeView, i1: InodeView)
    requires
        forall|s: int| 0 <= s < 269 ==> #[trigger] addr(v1, i1, s) == addr(v0, i0, s),
    ensures
        blocks_map(v1, sb, i1) == blocks_map(v0, sb, i0),
{
    assert forall|m: int| #[trigger] blocks_map(v1, sb, i1).contains(m) == blocks_map(v0, sb, i0).contains(m) by {
        if blocks_map(v1, sb, i1).contains(m) {
            let s = choose|s: int| 0 <= s < 269 && #[trigger] addr(v1, i1, s) != 0 && map_block(sb, addr(v1, i1, s)) == m;
            assert(addr(v0, i0, s) != 0);
        }
        if blocks_map(v0, sb, i0).contains(m) {
            let s = choose|s: int| 0 <= s < 269 && #[trigger] addr(v0, i0, s) != 0 && map_block(sb, addr(v0, i0, s)) == m;
            assert(addr(v1, i1, s) != 0);
        }
    }
    assert(blocks_map(v1, sb, i1) =~= blocks_map(v0, sb, i0));
}

/// What changes in the free map when an inode gives its blocks back.
pub proof fn lemma_map_of<D: BlockDevice>(vol: Volume<D>, inum: int, ino: InodeView)
    requires
        vol.mounted(),
        inode_wf(vol.blocks(), vol.sb(), vol.owner@, inum, ino),
    ensures
        vol.map_of(inum).finite(),
        blocks_map(vol.blocks(), vol.sb(), ino).subset_of(vol.map_of(inum)),
        direct_logged(vol.logged(), vol.sb(), ino) ==> blocks_map(vol.blocks(), vol.sb(), ino).subset_of(vol.logged()),
{
    let v = vol.blocks();
    let sb = vol.sb();
    reveal(direct_logged);
    lemma_free_map(sb);
    assert forall|m: int| #[trigger] blocks_map(v, sb, ino).contains(m) implies vol.map_of(inum).contains(m) by {
        let s = choose|s: int| 0 <= s < 269 && #[trigger] addr(v, ino, s) != 0 && map_block(sb, addr(v, ino, s)) == m;
        assert(addr_wf(v, sb, vol.owner@, inum, ino, s));
        assert(belongs(v, sb, vol.owner@, addr(v, ino, s), inum));
    }
    if direct_logged(vol.logged(), vol.sb(), ino) {
        assert forall|m: int| #[trigger] blocks_map(v, sb, ino).contains(m) implies vol.logged().contains(m) by {
            let s = choose|s: int| 0 <= s < 269 && #[trigger] addr(v, ino, s) != 0 && map_block(sb, addr(v, ino, s)) == m;
            assert(ino.addrs[s] != 0);
        }
    }
}

/// A change outside the free map leaves the number of free blocks.
proof fn lemma_map_same(v0: Seq<Seq<u8>>, v1: Seq<Seq<u8>>, sb: SuperBlock)
    requires
        layout_wf(sb, v0.len() as int),
        forall|b: int| sb.bmapstart <= b < data_start(sb) ==> #[trigger] v1[b] == v0[b],
    ensures
        free_blocks(v1, sb) == free_blocks(v0, sb),
{
    assert forall|x: int| 0 <= x < sb.size implies #[trigger] in_use(v1, sb, x) == in_use(v0, sb, x) by {
        assert(v1[sb.bmapstart + x / 8192] == v0[sb.bmapstart + x / 8192]);
    }
    lemma_free_same(v0, v1, sb);
}

/// The most blocks that a file of `size` bytes takes when it is written up to byte `end`: those
/// for its bytes, and the one that holds their addresses.
pub open spec fn blocks_for(size: int, end: int) -> int {
    if nblocks(end) <= nblocks(size) {
        0
    } else {
        nblocks(end) - nblocks(size) + if nblocks(size) <= 12 < nblocks(end) { 1int } else { 0int }
    }
}

/// The most blocks that a directory takes when it gets another entry.
pub open spec fn entry_blocks(c: Seq<u8>) -> int {
    blocks_for(c.len() as int, c.len() as int + 16)
}

/// Blocks that another entry of a directory adds to the log at most, besides the inode.
#[verifier::opaque]
pub open spec fn entry_due(c: Seq<u8>) -> int {
    let end = 16 * (c.len() as int / 16);
    write_due(end, end, 16)
}

/// Byte `x` of a file.
pub open spec fn byte_at(v: Seq<Seq<u8>>, ino: InodeView, x: int) -> u8 {
    v[block_of(v, ino, x / 1024)][x % 1024]
}

/// A change of the inode table disturbs no block of a file.
pub proof fn lemma_table_change(v0: Seq<Seq<u8>>, v1: Seq<Seq<u8>>, sb: SuperBlock, o: Map<int, (int, int)>)
    requires
        layout_wf(sb, v0.len() as int),
        v1.len() == v0.len(),
        forall|b: int| sb.bmapstart <= b < v0.len() ==> #[trigger] v1[b] == v0[b],
    ensures
        forall|j: int, ino: InodeView|
            0 <= j && #[trigger] inode_wf(v0, sb, o, j, ino) ==> inode_wf(v1, sb, o, j, ino) && contents(v1, ino) == contents(v0, ino),
{
    assert forall|j: int, ino: InodeView| 0 <= j && #[trigger] inode_wf(v0, sb, o, j, ino) implies inode_wf(v1, sb, o, j, ino) && contents(
        v1,
        ino,
    ) == contents(v0, ino) by {
        assert forall|b: int| is_data(sb, b) && in_use(v0, sb, b) && #[trigger] o.contains_key(b) implies v1[b] == v0[b] && in_use(v1, sb, b) by {
            assert(v1[sb.bmapstart + b / 8192] == v0[sb.bmapstart + b / 8192]);
        }
        lemma_other_file(v0, v1, sb, o, o, -1, j, ino);
    }
}

/// The state of a file in the middle of a write: the bytes from `offset` on are `src`.
spec fn half_written(v0: Seq<Seq<u8>>, i0: InodeView, v: Seq<Seq<u8>>, ino: InodeView, offset: int, src: Seq<u8>) -> bool {
    &&& same_attrs(ino, i0)
    &&& forall|i: int| 0 <= i < nblocks(i0.size) ==> #[trigger] block_of(v, ino, i) != 0
    &&& forall|i: int| 0 <= i < nblocks(offset + src.len()) ==> #[trigger] block_of(v, ino, i) != 0
    &&& forall|x: int| offset <= x < offset + src.len() ==> #[trigger] byte_at(v, ino, x) == src[x - offset]
    &&& forall|x: int| 0 <= x < i0.size && !(offset <= x < offset + src.len()) ==> #[trigger] byte_at(v, ino, x) == byte_at(v0, i0, x)
}

proof fn lemma_half_grown(
    v0: Seq<Seq<u8>>,
    i0: InodeView,
    v1: Seq<Seq<u8>>,
    i1: InodeView,
    v2: Seq<Seq<u8>>,
    i2: InodeView,
    offset: int,
    src: Seq<u8>,
)
    requires
        0 <= offset,
        0 <= i0.size <= 274432,
        offset + src.len() <= 274432,
        half_written(v0, i0, v1, i1, offset, src),
        grown(v1, i1, v2, i2),
        same_attrs(i2, i1),
    ensures
        half_written(v0, i0, v2, i2, offset, src),
{
    assert forall|i: int| 0 <= i < 268 && block_of(v1, i1, i) != 0 implies #[trigger] block_of(v2, i2, i) == block_of(v1, i1, i)
        && v2[block_of(v1, i1, i)] == v1[block_of(v1, i1, i)] by {
        assert(addr(v1, i1, slot_for(i)) != 0);
    }
    assert forall|i: int| 0 <= i < nblocks(i0.size) implies #[trigger] block_of(v2, i2, i) != 0 by {
        assert(block_of(v1, i1, i) != 0);
    }
    assert forall|i: int| 0 <= i < nblocks(offset + src.len()) implies #[trigger] block_of(v2, i2, i) != 0 by {
        assert(block_of(v1, i1, i) != 0);
    }
    assert forall|x: int| offset <= x < offset + src.len() implies #[trigger] byte_at(v2, i2, x) == src[x - offset] by {
        assert(byte_at(v1, i1, x) == src[x - offset]);
        assert(block_of(v1, i1, x / 1024) != 0);
        assert(block_of(v2, i2, x / 1024) == block_of(v1, i1, x / 1024));
    }
    assert forall|x: int| 0 <= x < i0.size && !(offset <= x < offset + src.len()) implies #[trigger] byte_at(v2, i2, x) == byte_at(v0, i0, x) by {
        assert(byte_at(v1, i1, x) == byte_at(v0, i0, x));
        assert(block_of(v1, i1, x / 1024) != 0);
        assert(block_of(v2, i2, x / 1024) == block_of(v1, i1, x / 1024));
    }
}

proof fn lemma_half_step(
    v0: Seq<Seq<u8>>,
    i0: InodeView,
    v1: Seq<Seq<u8>>,
    v2: Seq<Seq<u8>>,
    ino: InodeView,
    offset: int,
    src: Seq<u8>,
    chunk: Seq<u8>,
)
    requires
        0 <= offset <= i0.size,
        0 <= i0.size <= 274432,
        offset + src.len() + chunk.len() <= 274432,
        half_written(v0, i0, v1, ino, offset, src),
        ({
            let pos = offset + src.len();
            let k = pos / 1024;
            &&& pos % 1024 + chunk.len() <= 1024
            &&& chunk.len() > 0
            &&& block_of(v1, ino, k) != 0
            &&& v1[block_of(v1, ino, k)].len() == 1024
            &&& v2[block_of(v1, ino, k)] == spliced(v1[block_of(v1, ino, k)], pos % 1024, chunk)
            &&& forall|slot: int| 0 <= slot < 269 ==> #[trigger] addr(v2, ino, slot) == addr(v1, ino, slot)
            &&& forall|i: int| 0 <= i < 268 && i != k && block_of(v1, ino, i) != 0 ==> v2[#[trigger] block_of(v1, ino, i)] == v1[block_of(
                v1,
                ino,
                i,
            )]
        }),
    ensures
        half_written(v0, i0, v2, ino, offset, src + chunk),
{
    let pos = offset + src.len();
    let k = pos / 1024;
    let all = src + chunk;
    assert forall|i: int| 0 <= i < 268 implies #[trigger] block_of(v2, ino, i) == block_of(v1, ino, i) by {
        assert(addr(v2, ino, slot_for(i)) == addr(v1, ino, slot_for(i)));
    }
    assert forall|i: int| 0 <= i < nblocks(i0.size) implies #[trigger] block_of(v2, ino, i) != 0 by {
        assert(block_of(v1, ino, i) != 0);
    }
    assert forall|i: int| 0 <= i < nblocks(offset + all.len()) implies #[trigger] block_of(v2, ino, i) != 0 by {
        if i < k {
            assert(i < nblocks(pos));
            assert(block_of(v1, ino, i) != 0);
        } else {
            assert(i == k);
        }
    }
    assert forall|x: int| offset <= x < offset + all.len() implies #[trigger] byte_at(v2, ino, x) == all[x - offset] by {
        if x < pos {
            assert(byte_at(v1, ino, x) == src[x - offset]);
            assert(block_of(v1, ino, x / 1024) != 0);
            assert(block_of(v2, ino, x / 1024) == block_of(v1, ino, x / 1024));
        } else {
            assert(x / 1024 == k);
            assert(x % 1024 == pos % 1024 + (x - pos));
            assert(block_of(v2, ino, k) == block_of(v1, ino, k));
        }
    }
    assert forall|x: int| 0 <= x < i0.size && !(offset <= x < offset + all.len()) implies #[trigger] byte_at(v2, ino, x) == byte_at(v0, i0, x) by {
        assert(byte_at(v1, ino, x) == byte_at(v0, i0, x));
        assert(block_of(v1, ino, x / 1024) != 0);
        assert(block_of(v2, ino, x / 1024) == block_of(v1, ino, x / 1024));
    }
}

/// The bytes of a file after a write, with its new size.
proof fn lemma_half_contents(v0: Seq<Seq<u8>>, i0: InodeView, v1: Seq<Seq<u8>>, i1: InodeView, size: int, offset: int, src: Seq<u8>)
    requires
        0 <= offset <= i0.size,
        half_written(v0, i0, v1, i1, offset, src),
        size == i0.size || (size == offset + src.len() && size > i0.size),
    ensures
        ({
            let i2 = InodeView { size, ..i1 };
            contents(v1, i2) == overwritten(contents(v0, i0), offset, src).take(size)
        }),
{
    let i2 = InodeView { size, ..i1 };
    let c = overwritten(contents(v0, i0), offset, src);
    assert forall|x: int| 0 <= x < size implies contents(v1, i2)[x] == c[x] by {
        assert(block_of(v1, i2, x / 1024) == block_of(v1, i1, x / 1024));
        assert(contents(v1, i2)[x] == byte_at(v1, i1, x));
        if offset <= x < offset + src.len() {
            assert(byte_at(v1, i1, x) == src[x - offset]);
        } else {
            assert(byte_at(v1, i1, x) == byte_at(v0, i0, x));
        }
    }
    assert(contents(v1, i2) =~= c.take(size));
}

/// What the next block of a write takes, where the blocks before it are there.
proof fn lemma_next_block(v: Seq<Seq<u8>>, ino: InodeView, size: int, offset: int, wrote: int, count: int)
    requires
        0 <= offset <= size,
        0 <= wrote < count,
        wrote == 0 || (offset + wrote) % 1024 == 0,
        forall|i: int| 0 <= i < nblocks(size) ==> #[trigger] block_of(v, ino, i) != 0,
        forall|i: int| 0 <= i < nblocks(offset + wrote) ==> #[trigger] block_of(v, ino, i) != 0,
    ensures
        ({
            let pos = offset + wrote;
            let len = chunk_len(pos, count - wrote);
            let k = pos / 1024;
            let next = blocks_for(size, pos + len);
            &&& blocks_for(size, pos) <= next <= blocks_for(size, offset + count)
            &&& block_of(v, ino, k) == 0 ==> blocks_for(size, pos) + if k >= 12 && ino.chain == 0 { 2int } else { 1int } <= next
        }),
{
    let pos = offset + wrote;
    let k = pos / 1024;
    if block_of(v, ino, k) == 0 {
        assert(k >= nblocks(size));
        assert(k >= nblocks(pos));
        assert(pos == 1024 * k);
        if k > 12 {
            assert(block_of(v, ino, 12) != 0);
        }
        if nblocks(size) > 12 {
            assert(block_of(v, ino, 12) != 0);
        }
    }
}

/// Blocks that the rest of a write adds to the log at most, where `chain` is what the block that
/// holds the addresses adds.
#[verifier::opaque]
spec fn left_due(size: int, offset: int, wrote: int, count: int, chain: int) -> int {
    chunks(offset + wrote, count - wrote) + if grows(size, offset + count) {
        blocks_for(size, offset + count) - blocks_for(size, offset + wrote) + if nblocks(offset + count) > 12 {
            chain
        } else {
            0
        }
    } else {
        0
    }
}

proof fn lemma_left_start(size: int, offset: int, count: int, chain: int)
    requires
        0 <= offset <= size,
        0 <= chain <= 1,
        0 <= count,
    ensures
        left_due(size, offset, 0, count, chain) <= write_due(size, offset, count),
        0 <= write_due(size, offset, count),
{
    reveal(left_due);
}

proof fn lemma_left_less(size: int, offset: int, wrote: int, count: int, x: int, y: int)
    requires
        0 <= x,
    ensures
        x <= y ==> left_due(size, offset, wrote, count, x) <= left_due(size, offset, wrote, count, y),
{
    reveal(left_due);
}

proof fn lemma_left_step(v: Seq<Seq<u8>>, ino: InodeView, size: int, offset: int, wrote: int, count: int, chain: int)
    requires
        0 <= offset <= size,
        0 <= wrote < count,
        0 <= chain <= 1,
        wrote == 0 || (offset + wrote) % 1024 == 0,
        forall|i: int| 0 <= i < nblocks(size) ==> #[trigger] block_of(v, ino, i) != 0,
        forall|i: int| 0 <= i < nblocks(offset + wrote) ==> #[trigger] block_of(v, ino, i) != 0,
    ensures
        ({
            let pos = offset + wrote;
            let len = chunk_len(pos, count - wrote);
            let k = pos / 1024;
            let here = left_due(size, offset, wrote, count, chain);
            let next = left_due(size, offset, wrote + len, count, chain);
            let bare = left_due(size, offset, wrote + len, count, 0);
            &&& 0 <= bare <= next
            &&& 1 <= here
            &&& block_of(v, ino, k) != 0 ==> next + 1 <= here
            &&& block_of(v, ino, k) == 0 && k < 12 ==> next + 2 <= here
            &&& block_of(v, ino, k) == 0 && k >= 12 ==> bare + 1 + (if ino.chain == 0 { 2int } else { 1int }) + chain <= here
        }),
{
    reveal(left_due);
    lemma_chunks(offset + wrote, count - wrote);
    lemma_next_block(v, ino, size, offset, wrote, count);
    let pos = offset + wrote;
    let len = chunk_len(pos, count - wrote);
    assert(blocks_for(size, pos) <= blocks_for(size, pos + len) <= blocks_for(size, offset + count));
    if block_of(v, ino, pos / 1024) == 0 {
        assert(pos / 1024 >= nblocks(size));
    }
    assert(chunks(pos + len, count - wrote - len) >= 0);
}

proof fn lemma_chunks(offset: int, n: int)
    requires
        0 <= offset,
        0 < n,
    ensures
        chunks(offset + chunk_len(offset, n), n - chunk_len(offset, n)) == chunks(offset, n) - 1,
        chunk_len(offset, n) > 0,
        chunks(offset, n) >= 1,
{
    let len = chunk_len(offset, n);
    if len < n {
        assert((offset + len) / 1024 == offset / 1024 + 1);
        assert((offset + len) + (n - len) - 1 == offset + n - 1);
    }
}

impl CachedInode {
    /// Writes the inode to disk.
    pub fn update<D: BlockDevice>(&mut self, vol: &mut Volume<D>)
        requires
            old(vol).wf(),
            old(vol).room(old(vol).inode_due(old(self).inode_number as int)),
            old(self).inode.wf(),
            is_inode(old(vol).sb(), old(self).inode_number as int),
            inode_wf(old(vol).blocks(), old(vol).sb(), old(vol).owner@, old(self).inode_number as int, old(self).inode@),
        ensures
            *final(self) == *old(self),
            final(vol).wf(),
            final(vol).sb() == old(vol).sb(),
            final(vol).owner == old(vol).owner,
            final(vol).session() == old(vol).session(),
            final(vol).logged() == old(vol).logged().insert(inode_block(old(vol).sb(), old(self).inode_number as int)),
            final(vol).used() == old(vol).used() + old(vol).inode_due(old(self).inode_number as int),
            inode_set(old(vol).blocks(), final(vol).blocks(), old(vol).sb(), old(self).inode_number as int, old(self).inode@),
            synced(final(vol).blocks(), old(vol).sb(), old(vol).owner@, old(self).inode_number as int, old(self).inode@),
            contents(final(vol).blocks(), old(self).inode@) == contents(old(vol).blocks(), old(self).inode@),
    {
        let ghost v0 = vol.blocks();
        let ghost sb = vol.sb();
        vol.write_inode(self.inode_number, &self.inode);
        proof {
            lemma_table_change(v0, vol.blocks(), sb, vol.owner@);
            assert(inode_wf(v0, sb, vol.owner@, self.inode_number as int, self.inode@));
        }
    }

    /// The bytes from `offset` on, `count` of them or as many as there are.
    pub fn copy_to<D: BlockDevice>(&mut self, vol: &mut Volume<D>, offset: usize, count: usize) -> (r: Result<Vec<u8>, ()>)
        requires
            old(self).valid(*old(vol)),
        ensures
            *final(self) == *old(self),
            final(vol).wf(),
            same_volume(*old(vol), *final(vol)),
            r is Ok,
            r->Ok_0@ == readable(old(self).bytes(*old(vol)), offset as int, count as int),
    {
        let ghost v0 = vol.blocks();
        let ghost ino = self.inode@;
        let ghost c = self.bytes(*vol);
        let size = self.size();
        let mut out: Vec<u8> = Vec::new();
        if offset > size {
            proof {
                assert(out@ =~= readable(c, offset as int, count as int));
            }
            return Ok(out);
        }
        if offset.checked_add(count).is_none() {
            proof {
                assert(out@ =~= readable(c, offset as int, count as int));
            }
            return Ok(out);
        }
        let n = if offset + count > size {
            size - offset
        } else {
            count
        };
        let mut read: usize = 0;
        while read < n
            invariant
                *self == *old(self),
                self.valid(*vol),
                same_volume(*old(vol), *vol),
                v0 == vol.blocks(),
                ino == self.inode@,
                c == contents(v0, ino),
                offset + n <= ino.size,
                ino.size <= 274432,
                read <= n,
                out@ =~= c.subrange(offset as int, offset + read),
            decreases n - read,
        {
            let pos = offset + read;
            proof {
                assert(block_of(v0, ino, pos as int / 1024) != 0);
            }
            let block = match self.offset_to_block(vol, pos) {
                Some(block) => block,
                None => {
                    return Ok(out);
                },
            };
            let offset_in_block = pos % BSIZE;
            let rest = n - read;
            let len = if rest < BSIZE - offset_in_block { rest } else { BSIZE - offset_in_block };
            proof {
                assert(addr_wf(v0, vol.sb(), vol.owner@, self.inode_number as int, ino, slot_for(pos as int / 1024)));
            }
            let src = vol.load(block);
            let mut i: usize = 0;
            while i < len
                invariant
                    i <= len,
                    offset_in_block + len <= 1024,
                    src@.len() == 1024,
                    pos == offset + read,
                    offset_in_block == pos % 1024,
                    read + len <= n,
                    offset + n <= ino.size,
                    c == contents(v0, ino),
                    src@ == v0[block_of(v0, ino, pos as int / 1024)],
                    out@ =~= c.subrange(offset as int, offset + read + i),
                decreases len - i,
            {
                proof {
                    assert((pos + i) as int / 1024 == pos as int / 1024);
                    assert((pos + i) as int % 1024 == offset_in_block + i);
                    assert(c[pos + i] == src@[offset_in_block + i]);
                }
                out.push(src[offset_in_block + i]);
                i = i + 1;
            }
            read = read + len;
        }
        proof {
            assert(out@ =~= readable(c, offset as int, count as int));
        }
        Ok(out)
    }

    /// The `size` bytes from `offset` on, if there are that many.
    pub fn read<D: BlockDevice>(&mut self, vol: &mut Volume<D>, offset: usize, size: usize) -> (r: Result<Vec<u8>, ()>)
        requires
            old(self).valid(*old(vol)),
        ensures
            *final(self) == *old(self),
            final(vol).wf(),
            same_volume(*old(vol), *final(vol)),
            match r {
                Ok(bytes) => {
                    &&& offset + size <= old(self).inode@.size || size == 0
                    &&& bytes@ == readable(old(self).bytes(*old(vol)), offset as int, size as int)
                    &&& bytes@.len() == size
                },
                Err(_) => size > 0 && offset + size > old(self).inode@.size,
            },
    {
        match self.copy_to(vol, offset, size) {
            Ok(bytes) => {
                if bytes.len() == size {
                    Ok(bytes)
                } else {
                    Err(())
                }
            },
            Err(_) => Err(()),
        }
    }

    /// Writes pieces to the blocks of the file and returns how many bytes were written,
    /// as an error where no block was left. The size stays.
    #[verifier::rlimit(100)]
    fn write_blocks<D: BlockDevice>(&mut self, vol: &mut Volume<D>, src: &Vec<u8>, offset: usize, count: usize) -> (r: Result<usize, usize>)
        requires
            old(self).valid(*old(vol)),
            src@.len() <= count,
            offset <= old(self).inode@.size,
            offset + count <= 274432,
            old(vol).room(write_due(old(self).inode@.size, offset as int, count as int)),
        ensures
            final(self).valid(*final(vol)),
            final(self).device == old(self).device,
            final(self).inode_number == old(self).inode_number,
            final(self).is_initialized == old(self).is_initialized,
            final(vol).sb() == old(vol).sb(),
            final(vol).session() == old(vol).session(),
            final(vol).used() <= old(vol).used() + write_due(old(self).inode@.size, offset as int, count as int),
            old(vol).logged().subset_of(final(vol).logged()),
            offset + count <= 12288 && direct_logged(old(vol).logged(), old(vol).sb(), old(self).inode@) ==> direct_logged(final(vol).logged(), old(vol).sb(), final(self).inode@),
            touched(
                old(vol).blocks(),
                final(vol).blocks(),
                old(vol).sb(),
                old(vol).owner@,
                final(vol).owner@,
                old(self).inode_number as int,
            ),
            ({
                let w = match r {
                    Ok(w) => w,
                    Err(w) => w,
                };
                &&& w <= src@.len()
                &&& half_written(
                    old(vol).blocks(),
                    old(self).inode@,
                    final(vol).blocks(),
                    final(self).inode@,
                    offset as int,
                    src@.take(w as int),
                )
                &&& r is Ok ==> (w == count || w + chunk_len(offset + w, count - w) > src@.len())
                &&& r is Ok ==> (w == 0 || w == count || (offset + w) % 1024 == 0)
                &&& r is Err ==> disk_full(final(vol).blocks(), old(vol).sb())
                &&& r is Err ==> offset + count > 1024 * nblocks(old(self).inode@.size)
                &&& r is Err ==> free_blocks(old(vol).blocks(), old(vol).sb()) < blocks_for(old(self).inode@.size, offset + count)
                &&& r is Ok ==> free_blocks(final(vol).blocks(), old(vol).sb()) >= free_blocks(old(vol).blocks(), old(vol).sb()) - blocks_for(
                    old(self).inode@.size,
                    offset + count,
                )
            }),
    {
        let ghost vol0 = *vol;
        let ghost v0 = vol.blocks();
        let ghost i0 = self.inode@;
        let ghost o0 = vol.owner@;
        let ghost sb = vol.sb();
        let ghost total = write_due(i0.size, offset as int, count as int);
        let ghost inum = self.inode_number as int;
        let ghost disk0 = disk_inode(v0, sb, inum);
        proof {
            lemma_left_start(i0.size, offset as int, count as int, chain_due(*vol, i0));
            assert(touched(v0, v0, sb, o0, o0, inum));
            assert(src@.take(0) =~= Seq::<u8>::empty());
            assert forall|i: int| 0 <= i < nblocks(offset as int) implies #[trigger] block_of(v0, i0, i) != 0 by {
                assert(i < nblocks(i0.size));
            }
            assert(half_written(v0, i0, v0, i0, offset as int, src@.take(0)));
        }
        let mut wrote: usize = 0;
        while wrote < count
            invariant_except_break
                wrote <= count,
                wrote < count ==> vol.used() + left_due(i0.size, offset as int, wrote as int, count as int, chain_due(*vol, self.inode@)) <= vol0.used() + total,
                free_blocks(vol.blocks(), sb) >= free_blocks(v0, sb) - blocks_for(i0.size, offset + wrote),
            invariant
                vol0 == *old(vol),
                v0 == vol0.blocks(),
                o0 == vol0.owner@,
                sb == vol0.sb(),
                vol0.wf(),
                i0 == old(self).inode@,
                inum == old(self).inode_number,
                inode_wf(v0, sb, o0, inum, i0),
                disk0 == disk_inode(v0, sb, inum),
                offset <= i0.size,
                offset + count <= 274432,
                src@.len() <= count,
                wrote <= src@.len(),
                wrote == 0 || wrote == count || (offset + wrote) % 1024 == 0,
                self.valid(*vol),
                self.device == old(self).device,
                self.inode_number == old(self).inode_number,
                self.is_initialized == old(self).is_initialized,
                vol.sb() == sb,
                vol.session() == vol0.session(),
                total == write_due(i0.size, offset as int, count as int),
                vol0.room(total),
                vol0.logged().subset_of(vol.logged()),
                offset + count <= 12288 && direct_logged(vol0.logged(), sb, i0) ==> direct_logged(vol.logged(), sb, self.inode@),
                touched(v0, vol.blocks(), sb, o0, vol.owner@, inum),
                half_written(v0, i0, vol.blocks(), self.inode@, offset as int, src@.take(wrote as int)),
                vol.used() <= vol0.used() + total,
            ensures
                wrote == count || wrote + chunk_len(offset + wrote, count - wrote) > src@.len(),
                free_blocks(vol.blocks(), sb) >= free_blocks(v0, sb) - blocks_for(i0.size, offset + count),
            decreases count - wrote,
        {
            let pos = offset + wrote;
            let ghost v1 = vol.blocks();
            let ghost i1 = self.inode@;
            let ghost o1 = vol.owner@;
            let ghost due1 = chain_due(*vol, i1);
            let ghost done = src@.take(wrote as int);
            proof {
                lemma_chunks(pos as int, count - wrote);
                lemma_next_block(v1, i1, i0.size, offset as int, wrote as int, count as int);
                lemma_left_step(v1, i1, i0.size, offset as int, wrote as int, count as int, chain_due(*vol, i1));
            }
            let block = match self.offset_to_block(vol, pos) {
                Some(block) => block,
                None => {
                    proof {
                        lemma_touched_trans(v0, v1, vol.blocks(), sb, o0, o1, vol.owner@, inum);
                        lemma_half_grown(v0, i0, v1, i1, vol.blocks(), self.inode@, offset as int, done);
                        assert(block_of(v1, i1, pos as int / 1024) == 0);
                    }
                    return Err(wrote);
                },
            };
            let ghost v2 = vol.blocks();
            let ghost i2 = self.inode@;
            let ghost o2 = vol.owner@;
            let ghost k = pos as int / 1024;
            proof {
                lemma_touched_trans(v0, v1, v2, sb, o0, o1, o2, inum);
                lemma_half_grown(v0, i0, v1, i1, v2, i2, offset as int, done);
                lemma_tables_same(v0, v2, sb);
                assert(addr_wf(v2, sb, o2, inum, i2, slot_for(k)));
            }
            let mut dst = vol.load(block);
            let offset_in_block = pos % BSIZE;
            let rest = count - wrote;
            let len = if rest < BSIZE - offset_in_block { rest } else { BSIZE - offset_in_block };
            if src.len() < wrote + len {
                break;
            }
            copy_into(&mut dst, offset_in_block, src, wrote, len);
            let ghost vol2 = *vol;
            vol.store(block, &dst);
            proof {
                if direct_logged(vol2.logged(), sb, i2) {
                    lemma_still_logged(vol2.logged(), vol.logged(), sb, i2, i2);
                }
                let v3 = vol.blocks();
                let chunk = src@.subrange(wrote as int, wrote + len);
                lemma_set_data(v2, v3, sb, o2, inum, i2, k, dst@);
                assert(v2[block as int].len() == 1024);
                lemma_half_step(v0, i0, v2, v3, i2, offset as int, done, chunk);
                assert(src@.take(wrote + len) =~= done + chunk);
                lemma_touched_trans(v0, v2, v3, sb, o0, o2, o2, inum);
                lemma_tables_same(v0, v3, sb);
                lemma_map_same(v2, v3, sb);
                assert(inode_wf(v2, sb, o2, inum, disk0));
                Volume::<D>::lemma_meta_kept(v2, v3, sb);
                assert forall|x: int| 0 <= x < data_start(sb) implies #[trigger] in_use(v3, sb, x) by {
                    assert(in_use(v2, sb, x));
                }
            }
            proof {
                lemma_left_less(i0.size, offset as int, wrote + len, count as int, chain_due(*vol, i2), due1);
            }
            wrote = wrote + len;
        }
        Ok(wrote)
    }

    /// Writes at `offset`, growing the file where needed. `count` bytes are wanted, of which
    /// `src` holds the first ones. Pieces that lie in one block are written as a whole, so
    /// where `src` is too short, the last piece is left out. The result is the number of
    /// bytes written.
    #[verifier::rlimit(100)]
    #[verifier::spinoff_prover]
    pub fn copy_from<D: BlockDevice>(&mut self, vol: &mut Volume<D>, src: &Vec<u8>, offset: usize, count: usize) -> (r: Result<usize, ()>)
        requires
            old(self).valid(*old(vol)),
            src@.len() <= count,
            old(self).inode@.kind == InodeKind::Directory && offset + count > old(self).inode@.size ==> (offset + count) % 16 == 0,
            offset <= old(self).inode@.size && offset + count <= 274432 ==> old(vol).room(
                write_due(old(self).inode@.size, offset as int, count as int) + old(vol).inode_due(old(self).inode_number as int),
            ),
        ensures
            final(self).valid(*final(vol)),
            final(self).device == old(self).device,
            final(self).inode_number == old(self).inode_number,
            final(self).is_initialized == old(self).is_initialized,
            file_kept(*old(vol), *final(vol), old(self).inode_number as int),
            if offset > old(self).inode@.size || offset + count > 274432 {
                r is Err && *final(self) == *old(self) && same_volume(*old(vol), *final(vol))
            } else {
                &&& final(vol).used() <= old(vol).used() + write_due(old(self).inode@.size, offset as int, count as int) + old(vol).inode_due(
                    old(self).inode_number as int,
                )
                &&& offset + count <= 12288 && direct_logged(old(vol).logged(), old(vol).sb(), old(self).inode@) ==> direct_logged(final(vol).logged(), old(vol).sb(), final(self).inode@)
                &&& old(vol).logged().subset_of(final(vol).logged())
                &&& r is Ok ==> final(vol).inode_due(old(self).inode_number as int) == 0
                &&& match r {
                    Ok(wrote) => {
                        &&& wrote <= src@.len()
                        &&& wrote == count || wrote + chunk_len(offset + wrote, count - wrote) > src@.len()
                        &&& wrote == 0 || wrote == count || (offset + wrote) % 1024 == 0
                        &&& final(self).bytes(*final(vol)) == overwritten(old(self).bytes(*old(vol)), offset as int, src@.take(wrote as int))
                        &&& final(self).inode@.kind == old(self).inode@.kind
                        &&& final(self).inode@.major == old(self).inode@.major
                        &&& final(self).inode@.minor == old(self).inode@.minor
                        &&& final(self).inode@.nlink == old(self).inode@.nlink
                        &&& disk_inode(final(vol).blocks(), old(vol).sb(), old(self).inode_number as int) == final(self).inode@
                        &&& free_blocks(final(vol).blocks(), old(vol).sb()) >= free_blocks(old(vol).blocks(), old(vol).sb()) - blocks_for(
                            old(self).inode@.size,
                            offset + count,
                        )
                    },
                    Err(_) => {
                        &&& disk_full(final(vol).blocks(), old(vol).sb())
                        &&& free_blocks(old(vol).blocks(), old(vol).sb()) < blocks_for(old(self).inode@.size, offset + count)
                        &&& offset + count > 1024 * nblocks(old(self).inode@.size)
                        &&& same_attrs(final(self).inode@, old(self).inode@)
                        &&& disk_inode(final(vol).blocks(), old(vol).sb(), old(self).inode_number as int) == disk_inode(
                            old(vol).blocks(),
                            old(vol).sb(),
                            old(self).inode_number as int,
                        )
                        &&& exists|w: int| #[trigger]
                            partly_written(old(self).bytes(*old(vol)), final(self).bytes(*final(vol)), offset as int, src@, w)
                    },
                }
            },
    {
        let ghost v0 = vol.blocks();
        let ghost i0 = self.inode@;
        let ghost o0 = vol.owner@;
        let ghost sb = vol.sb();
        let ghost inum = self.inode_number as int;
        let ghost c0 = contents(v0, i0);
        if offset > self.inode.size as usize {
            return Err(());
        }
        if offset.checked_add(count).is_none() {
            return Err(());
        }
        if offset + count > MAXFILE * BSIZE {
            return Err(());
        }
        let wrote = match self.write_blocks(vol, src, offset, count) {
            Ok(wrote) => wrote,
            Err(wrote) => {
                proof {
                    let v4 = vol.blocks();
                    let done = src@.take(wrote as int);
                    lemma_tables_same(v0, v4, sb);
                    lemma_half_contents(v0, i0, v4, self.inode@, i0.size, offset as int, done);
                    assert((InodeView { size: i0.size, ..self.inode@ }) == self.inode@);
                    assert(partly_written(old(self).bytes(*old(vol)), self.bytes(*vol), offset as int, src@, wrote as int));
                }
                return Err(());
            },
        };
        let ghost v4 = vol.blocks();
        let ghost i4 = self.inode@;
        let ghost done = src@.take(wrote as int);
        proof {
            lemma_tables_same(v0, v4, sb);
        }
        let end = (offset + wrote) as u32;
        if self.inode.size < end {
            self.inode.size = end;
        }
        proof {
            let i5 = self.inode@;
            let size = i5.size;
            assert(i5.addrs =~= i4.addrs);
            assert(i5 == (InodeView { size, ..i4 }));
            lemma_half_contents(v0, i0, v4, i4, size, offset as int, done);
            let c = overwritten(c0, offset as int, done);
            assert(c.take(size) =~= c);
            assert(inode_wf(v4, sb, vol.owner@, inum, i5)) by {
                assert forall|slot: int| 0 <= slot < 269 implies #[trigger] addr_wf(v4, sb, vol.owner@, inum, i5, slot) by {
                    assert(addr_wf(v4, sb, vol.owner@, inum, i4, slot));
                }
                assert forall|i: int| 0 <= i < nblocks(i5.size) implies #[trigger] block_of(v4, i5, i) != 0 by {
                    assert(block_of(v4, i4, i) != 0);
                }
            }
        }
        let ghost vol4 = *vol;
        self.update(vol);
        proof {
            if direct_logged(vol4.logged(), sb, i4) {
                lemma_still_logged(vol4.logged(), vol.logged(), sb, i4, self.inode@);
            }
            lemma_after_update(v0, v4, vol.blocks(), sb, o0, vol.owner@, inum, self.inode@);
            lemma_map_same(v4, vol.blocks(), sb);
        }
        Ok(wrote)
    }
}

/// Writing back an inode disturbs no other file.
proof fn lemma_after_update(
    v0: Seq<Seq<u8>>,
    v1: Seq<Seq<u8>>,
    v2: Seq<Seq<u8>>,
    sb: SuperBlock,
    o0: Map<int, (int, int)>,
    o1: Map<int, (int, int)>,
    inum: int,
    ino: InodeView,
)
    requires
        layout_wf(sb, v0.len() as int),
        touched(v0, v1, sb, o0, o1, inum),
        inode_set(v1, v2, sb, inum, ino),
    ensures
        others_kept(v0, v2, sb, o0, o1, inum),
        forall|j: int| 0 <= j < sb.ninodes && j != inum ==> #[trigger] disk_inode(v2, sb, j) == disk_inode(v0, sb, j),
{
    lemma_tables_same(v0, v1, sb);
    assert forall|j: int| 0 <= j < sb.ninodes && j != inum implies #[trigger] disk_inode(v2, sb, j) == disk_inode(v0, sb, j) by {
        assert(disk_inode(v1, sb, j) == disk_inode(v0, sb, j));
    }
    assert forall|b: int| is_data(sb, b) && in_use(v0, sb, b) && #[trigger] o0.contains_key(b) && o0[b].0 != inum implies {
        &&& v2[b] == v0[b]
        &&& in_use(v2, sb, b)
        &&& o1.contains_key(b)
        &&& o1[b] == o0[b]
    } by {
        assert(v2[b] == v1[b]);
        assert(v2[sb.bmapstart + b / 8192] == v1[sb.bmapstart + b / 8192]);
    }
}

/// Work on file `inum` changes no other file.
pub open spec fn file_kept<D: BlockDevice>(old: Volume<D>, new: Volume<D>, inum: int) -> bool {
    &&& new.sb() == old.sb()
    &&& new.session() == old.session()
    &&& new.blocks().len() == old.blocks().len()
    &&& others_kept(old.blocks(), new.blocks(), old.sb(), old.owner@, new.owner@, inum)
    &&& forall|j: int|
        0 <= j < old.sb().ninodes && j != inum ==> #[trigger] disk_inode(new.blocks(), old.sb(), j) == disk_inode(
            old.blocks(),
            old.sb(),
            j,
        )
}

/// The file has the same size, and its bytes from `offset` on are the first `w` of `src` as
/// far as the file reaches.
pub open spec fn partly_written(c0: Seq<u8>, c1: Seq<u8>, offset: int, src: Seq<u8>, w: int) -> bool {
    0 <= w <= src.len() && c1 == overwritten(c0, offset, src.take(w)).take(c0.len() as int)
}

/// The bytes that a read of `count` bytes at `offset` gives.
pub open spec fn readable(c: Seq<u8>, offset: int, count: int) -> Seq<u8> {
    if offset > c.len() || offset + count > usize::MAX {
        Seq::empty()
    } else if offset + count > c.len() {
        c.skip(offset)
    } else {
        c.subrange(offset, offset + count)
    }
}

proof fn lemma_tables_same(v0: Seq<Seq<u8>>, v1: Seq<Seq<u8>>, sb: SuperBlock)
    requires
        layout_wf(sb, v0.len() as int),
        forall|b: int| 0 <= b < sb.bmapstart ==> #[trigger] v1[b] == v0[b],
    ensures
        forall|j: int| 0 <= j < sb.ninodes ==> #[trigger] disk_inode(v1, sb, j) == disk_inode(v0, sb, j),
{
    assert forall|j: int| 0 <= j < sb.ninodes implies #[trigger] disk_inode(v1, sb, j) == disk_inode(v0, sb, j) by {
        assert(v1[sb.inodestart + j / 16] == v0[sb.inodestart + j / 16]);
    }
}


/// Names an inode.
pub struct InodeKey {
    pub device: usize,
    pub index: usize,
}

impl PartialEq for InodeKey {
    fn eq(&self, other: &Self) -> (b: bool) {
        self.device == other.device && self.index == other.index
    }
}

impl vstd::std_specs::cmp::PartialEqSpecImpl for InodeKey {
    open spec fn obeys_eq_spec() -> bool {
        true
    }

    open spec fn eq_spec(&self, other: &Self) -> bool {
        self.device == other.device && self.index == other.index
    }
}

/// Inode number in entry `k` of a directory.
pub open spec fn entry_inum(c: Seq<u8>, k: int) -> int {
    le16(c, 16 * k)
}

/// Name in entry `k` of a directory.
pub open spec fn entry_name(c: Seq<u8>, k: int) -> Seq<u8> {
    c.subrange(16 * k + 2, 16 * k + 16)
}

/// Entry `k` of a directory is in use and matches `name`.
pub open spec fn entry_matches(c: Seq<u8>, k: int, name: Seq<u8>) -> bool {
    entry_inum(c, k) != 0 && name_is(entry_name(c, k), name)
}

/// Entry `k` is the first that matches `name`.
pub open spec fn is_entry_of(c: Seq<u8>, name: Seq<u8>, k: int) -> bool {
    &&& 0 <= k < c.len() as int / 16
    &&& entry_matches(c, k, name)
    &&& forall|j: int| 0 <= j < k ==> !#[trigger] entry_matches(c, j, name)
}

/// No entry matches `name`.
pub open spec fn no_entry_of(c: Seq<u8>, name: Seq<u8>) -> bool {
    forall|j: int| 0 <= j < c.len() as int / 16 ==> !#[trigger] entry_matches(c, j, name)
}

/// Entry `k` is the first unused one, or comes after the last.
pub open spec fn is_insert_place(c: Seq<u8>, k: int) -> bool {
    &&& 0 <= k <= c.len() as int / 16
    &&& forall|j: int| 0 <= j < k ==> #[trigger] entry_inum(c, j) != 0
    &&& k < c.len() as int / 16 ==> entry_inum(c, k) == 0
}

/// A directory with an entry for `name` put at place `k`.
pub open spec fn with_entry(c: Seq<u8>, k: int, inum: int, name: Seq<u8>) -> Seq<u8> {
    overwritten(c, 16 * k, entry_bytes(inum, padded(name)))
}

proof fn lemma_entry_part(c: Seq<u8>, part: Seq<u8>, k: int)
    requires
        0 <= k,
        16 * k + 16 <= c.len(),
        part == c.subrange(16 * k, 16 * k + 16),
    ensures
        le16(part, 0) == entry_inum(c, k),
        part.subrange(2, 16) == entry_name(c, k),
{
    assert(part.subrange(2, 16) =~= entry_name(c, k));
}

impl CachedInode {
    /// Writes all of `bytes` at `offset`.
    pub fn write<D: BlockDevice>(&mut self, vol: &mut Volume<D>, bytes: &Vec<u8>, offset: usize) -> (r: Result<(), ()>)
        requires
            old(self).valid(*old(vol)),
            old(self).inode@.kind == InodeKind::Directory && offset + bytes@.len() > old(self).inode@.size ==> (offset + bytes@.len()) % 16 == 0,
            offset <= old(self).inode@.size && offset + bytes@.len() <= 274432 ==> old(vol).room(
                write_due(old(self).inode@.size, offset as int, bytes@.len() as int) + old(vol).inode_due(old(self).inode_number as int),
            ),
        ensures
            final(self).valid(*final(vol)),
            final(self).device == old(self).device,
            final(self).inode_number == old(self).inode_number,
            final(self).is_initialized == old(self).is_initialized,
            file_kept(*old(vol), *final(vol), old(self).inode_number as int),
            if offset > old(self).inode@.size || offset + bytes@.len() > 274432 {
                r is Err && *final(self) == *old(self) && same_volume(*old(vol), *final(vol))
            } else {
                &&& final(vol).used() <= old(vol).used() + write_due(old(self).inode@.size, offset as int, bytes@.len() as int) + old(vol).inode_due(
                    old(self).inode_number as int,
                )
                &&& offset + bytes@.len() <= 12288 && direct_logged(old(vol).logged(), old(vol).sb(), old(self).inode@) ==> direct_logged(final(vol).logged(), old(vol).sb(), final(self).inode@)
                &&& old(vol).logged().subset_of(final(vol).logged())
                &&& r is Ok ==> final(vol).inode_due(old(self).inode_number as int) == 0
                &&& match r {
                    Ok(_) => {
                        &&& final(self).bytes(*final(vol)) == overwritten(old(self).bytes(*old(vol)), offset as int, bytes@)
                        &&& final(self).inode@.kind == old(self).inode@.kind
                        &&& final(self).inode@.major == old(self).inode@.major
                        &&& final(self).inode@.minor == old(self).inode@.minor
                        &&& final(self).inode@.nlink == old(self).inode@.nlink
                        &&& disk_inode(final(vol).blocks(), old(vol).sb(), old(self).inode_number as int) == final(self).inode@
                        &&& free_blocks(final(vol).blocks(), old(vol).sb()) >= free_blocks(old(vol).blocks(), old(vol).sb()) - blocks_for(
                            old(self).inode@.size,
                            offset + bytes@.len(),
                        )
                    },
                    Err(_) => {
                        &&& disk_full(final(vol).blocks(), old(vol).sb())
                        &&& free_blocks(old(vol).blocks(), old(vol).sb()) < blocks_for(old(self).inode@.size, offset + bytes@.len())
                        &&& offset + bytes@.len() > 1024 * nblocks(old(self).inode@.size)
                        &&& same_attrs(final(self).inode@, old(self).inode@)
                        &&& disk_inode(final(vol).blocks(), old(vol).sb(), old(self).inode_number as int) == disk_inode(
                            old(vol).blocks(),
                            old(vol).sb(),
                            old(self).inode_number as int,
                        )
                        &&& exists|w: int| #[trigger]
                            partly_written(old(self).bytes(*old(vol)), final(self).bytes(*final(vol)), offset as int, bytes@, w)
                    },
                }
            },
    {
        let len = bytes.len();
        match self.copy_from(vol, bytes, offset, len) {
            Ok(wrote) => {
                proof {
                    assert(wrote == len);
                    assert(bytes@.take(wrote as int) =~= bytes@);
                }
                if wrote == len {
                    Ok(())
                } else {
                    Err(())
                }
            },
            Err(_) => Err(()),
        }
    }

    /// Reads entry `k` of a directory.
    fn read_entry<D: BlockDevice>(&mut self, vol: &mut Volume<D>, k: usize) -> (e: DirectoryEntry)
        requires
            old(self).valid(*old(vol)),
            16 * k + 16 <= old(self).inode@.size,
        ensures
            *final(self) == *old(self),
            final(vol).wf(),
            same_volume(*old(vol), *final(vol)),
            e.wf(),
            e.inode_number == entry_inum(old(self).bytes(*old(vol)), k as int),
            e.name@ == entry_name(old(self).bytes(*old(vol)), k as int),
    {
        let ghost c = self.bytes(*vol);
        match self.read(vol, 16 * k, ENTRY_SIZE) {
            Ok(bytes) => {
                proof {
                    lemma_entry_part(c, bytes@, k as int);
                }
                DirectoryEntry::from_bytes(&bytes)
            },
            Err(_) => DirectoryEntry::unused(),
        }
    }

    /// Inode number and offset of the first entry of a directory that matches `name`. An
    /// inode that the cache of inodes cannot hold counts as not found.
    pub fn lookup<D: BlockDevice>(&mut self, vol: &mut Volume<D>, cache: &CacheRc<InodeKey, NINODE>, name: &Vec<u8>) -> (r: Option<
        (usize, usize),
    >)
        requires
            old(self).valid(*old(vol)),
            cache.wf(),
        ensures
            *final(self) == *old(self),
            final(vol).wf(),
            same_volume(*old(vol), *final(vol)),
            ({
                let c = old(self).bytes(*old(vol));
                match r {
                    Some((inum, offset)) => {
                        &&& old(self).inode@.kind == InodeKind::Directory
                        &&& offset % 16 == 0
                        &&& is_entry_of(c, name@, offset as int / 16)
                        &&& inum == entry_inum(c, offset as int / 16)
                        &&& inum != 0
                        &&& gettable(cache.keys(), (InodeKey { device: old(self).device, index: inum }))
                    },
                    None => old(self).inode@.kind == InodeKind::Directory ==> {
                        ||| no_entry_of(c, name@)
                        ||| exists|k: int| #[trigger]
                            is_entry_of(c, name@, k) && !gettable(
                                cache.keys(),
                                (InodeKey { device: old(self).device, index: entry_inum(c, k) as usize }),
                            )
                    },
                }
            }),
    {
        let ghost c = self.bytes(*vol);
        if !self.is_directory() {
            return None;
        }
        let n = self.size() / ENTRY_SIZE;
        let mut k: usize = 0;
        while k < n
            invariant
                *self == *old(self),
                self.valid(*vol),
                same_volume(*old(vol), *vol),
                cache.wf(),
                c == old(self).bytes(*old(vol)),
                c.len() == self.inode@.size,
                n == self.inode@.size / 16,
                self.inode@.kind == InodeKind::Directory,
                k <= n,
                forall|j: int| 0 <= j < k ==> !#[trigger] entry_matches(c, j, name@),
            decreases n - k,
        {
            let entry = self.read_entry(vol, k);
            if entry.inode_number() != 0 {
                if entry.is(name) {
                    let key = InodeKey { device: self.device, index: entry.inode_number() };
                    proof {
                        assert(entry_matches(c, k as int, name@));
                        assert(is_entry_of(c, name@, k as int));
                        assert(exact_eq::<InodeKey>());
                        assert((16 * k) as int / 16 == k);
                    }
                    if cache.can_get(&key) {
                        return Some((entry.inode_number(), 16 * k));
                    }
                    return None;
                }
            }
            k = k + 1;
        }
        None
    }

    /// Whether a directory has no entries besides its first two.
    pub fn is_empty<D: BlockDevice>(&mut self, vol: &mut Volume<D>) -> (r: Option<bool>)
        requires
            old(self).valid(*old(vol)),
        ensures
            *final(self) == *old(self),
            final(vol).wf(),
            same_volume(*old(vol), *final(vol)),
            r is Some <==> old(self).inode@.kind == InodeKind::Directory,
            r is Some ==> r->0 == only_dots(old(self).bytes(*old(vol))),
    {
        let ghost c = self.bytes(*vol);
        if !self.is_directory() {
            return None;
        }
        let n = self.size() / ENTRY_SIZE;
        let mut k: usize = 2;
        while k < n
            invariant
                *self == *old(self),
                self.valid(*vol),
                same_volume(*old(vol), *vol),
                c == old(self).bytes(*old(vol)),
                c.len() == self.inode@.size,
                n == self.inode@.size / 16,
                self.inode@.kind == InodeKind::Directory,
                2 <= k,
                forall|j: int| 2 <= j < k && j < n ==> #[trigger] entry_inum(c, j) == 0,
            decreases n - k,
        {
            let entry = self.read_entry(vol, k);
            if entry.inode_number() != 0 {
                return Some(false);
            }
            k = k + 1;
        }
        Some(true)
    }

    /// Adds an entry for `name` to a directory that has none, in the first unused place.
    pub fn link<D: BlockDevice>(
        &mut self,
        vol: &mut Volume<D>,
        cache: &CacheRc<InodeKey, NINODE>,
        name: &Vec<u8>,
        inode_number: usize,
    ) -> (r: Result<(), ()>)
        requires
            old(self).valid(*old(vol)),
            cache.wf(),
            old(vol).room(entry_due(old(self).bytes(*old(vol))) + old(vol).inode_due(old(self).inode_number as int)),
        ensures
            final(self).valid(*final(vol)),
            final(self).device == old(self).device,
            final(self).inode_number == old(self).inode_number,
            final(self).is_initialized == old(self).is_initialized,
            file_kept(*old(vol), *final(vol), old(self).inode_number as int),
            final(vol).used() <= old(vol).used() + entry_due(old(self).bytes(*old(vol))) + old(vol).inode_due(old(self).inode_number as int),
            old(vol).logged().subset_of(final(vol).logged()),
            r is Ok ==> final(vol).inode_due(old(self).inode_number as int) == 0,
            old(self).inode@.size + 16 <= 12288 && direct_logged(old(vol).logged(), old(vol).sb(), old(self).inode@) ==> direct_logged(final(vol).logged(), old(vol).sb(), final(self).inode@),
            final(self).inode@.kind == old(self).inode@.kind,
            final(self).inode@.major == old(self).inode@.major,
            final(self).inode@.minor == old(self).inode@.minor,
            final(self).inode@.nlink == old(self).inode@.nlink,
            ({
                let c0 = old(self).bytes(*old(vol));
                let c1 = final(self).bytes(*final(vol));
                let disk0 = disk_inode(old(vol).blocks(), old(vol).sb(), old(self).inode_number as int);
                let disk1 = disk_inode(final(vol).blocks(), old(vol).sb(), old(self).inode_number as int);
                match r {
                    Ok(_) => {
                        &&& old(self).inode@.kind == InodeKind::Directory
                        &&& linkable(c0, cache.keys(), old(self).device, name@)
                        &&& exists|k: int| #[trigger] is_insert_place(c0, k) && c1 == with_entry(c0, k, inode_number as int % 65536, name@)
                        &&& disk1 == final(self).inode@
                        &&& free_blocks(final(vol).blocks(), old(vol).sb()) >= free_blocks(old(vol).blocks(), old(vol).sb()) - entry_blocks(
                            c0,
                        )
                    },
                    Err(_) => {
                        &&& c1 == c0
                        &&& final(self).inode@.size == old(self).inode@.size
                        &&& disk1 == disk0
                        &&& {
                            ||| old(self).inode@.kind != InodeKind::Directory
                            ||| !linkable(c0, cache.keys(), old(self).device, name@)
                            ||| is_insert_place(c0, c0.len() as int / 16) && (c0.len() + 16 > 274432 || {
                                &&& disk_full(final(vol).blocks(), old(vol).sb())
                                &&& free_blocks(old(vol).blocks(), old(vol).sb()) < entry_blocks(c0)
                            })
                        }
                    },
                }
            }),
    {
        let ghost c0 = self.bytes(*vol);
        let ghost i0 = self.inode@;
        proof {
            lemma_entry_due(c0);
        }
        if !self.is_directory() {
            return Err(());
        }
        if self.lookup(vol, cache, name).is_some() {
            return Err(());
        }
        proof {
            assert(linkable(c0, cache.keys(), self.device, name@)) by {
                if !no_entry_of(c0, name@) {
                    let k = choose|k: int| #[trigger]
                        is_entry_of(c0, name@, k) && !gettable(
                            cache.keys(),
                            (InodeKey { device: old(self).device, index: entry_inum(c0, k) as usize }),
                        );
                    assert(is_entry_of(c0, name@, k));
                }
            }
        }
        let new_entry = DirectoryEntry::new(inode_number, name).to_bytes();
        let n = self.size() / ENTRY_SIZE;
        let mut k: usize = 0;
        while k < n
            invariant_except_break
                forall|j: int| 0 <= j < k ==> #[trigger] entry_inum(c0, j) != 0,
            invariant
                *self == *old(self),
                self.valid(*vol),
                same_volume(*old(vol), *vol),
                c0 == old(self).bytes(*old(vol)),
                c0.len() == self.inode@.size,
                n == self.inode@.size / 16,
                k <= n,
            ensures
                is_insert_place(c0, k as int),
            decreases n - k,
        {
            let entry = self.read_entry(vol, k);
            if entry.inode_number() == 0 {
                break;
            }
            k = k + 1;
        }
        proof {
            assert(chunks(16 * k, 16) == 1);
            assert(write_due(c0.len() as int, (16 * k) as int, 16) <= entry_due(c0)) by {
                reveal(entry_due);
            }
            assert(new_entry@.len() == 16);
        }
        let r = self.write(vol, &new_entry, 16 * k);
        proof {
            if r is Ok {
                assert(is_insert_place(c0, k as int));
                assert(self.bytes(*vol) == with_entry(c0, k as int, inode_number as int % 65536, name@));
            } else if 16 * k + 16 <= 274432 {
                let w = choose|w: int| #[trigger] partly_written(c0, self.bytes(*vol), (16 * k) as int, new_entry@, w);
                if k == n {
                    assert(self.bytes(*vol) =~= c0);
                }
            }
        }
        r
    }
}

/// No entry that the cache of inodes could hold matches `name`.
pub open spec fn linkable(c: Seq<u8>, keys: Seq<Option<InodeKey>>, device: usize, name: Seq<u8>) -> bool {
    forall|k: int| #[trigger] is_entry_of(c, name, k) ==> !gettable(keys, (InodeKey { device, index: entry_inum(c, k) as usize }))
}

/// All entries from the third on are unused.
pub open spec fn only_dots(c: Seq<u8>) -> bool {
    forall|j: int| 2 <= j < c.len() as int / 16 ==> #[trigger] entry_inum(c, j) == 0
}


/// Block `x` is among the addresses of an inode that are given back first: `a` of the
/// direct ones and `b` of those in the indirect block.
spec fn given_back(v: Seq<Seq<u8>>, ino: InodeView, a: int, b: int, x: int) -> bool {
    x != 0 && exists|s: int| (0 <= s < a || 13 <= s < 13 + b) && #[trigger] addr(v, ino, s) == x
}

/// Block `x` belongs to an inode.
pub open spec fn has_block(v: Seq<Seq<u8>>, ino: InodeView, x: int) -> bool {
    x != 0 && exists|s: int| 0 <= s < 269 && #[trigger] addr(v, ino, s) == x
}

/// Some blocks of an inode were given back; nothing else changed.
spec fn giving_back(v0: Seq<Seq<u8>>, v1: Seq<Seq<u8>>, sb: SuperBlock, ino: InodeView, a: int, b: int) -> bool {
    &&& v1.len() == v0.len()
    &&& forall|x: int| 0 <= x < sb.size ==> #[trigger] in_use(v1, sb, x) == (in_use(v0, sb, x) && !given_back(v0, ino, a, b, x))
    &&& forall|x: int| 0 <= x < v0.len() && !(sb.bmapstart <= x < data_start(sb)) ==> #[trigger] v1[x] == v0[x]
}

proof fn lemma_give_back(
    v0: Seq<Seq<u8>>,
    v1: Seq<Seq<u8>>,
    v2: Seq<Seq<u8>>,
    sb: SuperBlock,
    ino: InodeView,
    a: int,
    b: int,
    a2: int,
    b2: int,
    s: int,
)
    requires
        giving_back(v0, v1, sb, ino, a, b),
        0 <= a,
        0 <= b,
        0 <= s < 269,
        (a2 == a + 1 && b2 == b && s == a) || (a2 == a && b2 == b + 1 && s == 13 + b),
        addr(v0, ino, s) != 0 ==> freed(v1, v2, sb, addr(v0, ino, s)),
        addr(v0, ino, s) == 0 ==> v2 == v1,
    ensures
        giving_back(v0, v2, sb, ino, a2, b2),
{
    let x0 = addr(v0, ino, s);
    assert forall|x: int| #[trigger] given_back(v0, ino, a2, b2, x) == (given_back(v0, ino, a, b, x) || (x != 0 && x == x0)) by {
        if given_back(v0, ino, a2, b2, x) {
            let t = choose|t: int| (0 <= t < a2 || 13 <= t < 13 + b2) && #[trigger] addr(v0, ino, t) == x;
            if t != s {
                assert(0 <= t < a || 13 <= t < 13 + b);
            }
        }
        if given_back(v0, ino, a, b, x) {
            let t = choose|t: int| (0 <= t < a || 13 <= t < 13 + b) && #[trigger] addr(v0, ino, t) == x;
            assert(0 <= t < a2 || 13 <= t < 13 + b2);
        }
        if x != 0 && x == x0 {
            assert(0 <= s < a2 || 13 <= s < 13 + b2);
            assert(addr(v0, ino, s) == x);
        }
    }
    assert forall|x: int| 0 <= x < sb.size implies #[trigger] in_use(v2, sb, x) == (in_use(v0, sb, x) && !given_back(v0, ino, a2, b2, x)) by {
        assert(in_use(v1, sb, x) == (in_use(v0, sb, x) && !given_back(v0, ino, a, b, x)));
        assert(given_back(v0, ino, a2, b2, x) == (given_back(v0, ino, a, b, x) || (x != 0 && x == x0)));
        if x0 != 0 {
            assert(in_use(v2, sb, x) == (x != x0 && in_use(v1, sb, x)));
        }
    }
    assert forall|x: int| 0 <= x < v0.len() && !(sb.bmapstart <= x < data_start(sb)) implies #[trigger] v2[x] == v0[x] by {
        assert(v1[x] == v0[x]);
        if x0 != 0 {
            assert(v2[x] == v1[x]);
        }
    }
}

/// An address that was not given back yet is in use.
proof fn lemma_still_in_use(
    v0: Seq<Seq<u8>>,
    v1: Seq<Seq<u8>>,
    sb: SuperBlock,
    o: Map<int, (int, int)>,
    inum: int,
    ino: InodeView,
    a: int,
    b: int,
    s: int,
)
    requires
        inode_wf(v0, sb, o, inum, ino),
        giving_back(v0, v1, sb, ino, a, b),
        0 <= a <= 12,
        0 <= b <= 256,
        0 <= s < 269,
        !(s < a),
        !(13 <= s < 13 + b),
        addr(v0, ino, s) != 0,
    ensures
        is_data(sb, addr(v0, ino, s)),
        in_use(v1, sb, addr(v0, ino, s)),
{
    let x = addr(v0, ino, s);
    assert(addr_wf(v0, sb, o, inum, ino, s));
    if given_back(v0, ino, a, b, x) {
        let t = choose|t: int| (0 <= t < a || 13 <= t < 13 + b) && #[trigger] addr(v0, ino, t) == x;
        assert(addr_wf(v0, sb, o, inum, ino, t));
    }
    assert(in_use(v1, sb, x) == (in_use(v0, sb, x) && !given_back(v0, ino, a, b, x)));
}

impl CachedInode {
    /// Gives back all blocks of the file, which is empty then.
    #[verifier::rlimit(60)]
    pub fn truncate<D: BlockDevice>(&mut self, vol: &mut Volume<D>)
        requires
            old(self).valid(*old(vol)),
            old(vol).storage.log.outstanding > 0,
            old(vol).fits_with(
                blocks_map(old(vol).blocks(), old(vol).sb(), old(self).inode@),
                old(vol).inode_due(old(self).inode_number as int),
            ),
        ensures
            final(self).valid(*final(vol)),
            final(self).device == old(self).device,
            final(self).inode_number == old(self).inode_number,
            final(self).is_initialized == old(self).is_initialized,
            blank(final(self).inode@),
            final(self).inode@.kind == old(self).inode@.kind,
            final(self).inode@.major == old(self).inode@.major,
            final(self).inode@.minor == old(self).inode@.minor,
            final(self).inode@.nlink == old(self).inode@.nlink,
            final(self).bytes(*final(vol)) == Seq::<u8>::empty(),
            disk_inode(final(vol).blocks(), old(vol).sb(), old(self).inode_number as int) == final(self).inode@,
            file_kept(*old(vol), *final(vol), old(self).inode_number as int),
            old(vol).logged().subset_of(final(vol).logged()),
            final(vol).inode_due(old(self).inode_number as int) == 0,
            final(vol).used() <= old(vol).used_with(blocks_map(old(vol).blocks(), old(vol).sb(), old(self).inode@)) + old(vol).inode_due(
                old(self).inode_number as int,
            ),
            final(vol).owner == old(vol).owner,
            forall|x: int| 0 <= x < old(vol).sb().size ==> #[trigger] in_use(final(vol).blocks(), old(vol).sb(), x) == (in_use(
                old(vol).blocks(),
                old(vol).sb(),
                x,
            ) && !has_block(old(vol).blocks(), old(self).inode@, x)),
    {
        let ghost vol0 = *vol;
        let ghost v0 = vol.blocks();
        let ghost i0 = self.inode@;
        let ghost o0 = vol.owner@;
        let ghost sb = vol.sb();
        let ghost inum = self.inode_number as int;
        let ghost more = blocks_map(v0, sb, i0);
        proof {
            assert(giving_back(v0, v0, sb, i0, 0, 0));
            lemma_blocks_map(v0, sb, o0, inum, i0);
        }
        let mut k: usize = 0;
        while k < NDIRECT
            invariant
                k <= 12,
                vol0 == *old(vol),
                v0 == vol0.blocks(),
                o0 == vol0.owner@,
                sb == vol0.sb(),
                inode_wf(v0, sb, o0, inum, i0),
                i0 == old(self).inode@,
                inum == old(self).inode_number,
                self.inode.wf(),
                self.inode.chain == i0.chain,
                self.inode.kind == i0.kind,
                self.inode.major == i0.major,
                self.inode.minor == i0.minor,
                self.inode.nlink == i0.nlink,
                self.device == old(self).device,
                self.inode_number == inum,
                self.is_initialized == old(self).is_initialized,
                forall|j: int| 0 <= j < k ==> #[trigger] self.inode.addrs@[j] == 0,
                forall|j: int| k <= j < 12 ==> #[trigger] self.inode.addrs@[j] == i0.addrs[j],
                vol.wf(),
                vol0.storage.log.outstanding > 0,
                vol0.fits_with(more, vol0.inode_due(inum)),
                more == blocks_map(v0, sb, i0),
                more.finite(),
                forall|s: int| 0 <= s < 269 && #[trigger] addr(v0, i0, s) != 0 ==> more.contains(map_block(sb, addr(v0, i0, s))),
                vol0.mounted(),
                vol0.logged().subset_of(vol.logged()),
                vol.sb() == sb,
                vol.owner@ == o0,
                vol.session() == vol0.session(),
                vol.logged().subset_of(vol0.logged() + more),
                giving_back(v0, vol.blocks(), sb, i0, k as int, 0),
            decreases 12 - k,
        {
            let ghost v1 = vol.blocks();
            let a = self.inode.addrs[k];
            proof {
                assert(addr(v0, i0, k as int) == a);
            }
            if a != 0 {
                proof {
                    lemma_still_in_use(v0, v1, sb, o0, inum, i0, k as int, 0, k as int);
                }
                proof {
                    vol.lemma_spare(vol0, more, map_block(sb, a as int));
                }
                vol.deallocate_block(a as usize);
            }
            self.inode.addrs.set(k, 0);
            proof {
                lemma_give_back(v0, v1, vol.blocks(), sb, i0, k as int, 0, k + 1, 0, k as int);
            }
            k = k + 1;
        }
        let ghost v2 = vol.blocks();
        if self.inode.chain != 0 {
            let chain = self.inode.chain as usize;
            proof {
                assert(addr(v0, i0, 12) == chain);
                lemma_still_in_use(v0, v2, sb, o0, inum, i0, 12, 0, 12);
                assert(v2[chain as int] == v0[chain as int]);
            }
            let table = vol.load(chain);
            let mut j: usize = 0;
            while j < NINDIRECT
                invariant
                    j <= 256,
                    vol0 == *old(vol),
                    v0 == vol0.blocks(),
                    o0 == vol0.owner@,
                    sb == vol0.sb(),
                    inode_wf(v0, sb, o0, inum, i0),
                    table@.len() == 1024,
                    table@ == v0[i0.chain],
                    i0.chain != 0,
                    vol.wf(),
                    vol0.storage.log.outstanding > 0,
                vol0.fits_with(more, vol0.inode_due(inum)),
                more == blocks_map(v0, sb, i0),
                more.finite(),
                forall|s: int| 0 <= s < 269 && #[trigger] addr(v0, i0, s) != 0 ==> more.contains(map_block(sb, addr(v0, i0, s))),
                vol0.mounted(),
                vol0.logged().subset_of(vol.logged()),
                    vol.sb() == sb,
                    vol.owner@ == o0,
                    vol.session() == vol0.session(),
                    vol.logged().subset_of(vol0.logged() + more),
                    giving_back(v0, vol.blocks(), sb, i0, 12, j as int),
                decreases 256 - j,
            {
                let ghost v3 = vol.blocks();
                let a = get_u32(&table, j * 4);
                proof {
                    assert(addr(v0, i0, 13 + j) == a);
                }
                if a != 0 {
                    proof {
                        lemma_still_in_use(v0, v3, sb, o0, inum, i0, 12, j as int, 13 + j);
                    }
                    proof {
                        vol.lemma_spare(vol0, more, map_block(sb, a as int));
                    }
                    vol.deallocate_block(a as usize);
                }
                proof {
                    lemma_give_back(v0, v3, vol.blocks(), sb, i0, 12, j as int, 12, j + 1, 13 + j);
                }
                j = j + 1;
            }
            let ghost v4 = vol.blocks();
            proof {
                lemma_still_in_use(v0, v4, sb, o0, inum, i0, 12, 256, 12);
            }
            proof {
                vol.lemma_spare(vol0, more, map_block(sb, chain as int));
            }
            vol.deallocate_block(chain);
            self.inode.chain = 0;
            proof {
                let v5 = vol.blocks();
                assert forall|x: int| 0 <= x < sb.size implies #[trigger] in_use(v5, sb, x) == (in_use(v0, sb, x) && !has_block(v0, i0, x)) by {
                    assert(in_use(v5, sb, x) == (x != chain && in_use(v4, sb, x)));
                    assert(in_use(v4, sb, x) == (in_use(v0, sb, x) && !given_back(v0, i0, 12, 256, x)));
                    lemma_all_blocks(v0, i0, x);
                }
                assert forall|x: int| 0 <= x < v0.len() && !(sb.bmapstart <= x < data_start(sb)) implies #[trigger] v5[x] == v0[x] by {
                    assert(v4[x] == v0[x]);
                }
            }
        } else {
            proof {
                assert forall|x: int| 0 <= x < sb.size implies #[trigger] in_use(v2, sb, x) == (in_use(v0, sb, x) && !has_block(v0, i0, x)) by {
                    assert(in_use(v2, sb, x) == (in_use(v0, sb, x) && !given_back(v0, i0, 12, 0, x)));
                    lemma_all_blocks(v0, i0, x);
                }
            }
        }
        let ghost v6 = vol.blocks();
        proof {
            vol.lemma_used_with(vol0, more);
        }
        self.inode.size = 0;
        proof {
            let i6 = self.inode@;
            assert forall|i: int| 0 <= i < 12 implies #[trigger] i6.addrs[i] == 0 by {
                assert(self.inode.addrs@[i] == 0);
            }
            assert(blank(i6));
            assert forall|slot: int| 0 <= slot < 269 implies #[trigger] addr_wf(v6, sb, o0, inum, i6, slot) by {
                assert(addr(v6, i6, slot) == 0);
            }
            assert(inode_wf(v6, sb, o0, inum, i6));
        }
        self.update(vol);
        proof {
            let v7 = vol.blocks();
            Volume::<D>::lemma_meta_kept(v6, v7, sb);
            lemma_tables_same(v0, v6, sb);
            assert forall|j: int| 0 <= j < sb.ninodes && j != inum implies #[trigger] disk_inode(v7, sb, j) == disk_inode(v0, sb, j) by {
                assert(disk_inode(v6, sb, j) == disk_inode(v0, sb, j));
            }
            assert forall|b: int| is_data(sb, b) && in_use(v0, sb, b) && #[trigger] o0.contains_key(b) && o0[b].0 != inum implies v7[b]
                == v0[b] && in_use(v7, sb, b) by {
                if has_block(v0, i0, b) {
                    let s = choose|s: int| 0 <= s < 269 && #[trigger] addr(v0, i0, s) == b;
                    assert(addr_wf(v0, sb, o0, inum, i0, s));
                }
                assert(in_use(v6, sb, b) == (in_use(v0, sb, b) && !has_block(v0, i0, b)));
                assert(in_use(v7, sb, b) == in_use(v6, sb, b));
                assert(v7[b] == v6[b]);
            }
            assert forall|x: int| 0 <= x < sb.size implies #[trigger] in_use(v7, sb, x) == (in_use(v0, sb, x) && !has_block(v0, i0, x)) by {
                assert(in_use(v7, sb, x) == in_use(v6, sb, x));
            }
            assert(self.bytes(*vol) =~= Seq::<u8>::empty());
        }
    }
}

proof fn lemma_all_blocks(v: Seq<Seq<u8>>, ino: InodeView, x: int)
    ensures
        has_block(v, ino, x) == (given_back(v, ino, 12, 256, x) || (x != 0 && x == ino.chain)),
        ino.chain == 0 ==> has_block(v, ino, x) == given_back(v, ino, 12, 0, x),
{
    if has_block(v, ino, x) {
        let s = choose|s: int| 0 <= s < 269 && #[trigger] addr(v, ino, s) == x;
        if s != 12 {
            assert(0 <= s < 12 || 13 <= s < 13 + 256);
            assert(given_back(v, ino, 12, 256, x));
        }
        if ino.chain == 0 {
            assert(0 <= s < 12);
            assert(given_back(v, ino, 12, 0, x));
        }
    }
    if given_back(v, ino, 12, 256, x) {
        let s = choose|s: int| (0 <= s < 12 || 13 <= s < 13 + 256) && #[trigger] addr(v, ino, s) == x;
        assert(0 <= s < 269);
        assert(has_block(v, ino, x));
    }
    if given_back(v, ino, 12, 0, x) {
        let s = choose|s: int| (0 <= s < 12 || 13 <= s < 13 + 0) && #[trigger] addr(v, ino, s) == x;
        assert(0 <= s < 269);
        assert(has_block(v, ino, x));
    }
    if x != 0 && x == ino.chain {
        assert(addr(v, ino, 12) == x);
    }
}


/// A reference to an inode, which keeps it in memory.
pub struct InodeReference {
    pub cache_index: usize,
}

/// An inode that somebody works on.
pub struct InodeGuard {
    pub cache_index: usize,
}

/// Inodes in memory.
pub struct InodeCache<const N: usize> {
    pub cache: CacheRc<InodeKey, N>,
    pub inodes: Vec<CachedInode>,
}

/// One reference more, to the inode `key` in slot `i`.
pub open spec fn ref_added<const N: usize>(c0: CacheRc<InodeKey, N>, c1: CacheRc<InodeKey, N>, i: int, key: InodeKey) -> bool {
    &&& 0 <= i < N
    &&& c0.keys()[i] == Some(key) || (c0.keys()[i] is None && !c0.keys().contains(Some(key)))
    &&& c1.keys() == c0.keys().update(i, Some(key))
    &&& c1.counts@ == c0.counts@.update(i, (c0.counts@[i] + 1) as usize)
}

/// One reference less to the inode in slot `i`.
pub open spec fn ref_removed<const N: usize>(c0: CacheRc<InodeKey, N>, c1: CacheRc<InodeKey, N>, i: int) -> bool {
    &&& 0 <= i < N
    &&& c0.counts@[i] > 0
    &&& c1.counts@ == c0.counts@.update(i, (c0.counts@[i] - 1) as usize)
    &&& c1.keys() == if c0.counts@[i] == 1 {
        c0.keys().update(i, None)
    } else {
        c0.keys()
    }
}

/// The same references.
pub open spec fn same_refs<const N: usize>(c0: CacheRc<InodeKey, N>, c1: CacheRc<InodeKey, N>) -> bool {
    c1.keys() == c0.keys() && c1.counts@ == c0.counts@
}

/// No inode has so many references that one more would not fit.
pub open spec fn refs_bounded<const N: usize>(c: CacheRc<InodeKey, N>, k: int) -> bool {
    forall|i: int| 0 <= i < N ==> #[trigger] c.counts@[i] + k < usize::MAX
}

/// Adding a reference and removing it again changes nothing.
pub proof fn lemma_ref_back<const N: usize>(c0: CacheRc<InodeKey, N>, c1: CacheRc<InodeKey, N>, c2: CacheRc<InodeKey, N>, i: int, key: InodeKey)
    requires
        c0.wf(),
        refs_bounded(c0, 0),
        ref_added(c0, c1, i, key),
        ref_removed(c1, c2, i),
    ensures
        same_refs(c0, c2),
{
    assert(c0.counts@[i] + 0 < usize::MAX);
    assert(c2.counts@ =~= c0.counts@);
    assert(c0.counts@[i] == 0 <==> c0.keys()[i] is None);
    assert(c2.keys() =~= c0.keys());
}

impl<const N: usize> InodeCache<N> {
    pub open spec fn wf(&self) -> bool {
        &&& self.cache.wf()
        &&& self.inodes@.len() == N
        &&& forall|i: int| 0 <= i < N ==> (#[trigger] self.inodes@[i]).inode.wf()
        &&& forall|i: int| 0 <= i < N && (#[trigger] self.cache.keys()[i]) is Some ==> {
            &&& self.inodes@[i].device == self.cache.keys()[i]->0.device
            &&& self.inodes@[i].inode_number == self.cache.keys()[i]->0.index
        }
    }

    pub fn new() -> (this: Self)
        requires
            N > 0,
        ensures
            this.wf(),
            forall|i: int| 0 <= i < N ==> (#[trigger] this.cache.keys()[i]) is None,
    {
        let mut inodes: Vec<CachedInode> = Vec::new();
        let mut i: usize = 0;
        while i < N
            invariant
                i <= N,
                inodes@.len() == i,
                forall|k: int| 0 <= k < i ==> (#[trigger] inodes@[k]).inode.wf(),
            decreases N - i,
        {
            inodes.push(CachedInode::zeroed());
            i = i + 1;
        }
        InodeCache { cache: CacheRc::new(), inodes }
    }

    /// A reference to an inode. `None` means that all slots are in use.
    pub fn get(&mut self, device: usize, inode_number: usize) -> (r: Option<InodeReference>)
        requires
            old(self).wf(),
            refs_bounded(old(self).cache, 0),
        ensures
            final(self).wf(),
            ({
                let key = InodeKey { device, index: inode_number };
                &&& r is Some <==> gettable(old(self).cache.keys(), key)
                &&& match r {
                    Some(x) => {
                        let i = x.cache_index as int;
                        &&& ref_added(old(self).cache, final(self).cache, i, key)
                        &&& forall|j: int| 0 <= j < N && j != i ==> #[trigger] final(self).inodes@[j] == old(self).inodes@[j]
                        &&& if old(self).cache.keys()[i] is Some {
                            final(self).inodes@[i] == old(self).inodes@[i]
                        } else {
                            &&& !final(self).inodes@[i].is_initialized
                            &&& final(self).inodes@[i].device == device
                            &&& final(self).inodes@[i].inode_number == inode_number
                        }
                    },
                    None => *final(self) == *old(self),
                }
            }),
    {
        let key = InodeKey { device, index: inode_number };
        let ghost k = key;
        proof {
            assert(exact_eq::<InodeKey>());
            assert forall|i: int| 0 <= i < N implies #[trigger] self.cache.counts@[i] < usize::MAX by {
                assert(self.cache.counts@[i] + 0 < usize::MAX);
            }
        }
        match self.cache.get(key) {
            Some((cache_index, is_new)) => {
                proof {
                    if !is_new {
                        assert(old(self).cache.keys()[cache_index as int] == Some(k));
                        assert(self.cache.keys() =~= old(self).cache.keys().update(cache_index as int, Some(k)));
                    } else {
                        assert(old(self).cache.counts@[cache_index as int] == 0);
                    }
                }
                if is_new {
                    self.inodes[cache_index].device = device;
                    self.inodes[cache_index].inode_number = inode_number;
                    self.inodes[cache_index].is_initialized = false;
                }
                proof {
                    assert forall|i: int| 0 <= i < N && (#[trigger] self.cache.keys()[i]) is Some implies {
                        &&& self.inodes@[i].device == self.cache.keys()[i]->0.device
                        &&& self.inodes@[i].inode_number == self.cache.keys()[i]->0.index
                    } by {
                        if i != cache_index || !is_new {
                            assert(old(self).cache.keys()[i] is Some);
                        }
                    }
                }
                Some(InodeReference { cache_index })
            },
            None => None,
        }
    }

    /// One reference more to the inode in slot `index`.
    pub fn duplicate(&mut self, index: usize)
        requires
            old(self).wf(),
            index < N,
            0 < old(self).cache.counts@[index as int] < usize::MAX,
        ensures
            final(self).wf(),
            final(self).inodes == old(self).inodes,
            old(self).cache.keys()[index as int] is Some,
            ref_added(old(self).cache, final(self).cache, index as int, old(self).cache.keys()[index as int]->0),
    {
        proof {
            assert(self.cache.counts@[index as int] == 0 <==> self.cache.keys()[index as int] is None);
        }
        let _ = self.cache.duplicate(index);
        proof {
            assert(self.cache.keys() =~= old(self).cache.keys().update(index as int, old(self).cache.keys()[index as int]));
        }
    }

    /// One reference less to the inode in slot `index`. Where that was the last one and the
    /// file has no name left, its blocks and the inode itself are given back.
    pub fn release<D: BlockDevice>(&mut self, vol: &mut Volume<D>, index: usize)
        requires
            old(self).wf(),
            old(vol).wf(),
            index < N,
            old(self).cache.counts@[index as int] > 0,
            frees(*old(self), index as int) ==> {
                let cached = old(self).inodes@[index as int];
                &&& cached.valid(*old(vol))
                &&& old(vol).storage.log.outstanding > 0
                &&& old(vol).fits_with(
                    blocks_map(old(vol).blocks(), old(vol).sb(), cached.inode@),
                    old(vol).inode_due(cached.inode_number as int),
                )
            },
        ensures
            final(self).wf(),
            final(vol).wf(),
            ref_removed(old(self).cache, final(self).cache, index as int),
            forall|j: int| 0 <= j < N && j != index ==> #[trigger] final(self).inodes@[j] == old(self).inodes@[j],
            if frees(*old(self), index as int) {
                let inum = old(self).inodes@[index as int].inode_number as int;
                let ino = old(self).inodes@[index as int].inode@;
                let disk = disk_inode(final(vol).blocks(), old(vol).sb(), inum);
                &&& file_kept(*old(vol), *final(vol), inum)
                &&& final(vol).used() <= old(vol).used_with(blocks_map(old(vol).blocks(), old(vol).sb(), ino)) + old(vol).inode_due(inum)
                &&& final(vol).owner == old(vol).owner
                &&& old(vol).logged().subset_of(final(vol).logged())
                &&& disk.kind == InodeKind::Unused
                &&& blank(disk)
                &&& disk.nlink == 0
                &&& inode_wf(final(vol).blocks(), old(vol).sb(), final(vol).owner@, inum, disk)
                &&& forall|x: int| 0 <= x < old(vol).sb().size ==> #[trigger] in_use(final(vol).blocks(), old(vol).sb(), x) == (in_use(
                    old(vol).blocks(),
                    old(vol).sb(),
                    x,
                ) && !has_block(old(vol).blocks(), ino, x))
            } else {
                *final(vol) == *old(vol) && final(self).inodes == old(self).inodes
            },
    {
        let ghost c0 = self.cache;
        let ghost vol0 = *vol;
        proof {
            assert(self.cache.counts@[index as int] == 0 <==> self.cache.keys()[index as int] is None);
        }
        let reference = match self.cache.reference_count(index) {
            Some(reference) => reference,
            None => 0,
        };
        if reference == 1 {
            if self.inodes[index].inode.nlink == 0 && self.inodes[index].is_initialized {
                let ghost inum = self.inodes@[index as int].inode_number as int;
                self.inodes[index].truncate(vol);
                let ghost v1 = vol.blocks();
                let ghost i1 = self.inodes@[index as int].inode@;
                let ghost vol1 = *vol;
                self.inodes[index].inode.kind = InodeKind::Unused;
                proof {
                    let i2 = self.inodes@[index as int].inode@;
                    assert(i2.addrs =~= i1.addrs);
                    assert forall|slot: int| 0 <= slot < 269 implies #[trigger] addr_wf(v1, vol.sb(), vol.owner@, inum, i2, slot) by {
                        assert(addr(v1, i2, slot) == 0);
                    }
                }
                self.inodes[index].update(vol);
                self.inodes[index].is_initialized = false;
                proof {
                    lemma_kept_update(vol0, vol1, *vol, inum, self.inodes@[index as int].inode@);
                }
            }
        }
        let _ = self.cache.release(index);
        proof {
            assert forall|i: int| 0 <= i < N && (#[trigger] self.cache.keys()[i]) is Some implies {
                &&& self.inodes@[i].device == self.cache.keys()[i]->0.device
                &&& self.inodes@[i].inode_number == self.cache.keys()[i]->0.index
            } by {
                assert(c0.keys()[i] is Some);
            }
        }
    }
}

/// Removing a reference to slot `i` gives the inode back.
pub open spec fn frees<const N: usize>(c: InodeCache<N>, i: int) -> bool {
    c.cache.counts@[i] == 1 && c.inodes@[i].is_initialized && c.inodes@[i].inode.nlink == 0
}

proof fn lemma_kept_update<D: BlockDevice>(vol0: Volume<D>, vol1: Volume<D>, vol2: Volume<D>, inum: int, ino: InodeView)
    requires
        layout_wf(vol0.sb(), vol0.blocks().len() as int),
        file_kept(vol0, vol1, inum),
        vol2.sb() == vol1.sb(),
        vol2.owner == vol1.owner,
        vol2.session() == vol1.session(),
        inode_set(vol1.blocks(), vol2.blocks(), vol1.sb(), inum, ino),
    ensures
        file_kept(vol0, vol2, inum),
        forall|x: int| 0 <= x < vol0.sb().size ==> #[trigger] in_use(vol2.blocks(), vol0.sb(), x) == in_use(vol1.blocks(), vol0.sb(), x),
{
    let sb = vol0.sb();
    let v0 = vol0.blocks();
    let v1 = vol1.blocks();
    let v2 = vol2.blocks();
    Volume::<D>::lemma_meta_kept(v1, v2, sb);
    assert forall|j: int| 0 <= j < sb.ninodes && j != inum implies #[trigger] disk_inode(v2, sb, j) == disk_inode(v0, sb, j) by {
        assert(disk_inode(v1, sb, j) == disk_inode(v0, sb, j));
    }
    assert forall|b: int| is_data(sb, b) && in_use(v0, sb, b) && #[trigger] vol0.owner@.contains_key(b) && vol0.owner@[b].0 != inum implies {
        &&& v2[b] == v0[b]
        &&& in_use(v2, sb, b)
        &&& vol2.owner@.contains_key(b)
        &&& vol2.owner@[b] == vol0.owner@[b]
    } by {
        assert(v2[b] == v1[b]);
        assert(in_use(v2, sb, b) == in_use(v1, sb, b));
    }
}

} // verus!
