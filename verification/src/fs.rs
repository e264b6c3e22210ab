//! The file system: directories, paths and the calls that change them.
use vstd::prelude::*;
use crate::cache::{gettable, CacheRc};
use crate::config::{LOGSIZE, MAXOPBLOCKS, NBUF, NINODE, ROOTDEV};
use crate::filesystem::{FSMAGIC, ROOTINO};
use crate::filesystem::bytes::zeros;
use crate::filesystem::device::BlockDevice;
use crate::filesystem::directory_entry::{entry_bytes, padded, DirectoryEntry};
use crate::filesystem::file::{
    blocks_map, direct_logged, entry_blocks, entry_due, lemma_blank_logged, lemma_entry_due, lemma_map_of, lemma_same_map, lemma_still_logged, lemma_write_inside, write_due, entry_inum, entry_matches, entry_name, file_kept, frees, is_entry_of, is_insert_place, lemma_ref_back,
    lemma_table_change, linkable, no_entry_of, only_dots, overwritten, ref_added, ref_removed, refs_bounded,
    same_refs, with_entry,
};
pub use crate::filesystem::file::{CachedInode, InodeCache, InodeGuard, InodeKey, InodeReference};
use crate::filesystem::inode::{InodeKind, InodeView};
use crate::filesystem::layout::{addr, addr_wf, blank, block_of, contents, inode_wf, lemma_other_file, nblocks, synced};
use crate::filesystem::log::{recovered, valid_header, Log, Storage};
use crate::filesystem::buffer::{BufferCache, BSIZE};
use crate::filesystem::device::sized;
use crate::filesystem::file::{chunk_len, chunks, partly_written, readable};
use crate::filesystem::volume::meta_in_use;
use crate::filesystem::path::{elements, elements_from, ends_in_slash, is_absolute, lemma_no_element, next_element, starts_at_root};
pub use crate::filesystem::stat::Stat;
use crate::filesystem::superblock::SuperBlock;
use crate::filesystem::volume::{
    disk_full, disk_inode, free_blocks, in_use, inode_set, is_data, is_inode, layout_wf, lemma_free_same, lemma_full, same_volume, Volume,
};

pub mod create;
pub mod laws;
pub mod links;
pub mod open;
pub mod paths;
pub mod session;

verus! {

/// A mounted file system.
pub struct FileSystem<D> {
    pub volume: Volume<D>,
    pub inodes: InodeCache<NINODE>,
}

/// A file as programs know it.
pub struct FileView {
    pub kind: InodeKind,
    pub major: int,
    pub minor: int,
    pub nlink: int,
    pub bytes: Seq<u8>,
}

/// The file that an inode stands for.
pub open spec fn file_of(v: Seq<Seq<u8>>, ino: InodeView) -> FileView {
    FileView { kind: ino.kind, major: ino.major, minor: ino.minor, nlink: ino.nlink, bytes: contents(v, ino) }
}

/// An inode in memory that is in step with the disk stands for the same file.
pub proof fn lemma_synced(v: Seq<Seq<u8>>, sb: SuperBlock, o: Map<int, (int, int)>, inum: int, ino: InodeView)
    requires
        synced(v, sb, o, inum, ino),
    ensures
        file_of(v, ino) == file_of(v, disk_inode(v, sb, inum)),
{
    let disk = disk_inode(v, sb, inum);
    assert forall|i: int| 0 <= i < ino.size implies contents(v, ino)[i] == contents(v, disk)[i] by {
        let k = i / 1024;
        assert(0 <= k < nblocks(disk.size));
        assert(block_of(v, disk, k) != 0);
    }
    assert(contents(v, ino) =~= contents(v, disk));
}

impl<D: BlockDevice> FileSystem<D> {
    pub open spec fn v(&self) -> Seq<Seq<u8>> {
        self.volume.blocks()
    }

    pub open spec fn sb(&self) -> SuperBlock {
        self.volume.sb()
    }

    pub open spec fn device(&self) -> usize {
        self.volume.storage.log.device
    }

    /// Inode `j` on disk.
    pub open spec fn disk(&self, j: int) -> InodeView {
        disk_inode(self.v(), self.sb(), j)
    }

    /// File `j`.
    pub open spec fn file(&self, j: int) -> FileView {
        file_of(self.v(), self.disk(j))
    }

    /// Blocks of the free map that change when the inode in slot `i` gives its blocks back.
    pub open spec fn freeing(&self, i: int) -> Set<int> {
        blocks_map(self.v(), self.sb(), self.inodes.inodes@[i].inode@)
    }

    /// The inode in slot `i` has no indirect blocks, and the blocks of the free map for the others
    /// are logged.
    spec fn fresh(&self, i: int) -> bool {
        direct_logged(self.volume.logged(), self.sb(), self.inodes.inodes@[i].inode@)
    }

    /// The key of inode `j` in the cache.
    pub open spec fn key(&self, j: int) -> InodeKey {
        InodeKey { device: self.device(), index: j as usize }
    }

    /// What slot `i` of the cache holds is in step with the disk.
    pub open spec fn slot_ok(&self, i: int) -> bool {
        self.inodes.cache.keys()[i] is Some ==> {
            let inum = self.inodes.cache.keys()[i]->0.index as int;
            &&& self.inodes.cache.keys()[i]->0.device == self.device()
            &&& is_inode(self.sb(), inum)
            &&& self.file(inum).kind != InodeKind::Unused
            &&& self.inodes.inodes@[i].is_initialized ==> {
                &&& self.inodes.inodes@[i].inode@.kind != InodeKind::Unused
                &&& synced(self.v(), self.sb(), self.volume.owner@, inum, self.inodes.inodes@[i].inode@)
            }
        }
    }

    pub open spec fn disk_ok(&self, j: int) -> bool {
        inode_wf(self.v(), self.sb(), self.volume.owner@, j, self.disk(j))
    }

    pub open spec fn wf(&self) -> bool {
        &&& self.volume.wf()
        &&& self.inodes.wf()
        &&& forall|i: int| 0 <= i < NINODE ==> #[trigger] self.slot_ok(i)
        &&& forall|j: int| 0 <= j < self.sb().ninodes ==> #[trigger] self.disk_ok(j)
    }

    /// Slot `i` holds inode `j`, and somebody refers to it.
    pub open spec fn held(&self, i: int, j: int) -> bool {
        &&& 0 <= i < NINODE
        &&& self.inodes.cache.keys()[i] == Some(self.key(j))
        &&& 0 <= j <= usize::MAX
        &&& self.inodes.cache.counts@[i] > 0
    }
}

/// All files are the same.
pub open spec fn same_files<D: BlockDevice>(old: FileSystem<D>, new: FileSystem<D>) -> bool {
    &&& new.v() == old.v()
    &&& new.sb() == old.sb()
    &&& new.device() == old.device()
    &&& new.volume.owner == old.volume.owner
    &&& new.volume.logged() == old.volume.logged()
    &&& new.volume.used() == old.volume.used()
    &&& new.volume.session() == old.volume.session()
}

/// Where blocks and inodes in memory are the same, everything stays well-formed.
proof fn lemma_same_wf<D: BlockDevice>(fs0: FileSystem<D>, fs1: FileSystem<D>)
    requires
        fs0.wf(),
        fs1.volume.wf(),
        same_volume(fs0.volume, fs1.volume),
        fs1.inodes.wf(),
        forall|i: int| 0 <= i < NINODE && (#[trigger] fs1.inodes.cache.keys()[i]) is Some ==> {
            ||| fs0.inodes.cache.keys()[i] == fs1.inodes.cache.keys()[i] && fs0.inodes.inodes@[i] == fs1.inodes.inodes@[i]
            ||| {
                let inum = fs1.inodes.cache.keys()[i]->0.index as int;
                &&& fs1.inodes.cache.keys()[i]->0.device == fs0.device()
                &&& is_inode(fs0.sb(), inum)
                &&& fs0.file(inum).kind != InodeKind::Unused
                &&& fs1.inodes.inodes@[i].is_initialized ==> {
                    &&& fs1.inodes.inodes@[i].inode@.kind != InodeKind::Unused
                    &&& synced(fs0.v(), fs0.sb(), fs0.volume.owner@, inum, fs1.inodes.inodes@[i].inode@)
                }
            }
        },
    ensures
        fs1.wf(),
        same_files(fs0, fs1),
{
    assert forall|i: int| 0 <= i < NINODE implies #[trigger] fs1.slot_ok(i) by {
        assert(fs0.slot_ok(i));
        if fs1.inodes.cache.keys()[i] is Some {
        }
    }
    assert forall|j: int| 0 <= j < fs1.sb().ninodes implies #[trigger] fs1.disk_ok(j) by {
        assert(fs0.disk_ok(j));
    }
}

/// Work on file `inum`, whose inode is in slot `i`, leaves all other files alone.
proof fn lemma_file_step<D: BlockDevice>(fs0: FileSystem<D>, fs1: FileSystem<D>, i: int, inum: int)
    requires
        fs0.wf(),
        fs1.volume.wf(),
        fs1.inodes.wf(),
        fs1.device() == fs0.device(),
        0 <= i < NINODE,
        fs0.inodes.cache.keys()[i] == Some(fs0.key(inum)),
        is_inode(fs0.sb(), inum),
        file_kept(fs0.volume, fs1.volume, inum),
        forall|j: int| 0 <= j < NINODE && j != i ==> #[trigger] fs1.inodes.inodes@[j] == fs0.inodes.inodes@[j],
        forall|j: int| 0 <= j < NINODE && j != i ==> (#[trigger] fs1.inodes.cache.keys()[j] == fs0.inodes.cache.keys()[j]),
        fs1.inodes.cache.keys()[i] is None || fs1.inodes.cache.keys()[i] == fs0.inodes.cache.keys()[i],
        fs1.disk_ok(inum),
        fs1.slot_ok(i),
    ensures
        fs1.wf(),
        forall|j: int| 0 <= j < fs0.sb().ninodes && j != inum ==> #[trigger] fs1.file(j) == fs0.file(j) && fs1.disk(j) == fs0.disk(j),
{
    let sb = fs0.sb();
    let v0 = fs0.v();
    let v1 = fs1.v();
    let o0 = fs0.volume.owner@;
    let o1 = fs1.volume.owner@;
    assert forall|j: int| 0 <= j < sb.ninodes && j != inum implies #[trigger] fs1.file(j) == fs0.file(j) && fs1.disk(j) == fs0.disk(j) && fs1.disk_ok(j) by {
        assert(fs0.disk_ok(j));
        assert(disk_inode(v1, sb, j) == disk_inode(v0, sb, j));
        lemma_other_file(v0, v1, sb, o0, o1, inum, j, fs0.disk(j));
    }
    assert forall|j: int| 0 <= j < sb.ninodes implies #[trigger] fs1.disk_ok(j) by {
        if j != inum {
            assert(fs1.file(j) == fs0.file(j));
        }
    }
    assert forall|k: int| 0 <= k < NINODE implies #[trigger] fs1.slot_ok(k) by {
        if k != i && fs1.inodes.cache.keys()[k] is Some {
            assert(fs0.slot_ok(k));
            let x = fs0.inodes.cache.keys()[k]->0.index as int;
            assert(x != inum) by {
                if x == inum {
                    assert(fs0.inodes.cache.cache.links@[k].key == fs0.inodes.cache.keys()[k]);
                    assert(fs0.inodes.cache.cache.links@[i].key == fs0.inodes.cache.keys()[i]);
                    if k < i {
                        assert(fs0.inodes.cache.cache.links@[k].key != fs0.inodes.cache.cache.links@[i].key);
                    } else {
                        assert(fs0.inodes.cache.cache.links@[i].key != fs0.inodes.cache.cache.links@[k].key);
                    }
                }
            }
            if fs0.inodes.inodes@[k].is_initialized {
                lemma_other_file(v0, v1, sb, o0, o1, inum, x, fs0.inodes.inodes@[k].inode@);
                assert(fs1.disk_ok(x));
            }
            assert(fs1.file(x) == fs0.file(x));
        }
    }
}

impl<D: BlockDevice> FileSystem<D> {
    /// What is known of an inode that somebody works on.
    pub open spec fn working(&self, i: int, j: int) -> bool {
        &&& self.held(i, j)
        &&& self.inodes.inodes@[i].is_initialized
        &&& self.inodes.inodes@[i].valid(self.volume)
        &&& self.inodes.inodes@[i].inode_number == j
        &&& self.inodes.inodes@[i].device == self.device()
    }

    /// A working inode stands for its file.
    proof fn lemma_working(&self, i: int, j: int)
        requires
            self.wf(),
            self.held(i, j),
            self.inodes.inodes@[i].is_initialized,
        ensures
            self.working(i, j),
            is_inode(self.sb(), j),
            file_of(self.v(), self.inodes.inodes@[i].inode@) == self.file(j),
            self.file(j).kind != InodeKind::Unused,
    {
        assert(self.slot_ok(i));
        lemma_synced(self.v(), self.sb(), self.volume.owner@, j, self.inodes.inodes@[i].inode@);
        assert(self.inodes.cache.keys()[i] is Some);
    }

    /// A reference to inode `inode`. `None` means that too many inodes are in use.
    pub fn get(&mut self, device: usize, inode: usize) -> (r: Option<InodeReference>)
        requires
            old(self).wf(),
            refs_bounded(old(self).inodes.cache, 0),
            device == old(self).device(),
            is_inode(old(self).sb(), inode as int),
            old(self).file(inode as int).kind != InodeKind::Unused,
        ensures
            final(self).wf(),
            same_files(*old(self), *final(self)),
            r is Some <==> gettable(old(self).inodes.cache.keys(), old(self).key(inode as int)),
            match r {
                Some(x) => {
                    &&& ref_added(old(self).inodes.cache, final(self).inodes.cache, x.cache_index as int, old(self).key(inode as int))
                    &&& final(self).held(x.cache_index as int, inode as int)
                    &&& forall|k: int| 0 <= k < NINODE && k != x.cache_index ==> #[trigger] final(self).inodes.inodes@[k]
                        == old(self).inodes.inodes@[k]
                },
                None => *final(self) == *old(self),
            },
            r matches Some(x) ==> !old(self).inodes.cache.keys().contains(Some(old(self).key(inode as int))) ==>
                !final(self).inodes.inodes@[x.cache_index as int].is_initialized,
    {
        let ghost fs0 = *self;
        let r = self.inodes.get(device, inode);
        proof {
            if r is Some {
                let i = r->0.cache_index as int;
                assert(fs0.inodes.cache.counts@[i] + 0 < usize::MAX);
                assert forall|k: int| 0 <= k < NINODE && (#[trigger] self.inodes.cache.keys()[k]) is Some implies {
                    ||| fs0.inodes.cache.keys()[k] == self.inodes.cache.keys()[k] && fs0.inodes.inodes@[k] == self.inodes.inodes@[k]
                    ||| {
                        let inum = self.inodes.cache.keys()[k]->0.index as int;
                        &&& self.inodes.cache.keys()[k]->0.device == fs0.device()
                        &&& is_inode(fs0.sb(), inum)
                        &&& fs0.file(inum).kind != InodeKind::Unused
                        &&& self.inodes.inodes@[k].is_initialized ==> {
                            &&& self.inodes.inodes@[k].inode@.kind != InodeKind::Unused
                            &&& synced(fs0.v(), fs0.sb(), fs0.volume.owner@, inum, self.inodes.inodes@[k].inode@)
                        }
                    }
                } by {
                    if k != i {
                        assert(self.inodes.inodes@[k] == fs0.inodes.inodes@[k]);
                    }
                }
                lemma_same_wf(fs0, *self);
            }
        }
        r
    }

    /// Begins to work on an inode, which must be in use.
    pub fn lock(&mut self, x: &InodeReference) -> (r: InodeGuard)
        requires
            old(self).wf(),
            refs_bounded(old(self).inodes.cache, 0),
            exists|j: int| #[trigger] old(self).held(x.cache_index as int, j) && old(self).file(j).kind != InodeKind::Unused,
        ensures
            final(self).wf(),
            same_files(*old(self), *final(self)),
            r.cache_index == x.cache_index,
            ref_added(
                old(self).inodes.cache,
                final(self).inodes.cache,
                x.cache_index as int,
                old(self).inodes.cache.keys()[x.cache_index as int]->0,
            ),
            forall|j: int| #[trigger] old(self).held(x.cache_index as int, j) ==> final(self).working(x.cache_index as int, j),
            forall|k: int| 0 <= k < NINODE && k != x.cache_index ==> #[trigger] final(self).inodes.inodes@[k]
                == old(self).inodes.inodes@[k],
            !old(self).inodes.inodes@[x.cache_index as int].is_initialized ==> final(self).inodes.inodes@[x.cache_index as int].inode@
                == old(self).disk(old(self).inodes.inodes@[x.cache_index as int].inode_number as int),
    {
        let ghost fs0 = *self;
        let i = x.cache_index;
        let ghost j = choose|j: int| #[trigger] old(self).held(i as int, j) && old(self).file(j).kind != InodeKind::Unused;
        proof {
            assert(self.inodes.cache.counts@[i as int] + 0 < usize::MAX);
            assert(fs0.slot_ok(i as int));
        }
        self.inodes.duplicate(i);
        if !self.inodes.inodes[i].is_initialized {
            let ghost fs1 = *self;
            self.inodes.inodes[i].initialize(&mut self.volume);
            self.inodes.inodes[i].is_initialized = true;
            proof {
                assert(fs0.disk_ok(j));
            }
        }
        proof {
            assert forall|k: int| 0 <= k < NINODE && (#[trigger] self.inodes.cache.keys()[k]) is Some implies {
                ||| fs0.inodes.cache.keys()[k] == self.inodes.cache.keys()[k] && fs0.inodes.inodes@[k] == self.inodes.inodes@[k]
                ||| {
                    let inum = self.inodes.cache.keys()[k]->0.index as int;
                    &&& self.inodes.cache.keys()[k]->0.device == fs0.device()
                    &&& is_inode(fs0.sb(), inum)
                    &&& fs0.file(inum).kind != InodeKind::Unused
                    &&& self.inodes.inodes@[k].is_initialized ==> {
                        &&& self.inodes.inodes@[k].inode@.kind != InodeKind::Unused
                        &&& synced(fs0.v(), fs0.sb(), fs0.volume.owner@, inum, self.inodes.inodes@[k].inode@)
                    }
                }
            } by {
            }
            lemma_same_wf(fs0, *self);
            assert forall|j: int| #[trigger] fs0.held(i as int, j) implies self.working(i as int, j) by {
                assert(self.held(i as int, j));
                self.lemma_working(i as int, j);
            }
        }
        InodeGuard { cache_index: i }
    }

    /// Gives back a reference, or ends the work on an inode, where that does not free it.
    fn put(&mut self, i: usize)
        requires
            old(self).wf(),
            i < NINODE,
            old(self).inodes.cache.counts@[i as int] > 0,
            !frees(old(self).inodes, i as int),
        ensures
            final(self).wf(),
            same_files(*old(self), *final(self)),
            final(self).volume == old(self).volume,
            final(self).inodes.inodes == old(self).inodes.inodes,
            ref_removed(old(self).inodes.cache, final(self).inodes.cache, i as int),
    {
        let ghost fs0 = *self;
        self.inodes.release(&mut self.volume, i);
        proof {
            assert forall|k: int| 0 <= k < NINODE && (#[trigger] self.inodes.cache.keys()[k]) is Some implies fs0.inodes.cache.keys()[k]
                == self.inodes.cache.keys()[k] && fs0.inodes.inodes@[k] == self.inodes.inodes@[k] by {
            }
            lemma_same_wf(fs0, *self);
        }
    }
}


/// Inode number that a directory has for `name`.
pub open spec fn dir_target(c: Seq<u8>, name: Seq<u8>) -> Option<int> {
    if exists|k: int| #[trigger] is_entry_of(c, name, k) {
        Some(entry_inum(c, choose|k: int| #[trigger] is_entry_of(c, name, k)))
    } else {
        None
    }
}

proof fn lemma_dir_target(c: Seq<u8>, name: Seq<u8>)
    ensures
        forall|k: int| #[trigger] is_entry_of(c, name, k) ==> dir_target(c, name) == Some(entry_inum(c, k)),
        no_entry_of(c, name) ==> dir_target(c, name) is None,
        dir_target(c, name) is None ==> no_entry_of(c, name),
{
    assert forall|k: int| #[trigger] is_entry_of(c, name, k) implies dir_target(c, name) == Some(entry_inum(c, k)) by {
        let m = choose|m: int| #[trigger] is_entry_of(c, name, m);
        if m < k {
            assert(!entry_matches(c, m, name));
        }
        if k < m {
            assert(!entry_matches(c, k, name));
        }
    }
    if dir_target(c, name) is None {
        assert forall|j: int| 0 <= j < c.len() as int / 16 implies !#[trigger] entry_matches(c, j, name) by {
            lemma_first_match(c, name, j);
        }
    }
}

/// Where an entry matches, there is a first one that does.
proof fn lemma_first_match(c: Seq<u8>, name: Seq<u8>, j: int)
    requires
        0 <= j < c.len() as int / 16,
    ensures
        entry_matches(c, j, name) ==> exists|k: int| #[trigger] is_entry_of(c, name, k),
    decreases j,
{
    if entry_matches(c, j, name) {
        if exists|m: int| 0 <= m < j && #[trigger] entry_matches(c, m, name) {
            let m = choose|m: int| 0 <= m < j && #[trigger] entry_matches(c, m, name);
            lemma_first_match(c, name, m);
        } else {
            assert(is_entry_of(c, name, j));
        }
    }
}

impl<D: BlockDevice> FileSystem<D> {
    /// Inode `t` is in use and has a name.
    pub open spec fn target_ok(&self, t: int) -> bool {
        &&& is_inode(self.sb(), t)
        &&& self.file(t).kind != InodeKind::Unused
        &&& self.file(t).nlink > 0
    }

    /// Entry `k` of directory `d` names an inode that is in use.
    pub open spec fn entry_ok(&self, d: int, k: int) -> bool {
        entry_inum(self.file(d).bytes, k) != 0 ==> self.target_ok(entry_inum(self.file(d).bytes, k))
    }

    /// All entries of all directories do.
    #[verifier::opaque]
    pub open spec fn links_ok(&self) -> bool {
        forall|d: int, k: int|
            is_inode(self.sb(), d) && self.file(d).kind == InodeKind::Directory && 0 <= k < self.file(d).bytes.len() as int / 16
                ==> #[trigger] self.entry_ok(d, k)
    }

    proof fn lemma_entry(&self, d: int, k: int)
        requires
            self.links_ok(),
            is_inode(self.sb(), d),
            self.file(d).kind == InodeKind::Directory,
            0 <= k < self.file(d).bytes.len() as int / 16,
        ensures
            self.entry_ok(d, k),
    {
        reveal(FileSystem::links_ok);
    }

    /// Where the path `names` leads from inode `j`.
    pub open spec fn walk(&self, j: int, names: Seq<Seq<u8>>) -> Option<int>
        decreases names.len(),
    {
        if names.len() == 0 {
            Some(j)
        } else if self.file(j).kind != InodeKind::Directory {
            None
        } else {
            match dir_target(self.file(j).bytes, names[0]) {
                None => None,
                Some(t) => self.walk(t, names.skip(1)),
            }
        }
    }

    /// The inode at which a path begins.
    pub open spec fn origin(&self, path: Seq<u8>, cwd: Option<int>) -> Option<int> {
        if is_absolute(path) {
            Some(ROOTINO as int)
        } else {
            match cwd {
                Some(i) => Some(self.inodes.cache.keys()[i]->0.index as int),
                None => None,
            }
        }
    }

    /// Memory has room for the root where a path begins there.
    pub open spec fn root_had(&self, path: Seq<u8>) -> bool {
        is_absolute(path) ==> gettable(self.inodes.cache.keys(), self.key(ROOTINO as int))
    }

    /// The current directory, in slot `cwd`, is in use, and so is the root.
    pub open spec fn origin_ok(&self, cwd: Option<int>) -> bool {
        &&& self.target_ok(ROOTINO as int)
        &&& cwd is Some ==> {
            &&& 0 <= cwd->0 < NINODE
            &&& self.inodes.cache.counts@[cwd->0] > 0
            &&& self.inodes.cache.keys()[cwd->0] is Some
            &&& self.file(self.inodes.cache.keys()[cwd->0]->0.index as int).kind != InodeKind::Unused
        }
    }

    /// Number of free blocks.
    pub open spec fn free(&self) -> int {
        free_blocks(self.v(), self.sb())
    }

    /// Which inodes memory has room for.
    pub open spec fn slots(&self) -> Slots {
        slots_of(self.inodes.cache.keys())
    }

    /// Memory has room for every inode on the path `names` from inode `j` on: each is looked up
    /// while the one before it is held.
    pub open spec fn walk_had(&self, slots: Slots, j: int, names: Seq<Seq<u8>>) -> bool
        decreases names.len(),
    {
        if names.len() == 0 || self.file(j).kind != InodeKind::Directory {
            true
        } else {
            match dir_target(self.file(j).bytes, names[0]) {
                None => true,
                Some(t) => slots.holding(self.key(j)).can_hold(self.key(t)) && self.walk_had(slots, t, names.skip(1)),
            }
        }
    }

    /// Memory has room for the inodes on the way to what a path names.
    pub open spec fn reached(&self, slots: Slots, path: Seq<u8>, cwd: Option<int>) -> bool {
        match self.origin(path, cwd) {
            Some(start) => self.walk_had(slots, start, elements(path)),
            None => true,
        }
    }

    /// Memory has room for the inodes on the way to the directory in which the last element of
    /// a path stands.
    pub open spec fn parent_reached(&self, slots: Slots, path: Seq<u8>, cwd: Option<int>) -> bool {
        match self.origin(path, cwd) {
            Some(start) => self.walk_had(slots, start, elements(path).drop_last()),
            None => true,
        }
    }

    /// Memory has room for what directory `p` has for `name`, beside the directory.
    pub open spec fn entry_had(&self, slots: Slots, p: int, name: Seq<u8>) -> bool {
        dir_target(self.file(p).bytes, name) matches Some(t) ==> slots.holding(self.key(p)).can_hold(self.key(t))
    }

    /// Directory `p` has nothing for `name`, or nothing that memory has room for.
    pub open spec fn name_free(&self, slots: Slots, p: int, name: Seq<u8>) -> bool {
        dir_target(self.file(p).bytes, name) matches Some(t) ==> !slots.holding(self.key(p)).can_hold(self.key(t))
    }
}

/// What decides which inodes memory has room for: those that it holds, and the number of free
/// slots.
pub struct Slots {
    pub cached: Set<InodeKey>,
    pub free: int,
}

impl Slots {
    /// An inode is held already, or there is room for it.
    pub open spec fn can_hold(self, key: InodeKey) -> bool {
        self.cached.contains(key) || self.free > 0
    }

    /// With one more inode held.
    pub open spec fn holding(self, key: InodeKey) -> Slots {
        if self.cached.contains(key) {
            self
        } else {
            Slots { cached: self.cached.insert(key), free: self.free - 1 }
        }
    }
}

/// Number of slots that hold nothing.
pub open spec fn free_slots(keys: Seq<Option<InodeKey>>) -> int
    decreases keys.len(),
{
    if keys.len() == 0 {
        0
    } else {
        free_slots(keys.drop_last()) + if keys.last() is None { 1int } else { 0int }
    }
}

pub open spec fn slots_of(keys: Seq<Option<InodeKey>>) -> Slots {
    Slots { cached: Set::new(|k: InodeKey| keys.contains(Some(k))), free: free_slots(keys) }
}

proof fn lemma_free_slots(keys: Seq<Option<InodeKey>>)
    ensures
        0 <= free_slots(keys),
        free_slots(keys) > 0 <==> exists|i: int| 0 <= i < keys.len() && (#[trigger] keys[i]) is None,
    decreases keys.len(),
{
    if keys.len() > 0 {
        lemma_free_slots(keys.drop_last());
        if keys.last() is None {
            assert(keys[keys.len() - 1] is None);
        }
        if free_slots(keys.drop_last()) > 0 {
            let i = choose|i: int| 0 <= i < keys.drop_last().len() && (#[trigger] keys.drop_last()[i]) is None;
            assert(keys[i] is None);
        }
        if exists|i: int| 0 <= i < keys.len() && (#[trigger] keys[i]) is None {
            let i = choose|i: int| 0 <= i < keys.len() && (#[trigger] keys[i]) is None;
            if i < keys.len() - 1 {
                assert(keys.drop_last()[i] is None);
            }
        }
    }
}

proof fn lemma_slot_filled(keys: Seq<Option<InodeKey>>, x: int, key: InodeKey)
    requires
        0 <= x < keys.len(),
        keys[x] is None,
    ensures
        free_slots(keys.update(x, Some(key))) == free_slots(keys) - 1,
    decreases keys.len(),
{
    let new = keys.update(x, Some(key));
    if x == keys.len() - 1 {
        assert(new.drop_last() =~= keys.drop_last());
    } else {
        assert(new.drop_last() =~= keys.drop_last().update(x, Some(key)));
        lemma_slot_filled(keys.drop_last(), x, key);
    }
}

/// What there is room for after one more inode is held.
proof fn lemma_slots_held(k0: Seq<Option<InodeKey>>, k1: Seq<Option<InodeKey>>, x: int, key: InodeKey)
    requires
        0 <= x < k0.len(),
        k0[x] == Some(key) || (k0[x] is None && !k0.contains(Some(key))),
        k1 == k0.update(x, Some(key)),
    ensures
        slots_of(k1) == slots_of(k0).holding(key),
{
    if k0[x] == Some(key) {
        assert(k1 =~= k0);
        assert(k0.contains(Some(key)));
    } else {
        lemma_slot_filled(k0, x, key);
        assert(slots_of(k1).cached =~= slots_of(k0).cached.insert(key)) by {
            assert forall|k: InodeKey| slots_of(k1).cached.contains(k) == slots_of(k0).cached.insert(key).contains(k) by {
                if k1.contains(Some(k)) {
                    let i = choose|i: int| 0 <= i < k1.len() && k1[i] == Some(k);
                    if i != x {
                        assert(k0[i] == Some(k));
                    }
                }
                if k0.contains(Some(k)) {
                    let i = choose|i: int| 0 <= i < k0.len() && k0[i] == Some(k);
                    assert(k1[i] == Some(k));
                }
                assert(k1[x] == Some(key));
            }
        }
    }
}

proof fn lemma_can_hold(keys: Seq<Option<InodeKey>>, key: InodeKey)
    ensures
        gettable(keys, key) == slots_of(keys).can_hold(key),
{
    lemma_free_slots(keys);
}

/// Whether memory has room for what a directory has for a name, while the directory is held.
proof fn lemma_entry_had<D: BlockDevice>(fs: FileSystem<D>, keys: Seq<Option<InodeKey>>, x: int, j: int, name: Seq<u8>)
    requires
        0 <= x < fs.inodes.cache.keys().len(),
        fs.inodes.cache.keys()[x] == Some(fs.key(j)) || (fs.inodes.cache.keys()[x] is None && !fs.inodes.cache.keys().contains(Some(fs.key(j)))),
        keys == fs.inodes.cache.keys().update(x, Some(fs.key(j))),
    ensures
        slots_of(keys) == fs.slots().holding(fs.key(j)),
        forall|k: int| #[trigger] is_entry_of(fs.file(j).bytes, name, k) ==> {
            let key = InodeKey { device: fs.device(), index: entry_inum(fs.file(j).bytes, k) as usize };
            &&& dir_target(fs.file(j).bytes, name) == Some(entry_inum(fs.file(j).bytes, k))
            &&& gettable(keys, key) == fs.entry_had(fs.slots(), j, name)
        },
        linkable(fs.file(j).bytes, keys, fs.device(), name) == fs.name_free(fs.slots(), j, name),
{
    let c = fs.file(j).bytes;
    lemma_slots_held(fs.inodes.cache.keys(), keys, x, fs.key(j));
    lemma_dir_target(c, name);
    assert forall|k: int| #[trigger] is_entry_of(c, name, k) implies {
        let key = InodeKey { device: fs.device(), index: entry_inum(c, k) as usize };
        &&& dir_target(c, name) == Some(entry_inum(c, k))
        &&& gettable(keys, key) == fs.entry_had(fs.slots(), j, name)
    } by {
        lemma_can_hold(keys, InodeKey { device: fs.device(), index: entry_inum(c, k) as usize });
    }
    if dir_target(c, name) is Some {
        let k = choose|k: int| #[trigger] is_entry_of(c, name, k);
        assert(is_entry_of(c, name, k));
    }
}

/// Going from the inode in slot `x` to the one in slot `y`.
proof fn lemma_ref_moved<const N: usize>(
    c0: CacheRc<InodeKey, N>,
    c1: CacheRc<InodeKey, N>,
    c2: CacheRc<InodeKey, N>,
    c3: CacheRc<InodeKey, N>,
    c4: CacheRc<InodeKey, N>,
    c5: CacheRc<InodeKey, N>,
    x: int,
    kx: InodeKey,
    y: int,
    ky: InodeKey,
)
    requires
        c0.wf(),
        c1.wf(),
        refs_bounded(c0, 4),
        ref_added(c0, c1, x, kx),
        ref_added(c1, c2, x, kx),
        ref_added(c2, c3, y, ky),
        ref_removed(c3, c4, x),
        ref_removed(c4, c5, x),
    ensures
        ref_added(c0, c5, y, ky),
{
    assert(c0.counts@[x] + 4 < usize::MAX);
    assert(c0.counts@[y] + 4 < usize::MAX);
    assert(c0.counts@[x] == 0 <==> c0.keys()[x] is None);
    assert(c2.keys() =~= c1.keys());
    if x == y {
        assert(c1.keys()[x] == Some(kx));
        assert(kx == ky);
        assert(c5.counts@ =~= c0.counts@.update(y, (c0.counts@[y] + 1) as usize));
        assert(c5.keys() =~= c0.keys().update(y, Some(ky)));
    } else {
        assert(c5.counts@ =~= c0.counts@.update(y, (c0.counts@[y] + 1) as usize));
        assert(c5.keys() =~= c0.keys().update(y, Some(ky)));
        if c2.keys()[y] is None {
            if c0.keys().contains(Some(ky)) {
                let m = choose|m: int| 0 <= m < c0.keys().len() && c0.keys()[m] == Some(ky);
                assert(c2.keys()[m] == Some(ky));
                assert(c2.keys().contains(Some(ky)));
            }
        }
    }
}

/// Undoing two references to slot `x`.
proof fn lemma_ref_undone<const N: usize>(
    c0: CacheRc<InodeKey, N>,
    c1: CacheRc<InodeKey, N>,
    c2: CacheRc<InodeKey, N>,
    c3: CacheRc<InodeKey, N>,
    c4: CacheRc<InodeKey, N>,
    x: int,
    kx: InodeKey,
)
    requires
        c0.wf(),
        refs_bounded(c0, 4),
        ref_added(c0, c1, x, kx),
        ref_added(c1, c2, x, kx),
        ref_removed(c2, c3, x),
        ref_removed(c3, c4, x),
    ensures
        same_refs(c0, c4),
        ref_added(c0, c3, x, kx),
{
    assert(c0.counts@[x] + 4 < usize::MAX);
    assert(c0.counts@[x] == 0 <==> c0.keys()[x] is None);
    assert(c3.keys() =~= c1.keys());
    assert(c3.counts@ =~= c1.counts@);
    assert(c4.counts@ =~= c0.counts@);
    assert(c4.keys() =~= c0.keys());
}

impl<D: BlockDevice> FileSystem<D> {
    /// The state while a path is followed: the references are those of `fs0` and one more.
    pub open spec fn following(&self, fs0: FileSystem<D>, x: int, j: int) -> bool {
        &&& self.wf()
        &&& same_files(fs0, *self)
        &&& self.held(x, j)
        &&& is_inode(fs0.sb(), j)
        &&& ref_added(fs0.inodes.cache, self.inodes.cache, x, fs0.key(j))
        &&& fs0.file(j).kind != InodeKind::Unused
        &&& fs0.file(j).nlink > 0 || fs0.inodes.cache.counts@[x] > 0
    }

    /// A reference to the inode at which a path begins.
    fn begin_path(&mut self, path: &Vec<u8>, cwd: &Option<usize>) -> (r: Option<InodeReference>)
        requires
            old(self).wf(),
            refs_bounded(old(self).inodes.cache, 4),
            old(self).device() == ROOTDEV,
            old(self).origin_ok(slot_of(*cwd)),
            old(self).root_had(path@),
        ensures
            match r {
                Some(x) => {
                    &&& old(self).origin(path@, slot_of(*cwd)) is Some
                    &&& final(self).following(*old(self), x.cache_index as int, old(self).origin(path@, slot_of(*cwd))->0)
                },
                None => {
                    &&& old(self).origin(path@, slot_of(*cwd)) is None
                    &&& *final(self) == *old(self)
                },
            },
    {
        let ghost fs0 = *self;
        proof {
            assert forall|i: int| 0 <= i < NINODE implies #[trigger] fs0.inodes.cache.counts@[i] + 0 < usize::MAX by {
                assert(fs0.inodes.cache.counts@[i] + 4 < usize::MAX);
            }
        }
        if starts_at_root(path) {
            self.get(ROOTDEV, ROOTINO)
        } else {
            match cwd {
                Some(i) => {
                    let i: usize = *i;
                    proof {
                        assert(fs0.slot_ok(i as int));
                        assert(fs0.inodes.cache.counts@[i as int] + 0 < usize::MAX);
                    }
                    self.inodes.duplicate(i);
                    proof {
                        lemma_same_wf(fs0, *self);
                    }
                    Some(InodeReference { cache_index: i })
                },
                None => None,
            }
        }
    }

    /// The inode that a path names.
    #[verifier::rlimit(60)]
    pub fn search_inode(&mut self, path: &Vec<u8>, cwd: &Option<usize>) -> (r: Option<InodeReference>)
        requires
            old(self).wf(),
            old(self).links_ok(),
            refs_bounded(old(self).inodes.cache, 4),
            old(self).device() == ROOTDEV,
            old(self).origin_ok(slot_of(*cwd)),
            old(self).root_had(path@),
        ensures
            final(self).wf(),
            same_files(*old(self), *final(self)),
            ({
                let start = old(self).origin(path@, slot_of(*cwd));
                match r {
                    Some(x) => {
                        let j = old(self).inodes_at(*final(self), x.cache_index as int);
                        &&& start is Some
                        &&& old(self).walk(start->0, elements(path@)) == Some(j)
                        &&& old(self).reached(old(self).slots(), path@, slot_of(*cwd))
                        &&& final(self).following(*old(self), x.cache_index as int, j)
                        &&& ref_added(old(self).inodes.cache, final(self).inodes.cache, x.cache_index as int, old(self).key(j))
                    },
                    None => {
                        &&& same_refs(old(self).inodes.cache, final(self).inodes.cache)
                        &&& {
                            ||| start is None
                            ||| old(self).walk(start->0, elements(path@)) is None
                            ||| !old(self).reached(old(self).slots(), path@, slot_of(*cwd))
                        }
                    },
                }
            }),
    {
        let ghost fs0 = *self;
        let mut inode_ref = match self.begin_path(path, cwd) {
            Some(x) => x,
            None => {
                return None;
            },
        };
        let ghost mut j: int = fs0.origin(path@, slot_of(*cwd))->0;
        let ghost start = j;
        let mut pos: usize = 0;
        loop
            invariant
                fs0 == *old(self),
                fs0.wf(),
                fs0.links_ok(),
                refs_bounded(fs0.inodes.cache, 4),
                fs0.device() == ROOTDEV,
                fs0.origin(path@, slot_of(*cwd)) == Some(start),
                pos <= path@.len(),
                self.following(fs0, inode_ref.cache_index as int, j),
                fs0.walk(start, elements(path@)) == fs0.walk(j, elements_from(path@, pos as int)),
                fs0.reached(fs0.slots(), path@, slot_of(*cwd)) == fs0.walk_had(fs0.slots(), j, elements_from(path@, pos as int)),
            decreases path@.len() - pos,
        {
            let ghost x = inode_ref.cache_index as int;
            let ghost c1 = self.inodes.cache;
            let (name, end) = match next_element(path, pos) {
                Some(next) => next,
                None => {
                    proof {
                        assert(self.inodes.cache.keys()[x] == Some(fs0.key(j)));
                    }
                    return Some(inode_ref);
                },
            };
            let ghost rest = elements_from(path@, pos as int);
            proof {
                lemma_bounded(fs0.inodes.cache, c1, x, fs0.key(j));
                assert(rest[0] == name@);
                assert(rest.skip(1) =~= elements_from(path@, end as int));
                assert(self.file(j) == fs0.file(j));
            }
            let guard = self.lock(&inode_ref);
            let i = guard.cache_index;
            let ghost c2 = self.inodes.cache;
            let ghost fs2 = *self;
            proof {
                self.lemma_working(x, j);
                lemma_dir_target(fs0.file(j).bytes, name@);
                assert(c2.keys() =~= c1.keys());
                lemma_entry_had(fs0, c2.keys(), x, j, name@);
            }
            let found = self.inodes.inodes[i].lookup(&mut self.volume, &self.inodes.cache, &name);
            proof {
                lemma_same_wf(fs2, *self);
            }
            match found {
                Some((next, offset)) => {
                    proof {
                        let k = offset as int / 16;
                        assert(is_entry_of(fs0.file(j).bytes, name@, k));
                        fs0.lemma_entry(j, k);
                        lemma_bounded(c1, c2, x, fs0.key(j));
                        assert(fs0.entry_had(fs0.slots(), j, name@));
                    }
                    let next_ref = match self.get(ROOTDEV, next) {
                        Some(next_ref) => next_ref,
                        None => {
                            proof {
                                assert(false);
                            }
                            inode_ref
                        },
                    };
                    let ghost c3 = self.inodes.cache;
                    let ghost y = next_ref.cache_index as int;
                    proof {
                        assert(c3.counts@[x] >= 2);
                    }
                    self.put(i);
                    let ghost c4 = self.inodes.cache;
                    proof {
                        self.lemma_not_freed(fs0, x, j);
                    }
                    self.put(i);
                    proof {
                        lemma_ref_moved(fs0.inodes.cache, c1, c2, c3, c4, self.inodes.cache, x, fs0.key(j), y, fs0.key(next as int));
                        j = next as int;
                    }
                    inode_ref = next_ref;
                    pos = end;
                },
                None => {
                    self.put(i);
                    let ghost c3 = self.inodes.cache;
                    proof {
                        self.lemma_not_freed(fs0, x, j);
                    }
                    self.put(i);
                    proof {
                        lemma_ref_undone(fs0.inodes.cache, c1, c2, c3, self.inodes.cache, x, fs0.key(j));
                        if fs0.file(j).kind == InodeKind::Directory && dir_target(fs0.file(j).bytes, name@) is Some {
                            assert(!fs0.entry_had(fs0.slots(), j, name@));
                        }
                    }
                    return None;
                },
            }
        }
    }

    /// The inode in slot `x` of a later state.
    pub open spec fn inodes_at(&self, later: FileSystem<D>, x: int) -> int {
        later.inodes.cache.keys()[x]->0.index as int
    }

    /// Dropping an inode that was only looked at does not free it.
    proof fn lemma_not_freed(&self, fs0: FileSystem<D>, x: int, j: int)
        requires
            self.wf(),
            same_files(fs0, *self),
            0 <= x < NINODE,
            0 <= j <= usize::MAX,
            self.inodes.cache.keys()[x] == Some(self.key(j)),
            self.inodes.cache.counts@[x] > 0,
            fs0.file(j).nlink > 0 || self.inodes.cache.counts@[x] > 1,
        ensures
            !frees(self.inodes, x),
    {
        if frees(self.inodes, x) {
            self.lemma_working(x, j);
            assert(self.file(j) == fs0.file(j));
        }
    }
}

/// Bounds on the number of references after one more.
proof fn lemma_bounded<const N: usize>(c0: CacheRc<InodeKey, N>, c1: CacheRc<InodeKey, N>, x: int, key: InodeKey)
    requires
        c0.wf(),
        refs_bounded(c0, 1),
        ref_added(c0, c1, x, key),
    ensures
        refs_bounded(c1, 0),
{
    assert forall|i: int| 0 <= i < N implies #[trigger] c1.counts@[i] + 0 < usize::MAX by {
        assert(c0.counts@[i] + 1 < usize::MAX);
    }
}

/// Slot number as a mathematical value.
pub open spec fn slot_of(cwd: Option<usize>) -> Option<int> {
    match cwd {
        Some(i) => Some(i as int),
        None => None,
    }
}


impl<D: BlockDevice> FileSystem<D> {
    /// The directory in which the last element of a path stands, if there is one.
    pub open spec fn parent(&self, path: Seq<u8>, cwd: Option<int>) -> Option<int> {
        let start = self.origin(path, cwd);
        let names = elements(path);
        if start is None || names.len() == 0 || ends_in_slash(path) {
            None
        } else {
            match self.walk(start->0, names.drop_last()) {
                Some(j) => if self.file(j).kind == InodeKind::Directory {
                    Some(j)
                } else {
                    None
                },
                None => None,
            }
        }
    }

    /// The directory in which the last element of a path stands, and that element.
    #[verifier::rlimit(60)]
    fn search_parent_inode(&mut self, path: &Vec<u8>, cwd: &Option<usize>) -> (r: Option<(InodeReference, Vec<u8>)>)
        requires
            old(self).wf(),
            old(self).links_ok(),
            refs_bounded(old(self).inodes.cache, 4),
            old(self).device() == ROOTDEV,
            old(self).origin_ok(slot_of(*cwd)),
            old(self).root_had(path@),
        ensures
            final(self).wf(),
            same_files(*old(self), *final(self)),
            match r {
                Some((x, name)) => {
                    &&& old(self).parent(path@, slot_of(*cwd)) is Some
                    &&& name@ == elements(path@).last()
                    &&& old(self).parent_reached(old(self).slots(), path@, slot_of(*cwd))
                    &&& final(self).following(*old(self), x.cache_index as int, old(self).parent(path@, slot_of(*cwd))->0)
                },
                None => {
                    &&& same_refs(old(self).inodes.cache, final(self).inodes.cache)
                    &&& old(self).parent(path@, slot_of(*cwd)) is None || !old(self).parent_reached(old(self).slots(), path@, slot_of(*cwd))
                },
            },
    {
        let ghost fs0 = *self;
        let mut inode_ref = match self.begin_path(path, cwd) {
            Some(x) => x,
            None => {
                return None;
            },
        };
        let ghost mut j: int = fs0.origin(path@, slot_of(*cwd))->0;
        let ghost start = j;
        let ghost all = elements(path@);
        let mut pos: usize = 0;
        proof {
            if all.len() == 0 && path@.len() > 0 {
                lemma_no_element(path@, 0);
            }
        }
        loop
            invariant
                fs0 == *old(self),
                fs0.wf(),
                fs0.links_ok(),
                refs_bounded(fs0.inodes.cache, 4),
                fs0.device() == ROOTDEV,
                fs0.origin(path@, slot_of(*cwd)) == Some(start),
                all == elements(path@),
                pos <= path@.len(),
                pos < path@.len() || pos == 0,
                self.following(fs0, inode_ref.cache_index as int, j),
                ({
                    let rest = elements_from(path@, pos as int);
                    &&& rest.len() > 0 ==> all.len() > 0 && all.last() == rest.last() && fs0.walk(start, all.drop_last()) == fs0.walk(
                        j,
                        rest.drop_last(),
                    ) && fs0.walk_had(fs0.slots(), start, all.drop_last()) == fs0.walk_had(fs0.slots(), j, rest.drop_last())
                    &&& rest.len() == 0 && pos < path@.len() ==> ends_in_slash(path@)
                    &&& pos == 0 ==> rest == all
                }),
            decreases path@.len() - pos,
        {
            let ghost x = inode_ref.cache_index as int;
            let ghost c1 = self.inodes.cache;
            let ghost rest = elements_from(path@, pos as int);
            let (name, end) = match next_element(path, pos) {
                Some(next) => next,
                None => {
                    proof {
                        self.lemma_not_freed(fs0, x, j);
                        lemma_bounded(fs0.inodes.cache, c1, x, fs0.key(j));
                    }
                    self.put(inode_ref.cache_index);
                    proof {
                        lemma_ref_back(fs0.inodes.cache, c1, self.inodes.cache, x, fs0.key(j));
                    }
                    return None;
                },
            };
            let ghost after = elements_from(path@, end as int);
            proof {
                lemma_bounded(fs0.inodes.cache, c1, x, fs0.key(j));
                assert(rest[0] == name@);
                assert(rest.skip(1) =~= after);
                assert(self.file(j) == fs0.file(j));
                if after.len() > 0 {
                    assert(rest.last() == after.last());
                    assert(rest.drop_last()[0] == name@);
                    assert(rest.drop_last().skip(1) =~= after.drop_last());
                } else {
                    assert(rest =~= seq![name@]);
                    assert(rest.drop_last() =~= Seq::empty());
                    assert(rest.last() == name@);
                    if end < path@.len() {
                        lemma_no_element(path@, end as int);
                    }
                }
                if end == path@.len() {
                    assert(name@[name@.len() - 1] == path@[path@.len() - 1]);
                }
            }
            let guard = self.lock(&inode_ref);
            let i = guard.cache_index;
            let ghost c2 = self.inodes.cache;
            let ghost fs2 = *self;
            proof {
                self.lemma_working(x, j);
                lemma_dir_target(fs0.file(j).bytes, name@);
                assert(c2.keys() =~= c1.keys());
                lemma_entry_had(fs0, c2.keys(), x, j, name@);
            }
            if !self.inodes.inodes[i].is_directory() {
                self.put(i);
                let ghost c3 = self.inodes.cache;
                proof {
                    self.lemma_not_freed(fs0, x, j);
                }
                self.put(i);
                proof {
                    lemma_ref_undone(fs0.inodes.cache, c1, c2, c3, self.inodes.cache, x, fs0.key(j));
                }
                return None;
            }
            if end == path.len() {
                self.put(i);
                proof {
                    lemma_ref_back(c1, c2, self.inodes.cache, x, fs0.key(j));
                    assert(self.inodes.cache.keys()[x] == Some(fs0.key(j)));
                }
                return Some((inode_ref, name));
            }
            let found = self.inodes.inodes[i].lookup(&mut self.volume, &self.inodes.cache, &name);
            proof {
                lemma_same_wf(fs2, *self);
            }
            match found {
                Some((next, offset)) => {
                    proof {
                        let k = offset as int / 16;
                        assert(is_entry_of(fs0.file(j).bytes, name@, k));
                        fs0.lemma_entry(j, k);
                        lemma_bounded(c1, c2, x, fs0.key(j));
                    }
                    let next_ref = match self.get(ROOTDEV, next) {
                        Some(next_ref) => next_ref,
                        None => {
                            proof {
                                assert(false);
                            }
                            inode_ref
                        },
                    };
                    let ghost c3 = self.inodes.cache;
                    let ghost y = next_ref.cache_index as int;
                    self.put(i);
                    let ghost c4 = self.inodes.cache;
                    proof {
                        self.lemma_not_freed(fs0, x, j);
                    }
                    self.put(i);
                    proof {
                        lemma_ref_moved(fs0.inodes.cache, c1, c2, c3, c4, self.inodes.cache, x, fs0.key(j), y, fs0.key(next as int));
                        j = next as int;
                    }
                    inode_ref = next_ref;
                    pos = end;
                },
                None => {
                    self.put(i);
                    let ghost c3 = self.inodes.cache;
                    proof {
                        self.lemma_not_freed(fs0, x, j);
                    }
                    self.put(i);
                    proof {
                        lemma_ref_undone(fs0.inodes.cache, c1, c2, c3, self.inodes.cache, x, fs0.key(j));
                        if dir_target(fs0.file(j).bytes, name@) is Some {
                            assert(!fs0.entry_had(fs0.slots(), j, name@));
                        }
                    }
                    return None;
                },
            }
        }
    }
}


/// A directory has no unused entry and cannot grow: it is as large as a file can be, or not enough
/// of the `free` blocks are left.
pub open spec fn no_room(c: Seq<u8>, free: int) -> bool {
    is_insert_place(c, c.len() as int / 16) && (c.len() + 16 > 274432 || free < entry_blocks(c))
}

/// The same blocks are in use.
pub open spec fn bits_kept<D: BlockDevice>(old: FileSystem<D>, new: FileSystem<D>) -> bool {
    forall|b: int| 0 <= b < old.sb().size ==> #[trigger] in_use(new.v(), old.sb(), b) == in_use(old.v(), old.sb(), b)
}

/// No other blocks are in use.
pub open spec fn only_freed<D: BlockDevice>(old: FileSystem<D>, new: FileSystem<D>) -> bool {
    forall|b: int| 0 <= b < old.sb().size && #[trigger] in_use(new.v(), old.sb(), b) ==> in_use(old.v(), old.sb(), b)
}

/// Only file `j`, whose inode is in slot `i`, may have changed.
pub open spec fn only_file<D: BlockDevice>(old: FileSystem<D>, new: FileSystem<D>, i: int, j: int) -> bool {
    &&& new.sb() == old.sb()
    &&& new.device() == old.device()
    &&& new.volume.session() == old.volume.session()
    &&& same_refs(old.inodes.cache, new.inodes.cache)
    &&& forall|x: int| 0 <= x < old.sb().ninodes && x != j ==> #[trigger] new.file(x) == old.file(x)
    &&& forall|x: int| 0 <= x < old.sb().ninodes && x != j ==> #[trigger] new.disk(x) == old.disk(x)
    &&& forall|k: int| 0 <= k < NINODE && k != i ==> #[trigger] new.inodes.inodes@[k] == old.inodes.inodes@[k]
    &&& new.inodes.inodes@[i].is_initialized == old.inodes.inodes@[i].is_initialized
}

/// Work on file `p` leaves the blocks of another file alone.
proof fn lemma_freeing_kept<D: BlockDevice>(fs0: FileSystem<D>, fs1: FileSystem<D>, i: int, t: int, p: int)
    requires
        fs0.wf(),
        fs0.held(i, t),
        fs0.inodes.inodes@[i].is_initialized,
        t != p,
        file_kept(fs0.volume, fs1.volume, p),
        fs1.inodes.inodes@[i] == fs0.inodes.inodes@[i],
    ensures
        fs1.freeing(i) == fs0.freeing(i),
{
    let ino = fs0.inodes.inodes@[i].inode@;
    fs0.lemma_working(i, t);
    assert(fs0.slot_ok(i));
    lemma_other_file(fs0.v(), fs1.v(), fs0.sb(), fs0.volume.owner@, fs1.volume.owner@, p, t, ino);
    lemma_same_map(fs0.v(), fs1.v(), fs0.sb(), ino, ino);
}

/// A file that goes changes no more of the free map than its blocks make up.
proof fn lemma_freeing<D: BlockDevice>(fs: FileSystem<D>, i: int, t: int)
    requires
        fs.wf(),
        fs.held(i, t),
        fs.inodes.inodes@[i].is_initialized,
    ensures
        fs.freeing(i).subset_of(fs.volume.map_of(t)),
        fs.volume.map_of(t).finite(),
        fs.freeing(i).finite(),
{
    fs.lemma_working(i, t);
    assert(fs.slot_ok(i));
    lemma_map_of(fs.volume, t, fs.inodes.inodes@[i].inode@);
}

impl<D: BlockDevice> FileSystem<D> {
    /// Changes the attributes of a file, in memory and on disk.
    #[verifier::rlimit(40)]
    fn set_attributes(&mut self, i: usize, Ghost(j): Ghost<int>, major: u16, minor: u16, nlink: u16)
        requires
            old(self).wf(),
            old(self).held(i as int, j),
            old(self).inodes.inodes@[i as int].is_initialized,
            old(self).volume.room(old(self).volume.inode_due(j)),
        ensures
            final(self).wf(),
            only_file(*old(self), *final(self), i as int, j),
            final(self).held(i as int, j),
            final(self).file(j) == (FileView { major: major as int, minor: minor as int, nlink: nlink as int, ..old(self).file(j) }),
            final(self).volume.used() <= old(self).volume.used() + old(self).volume.inode_due(j),
            old(self).volume.logged().subset_of(final(self).volume.logged()),
            file_kept(old(self).volume, final(self).volume, j),
            final(self).freeing(i as int) == old(self).freeing(i as int),
            old(self).fresh(i as int) ==> final(self).fresh(i as int),
            final(self).volume.inode_due(j) == 0,
            final(self).inodes.inodes@[i as int].is_initialized,
            bits_kept(*old(self), *final(self)),
    {
        let ghost fs0 = *self;
        proof {
            self.lemma_working(i as int, j);
        }
        let ghost i0 = self.inodes.inodes@[i as int].inode@;
        self.inodes.inodes[i].inode.major = major;
        self.inodes.inodes[i].inode.minor = minor;
        self.inodes.inodes[i].inode.nlink = nlink;
        let ghost i1 = self.inodes.inodes@[i as int].inode@;
        proof {
            assert(i1.addrs =~= i0.addrs);
            lemma_attrs(fs0.v(), fs0.sb(), fs0.volume.owner@, j, i0, i1);
        }
        self.inodes.inodes[i].update(&mut self.volume);
        proof {
            lemma_kept_set(fs0.volume, self.volume, j, i1);
            Volume::<D>::lemma_meta_kept(fs0.v(), self.v(), fs0.sb());
            assert(self.disk(j) == i1);
            lemma_file_step(fs0, *self, i as int, j);
            assert(addr_wf(fs0.v(), fs0.sb(), fs0.volume.owner@, j, i0, 12));
            assert forall|s: int| 0 <= s < 269 implies #[trigger] addr(self.v(), i1, s) == addr(fs0.v(), i0, s) by {
                assert(addr(fs0.v(), i0, 12) == i0.chain);
            }
            lemma_same_map(fs0.v(), self.v(), fs0.sb(), i0, i1);
            if fs0.fresh(i as int) {
                lemma_still_logged(fs0.volume.logged(), self.volume.logged(), fs0.sb(), i0, i1);
            }
        }
    }

    /// Adds an entry to the directory in slot `i`.
    #[verifier::rlimit(100)]
    #[verifier::spinoff_prover]
    fn link_in(&mut self, i: usize, Ghost(j): Ghost<int>, name: &Vec<u8>, inum: usize) -> (r: Result<(), ()>)
        requires
            old(self).wf(),
            old(self).held(i as int, j),
            old(self).inodes.inodes@[i as int].is_initialized,
            old(self).volume.room(entry_due(old(self).file(j).bytes) + old(self).volume.inode_due(j)),
            inum < 65536,
        ensures
            final(self).wf(),
            only_file(*old(self), *final(self), i as int, j),
            final(self).held(i as int, j),
            final(self).volume.used() <= old(self).volume.used() + entry_due(old(self).file(j).bytes) + old(self).volume.inode_due(j),
            old(self).volume.logged().subset_of(final(self).volume.logged()),
            old(self).file(j).bytes.len() + 16 <= 12288 && old(self).fresh(i as int) ==> final(self).fresh(i as int),
            r is Ok ==> final(self).volume.inode_due(j) == 0,
            final(self).inodes.inodes@[i as int].is_initialized,
            ({
                let c0 = old(self).file(j).bytes;
                let keys = old(self).inodes.cache.keys();
                match r {
                    Ok(_) => {
                        &&& old(self).file(j).kind == InodeKind::Directory
                        &&& linkable(c0, keys, old(self).device(), name@)
                        &&& exists|k: int| #[trigger] is_insert_place(c0, k) && final(self).file(j) == (FileView {
                            bytes: with_entry(c0, k, inum as int, name@),
                            ..old(self).file(j)
                        })
                    },
                    Err(_) => {
                        &&& final(self).file(j) == old(self).file(j)
                        &&& {
                            ||| old(self).file(j).kind != InodeKind::Directory
                            ||| !linkable(c0, keys, old(self).device(), name@)
                            ||| no_room(c0, old(self).free())
                        }
                    },
                }
            }),
            r is Ok ==> final(self).free() >= old(self).free() - entry_blocks(old(self).file(j).bytes),
    {
        let ghost fs0 = *self;
        proof {
            self.lemma_working(i as int, j);
        }
        let ghost i0 = self.inodes.inodes@[i as int].inode@;
        let r = self.inodes.inodes[i].link(&mut self.volume, &self.inodes.cache, name, inum);
        let ghost i1 = self.inodes.inodes@[i as int].inode@;
        proof {
            let disk1 = self.disk(j);
            assert(fs0.slot_ok(i as int));
            assert(synced(self.v(), self.sb(), self.volume.owner@, j, i1));
            assert(self.slot_ok(i as int));
            lemma_file_step(fs0, *self, i as int, j);
            lemma_synced(self.v(), self.sb(), self.volume.owner@, j, i1);
            if r is Ok {
                let c0 = fs0.file(j).bytes;
                let k = choose|k: int| #[trigger]
                    is_insert_place(c0, k) && contents(self.v(), i1) == with_entry(c0, k, inum as int % 65536, name@);
                assert(is_insert_place(c0, k));
                assert(self.file(j) == (FileView { bytes: with_entry(c0, k, inum as int, name@), ..fs0.file(j) }));
            }
        }
        r
    }

    /// Clears the entry at `offset` of the directory in slot `i`.
    #[verifier::rlimit(40)]
    fn clear_entry(&mut self, i: usize, Ghost(j): Ghost<int>, offset: usize)
        requires
            old(self).wf(),
            old(self).held(i as int, j),
            old(self).inodes.inodes@[i as int].is_initialized,
            old(self).volume.room(1 + old(self).volume.inode_due(j)),
            old(self).file(j).kind == InodeKind::Directory,
            offset % 16 == 0,
            offset + 16 <= old(self).file(j).bytes.len(),
        ensures
            final(self).wf(),
            only_file(*old(self), *final(self), i as int, j),
            final(self).held(i as int, j),
            final(self).volume.used() <= old(self).volume.used() + 1 + old(self).volume.inode_due(j),
            old(self).volume.logged().subset_of(final(self).volume.logged()),
            file_kept(old(self).volume, final(self).volume, j),
            final(self).volume.inode_due(j) == 0,
            final(self).inodes.inodes@[i as int].is_initialized,
            final(self).file(j) == (FileView {
                bytes: with_entry(old(self).file(j).bytes, offset as int / 16, 0, Seq::empty()),
                ..old(self).file(j)
            }),
    {
        let ghost fs0 = *self;
        proof {
            self.lemma_working(i as int, j);
            assert(crate::filesystem::file::chunks(offset as int, 16) == 1);
            lemma_write_inside(fs0.file(j).bytes.len() as int, offset as int, 16);
            assert(fs0.slot_ok(i as int));
        }
        let entry = DirectoryEntry::unused().to_bytes();
        let _ = self.inodes.inodes[i].write(&mut self.volume, &entry, offset);
        let ghost i1 = self.inodes.inodes@[i as int].inode@;
        proof {
            assert(synced(self.v(), self.sb(), self.volume.owner@, j, i1));
            assert(self.slot_ok(i as int));
            lemma_file_step(fs0, *self, i as int, j);
            lemma_synced(self.v(), self.sb(), self.volume.owner@, j, i1);
            assert(16 * (offset as int / 16) == offset);
        }
    }

    /// Gives back a reference to file `j` in slot `i`, which may free the file.
    #[verifier::rlimit(40)]
    fn release(&mut self, i: usize, Ghost(j): Ghost<int>)
        requires
            old(self).wf(),
            old(self).held(i as int, j),
            old(self).inodes.inodes@[i as int].is_initialized,
            frees(old(self).inodes, i as int) ==> {
                &&& old(self).volume.storage.log.outstanding > 0
                &&& old(self).volume.fits_with(old(self).freeing(i as int), old(self).volume.inode_due(j))
            },
        ensures
            final(self).wf(),
            final(self).sb() == old(self).sb(),
            final(self).device() == old(self).device(),
            final(self).volume.session() == old(self).volume.session(),
            final(self).volume.used() <= if frees(old(self).inodes, i as int) {
                old(self).volume.used_with(old(self).freeing(i as int)) + old(self).volume.inode_due(j)
            } else {
                old(self).volume.used()
            },
            old(self).volume.logged().subset_of(final(self).volume.logged()),
            final(self).volume.owner == old(self).volume.owner,
            only_freed(*old(self), *final(self)),
            ref_removed(old(self).inodes.cache, final(self).inodes.cache, i as int),
            forall|x: int| 0 <= x < old(self).sb().ninodes && x != j ==> #[trigger] final(self).file(x) == old(self).file(x),
            forall|x: int| 0 <= x < NINODE && x != i ==> #[trigger] final(self).inodes.inodes@[x] == old(self).inodes.inodes@[x],
            if frees(old(self).inodes, i as int) {
                &&& final(self).file(j).kind == InodeKind::Unused
                &&& final(self).file(j).bytes == Seq::<u8>::empty()
                &&& final(self).file(j).nlink == 0
            } else {
                final(self).file(j) == old(self).file(j) && final(self).inodes.inodes == old(self).inodes.inodes
            },
    {
        let ghost fs0 = *self;
        proof {
            assert(fs0.slot_ok(i as int));
            if self.inodes.inodes@[i as int].is_initialized {
                self.lemma_working(i as int, j);
            }
        }
        self.inodes.release(&mut self.volume, i);
        proof {
            if frees(fs0.inodes, i as int) {
                assert(self.slot_ok(i as int));
                lemma_file_step(fs0, *self, i as int, j);
                assert(self.file(j).bytes =~= Seq::<u8>::empty());
            } else {
                lemma_same_wf(fs0, *self);
            }
        }
    }
}

/// Attributes do not matter to the blocks of an inode.
proof fn lemma_attrs(v: Seq<Seq<u8>>, sb: SuperBlock, o: Map<int, (int, int)>, j: int, i0: InodeView, i1: InodeView)
    requires
        inode_wf(v, sb, o, j, i0),
        i1 == (InodeView { major: i1.major, minor: i1.minor, nlink: i1.nlink, ..i0 }),
    ensures
        inode_wf(v, sb, o, j, i1),
        contents(v, i1) == contents(v, i0),
{
    assert forall|slot: int| 0 <= slot < 269 implies #[trigger] crate::filesystem::layout::addr_wf(v, sb, o, j, i1, slot) by {
        assert(crate::filesystem::layout::addr_wf(v, sb, o, j, i0, slot));
    }
    assert forall|i: int| 0 <= i < nblocks(i1.size) implies #[trigger] block_of(v, i1, i) != 0 by {
        assert(block_of(v, i0, i) != 0);
    }
    assert forall|x: int| 0 <= x < i0.size implies contents(v, i1)[x] == contents(v, i0)[x] by {
        assert(block_of(v, i1, x / 1024) == block_of(v, i0, x / 1024));
    }
    assert(contents(v, i1) =~= contents(v, i0));
}

/// Writing back an inode changes no other file.
proof fn lemma_kept_set<D: BlockDevice>(vol0: Volume<D>, vol1: Volume<D>, j: int, ino: InodeView)
    requires
        layout_wf(vol0.sb(), vol0.blocks().len() as int),
        vol1.sb() == vol0.sb(),
        vol1.owner == vol0.owner,
        vol1.session() == vol0.session(),
        inode_set(vol0.blocks(), vol1.blocks(), vol0.sb(), j, ino),
    ensures
        file_kept(vol0, vol1, j),
{
    let sb = vol0.sb();
    let v0 = vol0.blocks();
    let v1 = vol1.blocks();
    assert forall|b: int| is_data(sb, b) && in_use(v0, sb, b) && #[trigger] vol0.owner@.contains_key(b) && vol0.owner@[b].0 != j implies v1[b]
        == v0[b] && in_use(v1, sb, b) by {
        assert(v1[sb.bmapstart + b / 8192] == v0[sb.bmapstart + b / 8192]);
    }
}


/// `n` references more than in `c0` to the inode `key` in slot `x`.
pub open spec fn refs_at<const N: usize>(c0: CacheRc<InodeKey, N>, c: CacheRc<InodeKey, N>, x: int, key: InodeKey, n: int) -> bool {
    &&& 0 <= x < N
    &&& c0.keys()[x] == Some(key) || (c0.keys()[x] is None && !c0.keys().contains(Some(key)))
    &&& c.counts@ == c0.counts@.update(x, (c0.counts@[x] + n) as usize)
    &&& c.keys() == c0.keys().update(
        x,
        if c0.counts@[x] + n == 0 {
            None
        } else {
            Some(key)
        },
    )
}

proof fn lemma_refs_at<const N: usize>(c0: CacheRc<InodeKey, N>, c1: CacheRc<InodeKey, N>, c2: CacheRc<InodeKey, N>, x: int, key: InodeKey, n: int)
    requires
        c0.wf(),
        refs_bounded(c0, 6),
        0 <= n <= 4,
        refs_at(c0, c1, x, key, n),
    ensures
        ref_added(c1, c2, x, key) ==> refs_at(c0, c2, x, key, n + 1),
        n > 0 && ref_removed(c1, c2, x) ==> refs_at(c0, c2, x, key, n - 1),
        n == 0 ==> same_refs(c0, c1),
        same_refs(c1, c2) ==> refs_at(c0, c2, x, key, n),
        n < 4 ==> refs_bounded(c1, 1),
{
    assert(c0.counts@[x] + 6 < usize::MAX);
    assert(c0.counts@[x] == 0 <==> c0.keys()[x] is None);
    if ref_added(c1, c2, x, key) {
        assert(c2.counts@ =~= c0.counts@.update(x, (c0.counts@[x] + n + 1) as usize));
        assert(c2.keys() =~= c0.keys().update(x, Some(key)));
    }
    if n > 0 && ref_removed(c1, c2, x) {
        assert(c2.counts@ =~= c0.counts@.update(x, (c0.counts@[x] + n - 1) as usize));
        assert(c2.keys() =~= c0.keys().update(x, if c0.counts@[x] + n - 1 == 0 { None } else { Some(key) }));
    }
    if n == 0 {
        assert(c1.counts@ =~= c0.counts@);
        assert(c1.keys() =~= c0.keys());
    }
    if n < 4 {
        assert forall|i: int| 0 <= i < N implies #[trigger] c1.counts@[i] + 1 < usize::MAX by {
            assert(c0.counts@[i] + 6 < usize::MAX);
        }
    }
}

/// `.` or `..`.
pub open spec fn is_dots(name: Seq<u8>) -> bool {
    name == seq![0x2eu8] || name == seq![0x2eu8, 0x2eu8]
}

fn name_is_dots(name: &Vec<u8>) -> (b: bool)
    ensures
        b == is_dots(name@),
{
    if name.len() == 1 && name[0] == 0x2e {
        proof {
            assert(name@ =~= seq![0x2eu8]);
        }
        true
    } else if name.len() == 2 && name[0] == 0x2e && name[1] == 0x2e {
        proof {
            assert(name@ =~= seq![0x2eu8, 0x2eu8]);
        }
        true
    } else {
        false
    }
}

/// All files are the same; blocks and inodes may be arranged differently.
pub open spec fn files_kept<D: BlockDevice>(old: FileSystem<D>, new: FileSystem<D>) -> bool {
    &&& new.sb() == old.sb()
    &&& new.device() == old.device()
    &&& new.volume.activity() == old.volume.activity()
    &&& forall|x: int| 0 <= x < old.sb().ninodes ==> #[trigger] new.file(x) == old.file(x)
}

impl<D: BlockDevice> FileSystem<D> {
    /// What removing a name does.
    pub open spec fn unlinked(&self, new: FileSystem<D>, p: int, t: int, k: int) -> bool {
        let is_dir = self.file(t).kind == InodeKind::Directory;
        &&& new.file(p) == (FileView {
            bytes: with_entry(self.file(p).bytes, k, 0, Seq::empty()),
            nlink: self.file(p).nlink - if is_dir { 1int } else { 0int },
            ..self.file(p)
        })
        &&& if self.file(t).nlink == 1 && !self.inodes.cache.keys().contains(Some(self.key(t))) {
            &&& new.file(t).kind == InodeKind::Unused
            &&& new.file(t).bytes == Seq::<u8>::empty()
            &&& new.file(t).nlink == 0
        } else {
            new.file(t) == (FileView { nlink: self.file(t).nlink - 1, ..self.file(t) })
        }
        &&& forall|x: int| 0 <= x < self.sb().ninodes && x != p && x != t ==> #[trigger] new.file(x) == self.file(x)
    }

    /// What has to hold so that a name other than `.` and `..` can be removed without harm: the
    /// name does not stand for the directory that holds it, and that directory counts its
    /// subdirectories.
    pub open spec fn unlink_ok(&self, p: int, name: Seq<u8>) -> bool {
        is_dots(name) || match dir_target(self.file(p).bytes, name) {
            Some(t) => t != p && (self.file(t).kind == InodeKind::Directory ==> self.file(p).nlink > 1),
            None => true,
        }
    }

    /// The log has room for the removal of a name: for the block that holds it, the two inodes and,
    /// where the file goes with the name, the parts of the free map for its blocks.
    #[verifier::opaque]
    pub open spec fn unlink_fits(&self, p: int, name: Seq<u8>) -> bool {
        is_dots(name) || match dir_target(self.file(p).bytes, name) {
            Some(t) => self.file(t).nlink == 1 ==> self.volume.fits_with(self.volume.map_of(t), 3),
            None => true,
        }
    }

    /// Directory `p` in slot `d` is held twice, once to refer to it and once to work on it.
    pub open spec fn opened(&self, fs0: FileSystem<D>, d: int, p: int) -> bool {
        &&& self.wf()
        &&& same_files(fs0, *self)
        &&& refs_at(fs0.inodes.cache, self.inodes.cache, d, fs0.key(p), 2)
        &&& 0 <= p <= usize::MAX
        &&& self.inodes.inodes@[d].is_initialized
        &&& fs0.file(p).nlink > 0 || fs0.inodes.cache.counts@[d] > 0
    }

    /// The directory in which the last element of a path stands, ready to be worked on.
    fn open_parent(&mut self, path: &Vec<u8>, cwd: &Option<usize>) -> (r: Option<(usize, Vec<u8>)>)
        requires
            old(self).wf(),
            old(self).links_ok(),
            refs_bounded(old(self).inodes.cache, 6),
            old(self).device() == ROOTDEV,
            old(self).origin_ok(slot_of(*cwd)),
            old(self).root_had(path@),
        ensures
            final(self).wf(),
            same_files(*old(self), *final(self)),
            match r {
                Some((d, name)) => {
                    &&& old(self).parent(path@, slot_of(*cwd)) is Some
                    &&& name@ == elements(path@).last()
                    &&& old(self).parent_reached(old(self).slots(), path@, slot_of(*cwd))
                    &&& final(self).opened(*old(self), d as int, old(self).parent(path@, slot_of(*cwd))->0)
                    &&& is_inode(old(self).sb(), old(self).parent(path@, slot_of(*cwd))->0)
                },
                None => {
                    &&& same_refs(old(self).inodes.cache, final(self).inodes.cache)
                    &&& old(self).parent(path@, slot_of(*cwd)) is None || !old(self).parent_reached(old(self).slots(), path@, slot_of(*cwd))
                },
            },
    {
        let ghost fs0 = *self;
        let ghost c0 = self.inodes.cache;
        let (dir_ref, name) = match self.search_parent_inode(path, cwd) {
            Some(found) => found,
            None => {
                return None;
            },
        };
        let ghost p = fs0.parent(path@, slot_of(*cwd))->0;
        let d = dir_ref.cache_index;
        let ghost c1 = self.inodes.cache;
        proof {
            lemma_bounded(c0, c1, d as int, fs0.key(p));
            assert(self.file(p) == fs0.file(p));
            assert(self.held(d as int, p));
            assert(c0.counts@[d as int] + 6 < usize::MAX);
            assert(refs_at(c0, c1, d as int, fs0.key(p), 1));
        }
        let _guard = self.lock(&dir_ref);
        proof {
            lemma_refs_at(c0, c1, self.inodes.cache, d as int, fs0.key(p), 1);
            assert(self.working(d as int, p));
        }
        Some((d, name))
    }

    /// Gives back an inode that is held twice and stays in use.
    fn close(&mut self, i: usize, Ghost(j): Ghost<int>)
        requires
            old(self).wf(),
            old(self).held(i as int, j),
            old(self).inodes.cache.counts@[i as int] >= 2,
            old(self).file(j).nlink > 0 || old(self).inodes.cache.counts@[i as int] > 2,
        ensures
            final(self).wf(),
            same_files(*old(self), *final(self)),
            final(self).inodes.inodes == old(self).inodes.inodes,
            final(self).inodes.cache.counts@ == old(self).inodes.cache.counts@.update(
                i as int,
                (old(self).inodes.cache.counts@[i as int] - 2) as usize,
            ),
            final(self).inodes.cache.keys() == old(self).inodes.cache.keys().update(
                i as int,
                if old(self).inodes.cache.counts@[i as int] == 2 {
                    None
                } else {
                    old(self).inodes.cache.keys()[i as int]
                },
            ),
    {
        let ghost fs0 = *self;
        self.put(i);
        proof {
            self.lemma_not_freed(fs0, i as int, j);
        }
        let ghost c1 = self.inodes.cache;
        self.put(i);
        proof {
            assert(self.inodes.cache.counts@ =~= fs0.inodes.cache.counts@.update(i as int, (fs0.inodes.cache.counts@[i as int] - 2) as usize));
            assert(self.inodes.cache.keys() =~= fs0.inodes.cache.keys().update(
                i as int,
                if fs0.inodes.cache.counts@[i as int] == 2 { None } else { fs0.inodes.cache.keys()[i as int] },
            ));
        }
    }

    /// Closes a directory that `open_parent` opened, with nothing else open.
    fn close_parent(&mut self, d: usize, Ghost(fs0): Ghost<FileSystem<D>>, Ghost(p): Ghost<int>)
        requires
            fs0.wf(),
            refs_bounded(fs0.inodes.cache, 6),
            old(self).opened(fs0, d as int, p),
        ensures
            final(self).wf(),
            same_files(fs0, *final(self)),
            same_refs(fs0.inodes.cache, final(self).inodes.cache),
    {
        let ghost c0 = fs0.inodes.cache;
        proof {
            assert(c0.counts@[d as int] + 6 < usize::MAX);
            assert(self.file(p) == fs0.file(p));
            assert(self.held(d as int, p));
        }
        self.close(d, Ghost(p));
        proof {
            assert(c0.counts@[d as int] == 0 <==> c0.keys()[d as int] is None);
            assert(self.inodes.cache.counts@ =~= c0.counts@);
            assert(self.inodes.cache.keys() =~= c0.keys());
        }
    }

    /// File `t` in slot `i` is held twice besides directory `p` in slot `d`.
    pub open spec fn both_opened(&self, fs0: FileSystem<D>, d: int, p: int, i: int, t: int) -> bool {
        let c0 = fs0.inodes.cache;
        &&& d != i
        &&& 0 <= d < NINODE
        &&& 0 <= i < NINODE
        &&& 0 <= t <= usize::MAX
        &&& 0 <= p <= usize::MAX
        &&& c0.keys()[d] == Some(fs0.key(p)) || c0.keys()[d] is None
        &&& c0.keys()[i] == Some(fs0.key(t)) || c0.keys()[i] is None
        &&& c0.counts@[i] == 0 <==> !c0.keys().contains(Some(fs0.key(t)))
        &&& self.inodes.cache.counts@ == c0.counts@.update(d, (c0.counts@[d] + 2) as usize).update(i, (c0.counts@[i] + 2) as usize)
        &&& self.inodes.cache.keys() == c0.keys().update(d, Some(fs0.key(p))).update(i, Some(fs0.key(t)))
        &&& self.inodes.inodes@[d].is_initialized
        &&& self.inodes.inodes@[i].is_initialized
    }

    /// After closing both, the references are as before.
    proof fn lemma_both_closed(fs0: FileSystem<D>, fs4: FileSystem<D>, c8: CacheRc<InodeKey, NINODE>, d: int, p: int, i: int, t: int)
        requires
            fs0.wf(),
            refs_bounded(fs0.inodes.cache, 6),
            fs4.both_opened(fs0, d, p, i, t),
            ({
                let c4 = fs4.inodes.cache;
                &&& c8.counts@ == c4.counts@.update(d, (c4.counts@[d] - 2) as usize).update(i, (c4.counts@[i] - 2) as usize)
                &&& c8.keys() == c4.keys().update(d, if c4.counts@[d] == 2 { None } else { c4.keys()[d] }).update(
                    i,
                    if c4.counts@[i] == 2 { None } else { c4.keys()[i] },
                )
            }),
        ensures
            same_refs(fs0.inodes.cache, c8),
    {
        let c0 = fs0.inodes.cache;
        assert(c0.counts@[d] + 6 < usize::MAX);
        assert(c0.counts@[i] + 6 < usize::MAX);
        assert(c0.counts@[d] == 0 <==> c0.keys()[d] is None);
        assert(c0.counts@[i] == 0 <==> c0.keys()[i] is None);
        assert(c8.counts@ =~= c0.counts@);
        assert(c8.keys() =~= c0.keys());
    }

    /// Opens the inode that directory `p`, opened in slot `d`, has for `name`. The second
    /// component is the offset of the entry.
    #[verifier::rlimit(40)]
    fn open_entry(&mut self, d: usize, Ghost(fs0): Ghost<FileSystem<D>>, Ghost(p): Ghost<int>, name: &Vec<u8>) -> (r: Option<(usize, usize)>)
        requires
            fs0.wf(),
            fs0.links_ok(),
            fs0.device() == ROOTDEV,
            refs_bounded(fs0.inodes.cache, 6),
            old(self).opened(fs0, d as int, p),
            is_inode(fs0.sb(), p),
            fs0.file(p).kind == InodeKind::Directory,
            dir_target(fs0.file(p).bytes, name@) != Some(p),
        ensures
            final(self).wf(),
            same_files(fs0, *final(self)),
            match r {
                Some((i, offset)) => {
                    let c = fs0.file(p).bytes;
                    let t = entry_inum(c, offset as int / 16);
                    &&& offset % 16 == 0
                    &&& is_entry_of(c, name@, offset as int / 16)
                    &&& fs0.target_ok(t)
                    &&& t != p
                    &&& fs0.entry_had(fs0.slots(), p, name@)
                    &&& final(self).both_opened(fs0, d as int, p, i as int, t)
                },
                None => {
                    &&& final(self).opened(fs0, d as int, p)
                    &&& dir_target(fs0.file(p).bytes, name@) is None || !fs0.entry_had(fs0.slots(), p, name@)
                },
            },
    {
        let ghost x = d as int;
        let ghost c0 = fs0.inodes.cache;
        let ghost c2 = self.inodes.cache;
        let ghost fs2 = *self;
        let ghost c = fs0.file(p).bytes;
        proof {
            assert(c0.counts@[x] + 6 < usize::MAX);
            assert(self.held(x, p));
            self.lemma_working(x, p);
            assert(self.file(p) == fs0.file(p));
            lemma_dir_target(c, name@);
            lemma_entry_had(fs0, c2.keys(), x, p, name@);
        }
        let found = self.inodes.inodes[d].lookup(&mut self.volume, &self.inodes.cache, name);
        proof {
            lemma_same_wf(fs2, *self);
        }
        match found {
            Some((inum, offset)) => {
                let ghost k = offset as int / 16;
                let ghost t = inum as int;
                proof {
                    assert(is_entry_of(c, name@, k));
                    fs0.lemma_entry(p, k);
                    lemma_refs_at(c0, c2, c2, x, fs0.key(p), 2);
                }
                let ip_ref = match self.get(ROOTDEV, inum) {
                    Some(ip_ref) => ip_ref,
                    None => {
                        return None;
                    },
                };
                let i = ip_ref.cache_index;
                let ghost c3 = self.inodes.cache;
                proof {
                    lemma_bounded(c2, c3, i as int, fs0.key(t));
                    assert(self.file(t) == fs0.file(t));
                    assert(self.held(i as int, t));
                }
                let _ip = self.lock(&ip_ref);
                proof {
                    let c4 = self.inodes.cache;
                    let y = i as int;
                    assert(self.working(y, t));
                    assert(c0.counts@[y] + 6 < usize::MAX);
                    assert(c2.keys()[x] == Some(fs0.key(p)));
                    assert(x != y);
                    assert(c0.counts@[y] == 0 <==> c0.keys()[y] is None);
                    assert(c4.counts@ =~= c0.counts@.update(x, (c0.counts@[x] + 2) as usize).update(y, (c0.counts@[y] + 2) as usize));
                    assert(c4.keys() =~= c0.keys().update(x, Some(fs0.key(p))).update(y, Some(fs0.key(t))));
                    if c0.counts@[y] == 0 {
                        if c0.keys().contains(Some(fs0.key(t))) {
                            let m = choose|m: int| 0 <= m < c0.keys().len() && c0.keys()[m] == Some(fs0.key(t));
                            assert(c2.keys()[m] == Some(fs0.key(t)));
                            assert(c2.keys().contains(Some(fs0.key(t))));
                        }
                    } else {
                        assert(c0.keys()[y] == Some(fs0.key(t)));
                    }
                    assert(self.held(x, p));
                    assert(self.inodes.inodes@[x].is_initialized);
                }
                Some((i, offset))
            },
            None => None,
        }
    }
}


impl<D: BlockDevice> FileSystem<D> {
    /// Takes the entry at `offset` out of directory `p` and counts one name less for `t`.
    #[verifier::rlimit(60)]
    fn take_name(&mut self, d: usize, Ghost(p): Ghost<int>, i: usize, Ghost(t): Ghost<int>, offset: usize)
        requires
            old(self).wf(),
            old(self).held(d as int, p),
            old(self).held(i as int, t),
            d != i,
            p != t,
            is_inode(old(self).sb(), p),
            is_inode(old(self).sb(), t),
            old(self).inodes.inodes@[d as int].is_initialized,
            old(self).inodes.inodes@[i as int].is_initialized,
            old(self).file(p).kind == InodeKind::Directory,
            old(self).file(t).nlink > 0,
            old(self).file(t).kind == InodeKind::Directory ==> old(self).file(p).nlink > 0,
            offset % 16 == 0,
            offset + 16 <= old(self).file(p).bytes.len(),
            old(self).volume.room(3),
        ensures
            final(self).wf(),
            final(self).sb() == old(self).sb(),
            final(self).device() == old(self).device(),
            final(self).volume.session() == old(self).volume.session(),
            same_refs(old(self).inodes.cache, final(self).inodes.cache),
            final(self).volume.used() <= old(self).volume.used() + 3,
            old(self).volume.logged().subset_of(final(self).volume.logged()),
            final(self).freeing(i as int) == old(self).freeing(i as int),
            final(self).volume.inode_due(t) == 0,
            final(self).inodes.inodes@[d as int].is_initialized,
            final(self).inodes.inodes@[i as int].is_initialized,
            final(self).file(p) == (FileView {
                bytes: with_entry(old(self).file(p).bytes, offset as int / 16, 0, Seq::empty()),
                nlink: old(self).file(p).nlink - if old(self).file(t).kind == InodeKind::Directory { 1int } else { 0int },
                ..old(self).file(p)
            }),
            final(self).file(t) == (FileView { nlink: old(self).file(t).nlink - 1, ..old(self).file(t) }),
            forall|x: int| 0 <= x < old(self).sb().ninodes && x != p && x != t ==> #[trigger] final(self).file(x) == old(self).file(x),
    {
        let ghost fs5 = *self;
        proof {
            self.lemma_working(i as int, t);
        }
        let is_dir = self.inodes.inodes[i].is_directory();
        self.clear_entry(d, Ghost(p), offset);
        let ghost fs6 = *self;
        if is_dir {
            proof {
                self.lemma_working(d as int, p);
            }
            let major = self.inodes.inodes[d].inode.major;
            let minor = self.inodes.inodes[d].inode.minor;
            let nlink = self.inodes.inodes[d].inode.nlink;
            self.set_attributes(d, Ghost(p), major, minor, nlink - 1);
        }
        let ghost fs7 = *self;
        proof {
            lemma_freeing_kept(fs5, fs6, i as int, t, p);
            if is_dir {
                lemma_freeing_kept(fs6, fs7, i as int, t, p);
            }
            assert(fs7.file(t) == fs6.file(t));
            assert(fs6.file(t) == fs5.file(t));
            assert(self.inodes.inodes@[i as int] == fs5.inodes.inodes@[i as int]);
            assert(self.held(i as int, t));
            self.lemma_working(i as int, t);
        }
        let major = self.inodes.inodes[i].inode.major;
        let minor = self.inodes.inodes[i].inode.minor;
        let nlink = self.inodes.inodes[i].inode.nlink;
        self.set_attributes(i, Ghost(t), major, minor, nlink - 1);
        proof {
            assert(self.file(p) == fs7.file(p));
            assert(self.inodes.inodes@[d as int] == fs7.inodes.inodes@[d as int]);
            assert forall|x: int| 0 <= x < fs5.sb().ninodes && x != p && x != t implies #[trigger] self.file(x) == fs5.file(x) by {
                assert(fs7.file(x) == fs6.file(x));
                assert(fs6.file(x) == fs5.file(x));
            }
        }
    }

    /// Removes a name, within a transaction.
    #[verifier::rlimit(80)]
    fn unlink_logged(&mut self, path: &Vec<u8>, cwd: &Option<usize>) -> (r: Result<(), ()>)
        requires
            old(self).wf(),
            old(self).links_ok(),
            refs_bounded(old(self).inodes.cache, 6),
            old(self).device() == ROOTDEV,
            old(self).origin_ok(slot_of(*cwd)),
            old(self).root_had(path@),
            old(self).volume.room(3),
            old(self).parent(path@, slot_of(*cwd)) matches Some(p) ==> old(self).unlink_ok(p, elements(path@).last()) && old(self).unlink_fits(
                p,
                elements(path@).last(),
            ),
        ensures
            final(self).wf(),
            final(self).sb() == old(self).sb(),
            final(self).device() == old(self).device(),
            final(self).volume.session() == old(self).volume.session(),
            same_refs(old(self).inodes.cache, final(self).inodes.cache),
            r is Ok ==> old(self).unlink_done(*final(self), path@, slot_of(*cwd)),
            r is Err ==> files_kept(*old(self), *final(self)) && old(self).unlink_refused(path@, slot_of(*cwd)),
    {
        let ghost fs0 = *self;
        let ghost pp = fs0.parent(path@, slot_of(*cwd));
        let ghost p = pp->0;
        let (d, name) = match self.open_parent(path, cwd) {
            Some(found) => found,
            None => {
                return Err(());
            },
        };
        let ghost c = fs0.file(p).bytes;
        if name_is_dots(&name) {
            self.close_parent(d, Ghost(fs0), Ghost(p));
            return Err(());
        }
        let (i, offset) = match self.open_entry(d, Ghost(fs0), Ghost(p), &name) {
            Some(found) => found,
            None => {
                self.close_parent(d, Ghost(fs0), Ghost(p));
                return Err(());
            },
        };
        let ghost k = offset as int / 16;
        let ghost t = entry_inum(c, k);
        let ghost fs4 = *self;
        proof {
            assert(fs0.inodes.cache.counts@[d as int] + 6 < usize::MAX);
            assert(fs0.inodes.cache.counts@[i as int] + 6 < usize::MAX);
            assert(self.held(d as int, p));
            assert(self.held(i as int, t));
            assert(self.file(p) == fs0.file(p));
            assert(self.file(t) == fs0.file(t));
            self.lemma_working(i as int, t);
            lemma_dir_target(c, name@);
        }
        let empty = self.inodes.inodes[i].is_empty(&mut self.volume);
        proof {
            lemma_same_wf(fs4, *self);
        }
        let ghost fs5 = *self;
        if let Some(false) = empty {
            proof {
                assert(self.file(p) == fs0.file(p));
                assert(self.file(t) == fs0.file(t));
            }
            self.close(i, Ghost(t));
            proof {
                assert(self.file(p) == fs0.file(p));
                assert(self.held(d as int, p));
            }
            self.close(d, Ghost(p));
            proof {
                assert(self.inodes.cache.counts@ =~= fs4.inodes.cache.counts@.update(d as int, (fs4.inodes.cache.counts@[d as int] - 2) as usize).update(
                    i as int,
                    (fs4.inodes.cache.counts@[i as int] - 2) as usize,
                ));
                assert(self.inodes.cache.keys() =~= fs4.inodes.cache.keys().update(
                    d as int,
                    if fs4.inodes.cache.counts@[d as int] == 2 { None } else { fs4.inodes.cache.keys()[d as int] },
                ).update(i as int, if fs4.inodes.cache.counts@[i as int] == 2 { None } else { fs4.inodes.cache.keys()[i as int] }));
                Self::lemma_both_closed(fs0, fs4, self.inodes.cache, d as int, p, i as int, t);
            }
            return Err(());
        }
        proof {
            assert(self.file(p) == fs0.file(p));
            assert(self.file(t) == fs0.file(t));
            assert(self.inodes.inodes@[d as int] == fs4.inodes.inodes@[d as int]);
        }
        proof {
            lemma_freeing(fs5, i as int, t);
        }
        self.take_name(d, Ghost(p), i, Ghost(t), offset);
        let ghost fs6 = *self;
        self.put(i);
        let ghost fs7 = *self;
        proof {
            assert(self.file(t) == fs6.file(t));
            assert(self.held(i as int, t));
            self.lemma_working(i as int, t);
            if frees(self.inodes, i as int) {
                let more = fs5.freeing(i as int);
                reveal(FileSystem::unlink_fits);
                assert(fs7.freeing(i as int) == more);
                fs7.volume.lemma_used_more(fs5.volume, more);
                fs5.volume.lemma_used_less(more, fs5.volume.map_of(t));
                assert(fs5.volume.map_of(t) == fs0.volume.map_of(t));
            }
        }
        self.release(i, Ghost(t));
        let ghost fs8 = *self;
        proof {
            assert(fs8.file(p) == fs7.file(p));
            assert(fs7.file(p) == fs6.file(p));
            assert(self.held(d as int, p));
        }
        self.close(d, Ghost(p));
        proof {
            assert(self.inodes.cache.counts@ =~= fs4.inodes.cache.counts@.update(d as int, (fs4.inodes.cache.counts@[d as int] - 2) as usize).update(
                i as int,
                (fs4.inodes.cache.counts@[i as int] - 2) as usize,
            ));
            assert(self.inodes.cache.keys() =~= fs4.inodes.cache.keys().update(
                d as int,
                if fs4.inodes.cache.counts@[d as int] == 2 { None } else { fs4.inodes.cache.keys()[d as int] },
            ).update(i as int, if fs4.inodes.cache.counts@[i as int] == 2 { None } else { fs4.inodes.cache.keys()[i as int] }));
            Self::lemma_both_closed(fs0, fs4, self.inodes.cache, d as int, p, i as int, t);
            assert forall|z: int| 0 <= z < fs0.sb().ninodes implies #[trigger] self.file(z) == fs8.file(z) by {
            }
            assert forall|z: int| 0 <= z < fs0.sb().ninodes && z != p && z != t implies #[trigger] self.file(z) == fs0.file(z) by {
                assert(self.file(z) == fs8.file(z));
                assert(fs8.file(z) == fs7.file(z));
                assert(fs7.file(z) == fs6.file(z));
                assert(fs6.file(z) == fs5.file(z));
                assert(fs5.file(z) == fs4.file(z));
            }
            assert(self.file(p) == fs8.file(p));
            assert(self.file(t) == fs8.file(t));
            assert(fs0.unlinked(*self, p, t, k));
            assert(is_entry_of(c, name@, k));
        }
        Ok(())
    }

    /// A name was removed.
    pub open spec fn unlink_done(&self, new: FileSystem<D>, path: Seq<u8>, cwd: Option<int>) -> bool {
        let p = self.parent(path, cwd);
        let name = elements(path).last();
        let c = self.file(p->0).bytes;
        &&& p is Some
        &&& !is_dots(name)
        &&& exists|k: int| {
            &&& #[trigger] is_entry_of(c, name, k)
            &&& self.file(entry_inum(c, k)).kind == InodeKind::Directory ==> only_dots(self.file(entry_inum(c, k)).bytes)
            &&& self.unlinked(new, p->0, entry_inum(c, k), k)
        }
    }

    /// A name that cannot be removed: there is none, it is `.` or `..`, it stands for a
    /// directory that is not empty, or memory has no room for the inodes on the way.
    pub open spec fn unlink_refused(&self, path: Seq<u8>, cwd: Option<int>) -> bool {
        let p = self.parent(path, cwd);
        let name = elements(path).last();
        let t = dir_target(self.file(p->0).bytes, name);
        ||| p is None
        ||| is_dots(name)
        ||| t is None
        ||| self.file(t->0).kind == InodeKind::Directory && !only_dots(self.file(t->0).bytes)
        ||| !self.parent_reached(self.slots(), path, cwd)
        ||| !self.entry_had(self.slots(), p->0, name)
    }
}


impl<D: BlockDevice> FileSystem<D> {
    /// Two states agree on the kinds and contents of all files.
    pub open spec fn same_tree(&self, other: FileSystem<D>) -> bool {
        &&& other.sb() == self.sb()
        &&& other.device() == self.device()
        &&& forall|j: int| 0 <= j < self.sb().ninodes ==> (#[trigger] other.file(j)).kind == self.file(j).kind && other.file(j).bytes
            == self.file(j).bytes
    }

    /// Paths lead to the same places.
    proof fn lemma_walk_same(&self, other: FileSystem<D>, j: int, names: Seq<Seq<u8>>)
        requires
            self.links_ok(),
            self.same_tree(other),
            is_inode(self.sb(), j),
        ensures
            other.walk(j, names) == self.walk(j, names),
            forall|slots: Slots| #[trigger] other.walk_had(slots, j, names) == self.walk_had(slots, j, names),
            self.walk(j, names) is Some ==> is_inode(self.sb(), self.walk(j, names)->0),
            self.walk(j, names) is Some && self.walk(j, names)->0 != j ==> self.target_ok(self.walk(j, names)->0),
            self.walk(j, names) is Some && names.len() > 0 ==> self.target_ok(self.walk(j, names)->0),
        decreases names.len(),
    {
        if names.len() > 0 && self.file(j).kind == InodeKind::Directory {
            assert(other.file(j).kind == self.file(j).kind);
            let c = self.file(j).bytes;
            lemma_dir_target(c, names[0]);
            if dir_target(c, names[0]) is Some {
                let t = dir_target(c, names[0])->0;
                let k = choose|k: int| #[trigger] is_entry_of(c, names[0], k);
                assert(is_entry_of(c, names[0], k));
                self.lemma_entry(j, k);
                self.lemma_walk_same(other, t, names.skip(1));
            }
        } else {
            assert(other.file(j).kind == self.file(j).kind);
        }
        assert forall|slots: Slots| #[trigger] other.walk_had(slots, j, names) == self.walk_had(slots, j, names) by {
            if names.len() > 0 && self.file(j).kind == InodeKind::Directory && dir_target(self.file(j).bytes, names[0]) is Some {
                let t = dir_target(self.file(j).bytes, names[0])->0;
                assert(other.walk_had(slots, t, names.skip(1)) == self.walk_had(slots, t, names.skip(1)));
            }
        }
    }

    /// What a new name for an old file does.
    pub open spec fn linked(&self, new: FileSystem<D>, p: int, t: int, k: int, name: Seq<u8>) -> bool {
        &&& new.file(p) == (FileView { bytes: with_entry(self.file(p).bytes, k, t, name), ..self.file(p) })
        &&& new.file(t) == (FileView { nlink: self.file(t).nlink + 1, ..self.file(t) })
        &&& forall|x: int| 0 <= x < self.sb().ninodes && x != p && x != t ==> #[trigger] new.file(x) == self.file(x)
    }

    /// The file that a path names.
    pub open spec fn target(&self, path: Seq<u8>, cwd: Option<int>) -> Option<int> {
        match self.origin(path, cwd) {
            Some(start) => self.walk(start, elements(path)),
            None => None,
        }
    }

    /// A new name was made.
    pub open spec fn link_done(&self, fin: FileSystem<D>, new: Seq<u8>, old_path: Seq<u8>, cwd: Option<int>) -> bool {
        let t = self.target(old_path, cwd);
        let p = self.parent(new, cwd);
        let name = elements(new).last();
        &&& t is Some
        &&& p is Some
        &&& self.file(t->0).kind != InodeKind::Directory
        &&& self.name_free(self.slots().holding(self.key(t->0)), p->0, name)
        &&& exists|k: int| #[trigger] is_insert_place(self.file(p->0).bytes, k) && self.linked(fin, p->0, t->0, k, name)
    }

    /// A new name cannot be made: there is no such file or directory, the file is a
    /// directory, the name is taken, the directory cannot grow, or memory has no room for the
    /// inodes on the way. The file is held while the way to the new name is gone.
    pub open spec fn link_refused(&self, new: Seq<u8>, old_path: Seq<u8>, cwd: Option<int>) -> bool {
        let t = self.target(old_path, cwd);
        let p = self.parent(new, cwd);
        let name = elements(new).last();
        let slots = self.slots().holding(self.key(t->0));
        ||| t is None
        ||| !self.reached(self.slots(), old_path, cwd)
        ||| self.file(t->0).kind == InodeKind::Directory
        ||| p is None
        ||| !self.parent_reached(slots, new, cwd)
        ||| !self.name_free(slots, p->0, name)
        ||| no_room(self.file(p->0).bytes, self.free())
    }

    /// Changes the number of names of a file that is referred to.
    #[verifier::rlimit(60)]
    fn count_link(&mut self, x: &InodeReference, Ghost(j): Ghost<int>, more: bool)
        requires
            old(self).wf(),
            old(self).held(x.cache_index as int, j),
            refs_bounded(old(self).inodes.cache, 0),
            old(self).volume.room(old(self).volume.inode_due(j)),
            old(self).file(j).kind != InodeKind::Unused,
            more ==> old(self).file(j).nlink < 65535,
            !more ==> old(self).file(j).nlink > 0,
        ensures
            final(self).wf(),
            final(self).sb() == old(self).sb(),
            final(self).device() == old(self).device(),
            final(self).volume.session() == old(self).volume.session(),
            same_refs(old(self).inodes.cache, final(self).inodes.cache),
            final(self).held(x.cache_index as int, j),
            final(self).volume.used() <= old(self).volume.used() + old(self).volume.inode_due(j),
            old(self).volume.logged().subset_of(final(self).volume.logged()),
            final(self).volume.inode_due(j) == 0,
            final(self).file(j) == (FileView { nlink: old(self).file(j).nlink + if more { 1int } else { -1int }, ..old(self).file(j) }),
            bits_kept(*old(self), *final(self)),
            forall|z: int| 0 <= z < old(self).sb().ninodes && z != j ==> #[trigger] final(self).file(z) == old(self).file(z),
            forall|k: int| 0 <= k < NINODE && k != x.cache_index ==> #[trigger] final(self).inodes.inodes@[k]
                == old(self).inodes.inodes@[k],
    {
        let ghost fs0 = *self;
        let i = x.cache_index;
        let ghost c0 = self.inodes.cache;
        proof {
            assert(fs0.slot_ok(i as int));
            assert(c0.counts@[i as int] + 0 < usize::MAX);
        }
        let _guard = self.lock(x);
        let ghost fs1 = *self;
        let ghost c1 = self.inodes.cache;
        proof {
            assert(self.working(i as int, j));
            assert(fs1.file(j) == fs0.file(j));
            self.lemma_working(i as int, j);
        }
        let major = self.inodes.inodes[i].inode.major;
        let minor = self.inodes.inodes[i].inode.minor;
        let nlink = self.inodes.inodes[i].inode.nlink;
        let nlink = if more { nlink + 1 } else { nlink - 1 };
        self.set_attributes(i, Ghost(j), major, minor, nlink);
        let ghost fs2 = *self;
        proof {
            assert(self.inodes.cache.counts@[i as int] >= 2);
        }
        self.put(i);
        proof {
            lemma_ref_back(c0, c1, self.inodes.cache, i as int, fs0.key(j));
            assert forall|z: int| 0 <= z < fs0.sb().ninodes && z != j implies #[trigger] self.file(z) == fs0.file(z) by {
                assert(fs2.file(z) == fs1.file(z));
                assert(fs1.file(z) == fs0.file(z));
            }
            assert(self.file(j) == fs2.file(j));
        }
    }
}


impl<D: BlockDevice> FileSystem<D> {
    /// Closes directory `p`, which was opened in slot `d` when the references were `c0`.
    fn close_back(&mut self, d: usize, Ghost(c0): Ghost<CacheRc<InodeKey, NINODE>>, Ghost(p): Ghost<int>)
        requires
            c0.wf(),
            refs_bounded(c0, 6),
            old(self).wf(),
            0 <= p <= usize::MAX,
            refs_at(c0, old(self).inodes.cache, d as int, old(self).key(p), 2),
            old(self).file(p).nlink > 0 || c0.counts@[d as int] > 0,
        ensures
            final(self).wf(),
            same_files(*old(self), *final(self)),
            same_refs(c0, final(self).inodes.cache),
            final(self).inodes.inodes == old(self).inodes.inodes,
    {
        proof {
            assert(c0.counts@[d as int] + 6 < usize::MAX);
            assert(self.held(d as int, p));
        }
        self.close(d, Ghost(p));
        proof {
            assert(c0.counts@[d as int] == 0 <==> c0.keys()[d as int] is None);
            assert(self.inodes.cache.counts@ =~= c0.counts@);
            assert(self.inodes.cache.keys() =~= c0.keys());
        }
    }

    /// After one more name for file `t`, directories are still in order.
    proof fn lemma_more_links(&self, other: FileSystem<D>, t: int)
        requires
            other.device() == self.device(),
            self.links_ok(),
            other.sb() == self.sb(),
            other.file(t) == (FileView { nlink: self.file(t).nlink + 1, ..self.file(t) }),
            forall|z: int| 0 <= z < self.sb().ninodes && z != t ==> #[trigger] other.file(z) == self.file(z),
        ensures
            other.links_ok(),
            self.same_tree(other),
            forall|z: int| #[trigger] self.target_ok(z) ==> other.target_ok(z),
    {
        assert forall|z: int| 0 <= z < self.sb().ninodes implies (#[trigger] other.file(z)).kind == self.file(z).kind && other.file(z).bytes
            == self.file(z).bytes by {
        }
        assert forall|z: int| #[trigger] self.target_ok(z) implies other.target_ok(z) by {
            assert(other.file(z).kind == self.file(z).kind);
        }
        assert forall|d: int, k: int|
            is_inode(other.sb(), d) && other.file(d).kind == InodeKind::Directory && 0 <= k < other.file(d).bytes.len() as int
                / 16 implies #[trigger] other.entry_ok(d, k) by {
            assert(other.file(d).bytes == self.file(d).bytes);
            self.lemma_entry(d, k);
        }
        reveal(FileSystem::links_ok);
    }

    /// An entry for inode `t` was made under `path`.
    pub open spec fn entry_made(&self, fin: FileSystem<D>, path: Seq<u8>, cwd: Option<int>, t: int) -> bool {
        let p = self.parent(path, cwd);
        let name = elements(path).last();
        let c = self.file(p->0).bytes;
        &&& p is Some
        &&& self.name_free(self.slots(), p->0, name)
        &&& exists|k: int| #[trigger] is_insert_place(c, k) && fin.file(p->0) == (FileView {
            bytes: with_entry(c, k, t, name),
            ..self.file(p->0)
        })
        &&& forall|z: int| 0 <= z < self.sb().ninodes && z != p->0 ==> #[trigger] fin.file(z) == self.file(z)
    }

    /// No entry can be made under `path`.
    pub open spec fn entry_refused(&self, path: Seq<u8>, cwd: Option<int>) -> bool {
        let p = self.parent(path, cwd);
        let name = elements(path).last();
        let c = self.file(p->0).bytes;
        ||| p is None
        ||| !self.parent_reached(self.slots(), path, cwd)
        ||| !self.name_free(self.slots(), p->0, name)
        ||| no_room(c, self.free())
    }

    /// Makes an entry for inode `inum` under `path`.
    #[verifier::rlimit(80)]
    fn make_entry(&mut self, inum: usize, path: &Vec<u8>, cwd: &Option<usize>) -> (r: Result<(), ()>)
        requires
            old(self).wf(),
            old(self).links_ok(),
            refs_bounded(old(self).inodes.cache, 6),
            old(self).device() == ROOTDEV,
            old(self).origin_ok(slot_of(*cwd)),
            old(self).root_had(path@),
            inum < 65536,
            old(self).volume.room(5),
        ensures
            final(self).wf(),
            final(self).sb() == old(self).sb(),
            final(self).device() == old(self).device(),
            final(self).volume.session() == old(self).volume.session(),
            same_refs(old(self).inodes.cache, final(self).inodes.cache),
            final(self).volume.used() <= old(self).volume.used() + 5,
            old(self).volume.logged().subset_of(final(self).volume.logged()),
            r is Ok ==> old(self).entry_made(*final(self), path@, slot_of(*cwd), inum as int),
            r is Err ==> files_kept(*old(self), *final(self)) && old(self).entry_refused(path@, slot_of(*cwd)),
    {
        let ghost fs3 = *self;
        let ghost c3 = self.inodes.cache;
        let (d, name) = match self.open_parent(path, cwd) {
            Some(found) => found,
            None => {
                return Err(());
            },
        };
        let ghost p = fs3.parent(path@, slot_of(*cwd))->0;
        let ghost fs4 = *self;
        let ghost c4 = self.inodes.cache;
        let ghost c = fs3.file(p).bytes;
        proof {
            assert(c3.counts@[d as int] + 6 < usize::MAX);
            assert(self.held(d as int, p));
            assert(self.file(p) == fs3.file(p));
            lemma_refs_at(c3, c4, c4, d as int, fs3.key(p), 2);
            lemma_entry_had(fs3, c4.keys(), d as int, p, name@);
            lemma_entry_due(c);
        }
        let linked = self.link_in(d, Ghost(p), &name, inum);
        let ghost fs5 = *self;
        proof {
            lemma_refs_at(c3, c4, self.inodes.cache, d as int, fs3.key(p), 2);
        }
        self.close_back(d, Ghost(c3), Ghost(p));
        proof {
            let fs6 = *self;
            assert forall|z: int| 0 <= z < fs3.sb().ninodes && z != p implies #[trigger] self.file(z) == fs3.file(z) by {
                assert(fs6.file(z) == fs5.file(z));
                assert(fs5.file(z) == fs4.file(z));
                assert(fs4.file(z) == fs3.file(z));
            }
            assert(fs6.file(p) == fs5.file(p));
            if linked is Ok {
                let k = choose|k: int| #[trigger]
                    is_insert_place(c, k) && fs5.file(p) == (FileView { bytes: with_entry(c, k, inum as int, name@), ..fs4.file(p) });
                assert(is_insert_place(c, k));
                assert(fs3.entry_made(fs6, path@, slot_of(*cwd), inum as int));
            } else {
                assert(files_kept(fs3, fs6));
                assert(fs3.entry_refused(path@, slot_of(*cwd)));
            }
        }
        linked
    }

    /// Makes a second name for a file, within a transaction.
    #[verifier::rlimit(80)]
    fn link_logged(&mut self, new: &Vec<u8>, old_path: &Vec<u8>, cwd: &Option<usize>) -> (r: Result<(), ()>)
        requires
            old(self).wf(),
            old(self).links_ok(),
            refs_bounded(old(self).inodes.cache, 8),
            old(self).device() == ROOTDEV,
            old(self).origin_ok(slot_of(*cwd)),
            old(self).root_had(old_path@),
            old(self).volume.room(6),
            old(self).target(old_path@, slot_of(*cwd)) matches Some(t) ==> {
                &&& old(self).file(t).nlink < 65535
                &&& is_absolute(new@) ==> old(self).slots().holding(old(self).key(t)).can_hold(old(self).key(ROOTINO as int))
            },
        ensures
            final(self).wf(),
            final(self).sb() == old(self).sb(),
            final(self).device() == old(self).device(),
            final(self).volume.session() == old(self).volume.session(),
            same_refs(old(self).inodes.cache, final(self).inodes.cache),
            final(self).volume.used() <= old(self).volume.used() + 6,
            r is Ok ==> old(self).link_done(*final(self), new@, old_path@, slot_of(*cwd)),
            r is Err ==> files_kept(*old(self), *final(self)) && old(self).link_refused(new@, old_path@, slot_of(*cwd)),
    {
        let ghost fs0 = *self;
        let ghost c0 = self.inodes.cache;
        let x = match self.search_inode(old_path, cwd) {
            Some(x) => x,
            None => {
                return Err(());
            },
        };
        let i = x.cache_index;
        let ghost t = self.inodes.cache.keys()[i as int]->0.index as int;
        let ghost fs1 = *self;
        let ghost c1 = self.inodes.cache;
        proof {
            lemma_bounded(c0, c1, i as int, fs0.key(t));
            assert(self.file(t) == fs0.file(t));
        }
        let _guard = self.lock(&x);
        let ghost fs2 = *self;
        proof {
            assert(self.working(i as int, t));
            self.lemma_working(i as int, t);
        }
        let is_dir = self.inodes.inodes[i].is_directory();
        let inum = self.inodes.inodes[i].inode_number;
        self.put(i);
        proof {
            lemma_ref_back(c1, fs2.inodes.cache, self.inodes.cache, i as int, fs0.key(t));
            assert(self.file(t) == fs0.file(t));
        }
        if is_dir {
            proof {
                self.lemma_not_freed(fs0, i as int, t);
            }
            self.put(i);
            proof {
                lemma_ref_back(c0, c1, self.inodes.cache, i as int, fs0.key(t));
            }
            return Err(());
        }
        let ghost fs3 = *self;
        self.count_link(&x, Ghost(t), true);
        let ghost fs4 = *self;
        proof {
            assert forall|z: int| 0 <= z < fs0.sb().ninodes && z != t implies #[trigger] fs4.file(z) == fs0.file(z) by {
                assert(fs4.file(z) == fs3.file(z));
                assert(fs3.file(z) == fs0.file(z));
            }
            fs0.lemma_more_links(fs4, t);
            lemma_slots_held(c0.keys(), fs4.inodes.cache.keys(), i as int, fs0.key(t));
            lemma_free_same(fs3.v(), fs4.v(), fs0.sb());
            self.lemma_second_origin(fs0, i as int, t, new@, slot_of(*cwd));
            fs0.lemma_same_parent(fs4, new@, slot_of(*cwd));
        }
        let r = self.make_entry(inum, new, cwd);
        let ghost fs5 = *self;
        proof {
            assert(self.held(i as int, t));
            if r is Err {
                assert(fs5.file(t) == fs4.file(t));
                assert forall|k: int| 0 <= k < NINODE implies #[trigger] self.inodes.cache.counts@[k] + 0 < usize::MAX by {
                    assert(c0.counts@[k] + 8 < usize::MAX);
                }
            }
        }
        if r.is_err() {
            self.count_link(&x, Ghost(t), false);
        }
        let ghost fs6 = *self;
        proof {
            assert(self.held(i as int, t));
            fs0.lemma_link_result(fs4, fs5, fs6, new@, old_path@, slot_of(*cwd), t, r is Ok);
            if frees(self.inodes, i as int) {
                self.lemma_working(i as int, t);
            }
        }
        self.put(i);
        proof {
            lemma_ref_back(c0, c1, self.inodes.cache, i as int, fs0.key(t));
            assert forall|z: int| 0 <= z < fs0.sb().ninodes implies #[trigger] self.file(z) == fs6.file(z) by {
            }
            if r is Ok {
                fs0.lemma_done_moved(fs6, *self, new@, old_path@, slot_of(*cwd));
            }
        }
        r
    }
}


impl<D: BlockDevice> FileSystem<D> {
    /// Paths begin where they did, with one more inode held.
    proof fn lemma_second_origin(&self, fs0: FileSystem<D>, x: int, t: int, path: Seq<u8>, cwd: Option<int>)
        requires
            fs0.wf(),
            self.wf(),
            self.sb() == fs0.sb(),
            self.device() == fs0.device(),
            fs0.origin_ok(cwd),
            ref_added(fs0.inodes.cache, self.inodes.cache, x, fs0.key(t)),
            refs_bounded(fs0.inodes.cache, 8),
            is_absolute(path) ==> fs0.slots().holding(fs0.key(t)).can_hold(fs0.key(ROOTINO as int)),
            fs0.same_tree(*self),
            forall|z: int| #[trigger] fs0.target_ok(z) ==> self.target_ok(z),
        ensures
            self.origin_ok(cwd),
            self.root_had(path),
            refs_bounded(self.inodes.cache, 6),
            forall|path: Seq<u8>| #[trigger] self.origin(path, cwd) == fs0.origin(path, cwd),
    {
        let c0 = fs0.inodes.cache;
        let c1 = self.inodes.cache;
        let root = fs0.key(ROOTINO as int);
        assert(fs0.target_ok(ROOTINO as int));
        assert forall|k: int| 0 <= k < NINODE implies #[trigger] c1.counts@[k] + 6 < usize::MAX by {
            assert(c0.counts@[k] + 8 < usize::MAX);
        }
        lemma_slots_held(c0.keys(), c1.keys(), x, fs0.key(t));
        lemma_can_hold(c1.keys(), root);
        if cwd is Some {
            let w = cwd->0;
            assert(fs0.slot_ok(w));
            assert(c0.counts@[w] + 8 < usize::MAX);
            assert(c1.keys()[w] == c0.keys()[w]);
            let j = c0.keys()[w]->0.index as int;
            assert(self.file(j).kind == fs0.file(j).kind);
        }
    }

    /// Where trees are the same, so are parents of paths.
    proof fn lemma_same_parent(&self, other: FileSystem<D>, path: Seq<u8>, cwd: Option<int>)
        requires
            self.wf(),
            self.links_ok(),
            self.same_tree(other),
            self.origin_ok(cwd),
            other.origin(path, cwd) == self.origin(path, cwd),
        ensures
            other.parent(path, cwd) == self.parent(path, cwd),
            forall|slots: Slots| #[trigger] other.parent_reached(slots, path, cwd) == self.parent_reached(slots, path, cwd),
            self.parent(path, cwd) is Some ==> is_inode(self.sb(), self.parent(path, cwd)->0),
    {
        let start = self.origin(path, cwd);
        if start is Some {
            if cwd is Some {
                assert(self.slot_ok(cwd->0));
            }
            assert(is_inode(self.sb(), start->0));
            let names = elements(path).drop_last();
            self.lemma_walk_same(other, start->0, names);
            if self.walk(start->0, names) is Some {
                let j = self.walk(start->0, names)->0;
                assert(other.file(j).kind == self.file(j).kind);
            }
        }
    }

    /// Putting together what making a second name does.
    #[verifier::rlimit(40)]
    #[verifier::spinoff_prover]
    proof fn lemma_link_result(
        &self,
        fs4: FileSystem<D>,
        fs5: FileSystem<D>,
        fs6: FileSystem<D>,
        new: Seq<u8>,
        old_path: Seq<u8>,
        cwd: Option<int>,
        t: int,
        ok: bool,
    )
        requires
            self.wf(),
            self.sb() == fs4.sb(),
            self.free() == fs4.free(),
            self.target(old_path, cwd) == Some(t),
            self.file(t).kind != InodeKind::Directory,
            is_inode(self.sb(), t),
            fs4.file(t) == (FileView { nlink: self.file(t).nlink + 1, ..self.file(t) }),
            forall|z: int| 0 <= z < self.sb().ninodes && z != t ==> #[trigger] fs4.file(z) == self.file(z),
            fs4.parent(new, cwd) == self.parent(new, cwd),
            self.parent(new, cwd) is Some ==> is_inode(self.sb(), self.parent(new, cwd)->0),
            fs4.device() == self.device(),
            fs4.slots() == self.slots().holding(self.key(t)),
            fs4.parent_reached(fs4.slots(), new, cwd) == self.parent_reached(fs4.slots(), new, cwd),
            ok ==> fs4.entry_made(fs5, new, cwd, t) && fs6 == fs5,
            !ok ==> {
                &&& files_kept(fs4, fs5)
                &&& fs4.entry_refused(new, cwd)
                &&& fs6.file(t) == (FileView { nlink: fs5.file(t).nlink - 1, ..fs5.file(t) })
                &&& forall|z: int| 0 <= z < self.sb().ninodes && z != t ==> #[trigger] fs6.file(z) == fs5.file(z)
                &&& fs5.sb() == self.sb()
            },
        ensures
            ok ==> self.link_done(fs6, new, old_path, cwd),
            !ok ==> self.link_refused(new, old_path, cwd),
            !ok ==> forall|z: int| 0 <= z < self.sb().ninodes ==> #[trigger] fs6.file(z) == self.file(z),
            fs6.file(t).nlink == self.file(t).nlink + if ok { 1int } else { 0int },
    {
        let name = elements(new).last();
        if self.parent(new, cwd) is Some {
            let p = self.parent(new, cwd)->0;
            assert(p != t);
            assert(fs4.file(p) == self.file(p));
            let c = self.file(p).bytes;
            if ok {
                let k = choose|k: int| #[trigger] is_insert_place(c, k) && fs5.file(p) == (FileView {
                    bytes: with_entry(c, k, t, name),
                    ..fs4.file(p)
                });
                assert(is_insert_place(c, k));
                assert(fs5.file(t) == fs4.file(t));
                assert forall|z: int| 0 <= z < self.sb().ninodes && z != p && z != t implies #[trigger] fs6.file(z) == self.file(z) by {
                    assert(fs5.file(z) == fs4.file(z));
                }
                assert(self.linked(fs6, p, t, k, name));
            }
        }
        if !ok {
            assert(fs5.file(t) == fs4.file(t));
            assert forall|z: int| 0 <= z < self.sb().ninodes implies #[trigger] fs6.file(z) == self.file(z) by {
                if z != t {
                    assert(fs5.file(z) == fs4.file(z));
                }
            }
        }
    }

    /// What was done stays done where no file changes.
    proof fn lemma_done_moved(&self, fs6: FileSystem<D>, fs7: FileSystem<D>, new: Seq<u8>, old_path: Seq<u8>, cwd: Option<int>)
        requires
            self.link_done(fs6, new, old_path, cwd),
            fs7.v() == fs6.v(),
            fs7.sb() == fs6.sb(),
        ensures
            self.link_done(fs7, new, old_path, cwd),
    {
        let t = self.target(old_path, cwd)->0;
        let p = self.parent(new, cwd)->0;
        let name = elements(new).last();
        let k = choose|k: int| #[trigger] is_insert_place(self.file(p).bytes, k) && self.linked(fs6, p, t, k, name);
        assert(is_insert_place(self.file(p).bytes, k));
        assert forall|z: int| #[trigger] fs7.file(z) == fs6.file(z) by {
        }
        assert forall|z: int| 0 <= z < self.sb().ninodes && z != p && z != t implies #[trigger] fs7.file(z) == self.file(z) by {
            assert(fs7.file(z) == fs6.file(z));
            assert(fs6.file(z) == self.file(z));
        }
        assert(fs7.file(p) == fs6.file(p));
        assert(fs7.file(t) == fs6.file(t));
        assert(self.linked(fs7, p, t, k, name));
    }
}


/// Files are the same, and inodes that were not in use are not.
pub open spec fn files_alike<D: BlockDevice>(old: FileSystem<D>, new: FileSystem<D>) -> bool {
    &&& new.sb() == old.sb()
    &&& new.device() == old.device()
    &&& new.volume.activity() == old.volume.activity()
    &&& forall|x: int|
        0 <= x < old.sb().ninodes ==> (#[trigger] new.file(x) == old.file(x) || (new.file(x).kind == InodeKind::Unused && old.file(x).kind
            == InodeKind::Unused))
}

/// One inode that was not in use is taken for `kind`, though no name refers to it; all else is
/// the same.
pub open spec fn one_lost<D: BlockDevice>(old: FileSystem<D>, new: FileSystem<D>, kind: InodeKind) -> bool {
    exists|t: int| #[trigger] first_unused(old, t) && new.file(t) == (FileView { kind, ..old.file(t) }) && (forall|x: int|
        0 <= x < old.sb().ninodes && x != t ==> #[trigger] new.file(x) == old.file(x))
}

/// Inode `t` is the first that is not in use.
pub open spec fn first_unused<D: BlockDevice>(fs: FileSystem<D>, t: int) -> bool {
    &&& is_inode(fs.sb(), t)
    &&& fs.file(t).kind == InodeKind::Unused
    &&& forall|j: int| 0 < j < t ==> (#[trigger] fs.file(j)).kind != InodeKind::Unused
}

/// The contents of a new directory `t` in directory `p`: entries for `.` and `..`.
pub open spec fn new_directory(t: int, p: int) -> Seq<u8> {
    with_entry(with_entry(Seq::empty(), 0, t, seq![0x2eu8]), 1, p, seq![0x2eu8, 0x2eu8])
}

/// Where the first two entries of a new directory go.
proof fn lemma_dots(t: int)
    requires
        0 < t < 65536,
    ensures
        forall|k: int| #[trigger] is_insert_place(Seq::<u8>::empty(), k) ==> k == 0,
        ({
            let c1 = with_entry(Seq::empty(), 0, t, seq![0x2eu8]);
            &&& c1.len() == 16
            &&& entry_inum(c1, 0) == t
            &&& forall|k: int| #[trigger] is_insert_place(c1, k) ==> k == 1
            &&& no_entry_of(c1, seq![0x2eu8, 0x2eu8])
        }),
{
    let c1 = with_entry(Seq::empty(), 0, t, seq![0x2eu8]);
    let e = entry_bytes(t, padded(seq![0x2eu8]));
    assert(c1 =~= e);
    crate::filesystem::directory_entry::lemma_entry_bytes(t, padded(seq![0x2eu8]));
    assert(entry_inum(c1, 0) == t);
    assert forall|k: int| #[trigger] is_insert_place(c1, k) implies k == 1 by {
        if k == 0 {
            assert(entry_inum(c1, 0) == 0);
        }
    }
    let dotdot = seq![0x2eu8, 0x2eu8];
    assert forall|j: int| 0 <= j < c1.len() as int / 16 implies !#[trigger] entry_matches(c1, j, dotdot) by {
        assert(j == 0);
        assert(entry_name(c1, 0)[1] == 0);
        assert(dotdot[1] == 0x2e);
    }
}

impl<D: BlockDevice> FileSystem<D> {
    /// Takes the first unused inode for a file of the given kind.
    #[verifier::rlimit(60)]
    fn new_inode(&mut self, kind: InodeKind) -> (r: Result<usize, ()>)
        requires
            old(self).wf(),
            old(self).volume.room(1),
            kind != InodeKind::Unused,
        ensures
            final(self).wf(),
            final(self).inodes == old(self).inodes,
            final(self).sb() == old(self).sb(),
            final(self).device() == old(self).device(),
            final(self).volume.session() == old(self).volume.session(),
            match r {
                Ok(t) => {
                    &&& first_unused(*old(self), t as int)
                    &&& final(self).file(t as int) == (FileView { kind, ..old(self).file(t as int) })
                    &&& final(self).file(t as int).bytes == Seq::<u8>::empty()
                    &&& forall|x: int| 0 <= x < old(self).sb().ninodes && x != t ==> #[trigger] final(self).file(x) == old(self).file(x)
                    &&& final(self).volume.used() <= old(self).volume.used() + 1
                    &&& final(self).volume.inode_due(t as int) == 0
                    &&& blank(final(self).disk(t as int))
                    &&& old(self).volume.logged().subset_of(final(self).volume.logged())
                    &&& final(self).free() == old(self).free()
                },
                Err(_) => {
                    &&& forall|j: int| is_inode(old(self).sb(), j) ==> (#[trigger] old(self).file(j)).kind != InodeKind::Unused
                    &&& same_files(*old(self), *final(self))
                },
            },
    {
        let ghost fs0 = *self;
        let r = self.volume.allocate_inode(kind);
        match r {
            Ok(t) => {
                proof {
                    let tt = t as int;
                    let i0 = fs0.disk(tt);
                    let i1 = self.disk(tt);
                    assert(fs0.disk_ok(tt));
                    lemma_kept_set(fs0.volume, self.volume, tt, i1);
                    Volume::<D>::lemma_meta_kept(fs0.v(), self.v(), fs0.sb());
                    assert forall|x: int| 0 <= x < fs0.sb().size implies #[trigger] in_use(self.v(), fs0.sb(), x) == in_use(
                        fs0.v(),
                        fs0.sb(),
                        x,
                    ) by {
                        assert(self.v()[fs0.sb().bmapstart + x / 8192] == fs0.v()[fs0.sb().bmapstart + x / 8192]);
                    }
                    lemma_free_same(fs0.v(), self.v(), fs0.sb());
                    assert forall|j: int| 0 < j < tt implies (#[trigger] fs0.file(j)).kind != InodeKind::Unused by {
                        assert(disk_inode(fs0.v(), fs0.sb(), j).kind != InodeKind::Unused);
                    }
                    assert forall|slot: int| 0 <= slot < 269 implies #[trigger] crate::filesystem::layout::addr_wf(
                        self.v(),
                        self.sb(),
                        self.volume.owner@,
                        tt,
                        i1,
                        slot,
                    ) by {
                        assert(addr(self.v(), i1, slot) == 0);
                    }
                    assert(self.disk_ok(tt));
                    lemma_new_inode(fs0, *self, tt);
                    assert(self.file(tt).bytes =~= Seq::<u8>::empty());
                    assert(fs0.file(tt).bytes =~= Seq::<u8>::empty());
                }
                Ok(t)
            },
            Err(_) => {
                proof {
                    lemma_same_wf(fs0, *self);
                    assert forall|j: int| is_inode(fs0.sb(), j) implies (#[trigger] fs0.file(j)).kind != InodeKind::Unused by {
                        assert(disk_inode(fs0.v(), fs0.sb(), j).kind != InodeKind::Unused);
                    }
                }
                Err(())
            },
        }
    }
}

/// An inode that was not in use is not in step with anything in memory.
proof fn lemma_new_inode<D: BlockDevice>(fs0: FileSystem<D>, fs1: FileSystem<D>, t: int)
    requires
        fs0.wf(),
        fs1.volume.wf(),
        fs1.inodes == fs0.inodes,
        fs1.device() == fs0.device(),
        is_inode(fs0.sb(), t),
        fs0.disk(t).kind == InodeKind::Unused,
        file_kept(fs0.volume, fs1.volume, t),
        fs1.disk_ok(t),
    ensures
        fs1.wf(),
        forall|j: int| 0 <= j < fs0.sb().ninodes && j != t ==> #[trigger] fs1.file(j) == fs0.file(j),
{
    let sb = fs0.sb();
    let v0 = fs0.v();
    let v1 = fs1.v();
    let o0 = fs0.volume.owner@;
    let o1 = fs1.volume.owner@;
    assert forall|j: int| 0 <= j < sb.ninodes && j != t implies #[trigger] fs1.file(j) == fs0.file(j) && fs1.disk(j) == fs0.disk(j)
        && fs1.disk_ok(j) by {
        assert(fs0.disk_ok(j));
        assert(disk_inode(v1, sb, j) == disk_inode(v0, sb, j));
        lemma_other_file(v0, v1, sb, o0, o1, t, j, fs0.disk(j));
    }
    assert forall|j: int| 0 <= j < sb.ninodes implies #[trigger] fs1.disk_ok(j) by {
        if j != t {
            assert(fs1.file(j) == fs0.file(j));
        }
    }
    assert forall|k: int| 0 <= k < NINODE implies #[trigger] fs1.slot_ok(k) by {
        assert(fs0.slot_ok(k));
        if fs1.inodes.cache.keys()[k] is Some {
            assert(fs1.file(fs0.inodes.cache.keys()[k]->0.index as int) == fs0.file(fs0.inodes.cache.keys()[k]->0.index as int));
        }
        if fs1.inodes.cache.keys()[k] is Some && fs0.inodes.inodes@[k].is_initialized {
            let x = fs0.inodes.cache.keys()[k]->0.index as int;
            assert(x != t);
            lemma_other_file(v0, v1, sb, o0, o1, t, x, fs0.inodes.inodes@[k].inode@);
            assert(fs1.file(x) == fs0.file(x));
            assert(fs1.disk_ok(x));
        }
    }
}

impl<D: BlockDevice> FileSystem<D> {
    /// Gives a new inode its attributes and, where it is a directory, its first entries.
    #[verifier::rlimit(60)]
    fn fill_inode(&mut self, y: usize, t: usize, p: usize, kind: InodeKind, major: u16, minor: u16) -> (r: Result<(), ()>)
        requires
            old(self).wf(),
            old(self).held(y as int, t as int),
            is_inode(old(self).sb(), t as int),
            is_inode(old(self).sb(), p as int),
            old(self).inodes.inodes@[y as int].is_initialized,
            old(self).file(t as int).kind == kind,
            old(self).file(t as int).bytes == Seq::<u8>::empty(),
            kind != InodeKind::Unused,
            old(self).volume.room(3),
            blank(old(self).inodes.inodes@[y as int].inode@),
            old(self).volume.inode_due(t as int) == 0,
        ensures
            final(self).wf(),
            only_file(*old(self), *final(self), y as int, t as int),
            final(self).held(y as int, t as int),
            final(self).inodes.inodes@[y as int].is_initialized,
            final(self).volume.used() <= old(self).volume.used() + 3,
            final(self).fresh(y as int),
            old(self).volume.logged().subset_of(final(self).volume.logged()),
            final(self).file(t as int).kind == kind,
            match r {
                Ok(_) => final(self).file(t as int) == (FileView {
                    kind,
                    major: major as int,
                    minor: minor as int,
                    nlink: 1,
                    bytes: if kind == InodeKind::Directory {
                        new_directory(t as int, p as int)
                    } else {
                        Seq::empty()
                    },
                }),
                Err(_) => kind == InodeKind::Directory && old(self).free() < 1,
            },
            r is Ok ==> final(self).free() >= old(self).free() - if kind == InodeKind::Directory { 1int } else { 0int },
    {
        let ghost fs0 = *self;
        let ghost tt = t as int;
        proof {
            lemma_blank_logged(self.volume.logged(), self.sb(), self.inodes.inodes@[y as int].inode@);
        }
        self.set_attributes(y, Ghost(tt), major, minor, 1);
        let ghost fs1 = *self;
        proof {
            lemma_free_same(fs0.v(), fs1.v(), fs0.sb());
            lemma_full(fs1.v(), fs0.sb());
        }
        if kind != InodeKind::Directory {
            return Ok(());
        }
        let mut dot: Vec<u8> = Vec::new();
        dot.push(0x2e);
        let mut dotdot: Vec<u8> = Vec::new();
        dotdot.push(0x2e);
        dotdot.push(0x2e);
        proof {
            assert(dot@ =~= seq![0x2eu8]);
            assert(dotdot@ =~= seq![0x2eu8, 0x2eu8]);
            lemma_dots(tt);
            assert(no_entry_of(Seq::<u8>::empty(), dot@));
            lemma_entry_due(fs1.file(tt).bytes);
        }
        if self.link_in(y, Ghost(tt), &dot, t).is_err() {
            proof {
                lemma_only_trans(fs0, fs1, *self, y as int, tt);
                assert(linkable(fs1.file(tt).bytes, fs1.inodes.cache.keys(), fs1.device(), dot@));
            }
            return Err(());
        }
        let ghost fs2 = *self;
        proof {
            lemma_only_trans(fs0, fs1, fs2, y as int, tt);
            assert(fs2.file(tt).bytes == with_entry(Seq::empty(), 0, tt, dot@));
            lemma_entry_due(fs2.file(tt).bytes);
            lemma_full(fs2.v(), fs0.sb());
        }
        if self.link_in(y, Ghost(tt), &dotdot, p).is_err() {
            proof {
                lemma_only_trans(fs0, fs2, *self, y as int, tt);
                let c1 = fs2.file(tt).bytes;
                assert(linkable(c1, fs2.inodes.cache.keys(), fs2.device(), dotdot@));
            }
            return Err(());
        }
        proof {
            lemma_only_trans(fs0, fs2, *self, y as int, tt);
        }
        Ok(())
    }
}

proof fn lemma_only_trans<D: BlockDevice>(fs0: FileSystem<D>, fs1: FileSystem<D>, fs2: FileSystem<D>, i: int, j: int)
    requires
        only_file(fs0, fs1, i, j),
        only_file(fs1, fs2, i, j),
    ensures
        only_file(fs0, fs2, i, j),
{
    assert forall|x: int| 0 <= x < fs0.sb().ninodes && x != j implies #[trigger] fs2.file(x) == fs0.file(x) by {
        assert(fs1.file(x) == fs0.file(x));
    }
    assert forall|x: int| 0 <= x < fs0.sb().ninodes && x != j implies #[trigger] fs2.disk(x) == fs0.disk(x) by {
        assert(fs1.disk(x) == fs0.disk(x));
    }
    assert forall|k: int| 0 <= k < NINODE && k != i implies #[trigger] fs2.inodes.inodes@[k] == fs0.inodes.inodes@[k] by {
        assert(fs1.inodes.inodes@[k] == fs0.inodes.inodes@[k]);
    }
}


impl<D: BlockDevice> FileSystem<D> {
    /// Gives back an inode that was just made, held twice in slot `y`.
    #[verifier::rlimit(60)]
    fn discard_inode(&mut self, y: usize, Ghost(t): Ghost<int>, Ghost(c0): Ghost<CacheRc<InodeKey, NINODE>>)
        requires
            c0.wf(),
            refs_bounded(c0, 6),
            old(self).wf(),
            0 <= t <= usize::MAX,
            refs_at(c0, old(self).inodes.cache, y as int, old(self).key(t), 2),
            c0.counts@[y as int] == 0,
            old(self).inodes.inodes@[y as int].is_initialized,
            old(self).volume.room(0),
            old(self).fresh(y as int),
            old(self).volume.inode_due(t) == 0,
        ensures
            final(self).wf(),
            final(self).sb() == old(self).sb(),
            final(self).device() == old(self).device(),
            final(self).volume.session() == old(self).volume.session(),
            final(self).volume.used() <= old(self).volume.used(),
            old(self).volume.logged().subset_of(final(self).volume.logged()),
            same_refs(c0, final(self).inodes.cache),
            final(self).file(t).kind == InodeKind::Unused,
            forall|z: int| 0 <= z < old(self).sb().ninodes && z != t ==> #[trigger] final(self).file(z) == old(self).file(z),
            forall|k: int| 0 <= k < NINODE && k != y ==> #[trigger] final(self).inodes.inodes@[k] == old(self).inodes.inodes@[k],
    {
        let ghost fs0 = *self;
        let ghost c1 = self.inodes.cache;
        let ghost key = self.key(t);
        proof {
            assert(c0.counts@[y as int] + 6 < usize::MAX);
            assert(self.held(y as int, t));
            self.lemma_working(y as int, t);
        }
        let major = self.inodes.inodes[y].inode.major;
        let minor = self.inodes.inodes[y].inode.minor;
        self.set_attributes(y, Ghost(t), major, minor, 0);
        let ghost fs1 = *self;
        proof {
            lemma_refs_at(c0, c1, self.inodes.cache, y as int, key, 2);
        }
        self.put(y);
        let ghost fs2 = *self;
        proof {
            lemma_refs_at(c0, fs1.inodes.cache, self.inodes.cache, y as int, key, 2);
            assert(self.held(y as int, t));
            self.lemma_working(y as int, t);
            assert(fs2.file(t) == fs1.file(t));
            assert(frees(self.inodes, y as int));
            let ino = fs2.inodes.inodes@[y as int].inode@;
            lemma_still_logged(fs1.volume.logged(), fs2.volume.logged(), fs0.sb(), ino, ino);
            lemma_map_of(fs2.volume, t, ino);
            fs2.volume.lemma_used_less(fs2.freeing(y as int), fs2.volume.map_of(t));
        }
        self.release(y, Ghost(t));
        proof {
            lemma_refs_at(c0, fs2.inodes.cache, self.inodes.cache, y as int, key, 1);
            lemma_refs_at(c0, self.inodes.cache, self.inodes.cache, y as int, key, 0);
            assert forall|z: int| 0 <= z < fs0.sb().ninodes && z != t implies #[trigger] self.file(z) == fs0.file(z) by {
                assert(self.file(z) == fs2.file(z));
                assert(fs2.file(z) == fs1.file(z));
                assert(fs1.file(z) == fs0.file(z));
            }
        }
    }

    /// Enters inode `t` in directory `p`, which counts it where it is a directory.
    #[verifier::rlimit(60)]
    fn enter(&mut self, d: usize, Ghost(p): Ghost<int>, name: &Vec<u8>, t: usize, is_dir: bool) -> (r: Result<(), ()>)
        requires
            old(self).wf(),
            old(self).held(d as int, p),
            old(self).inodes.inodes@[d as int].is_initialized,
            old(self).volume.room(5),
            t < 65536,
            is_dir ==> old(self).file(p).nlink < 65535,
        ensures
            final(self).wf(),
            only_file(*old(self), *final(self), d as int, p),
            final(self).held(d as int, p),
            final(self).inodes.inodes@[d as int].is_initialized,
            final(self).volume.used() <= old(self).volume.used() + 5,
            old(self).volume.logged().subset_of(final(self).volume.logged()),
            ({
                let c = old(self).file(p).bytes;
                match r {
                    Ok(_) => {
                        &&& old(self).file(p).kind == InodeKind::Directory
                        &&& linkable(c, old(self).inodes.cache.keys(), old(self).device(), name@)
                        &&& exists|k: int| #[trigger] is_insert_place(c, k) && final(self).file(p) == (FileView {
                            bytes: with_entry(c, k, t as int, name@),
                            nlink: old(self).file(p).nlink + if is_dir { 1int } else { 0int },
                            ..old(self).file(p)
                        })
                    },
                    Err(_) => {
                        &&& final(self).file(p) == old(self).file(p)
                        &&& {
                            ||| old(self).file(p).kind != InodeKind::Directory
                            ||| !linkable(c, old(self).inodes.cache.keys(), old(self).device(), name@)
                            ||| no_room(c, old(self).free())
                        }
                    },
                }
            }),
    {
        let ghost fs0 = *self;
        let ghost c = fs0.file(p).bytes;
        proof {
            lemma_entry_due(c);
        }
        if self.link_in(d, Ghost(p), name, t).is_err() {
            return Err(());
        }
        let ghost fs1 = *self;
        let ghost k = choose|k: int| #[trigger] is_insert_place(c, k) && fs1.file(p) == (FileView {
            bytes: with_entry(c, k, t as int, name@),
            ..fs0.file(p)
        });
        if is_dir {
            proof {
                self.lemma_working(d as int, p);
            }
            let major = self.inodes.inodes[d].inode.major;
            let minor = self.inodes.inodes[d].inode.minor;
            let nlink = self.inodes.inodes[d].inode.nlink;
            self.set_attributes(d, Ghost(p), major, minor, nlink + 1);
            proof {
                lemma_only_trans(fs0, fs1, *self, d as int, p);
            }
        }
        proof {
            assert(is_insert_place(c, k));
        }
        Ok(())
    }

    /// A new file was made under `name` in directory `p`.
    pub open spec fn made(&self, fin: FileSystem<D>, p: int, name: Seq<u8>, t: int, kind: InodeKind, major: int, minor: int) -> bool {
        let is_dir = kind == InodeKind::Directory;
        &&& first_unused(*self, t)
        &&& fin.file(t) == (FileView {
            kind,
            major,
            minor,
            nlink: 1,
            bytes: if is_dir {
                new_directory(t, p)
            } else {
                Seq::empty()
            },
        })
        &&& exists|k: int| #[trigger] is_insert_place(self.file(p).bytes, k) && fin.file(p) == (FileView {
            bytes: with_entry(self.file(p).bytes, k, t, name),
            nlink: self.file(p).nlink + if is_dir { 1int } else { 0int },
            ..self.file(p)
        })
        &&& forall|z: int| 0 <= z < self.sb().ninodes && z != p && z != t ==> #[trigger] fin.file(z) == self.file(z)
    }

    /// An inode was taken that nothing refers to, for no more inodes can be held in memory.
    pub open spec fn lost_inode(&self, fin: FileSystem<D>, kind: InodeKind) -> bool {
        &&& forall|i: int| 0 <= i < NINODE ==> (#[trigger] self.inodes.cache.keys()[i]) is Some
        &&& exists|t: int| #[trigger] first_unused(*self, t) && fin.file(t) == (FileView { kind, ..self.file(t) }) && (forall|x: int|
            0 <= x < self.sb().ninodes && x != t ==> #[trigger] fin.file(x) == self.file(x))
    }

    /// No file can be made: the name is taken, no inode is left, or there is no room, be it for
    /// the entry or, where a directory is made, for its first entries.
    pub open spec fn make_refused(&self, p: int, name: Seq<u8>, kind: InodeKind) -> bool {
        let own = if kind == InodeKind::Directory { 1int } else { 0int };
        ||| !no_entry_of(self.file(p).bytes, name)
        ||| forall|j: int| is_inode(self.sb(), j) ==> (#[trigger] self.file(j)).kind != InodeKind::Unused
        ||| self.free() < own
        ||| no_room(self.file(p).bytes, self.free() - own)
    }

    /// Makes a file in directory `p`, which is opened in slot `d` and has no such name. The
    /// result is the slot in which the new inode is held once.
    #[verifier::rlimit(100)]
    #[verifier::spinoff_prover]
    fn make_file(
        &mut self,
        d: usize,
        Ghost(p): Ghost<int>,
        name: &Vec<u8>,
        kind: InodeKind,
        major: u16,
        minor: u16,
    ) -> (r: Result<usize, ()>)
        requires
            old(self).wf(),
            refs_bounded(old(self).inodes.cache, 6),
            old(self).device() == ROOTDEV,
            old(self).held(d as int, p),
            old(self).inodes.inodes@[d as int].is_initialized,
            old(self).file(p).kind == InodeKind::Directory,
            is_inode(old(self).sb(), p),
            kind != InodeKind::Unused,
            kind == InodeKind::Directory ==> old(self).file(p).nlink < 65535,
            old(self).volume.room(9),
        ensures
            final(self).wf(),
            final(self).sb() == old(self).sb(),
            final(self).device() == old(self).device(),
            final(self).volume.session() == old(self).volume.session(),
            final(self).volume.used() <= old(self).volume.used() + 9,
            old(self).volume.logged().subset_of(final(self).volume.logged()),
            final(self).inodes.inodes@[d as int].is_initialized,
            match r {
                Ok(y) => {
                    let t = final(self).inodes.cache.keys()[y as int]->0.index as int;
                    &&& old(self).made(*final(self), p, name@, t, kind, major as int, minor as int)
                    &&& ref_added(old(self).inodes.cache, final(self).inodes.cache, y as int, old(self).key(t))
                    &&& final(self).working(y as int, t)
                    &&& y != d
                    &&& final(self).fresh(y as int)
                    &&& final(self).volume.inode_due(t) == 0
                },
                Err(_) => {
                    &&& same_refs(old(self).inodes.cache, final(self).inodes.cache)
                    &&& {
                        ||| files_alike(*old(self), *final(self)) && old(self).make_refused(p, name@, kind)
                        ||| old(self).lost_inode(*final(self), kind)
                    }
                },
            },
    {
        let ghost fs0 = *self;
        let ghost c0 = self.inodes.cache;
        let t = match self.new_inode(kind) {
            Ok(t) => t,
            Err(_) => {
                return Err(());
            },
        };
        let ghost tt = t as int;
        let ghost fs1 = *self;
        let ghost key = fs0.key(tt);
        proof {
            assert(!c0.keys().contains(Some(key))) by {
                if c0.keys().contains(Some(key)) {
                    let m = choose|m: int| 0 <= m < c0.keys().len() && c0.keys()[m] == Some(key);
                    assert(fs0.slot_ok(m));
                }
            }
            assert(tt != p);
            assert(fs1.file(p) == fs0.file(p));
        }
        let inode_ref = match self.get(ROOTDEV, t) {
            Some(inode_ref) => inode_ref,
            None => {
                proof {
                    assert forall|x: int| 0 <= x < fs0.sb().ninodes && x != tt implies #[trigger] self.file(x) == fs0.file(x) by {
                        assert(self.file(x) == fs1.file(x));
                    }
                    assert(self.file(tt) == fs1.file(tt));
                    assert(first_unused(fs0, tt));
                }
                return Err(());
            },
        };
        let y = inode_ref.cache_index;
        let ghost c1 = self.inodes.cache;
        let ghost fs2 = *self;
        proof {
            assert(c0.counts@[y as int] == 0 <==> c0.keys()[y as int] is None);
            assert(c0.counts@[y as int] + 6 < usize::MAX);
            assert(y != d);
            lemma_bounded(c0, c1, y as int, key);
            assert(refs_at(c0, c1, y as int, key, 1));
            assert(fs2.file(tt) == fs1.file(tt));
            assert(self.held(y as int, tt));
        }
        let _guard = self.lock(&inode_ref);
        let ghost c2 = self.inodes.cache;
        let ghost fs3 = *self;
        proof {
            lemma_refs_at(c0, c1, c2, y as int, key, 1);
            assert(self.working(y as int, tt));
            assert(fs3.file(tt) == fs1.file(tt));
            assert forall|z: int| 0 <= z < fs0.sb().ninodes && z != tt implies #[trigger] fs3.file(z) == fs0.file(z) by {
                assert(fs3.file(z) == fs2.file(z));
                assert(fs2.file(z) == fs1.file(z));
                assert(fs1.file(z) == fs0.file(z));
            }
            assert(self.inodes.inodes@[d as int] == fs0.inodes.inodes@[d as int]);
            assert(self.held(d as int, p));
            self.lemma_working(d as int, p);
            assert(fs2.inodes.inodes@[y as int].inode_number == tt);
            assert(self.inodes.inodes@[y as int].inode@ == fs2.disk(tt));
        }
        let parent = self.inodes.inodes[d].inode_number;
        let filled = self.fill_inode(y, t, parent, kind, major, minor);
        let ghost fs4 = *self;
        proof {
            lemma_refs_at(c0, c2, self.inodes.cache, y as int, key, 2);
            assert(self.inodes.inodes@[d as int] == fs3.inodes.inodes@[d as int]);
            assert(fs4.file(p) == fs3.file(p));
            assert(self.held(d as int, p));
        }
        if filled.is_err() {
            self.discard_inode(y, Ghost(tt), Ghost(c0));
            proof {
                lemma_discarded(fs0, fs3, fs4, *self, tt);
                assert(self.inodes.inodes@[d as int] == fs4.inodes.inodes@[d as int]);
            }
            return Err(());
        }
        let is_dir = kind == InodeKind::Directory;
        let ghost keys4 = self.inodes.cache.keys();
        let entered = self.enter(d, Ghost(p), name, t, is_dir);
        let ghost fs5 = *self;
        proof {
            lemma_refs_at(c0, fs4.inodes.cache, self.inodes.cache, y as int, key, 2);
            assert(self.inodes.inodes@[y as int] == fs4.inodes.inodes@[y as int]);
            assert(self.held(y as int, tt));
            let ino = fs4.inodes.inodes@[y as int].inode@;
            lemma_still_logged(fs4.volume.logged(), fs5.volume.logged(), fs0.sb(), ino, ino);
        }
        if entered.is_err() {
            self.discard_inode(y, Ghost(tt), Ghost(c0));
            proof {
                if !linkable(fs4.file(p).bytes, keys4, fs4.device(), name@) {
                    let k = choose|k: int| #[trigger] is_entry_of(fs4.file(p).bytes, name@, k) && gettable(
                        keys4,
                        (InodeKey { device: fs4.device(), index: entry_inum(fs4.file(p).bytes, k) as usize }),
                    );
                    assert(entry_matches(fs0.file(p).bytes, k, name@));
                }
                assert(fs5.file(p) == fs4.file(p));
                assert forall|z: int| 0 <= z < fs0.sb().ninodes && z != tt implies #[trigger] fs5.file(z) == fs4.file(z) by {
                    if z != p {
                    }
                }
                lemma_discarded(fs0, fs4, fs5, *self, tt);
                assert(self.inodes.inodes@[d as int] == fs5.inodes.inodes@[d as int]);
            }
            return Err(());
        }
        proof {
            assert(fs5.file(tt) == fs4.file(tt));
        }
        self.put(y);
        proof {
            let c9 = self.inodes.cache;
            lemma_refs_at(c0, fs5.inodes.cache, c9, y as int, key, 2);
            assert(ref_added(c0, c9, y as int, key));
            assert(self.held(y as int, tt));
            self.lemma_working(y as int, tt);
            lemma_made(fs0, fs3, fs4, fs5, *self, p, name@, tt, kind, major as int, minor as int);
            let ino = fs5.inodes.inodes@[y as int].inode@;
            lemma_still_logged(fs5.volume.logged(), self.volume.logged(), fs0.sb(), ino, ino);
        }
        Ok(y)
    }
}

/// A new inode that was given back leaves no trace.
proof fn lemma_discarded<D: BlockDevice>(fs0: FileSystem<D>, fs3: FileSystem<D>, fs4: FileSystem<D>, fs5: FileSystem<D>, t: int)
    requires
        fs0.file(t).kind == InodeKind::Unused,
        fs5.file(t).kind == InodeKind::Unused,
        forall|z: int| 0 <= z < fs0.sb().ninodes && z != t ==> #[trigger] fs3.file(z) == fs0.file(z),
        forall|z: int| 0 <= z < fs0.sb().ninodes && z != t ==> #[trigger] fs4.file(z) == fs3.file(z),
        forall|z: int| 0 <= z < fs0.sb().ninodes && z != t ==> #[trigger] fs5.file(z) == fs4.file(z),
        fs5.sb() == fs0.sb(),
        fs5.device() == fs0.device(),
        fs5.volume.session() == fs0.volume.session(),
    ensures
        files_alike(fs0, fs5),
{
    assert forall|z: int| 0 <= z < fs0.sb().ninodes implies (#[trigger] fs5.file(z) == fs0.file(z) || (fs5.file(z).kind == InodeKind::Unused
        && fs0.file(z).kind == InodeKind::Unused)) by {
        if z != t {
            assert(fs5.file(z) == fs4.file(z));
            assert(fs4.file(z) == fs3.file(z));
        }
    }
}

/// Putting together what making a file does.
proof fn lemma_made<D: BlockDevice>(
    fs0: FileSystem<D>,
    fs3: FileSystem<D>,
    fs4: FileSystem<D>,
    fs5: FileSystem<D>,
    fs6: FileSystem<D>,
    p: int,
    name: Seq<u8>,
    t: int,
    kind: InodeKind,
    major: int,
    minor: int,
)
    requires
        first_unused(fs0, t),
        p != t,
        is_inode(fs0.sb(), p),
        forall|z: int| 0 <= z < fs0.sb().ninodes && z != t ==> #[trigger] fs3.file(z) == fs0.file(z),
        forall|z: int| 0 <= z < fs0.sb().ninodes && z != t ==> #[trigger] fs4.file(z) == fs3.file(z),
        forall|z: int| 0 <= z < fs0.sb().ninodes && z != p ==> #[trigger] fs5.file(z) == fs4.file(z),
        fs6.v() == fs5.v(),
        fs6.sb() == fs5.sb(),
        fs4.file(t) == (FileView {
            kind,
            major,
            minor,
            nlink: 1,
            bytes: if kind == InodeKind::Directory {
                new_directory(t, p)
            } else {
                Seq::empty()
            },
        }),
        exists|k: int| #[trigger] is_insert_place(fs4.file(p).bytes, k) && fs5.file(p) == (FileView {
            bytes: with_entry(fs4.file(p).bytes, k, t, name),
            nlink: fs4.file(p).nlink + if kind == InodeKind::Directory { 1int } else { 0int },
            ..fs4.file(p)
        }),
    ensures
        fs0.made(fs6, p, name, t, kind, major, minor),
{
    assert forall|z: int| #[trigger] fs6.file(z) == fs5.file(z) by {
    }
    assert(fs4.file(p) == fs3.file(p));
    assert(fs3.file(p) == fs0.file(p));
    assert(fs5.file(t) == fs4.file(t));
    let k = choose|k: int| #[trigger] is_insert_place(fs4.file(p).bytes, k) && fs5.file(p) == (FileView {
        bytes: with_entry(fs4.file(p).bytes, k, t, name),
        nlink: fs4.file(p).nlink + if kind == InodeKind::Directory { 1int } else { 0int },
        ..fs4.file(p)
    });
    assert(is_insert_place(fs0.file(p).bytes, k));
    assert(fs6.file(p) == fs5.file(p));
    assert(fs6.file(t) == fs5.file(t));
    assert forall|z: int| 0 <= z < fs0.sb().ninodes && z != p && z != t implies #[trigger] fs6.file(z) == fs0.file(z) by {
        assert(fs6.file(z) == fs5.file(z));
        assert(fs5.file(z) == fs4.file(z));
        assert(fs4.file(z) == fs3.file(z));
    }
}


/// Adding a reference while another inode is held twice.
proof fn lemma_added_beside<const N: usize>(
    c0: CacheRc<InodeKey, N>,
    c2: CacheRc<InodeKey, N>,
    c3: CacheRc<InodeKey, N>,
    c4: CacheRc<InodeKey, N>,
    d: int,
    kp: InodeKey,
    y: int,
    ky: InodeKey,
)
    requires
        c0.wf(),
        refs_bounded(c0, 6),
        refs_at(c0, c2, d, kp, 2),
        ref_added(c2, c3, y, ky),
        c4.counts@ == c3.counts@.update(d, (c3.counts@[d] - 2) as usize),
        c4.keys() == c3.keys().update(
            d,
            if c3.counts@[d] == 2 {
                None
            } else {
                c3.keys()[d]
            },
        ),
    ensures
        ref_added(c0, c4, y, ky),
        c3.counts@[d] >= 2,
{
    assert(c0.counts@[d] + 6 < usize::MAX);
    assert(c0.counts@[y] + 6 < usize::MAX);
    assert(c0.counts@[d] == 0 <==> c0.keys()[d] is None);
    assert(c2.keys()[d] == Some(kp));
    if d == y {
        assert(kp == ky);
    } else if c2.keys()[y] is None {
        if c0.keys().contains(Some(ky)) {
            let m = choose|m: int| 0 <= m < c0.keys().len() && c0.keys()[m] == Some(ky);
            assert(c2.keys()[m] == Some(ky));
            assert(c2.keys().contains(Some(ky)));
        }
    }
    assert(c4.counts@ =~= c0.counts@.update(y, (c0.counts@[y] + 1) as usize));
    assert(c4.keys() =~= c0.keys().update(y, Some(ky)));
}

impl<D: BlockDevice> FileSystem<D> {
    /// A file that was there already is what `create` gives.
    pub open spec fn create_found(&self, fin: FileSystem<D>, path: Seq<u8>, cwd: Option<int>, kind: InodeKind, t: int) -> bool {
        let p = self.parent(path, cwd);
        &&& p is Some
        &&& dir_target(self.file(p->0).bytes, elements(path).last()) == Some(t)
        &&& kind == InodeKind::File
        &&& self.file(t).kind == InodeKind::File || self.file(t).kind == InodeKind::Device
        &&& files_kept(*self, fin)
    }

    /// A new file is what `create` gives.
    pub open spec fn create_new(
        &self,
        fin: FileSystem<D>,
        path: Seq<u8>,
        cwd: Option<int>,
        kind: InodeKind,
        major: int,
        minor: int,
        t: int,
    ) -> bool {
        let p = self.parent(path, cwd);
        let name = elements(path).last();
        &&& p is Some
        &&& no_entry_of(self.file(p->0).bytes, name)
        &&& self.made(fin, p->0, name, t, kind, major, minor)
    }

    /// Memory has room for the inodes on the way, and for the file that is there or is made,
    /// beside its directory.
    pub open spec fn create_had(&self, path: Seq<u8>, cwd: Option<int>) -> bool {
        let p = self.parent(path, cwd);
        let name = elements(path).last();
        &&& self.parent_reached(self.slots(), path, cwd)
        &&& p is Some ==> if dir_target(self.file(p->0).bytes, name) is Some {
            self.entry_had(self.slots(), p->0, name)
        } else {
            self.slots().holding(self.key(p->0)).free > 0
        }
    }

    /// Nothing can be created.
    pub open spec fn create_refused(&self, path: Seq<u8>, cwd: Option<int>, kind: InodeKind) -> bool {
        let p = self.parent(path, cwd);
        let name = elements(path).last();
        let t = dir_target(self.file(p->0).bytes, name);
        ||| p is None
        ||| t is Some && !(kind == InodeKind::File && (self.file(t->0).kind == InodeKind::File || self.file(t->0).kind
            == InodeKind::Device))
        ||| t is None && self.make_refused(p->0, name, kind)
    }

    /// Takes the inode that was found under a name, closing its directory.
    #[verifier::rlimit(60)]
    fn take_found(&mut self, d: usize, Ghost(fs0): Ghost<FileSystem<D>>, Ghost(p): Ghost<int>, inum: usize, kind: InodeKind) -> (r: Result<
        usize,
        (),
    >)
        requires
            fs0.wf(),
            fs0.device() == ROOTDEV,
            refs_bounded(fs0.inodes.cache, 6),
            old(self).opened(fs0, d as int, p),
            fs0.target_ok(inum as int),
            gettable(old(self).inodes.cache.keys(), old(self).key(inum as int)),
        ensures
            final(self).wf(),
            same_files(fs0, *final(self)),
            ({
                let t = inum as int;
                let fits = kind == InodeKind::File && (fs0.file(t).kind == InodeKind::File || fs0.file(t).kind == InodeKind::Device);
                match r {
                    Ok(y) => {
                        &&& fits
                        &&& ref_added(fs0.inodes.cache, final(self).inodes.cache, y as int, fs0.key(t))
                        &&& final(self).working(y as int, t)
                    },
                    Err(_) => !fits && same_refs(fs0.inodes.cache, final(self).inodes.cache),
                }
            }),
    {
        let ghost c0 = fs0.inodes.cache;
        let ghost c2 = self.inodes.cache;
        let ghost t = inum as int;
        proof {
            lemma_refs_at(c0, c2, c2, d as int, fs0.key(p), 2);
            assert(self.file(t) == fs0.file(t));
            assert(c0.counts@[d as int] + 6 < usize::MAX);
        }
        let inode_ref = match self.get(ROOTDEV, inum) {
            Some(inode_ref) => inode_ref,
            None => {
                return Err(());
            },
        };
        let y = inode_ref.cache_index;
        let ghost c3 = self.inodes.cache;
        proof {
            assert(c2.keys()[d as int] == Some(fs0.key(p)));
            assert(c3.keys()[d as int] == Some(fs0.key(p)));
            assert(c0.counts@[y as int] + 6 < usize::MAX);
            assert(self.held(d as int, p));
            assert(self.file(p) == fs0.file(p));
        }
        self.close(d, Ghost(p));
        let ghost c4 = self.inodes.cache;
        proof {
            lemma_added_beside(c0, c2, c3, c4, d as int, fs0.key(p), y as int, fs0.key(t));
            lemma_bounded(c0, c4, y as int, fs0.key(t));
            assert(self.held(y as int, t));
            assert(self.file(t) == fs0.file(t));
        }
        let _guard = self.lock(&inode_ref);
        let ghost c5 = self.inodes.cache;
        proof {
            assert(self.working(y as int, t));
            self.lemma_working(y as int, t);
        }
        let fits = kind == InodeKind::File && (self.inodes.inodes[y].is_file() || self.inodes.inodes[y].is_device());
        self.put(y);
        proof {
            lemma_ref_back(c4, c5, self.inodes.cache, y as int, fs0.key(t));
            assert(self.held(y as int, t));
            self.lemma_working(y as int, t);
        }
        if fits {
            return Ok(y);
        }
        proof {
            self.lemma_not_freed(fs0, y as int, t);
        }
        self.put(y);
        proof {
            lemma_ref_back(c0, c4, self.inodes.cache, y as int, fs0.key(t));
        }
        Err(())
    }

    /// Makes a file, or finds one, within a transaction.
    #[verifier::rlimit(100)]
    #[verifier::spinoff_prover]
    fn create_logged(&mut self, path: &Vec<u8>, cwd: &Option<usize>, kind: InodeKind, major: u16, minor: u16) -> (r: Result<InodeGuard, ()>)
        requires
            old(self).wf(),
            old(self).links_ok(),
            refs_bounded(old(self).inodes.cache, 8),
            old(self).device() == ROOTDEV,
            old(self).origin_ok(slot_of(*cwd)),
            old(self).root_had(path@),
            kind != InodeKind::Unused,
            kind == InodeKind::Directory ==> (old(self).parent(path@, slot_of(*cwd)) matches Some(p) ==> old(self).file(p).nlink < 65535),
            old(self).volume.room(9),
        ensures
            final(self).wf(),
            final(self).sb() == old(self).sb(),
            final(self).device() == old(self).device(),
            final(self).volume.session() == old(self).volume.session(),
            final(self).volume.used() <= old(self).volume.used() + 9,
            old(self).volume.logged().subset_of(final(self).volume.logged()),
            match r {
                Ok(g) => {
                    let y = g.cache_index as int;
                    let t = final(self).inodes.cache.keys()[y]->0.index as int;
                    &&& ref_added(old(self).inodes.cache, final(self).inodes.cache, y, old(self).key(t))
                    &&& final(self).working(y, t)
                    &&& old(self).create_had(path@, slot_of(*cwd))
                    &&& {
                        ||| old(self).create_found(*final(self), path@, slot_of(*cwd), kind, t) && same_files(*old(self), *final(self))
                        ||| {
                            &&& old(self).create_new(*final(self), path@, slot_of(*cwd), kind, major as int, minor as int, t)
                            &&& final(self).fresh(y)
                            &&& final(self).volume.inode_due(t) == 0
                        }
                    }
                },
                Err(_) => {
                    &&& same_refs(old(self).inodes.cache, final(self).inodes.cache)
                    &&& old(self).create_had(path@, slot_of(*cwd)) ==> files_alike(*old(self), *final(self)) && old(self).create_refused(
                        path@,
                        slot_of(*cwd),
                        kind,
                    )
                    &&& files_alike(*old(self), *final(self)) || exists|mid: FileSystem<D>| #[trigger]
                        same_files(*old(self), mid) && mid.lost_inode(*final(self), kind)
                },
            },
    {
        let ghost fs0 = *self;
        let ghost c0 = self.inodes.cache;
        let ghost p = fs0.parent(path@, slot_of(*cwd))->0;
        let (d, name) = match self.open_parent(path, cwd) {
            Some(found) => found,
            None => {
                return Err(());
            },
        };
        let ghost c2 = self.inodes.cache;
        let ghost fs2 = *self;
        let ghost c = fs0.file(p).bytes;
        proof {
            assert(c0.counts@[d as int] + 8 < usize::MAX);
            assert(self.held(d as int, p));
            self.lemma_working(d as int, p);
            assert(self.file(p) == fs0.file(p));
            lemma_dir_target(c, name@);
            lemma_entry_had(fs0, c2.keys(), d as int, p, name@);
        }
        let found = self.inodes.inodes[d].lookup(&mut self.volume, &self.inodes.cache, &name);
        let ghost fs3 = *self;
        proof {
            lemma_same_wf(fs2, *self);
            assert(self.file(p) == fs0.file(p));
        }
        match found {
            Some((inum, offset)) => {
                proof {
                    assert(is_entry_of(c, name@, offset as int / 16));
                    fs0.lemma_entry(p, offset as int / 16);
                    assert(self.opened(fs0, d as int, p));
                }
                match self.take_found(d, Ghost(fs0), Ghost(p), inum, kind) {
                    Ok(y) => {
                        proof {
                            assert(self.inodes.cache.keys()[y as int] == Some(fs0.key(inum as int)));
                            assert(fs0.create_found(*self, path@, slot_of(*cwd), kind, inum as int));
                        }
                        Ok(InodeGuard { cache_index: y })
                    },
                    Err(_) => {
                        proof {
                            assert(files_alike(fs0, *self));
                        }
                        Err(())
                    },
                }
            },
            None => {
                proof {
                    assert forall|k: int| 0 <= k < NINODE implies #[trigger] self.inodes.cache.counts@[k] + 6 < usize::MAX by {
                        assert(c0.counts@[k] + 8 < usize::MAX);
                    }
                    if dir_target(c, name@) is Some {
                        assert(!fs0.entry_had(fs0.slots(), p, name@));
                    }
                    lemma_free_slots(c2.keys());
                }
                let made = self.make_file(d, Ghost(p), &name, kind, major, minor);
                let ghost fs4 = *self;
                proof {
                    fs0.lemma_create_end(fs3, fs4, path@, slot_of(*cwd), d as int, p, made, kind, major as int, minor as int);
                    assert(self.held(d as int, p));
                }
                self.close(d, Ghost(p));
                proof {
                    let fs5 = *self;
                    if let Ok(y) = made {
                        let t = fs4.inodes.cache.keys()[y as int]->0.index as int;
                        lemma_added_beside(c0, c2, fs4.inodes.cache, self.inodes.cache, d as int, fs0.key(p), y as int, fs0.key(t));
                        lemma_made_moved(fs0, fs4, fs5, p, name@, t, kind, major as int, minor as int);
                        assert(self.held(y as int, t));
                        self.lemma_working(y as int, t);
                        assert(c2.keys()[y as int] is None) by {
                            assert(first_unused(fs3, t));
                            if c2.keys()[y as int] is Some {
                                assert(fs3.inodes.cache.counts@[y as int] == 0 <==> fs3.inodes.cache.keys()[y as int] is None);
                                assert(fs3.slot_ok(y as int));
                            }
                        }
                        assert(no_entry_of(c, name@));
                    } else {
                        lemma_refs_at(c0, c2, fs4.inodes.cache, d as int, fs0.key(p), 2);
                        assert(c0.counts@[d as int] == 0 <==> c0.keys()[d as int] is None);
                        assert(self.inodes.cache.counts@ =~= c0.counts@);
                        assert(self.inodes.cache.keys() =~= c0.keys());
                        fs0.lemma_create_failed(fs3, fs4, fs5, kind, d as int, p);
                    }
                }
                match made {
                    Ok(y) => Ok(InodeGuard { cache_index: y }),
                    Err(_) => Err(()),
                }
            },
        }
    }

    /// What `make_file` did, seen from before the directory was opened.
    #[verifier::rlimit(40)]
    #[verifier::spinoff_prover]
    proof fn lemma_create_end(
        &self,
        fs3: FileSystem<D>,
        fs4: FileSystem<D>,
        path: Seq<u8>,
        cwd: Option<int>,
        d: int,
        p: int,
        made: Result<usize, ()>,
        kind: InodeKind,
        major: int,
        minor: int,
    )
        requires
            same_files(*self, fs3),
            self.parent(path, cwd) == Some(p),
            is_inode(self.sb(), p),
            refs_at(self.inodes.cache, fs3.inodes.cache, d, self.key(p), 2),
            self.file(p).nlink > 0 || self.inodes.cache.counts@[d] > 0,
            self.file(p).kind != InodeKind::Unused,
            self.wf(),
            refs_bounded(self.inodes.cache, 8),
            match made {
                Ok(y) => {
                    let t = fs4.inodes.cache.keys()[y as int]->0.index as int;
                    &&& fs3.made(fs4, p, elements(path).last(), t, kind, major, minor)
                    &&& ref_added(fs3.inodes.cache, fs4.inodes.cache, y as int, fs3.key(t))
                    &&& y != d
                },
                Err(_) => {
                    &&& same_refs(fs3.inodes.cache, fs4.inodes.cache)
                    &&& {
                        ||| files_alike(fs3, fs4) && fs3.make_refused(p, elements(path).last(), kind)
                        ||| fs3.lost_inode(fs4, kind)
                    }
                },
            },
        ensures
            fs4.file(p).nlink > 0 || fs4.inodes.cache.counts@[d] > 2,
            fs4.inodes.cache.counts@[d] >= 2,
            fs4.inodes.cache.keys()[d] == Some(self.key(p)),
            made is Ok ==> ({
                let t = fs4.inodes.cache.keys()[made->Ok_0 as int]->0.index as int;
                self.made(fs4, p, elements(path).last(), t, kind, major, minor)
            }),
            made is Err && files_alike(fs3, fs4) ==> files_alike(*self, fs4) && (fs3.make_refused(p, elements(path).last(), kind)
                ==> self.make_refused(p, elements(path).last(), kind)),
    {
        let name = elements(path).last();
        assert(self.inodes.cache.counts@[d] + 8 < usize::MAX);
        assert forall|z: int| #[trigger] fs3.file(z) == self.file(z) by {
        }
        if made is Ok {
            let t = fs4.inodes.cache.keys()[made->Ok_0 as int]->0.index as int;
            let k = choose|k: int| #[trigger] is_insert_place(fs3.file(p).bytes, k) && fs4.file(p) == (FileView {
                bytes: with_entry(fs3.file(p).bytes, k, t, name),
                nlink: fs3.file(p).nlink + if kind == InodeKind::Directory { 1int } else { 0int },
                ..fs3.file(p)
            });
            assert(is_insert_place(self.file(p).bytes, k));
            assert forall|j: int| 0 < j < t implies (#[trigger] self.file(j)).kind != InodeKind::Unused by {
                assert(fs3.file(j).kind != InodeKind::Unused);
            }
            assert forall|z: int| 0 <= z < self.sb().ninodes && z != p && z != t implies #[trigger] fs4.file(z) == self.file(z) by {
                assert(fs4.file(z) == fs3.file(z));
            }
            assert(fs3.file(t) == self.file(t));
        } else {
            assert(fs4.file(p) == fs3.file(p) || fs3.lost_inode(fs4, kind));
            if fs3.lost_inode(fs4, kind) {
                let t = choose|t: int| #[trigger] first_unused(fs3, t) && fs4.file(t) == (FileView { kind, ..fs3.file(t) }) && (forall|x: int|
                    0 <= x < fs3.sb().ninodes && x != t ==> #[trigger] fs4.file(x) == fs3.file(x));
                assert(t != p);
                assert(fs4.file(p) == fs3.file(p));
            }
            if files_alike(fs3, fs4) {
                assert forall|x: int| 0 <= x < self.sb().ninodes implies (#[trigger] fs4.file(x) == self.file(x) || (fs4.file(x).kind
                    == InodeKind::Unused && self.file(x).kind == InodeKind::Unused)) by {
                    assert(fs3.file(x) == self.file(x));
                }
                if forall|j: int| is_inode(fs3.sb(), j) ==> (#[trigger] fs3.file(j)).kind != InodeKind::Unused {
                    assert forall|j: int| is_inode(self.sb(), j) implies (#[trigger] self.file(j)).kind != InodeKind::Unused by {
                        assert(fs3.file(j).kind != InodeKind::Unused);
                    }
                }
            }
        }
    }

    /// What failed, seen from before the directory was opened.
    proof fn lemma_create_failed(&self, fs3: FileSystem<D>, fs4: FileSystem<D>, fs5: FileSystem<D>, kind: InodeKind, d: int, p: int)
        requires
            same_files(*self, fs3),
            same_files(fs4, fs5),
            fs4.sb() == self.sb(),
            fs4.device() == self.device(),
            fs4.volume.session() == self.volume.session(),
            refs_at(self.inodes.cache, fs3.inodes.cache, d, self.key(p), 2),
            files_alike(*self, fs4) || fs3.lost_inode(fs4, kind),
        ensures
            files_alike(*self, fs4) ==> files_alike(*self, fs5),
            !files_alike(*self, fs4) ==> exists|mid: FileSystem<D>| #[trigger] same_files(*self, mid) && mid.lost_inode(fs5, kind),
            self.slots().holding(self.key(p)).free > 0 ==> files_alike(*self, fs4),
    {
        assert forall|z: int| #[trigger] fs5.file(z) == fs4.file(z) by {
        }
        if files_alike(*self, fs4) {
            assert forall|x: int| 0 <= x < self.sb().ninodes implies (#[trigger] fs5.file(x) == self.file(x) || (fs5.file(x).kind
                == InodeKind::Unused && self.file(x).kind == InodeKind::Unused)) by {
                assert(fs5.file(x) == fs4.file(x));
            }
        } else {
            let t = choose|t: int| #[trigger] first_unused(fs3, t) && fs4.file(t) == (FileView { kind, ..fs3.file(t) }) && (forall|x: int|
                0 <= x < fs3.sb().ninodes && x != t ==> #[trigger] fs4.file(x) == fs3.file(x));
            assert(first_unused(fs3, t));
            assert(fs5.file(t) == fs4.file(t));
            assert forall|x: int| 0 <= x < fs3.sb().ninodes && x != t implies #[trigger] fs5.file(x) == fs3.file(x) by {
                assert(fs5.file(x) == fs4.file(x));
            }
            assert(fs3.lost_inode(fs5, kind));
            assert(same_files(*self, fs3));
            lemma_slots_held(self.inodes.cache.keys(), fs3.inodes.cache.keys(), d, self.key(p));
            lemma_free_slots(fs3.inodes.cache.keys());
        }
    }
}

/// A file that was made stays made where nothing changes.
proof fn lemma_made_moved<D: BlockDevice>(
    fs0: FileSystem<D>,
    fs4: FileSystem<D>,
    fs5: FileSystem<D>,
    p: int,
    name: Seq<u8>,
    t: int,
    kind: InodeKind,
    major: int,
    minor: int,
)
    requires
        fs0.made(fs4, p, name, t, kind, major, minor),
        fs5.v() == fs4.v(),
        fs5.sb() == fs4.sb(),
    ensures
        fs0.made(fs5, p, name, t, kind, major, minor),
{
    assert forall|z: int| #[trigger] fs5.file(z) == fs4.file(z) by {
    }
    let k = choose|k: int| #[trigger] is_insert_place(fs0.file(p).bytes, k) && fs4.file(p) == (FileView {
        bytes: with_entry(fs0.file(p).bytes, k, t, name),
        nlink: fs0.file(p).nlink + if kind == InodeKind::Directory { 1int } else { 0int },
        ..fs0.file(p)
    });
    assert(is_insert_place(fs0.file(p).bytes, k));
    assert(fs5.file(p) == fs4.file(p));
    assert(fs5.file(t) == fs4.file(t));
    assert forall|z: int| 0 <= z < fs0.sb().ninodes && z != p && z != t implies #[trigger] fs5.file(z) == fs0.file(z) by {
        assert(fs5.file(z) == fs4.file(z));
        assert(fs4.file(z) == fs0.file(z));
    }
}


/// Two states differ in nothing but active system calls.
pub open spec fn agree<D: BlockDevice>(fs0: FileSystem<D>, fs1: FileSystem<D>) -> bool {
    &&& fs1.v() == fs0.v()
    &&& fs1.sb() == fs0.sb()
    &&& fs1.device() == fs0.device()
    &&& fs1.inodes == fs0.inodes
    &&& fs1.volume.owner == fs0.volume.owner
    &&& fs1.volume.used() == fs0.volume.used()
    &&& fs1.volume.logged() == fs0.volume.logged()
}

proof fn lemma_agree_walk<D: BlockDevice>(fs0: FileSystem<D>, fs1: FileSystem<D>, j: int, names: Seq<Seq<u8>>)
    requires
        agree(fs0, fs1),
    ensures
        fs1.walk(j, names) == fs0.walk(j, names),
        forall|slots: Slots| #[trigger] fs1.walk_had(slots, j, names) == fs0.walk_had(slots, j, names),
    decreases names.len(),
{
    assert(fs1.file(j) == fs0.file(j));
    if names.len() > 0 && fs0.file(j).kind == InodeKind::Directory {
        if dir_target(fs0.file(j).bytes, names[0]) is Some {
            lemma_agree_walk(fs0, fs1, dir_target(fs0.file(j).bytes, names[0])->0, names.skip(1));
        }
    }
    assert forall|slots: Slots| #[trigger] fs1.walk_had(slots, j, names) == fs0.walk_had(slots, j, names) by {
        if names.len() > 0 && fs0.file(j).kind == InodeKind::Directory && dir_target(fs0.file(j).bytes, names[0]) is Some {
            let t = dir_target(fs0.file(j).bytes, names[0])->0;
            assert(fs1.walk_had(slots, t, names.skip(1)) == fs0.walk_had(slots, t, names.skip(1)));
        }
    }
}

proof fn lemma_agree_path<D: BlockDevice>(fs0: FileSystem<D>, fs1: FileSystem<D>, slots: Slots, path: Seq<u8>, cwd: Option<int>)
    requires
        agree(fs0, fs1),
    ensures
        fs1.reached(slots, path, cwd) == fs0.reached(slots, path, cwd),
        fs1.parent_reached(slots, path, cwd) == fs0.parent_reached(slots, path, cwd),
        fs1.parent(path, cwd) == fs0.parent(path, cwd),
        fs1.file(fs0.parent(path, cwd)->0) == fs0.file(fs0.parent(path, cwd)->0),
{
    let start = fs0.origin(path, cwd);
    if start is Some {
        let names = elements(path);
        lemma_agree_walk(fs0, fs1, start->0, names);
        lemma_agree_walk(fs0, fs1, start->0, names.drop_last());
        assert(fs1.walk_had(slots, start->0, names) == fs0.walk_had(slots, start->0, names));
        assert(fs1.walk_had(slots, start->0, names.drop_last()) == fs0.walk_had(slots, start->0, names.drop_last()));
        assert forall|z: int| #[trigger] fs1.file(z) == fs0.file(z) by {}
    }
}

proof fn lemma_agree_had<D: BlockDevice>(fs0: FileSystem<D>, fs1: FileSystem<D>)
    requires
        agree(fs0, fs1),
    ensures
        fs1.slots() == fs0.slots(),
        forall|slots: Slots, path: Seq<u8>, cwd: Option<int>| #[trigger] fs1.reached(slots, path, cwd) == fs0.reached(slots, path, cwd),
        forall|slots: Slots, path: Seq<u8>, cwd: Option<int>| #[trigger] fs1.parent_reached(slots, path, cwd) == fs0.parent_reached(
            slots,
            path,
            cwd,
        ),
        forall|path: Seq<u8>, cwd: Option<int>| #[trigger] fs1.create_had(path, cwd) == fs0.create_had(path, cwd),
{
    assert forall|slots: Slots, path: Seq<u8>, cwd: Option<int>| #[trigger] fs1.reached(slots, path, cwd) == fs0.reached(slots, path, cwd) by {
        lemma_agree_path(fs0, fs1, slots, path, cwd);
    }
    assert forall|slots: Slots, path: Seq<u8>, cwd: Option<int>| #[trigger] fs1.parent_reached(slots, path, cwd) == fs0.parent_reached(
        slots,
        path,
        cwd,
    ) by {
        lemma_agree_path(fs0, fs1, slots, path, cwd);
    }
    assert forall|path: Seq<u8>, cwd: Option<int>| #[trigger] fs1.create_had(path, cwd) == fs0.create_had(path, cwd) by {
        lemma_agree_path(fs0, fs1, fs0.slots(), path, cwd);
    }
}

#[verifier::rlimit(40)]
proof fn lemma_agree<D: BlockDevice>(fs0: FileSystem<D>, fs1: FileSystem<D>)
    requires
        agree(fs0, fs1),
    ensures
        forall|path: Seq<u8>, cwd: Option<int>| #[trigger] fs1.parent(path, cwd) == fs0.parent(path, cwd),
        forall|path: Seq<u8>, cwd: Option<int>| #[trigger] fs1.target(path, cwd) == fs0.target(path, cwd),
        forall|z: int| #[trigger] fs1.file(z) == fs0.file(z),
        forall|cwd: Option<int>| fs0.origin_ok(cwd) ==> #[trigger] fs1.origin_ok(cwd),
        forall|t: int| #[trigger] first_unused(fs1, t) ==> first_unused(fs0, t),
        fs0.links_ok() ==> fs1.links_ok(),
        fs1.slots() == fs0.slots(),
        forall|slots: Slots, path: Seq<u8>, cwd: Option<int>| #[trigger] fs1.reached(slots, path, cwd) == fs0.reached(slots, path, cwd),
        forall|slots: Slots, path: Seq<u8>, cwd: Option<int>| #[trigger] fs1.parent_reached(slots, path, cwd) == fs0.parent_reached(
            slots,
            path,
            cwd,
        ),
        forall|path: Seq<u8>, cwd: Option<int>| #[trigger] fs1.create_had(path, cwd) == fs0.create_had(path, cwd),
{
    assert forall|z: int| #[trigger] fs1.file(z) == fs0.file(z) by {
    }
    assert forall|path: Seq<u8>, cwd: Option<int>| #[trigger] fs1.parent(path, cwd) == fs0.parent(path, cwd) by {
        let start = fs0.origin(path, cwd);
        if start is Some {
            lemma_agree_walk(fs0, fs1, start->0, elements(path).drop_last());
        }
    }
    assert forall|path: Seq<u8>, cwd: Option<int>| #[trigger] fs1.target(path, cwd) == fs0.target(path, cwd) by {
        let start = fs0.origin(path, cwd);
        if start is Some {
            lemma_agree_walk(fs0, fs1, start->0, elements(path));
        }
    }
    lemma_agree_had(fs0, fs1);
    assert forall|t: int| #[trigger] first_unused(fs1, t) implies first_unused(fs0, t) by {
        assert forall|j: int| 0 < j < t implies (#[trigger] fs0.file(j)).kind != InodeKind::Unused by {
            assert(fs1.file(j).kind != InodeKind::Unused);
        }
    }
    assert(fs0.links_ok() ==> fs1.links_ok()) by {
        if fs0.links_ok() {
            assert forall|d: int, k: int|
                is_inode(fs1.sb(), d) && fs1.file(d).kind == InodeKind::Directory && 0 <= k < fs1.file(d).bytes.len() as int
                    / 16 implies #[trigger] fs1.entry_ok(d, k) by {
                fs0.lemma_entry(d, k);
                assert(fs1.file(d) == fs0.file(d));
            }
            reveal(FileSystem::links_ok);
        }
    }
    assert forall|cwd: Option<int>| fs0.origin_ok(cwd) implies #[trigger] fs1.origin_ok(cwd) by {
        assert(fs1.file(ROOTINO as int) == fs0.file(ROOTINO as int));
    }
}

/// Two states have the same files and use the same blocks, apart from the log.
pub open spec fn settled<D: BlockDevice>(fs0: FileSystem<D>, fs1: FileSystem<D>) -> bool {
    &&& fs1.sb() == fs0.sb()
    &&& fs1.device() == fs0.device()
    &&& fs1.inodes == fs0.inodes
    &&& fs1.volume.owner == fs0.volume.owner
    &&& forall|x: int| 0 <= x < fs0.sb().ninodes ==> #[trigger] fs1.file(x) == fs0.file(x)
    &&& bits_kept(fs0, fs1)
}

/// Changes in the log alone disturb nothing.
proof fn lemma_settled<D: BlockDevice>(fs0: FileSystem<D>, fs1: FileSystem<D>)
    requires
        fs0.wf(),
        fs1.volume.storage.wf(),
        fs1.volume.storage.log.outstanding == 0 ==> fs1.volume.storage.log.header.n == 0,
        fs1.sb() == fs0.sb(),
        fs1.device() == fs0.device(),
        fs1.inodes == fs0.inodes,
        fs1.volume.owner == fs0.volume.owner,
        fs1.volume.storage.log.start == fs0.volume.storage.log.start,
        fs1.volume.storage.log.size == fs0.volume.storage.log.size,
        fs1.v().len() == fs0.v().len(),
        forall|b: int| 0 <= b < fs0.v().len() && !fs0.volume.storage.log.in_area(b) ==> #[trigger] fs1.v()[b] == fs0.v()[b],
    ensures
        fs1.wf(),
        settled(fs0, fs1),
{
    let sb = fs0.sb();
    let v0 = fs0.v();
    let v1 = fs1.v();
    let o = fs0.volume.owner@;
    assert forall|b: int| sb.inodestart <= b < v0.len() implies #[trigger] v1[b] == v0[b] by {
        assert(!fs0.volume.storage.log.in_area(b));
    }
    Volume::<D>::lemma_meta_kept(v0, v1, sb);
    lemma_table_change(v0, v1, sb, o);
    assert forall|b: int| 0 <= b < crate::filesystem::volume::data_start(sb) implies #[trigger] in_use(v1, sb, b) by {
        assert(in_use(v0, sb, b));
    }
    assert forall|j: int| 0 <= j < sb.ninodes implies #[trigger] fs1.file(j) == fs0.file(j) && fs1.disk_ok(j) && fs1.disk(j) == fs0.disk(j) by {
        assert(v1[sb.inodestart + j / 16] == v0[sb.inodestart + j / 16]);
        assert(fs0.disk_ok(j));
    }
    assert forall|j: int| 0 <= j < sb.ninodes implies #[trigger] fs1.disk_ok(j) by {
        assert(fs1.file(j) == fs0.file(j));
    }
    assert forall|k: int| 0 <= k < NINODE implies #[trigger] fs1.slot_ok(k) by {
        assert(fs0.slot_ok(k));
        if fs0.inodes.cache.keys()[k] is Some {
            let x = fs0.inodes.cache.keys()[k]->0.index as int;
            assert(fs1.file(x) == fs0.file(x));
            assert(fs1.disk_ok(x));
            if fs0.inodes.inodes@[k].is_initialized {
                assert(inode_wf(v0, sb, o, x, fs0.inodes.inodes@[k].inode@));
            }
        }
    }
}

impl<D: BlockDevice> FileSystem<D> {
    /// How many transactions of the log were committed.
    pub open spec fn commits(&self) -> nat {
        self.volume.storage.log.commits@
    }

    /// A system call that changes files can begin without waiting.
    pub open spec fn can_begin(&self) -> bool {
        self.volume.storage.log.header.n + (self.volume.storage.log.outstanding + 1) * MAXOPBLOCKS <= LOGSIZE
    }

    /// Begins a system call that changes files. `false` means that the caller has to wait.
    pub fn begin(&mut self) -> (r: bool)
        requires
            old(self).wf(),
        ensures
            final(self).wf(),
            r == old(self).can_begin(),
            agree(*old(self), *final(self)),
            final(self).volume.session() == (
                (old(self).volume.storage.log.outstanding + if r { 1int } else { 0int }) as usize,
                old(self).device(),
                old(self).commits(),
            ),
            final(self).volume.storage.log.header == old(self).volume.storage.log.header,
    {
        let ghost fs0 = *self;
        let r = self.volume.storage.begin();
        proof {
            assert(self.volume.storage.log.homes() =~= fs0.volume.storage.log.homes());
            lemma_agree_wf(fs0, *self);
        }
        r
    }

    /// Ends a system call that changes files. The last one that is active makes all changes
    /// durable.
    pub fn end(&mut self)
        requires
            old(self).wf(),
            old(self).volume.storage.log.outstanding > 0,
        ensures
            final(self).wf(),
            settled(*old(self), *final(self)),
            final(self).volume.session().0 == old(self).volume.session().0 - 1,
            final(self).volume.session().1 == old(self).volume.session().1,
            final(self).commits() == old(self).commits() + if old(self).volume.storage.log.outstanding == 1 { 1int } else { 0int },
            old(self).volume.storage.log.outstanding == 1 ==> final(self).volume.storage.log.header.n == 0,
            old(self).volume.storage.log.outstanding > 1 ==> final(self).volume.storage.log.header == old(self).volume.storage.log.header,
            old(self).volume.storage.log.outstanding == 1 ==> forall|b: int| old(self).sb().inodestart <= b < old(self).v().len() ==>
                #[trigger] final(self).volume.storage.device.blocks()[b] == old(self).v()[b],
    {
        let ghost fs0 = *self;
        self.volume.storage.end();
        proof {
            lemma_settled(fs0, *self);
            if fs0.volume.storage.log.outstanding == 1 {
                assert forall|b: int| fs0.sb().inodestart <= b < fs0.v().len() implies
                    #[trigger] self.volume.storage.device.blocks()[b] == fs0.v()[b] by {
                    assert(!fs0.volume.storage.log.in_area(b));
                    assert(self.volume.storage.view()[b] == fs0.volume.storage.view()[b]);
                }
            }
        }
    }
}

proof fn lemma_agree_wf<D: BlockDevice>(fs0: FileSystem<D>, fs1: FileSystem<D>)
    requires
        fs0.wf(),
        agree(fs0, fs1),
        fs1.volume.storage.wf(),
        fs1.volume.storage.log.outstanding == 0 ==> fs1.volume.storage.log.header.n == 0,
        fs1.volume.storage.log.start == fs0.volume.storage.log.start,
        fs1.volume.storage.log.size == fs0.volume.storage.log.size,
    ensures
        fs1.wf(),
{
    lemma_settled(fs0, fs1);
}


proof fn lemma_unlink_fits<D: BlockDevice>(fs0: FileSystem<D>, fs1: FileSystem<D>, p: int, name: Seq<u8>)
    requires
        agree(fs0, fs1),
    ensures
        fs1.unlink_fits(p, name) == fs0.unlink_fits(p, name),
{
    reveal(FileSystem::unlink_fits);
    assert(fs1.file(p) == fs0.file(p));
    if let Some(t) = dir_target(fs0.file(p).bytes, name) {
        assert(fs1.file(t) == fs0.file(t));
        assert(fs1.volume.map_of(t) == fs0.volume.map_of(t));
    }
}

impl<D: BlockDevice> FileSystem<D> {
    /// What every call that works on a path needs: files in order, room in memory for the inode at
    /// which it begins, a system call that can begin at once and room in the log for `k` blocks.
    pub open spec fn ready(&self, path: Seq<u8>, cwd: Option<int>, k: int) -> bool {
        &&& self.wf()
        &&& self.links_ok()
        &&& refs_bounded(self.inodes.cache, 8)
        &&& self.device() == ROOTDEV
        &&& self.origin_ok(cwd)
        &&& self.root_had(path)
        &&& self.can_begin()
        &&& self.volume.fits(k)
    }

    /// Removes a name. The file goes with its last name, unless somebody still uses it.
    #[verifier::rlimit(40)]
    pub fn unlink(&mut self, path: &Vec<u8>, cwd: &Option<usize>) -> (r: Result<(), ()>)
        requires
            old(self).ready(path@, slot_of(*cwd), 3),
            old(self).parent(path@, slot_of(*cwd)) matches Some(p) ==> old(self).unlink_ok(p, elements(path@).last()) && old(self).unlink_fits(
                p,
                elements(path@).last(),
            ),
        ensures
            final(self).wf(),
            final(self).sb() == old(self).sb(),
            final(self).device() == old(self).device(),
            final(self).volume.activity() == old(self).volume.activity(),
            same_refs(old(self).inodes.cache, final(self).inodes.cache),
            r is Ok ==> old(self).unlink_done(*final(self), path@, slot_of(*cwd)),
            r is Err ==> files_kept(*old(self), *final(self)) && old(self).unlink_refused(path@, slot_of(*cwd)),
    {
        let ghost fs0 = *self;
        let _ = self.begin();
        let ghost fs1 = *self;
        proof {
            lemma_agree(fs0, fs1);
        }
        proof {
            let p = fs0.parent(path@, slot_of(*cwd))->0;
            assert(fs1.unlink_fits(p, elements(path@).last()) == fs0.unlink_fits(p, elements(path@).last())) by {
                lemma_unlink_fits(fs0, fs1, p, elements(path@).last());
            }
        }
        let r = self.unlink_logged(path, cwd);
        let ghost fs2 = *self;
        self.end();
        proof {
            let w = slot_of(*cwd);
            let pp = fs0.parent(path@, w);
            assert(fs1.parent(path@, w) == pp);
            let p = pp->0;
            let name = elements(path@).last();
            if r is Ok {
                let c = fs0.file(p).bytes;
                assert(fs1.file(p) == fs0.file(p));
                let k = choose|k: int| {
                    &&& #[trigger] is_entry_of(c, name, k)
                    &&& fs1.file(entry_inum(c, k)).kind == InodeKind::Directory ==> only_dots(fs1.file(entry_inum(c, k)).bytes)
                    &&& fs1.unlinked(fs2, p, entry_inum(c, k), k)
                };
                let t = entry_inum(c, k);
                fs1.lemma_same_parent(fs1, path@, w);
                fs1.lemma_entry(p, k);
                assert(fs1.file(t) == fs0.file(t));
                assert(self.file(p) == fs2.file(p));
                assert(self.file(t) == fs2.file(t));
                assert forall|x: int| 0 <= x < fs0.sb().ninodes && x != p && x != t implies #[trigger] self.file(x) == fs0.file(x) by {
                    assert(self.file(x) == fs2.file(x));
                    assert(fs1.file(x) == fs0.file(x));
                }
                assert(fs0.unlinked(*self, p, t, k));
            } else {
                assert forall|x: int| 0 <= x < fs0.sb().ninodes implies #[trigger] self.file(x) == fs0.file(x) by {
                    assert(self.file(x) == fs2.file(x));
                    assert(fs2.file(x) == fs1.file(x));
                }
                assert(fs1.file(p) == fs0.file(p));
                let t = dir_target(fs0.file(p).bytes, name);
                assert(fs1.file(t->0) == fs0.file(t->0));
                assert(fs1.parent_reached(fs0.slots(), path@, w) == fs0.parent_reached(fs0.slots(), path@, w));
            }
        }
        r
    }

    /// Makes `new` a second name of the file `old_path`, which must not be a directory.
    #[verifier::rlimit(40)]
    pub fn link(&mut self, new: &Vec<u8>, old_path: &Vec<u8>, cwd: &Option<usize>) -> (r: Result<(), ()>)
        requires
            old(self).ready(old_path@, slot_of(*cwd), 6),
            old(self).target(old_path@, slot_of(*cwd)) matches Some(t) ==> {
                &&& old(self).file(t).nlink < 65535
                &&& is_absolute(new@) ==> old(self).slots().holding(old(self).key(t)).can_hold(old(self).key(ROOTINO as int))
            },
        ensures
            final(self).wf(),
            final(self).sb() == old(self).sb(),
            final(self).device() == old(self).device(),
            final(self).volume.activity() == old(self).volume.activity(),
            same_refs(old(self).inodes.cache, final(self).inodes.cache),
            r is Ok ==> old(self).link_done(*final(self), new@, old_path@, slot_of(*cwd)),
            r is Err ==> files_kept(*old(self), *final(self)) && old(self).link_refused(new@, old_path@, slot_of(*cwd)),
    {
        let ghost fs0 = *self;
        let _ = self.begin();
        let ghost fs1 = *self;
        let ghost w = slot_of(*cwd);
        proof {
            lemma_agree(fs0, fs1);
            assert(fs1.target(old_path@, w) == fs0.target(old_path@, w));
            assert(fs1.file(fs0.target(old_path@, w)->0) == fs0.file(fs0.target(old_path@, w)->0));
        }
        let r = self.link_logged(new, old_path, cwd);
        let ghost fs2 = *self;
        self.end();
        proof {
            let pp = fs0.parent(new@, w);
            assert(fs1.parent(new@, w) == pp);
            let p = pp->0;
            let t = fs0.target(old_path@, w)->0;
            let name = elements(new@).last();
            assert(fs1.file(p) == fs0.file(p));
            if r is Ok {
                let c = fs0.file(p).bytes;
                let k = choose|k: int| #[trigger] is_insert_place(c, k) && fs1.linked(fs2, p, t, k, name);
                assert(is_insert_place(c, k));
                fs1.lemma_target_ok(new@, old_path@, w);
                assert(self.file(p) == fs2.file(p));
                assert(self.file(t) == fs2.file(t));
                assert forall|x: int| 0 <= x < fs0.sb().ninodes && x != p && x != t implies #[trigger] self.file(x) == fs0.file(x) by {
                    assert(self.file(x) == fs2.file(x));
                    assert(fs1.file(x) == fs0.file(x));
                }
                assert(fs0.linked(*self, p, t, k, name));
            } else {
                assert forall|x: int| 0 <= x < fs0.sb().ninodes implies #[trigger] self.file(x) == fs0.file(x) by {
                    assert(self.file(x) == fs2.file(x));
                    assert(fs2.file(x) == fs1.file(x));
                }
                let slots = fs0.slots().holding(fs0.key(t));
                assert(fs1.reached(fs0.slots(), old_path@, w) == fs0.reached(fs0.slots(), old_path@, w));
                assert(fs1.parent_reached(slots, new@, w) == fs0.parent_reached(slots, new@, w));
            }
        }
        r
    }

    /// Inodes that paths lead to are in range.
    proof fn lemma_target_ok(&self, new: Seq<u8>, old_path: Seq<u8>, cwd: Option<int>)
        requires
            self.wf(),
            self.links_ok(),
            self.origin_ok(cwd),
        ensures
            self.parent(new, cwd) is Some ==> is_inode(self.sb(), self.parent(new, cwd)->0),
            self.target(old_path, cwd) is Some ==> is_inode(self.sb(), self.target(old_path, cwd)->0),
    {
        self.lemma_same_parent(*self, new, cwd);
        let start = self.origin(old_path, cwd);
        if start is Some {
            if cwd is Some {
                assert(self.slot_ok(cwd->0));
            }
            self.lemma_walk_same(*self, start->0, elements(old_path));
        }
    }

    /// Makes a file of the given kind under `path`, or finds the file or device that is there
    /// where a file is wanted. The result is ready to be worked on.
    #[verifier::rlimit(60)]
    #[verifier::spinoff_prover]
    pub fn create(&mut self, path: &Vec<u8>, cwd: &Option<usize>, kind: InodeKind, major: u16, minor: u16) -> (r: Result<InodeGuard, ()>)
        requires
            old(self).ready(path@, slot_of(*cwd), 9),
            kind != InodeKind::Unused,
            kind == InodeKind::Directory ==> (old(self).parent(path@, slot_of(*cwd)) matches Some(p) ==> old(self).file(p).nlink < 65535),
        ensures
            final(self).wf(),
            final(self).sb() == old(self).sb(),
            final(self).device() == old(self).device(),
            final(self).volume.activity() == old(self).volume.activity(),
            match r {
                Ok(g) => {
                    let y = g.cache_index as int;
                    let t = final(self).inodes.cache.keys()[y]->0.index as int;
                    &&& ref_added(old(self).inodes.cache, final(self).inodes.cache, y, old(self).key(t))
                    &&& final(self).working(y, t)
                    &&& old(self).create_had(path@, slot_of(*cwd))
                    &&& {
                        ||| old(self).create_found(*final(self), path@, slot_of(*cwd), kind, t)
                        ||| old(self).create_new(*final(self), path@, slot_of(*cwd), kind, major as int, minor as int, t)
                    }
                },
                Err(_) => {
                    &&& same_refs(old(self).inodes.cache, final(self).inodes.cache)
                    &&& old(self).create_had(path@, slot_of(*cwd)) ==> files_alike(*old(self), *final(self)) && old(self).create_refused(
                        path@,
                        slot_of(*cwd),
                        kind,
                    )
                    &&& files_alike(*old(self), *final(self)) || one_lost(*old(self), *final(self), kind)
                },
            },
    {
        let ghost fs0 = *self;
        let _ = self.begin();
        let ghost fs1 = *self;
        let ghost w = slot_of(*cwd);
        proof {
            lemma_agree(fs0, fs1);
            assert(fs1.parent(path@, w) == fs0.parent(path@, w));
            assert(fs1.file(fs0.parent(path@, w)->0) == fs0.file(fs0.parent(path@, w)->0));
            assert(fs1.create_had(path@, w) == fs0.create_had(path@, w));
        }
        let r = self.create_logged(path, cwd, kind, major, minor);
        let ghost fs2 = *self;
        self.end();
        proof {
            let fs3 = *self;
            fs1.lemma_target_ok(path@, path@, w);
            if r is Ok {
                let y = r->Ok_0.cache_index as int;
                let t = fs2.inodes.cache.keys()[y]->0.index as int;
                assert(self.held(y, t));
                self.lemma_working(y, t);
                lemma_created(fs0, fs1, fs2, fs3, path@, w, kind, major as int, minor as int, t);
            } else {
                if fs0.create_had(path@, w) {
                    lemma_not_created(fs0, fs1, fs2, fs3, path@, w, kind);
                }
                lemma_one_lost(fs1, fs2, kind);
                lemma_create_lost(fs0, fs1, fs2, fs3, kind);
            }
        }
        r
    }

    /// Makes a directory.
    pub fn make_directory(&mut self, path: &Vec<u8>, cwd: &Option<usize>) -> (r: Result<(), ()>)
        requires
            old(self).ready(path@, slot_of(*cwd), 9),
            old(self).parent(path@, slot_of(*cwd)) matches Some(p) ==> old(self).file(p).nlink < 65535,
        ensures
            final(self).wf(),
            final(self).sb() == old(self).sb(),
            final(self).device() == old(self).device(),
            final(self).volume.activity() == old(self).volume.activity(),
            same_refs(old(self).inodes.cache, final(self).inodes.cache),
            match r {
                Ok(_) => exists|t: int| #[trigger]
                    old(self).create_new(*final(self), path@, slot_of(*cwd), InodeKind::Directory, 0, 0, t),
                Err(_) => node_refused(*old(self), *final(self), path@, slot_of(*cwd), InodeKind::Directory),
            },
    {
        self.make_node(path, cwd, InodeKind::Directory, 0, 0)
    }

    /// Makes a file that stands for a device.
    pub fn make_special_file(&mut self, path: &Vec<u8>, cwd: &Option<usize>, major: u16, minor: u16) -> (r: Result<(), ()>)
        requires
            old(self).ready(path@, slot_of(*cwd), 9),
        ensures
            final(self).wf(),
            final(self).sb() == old(self).sb(),
            final(self).device() == old(self).device(),
            final(self).volume.activity() == old(self).volume.activity(),
            same_refs(old(self).inodes.cache, final(self).inodes.cache),
            match r {
                Ok(_) => exists|t: int| #[trigger]
                    old(self).create_new(*final(self), path@, slot_of(*cwd), InodeKind::Device, major as int, minor as int, t),
                Err(_) => node_refused(*old(self), *final(self), path@, slot_of(*cwd), InodeKind::Device),
            },
    {
        self.make_node(path, cwd, InodeKind::Device, major, minor)
    }

    /// Makes a directory or a device and lets go of it.
    #[verifier::rlimit(60)]
    fn make_node(&mut self, path: &Vec<u8>, cwd: &Option<usize>, kind: InodeKind, major: u16, minor: u16) -> (r: Result<(), ()>)
        requires
            old(self).ready(path@, slot_of(*cwd), 9),
            kind == InodeKind::Directory || kind == InodeKind::Device,
            kind == InodeKind::Directory ==> (old(self).parent(path@, slot_of(*cwd)) matches Some(p) ==> old(self).file(p).nlink < 65535),
        ensures
            final(self).wf(),
            final(self).sb() == old(self).sb(),
            final(self).device() == old(self).device(),
            final(self).volume.activity() == old(self).volume.activity(),
            same_refs(old(self).inodes.cache, final(self).inodes.cache),
            match r {
                Ok(_) => exists|t: int| #[trigger]
                    old(self).create_new(*final(self), path@, slot_of(*cwd), kind, major as int, minor as int, t),
                Err(_) => node_refused(*old(self), *final(self), path@, slot_of(*cwd), kind),
            },
    {
        let ghost fs0 = *self;
        let ghost w = slot_of(*cwd);
        let r = self.create(path, cwd, kind, major, minor);
        match r {
            Ok(g) => {
                let y = g.cache_index;
                let ghost fs1 = *self;
                let ghost t = self.inodes.cache.keys()[y as int]->0.index as int;
                proof {
                    assert(fs0.create_new(fs1, path@, w, kind, major as int, minor as int, t));
                    assert(fs1.file(t).nlink == 1);
                    self.lemma_working(y as int, t);
                }
                self.put(y);
                proof {
                    assert(refs_bounded(fs0.inodes.cache, 0)) by {
                        assert forall|i: int| 0 <= i < NINODE implies #[trigger] fs0.inodes.cache.counts@[i] + 0 < usize::MAX by {
                            assert(fs0.inodes.cache.counts@[i] + 8 < usize::MAX);
                        }
                    }
                    lemma_ref_back(fs0.inodes.cache, fs1.inodes.cache, self.inodes.cache, y as int, fs0.key(t));
                    let p = fs0.parent(path@, w)->0;
                    lemma_made_moved(fs0, fs1, *self, p, elements(path@).last(), t, kind, major as int, minor as int);
                    assert(fs0.create_new(*self, path@, w, kind, major as int, minor as int, t));
                }
                Ok(())
            },
            Err(_) => Err(()),
        }
    }
}

/// A directory or device was not made. Where memory has no room for the inodes, one may be taken
/// on the disk for nothing.
pub open spec fn node_refused<D: BlockDevice>(
    fs0: FileSystem<D>,
    fin: FileSystem<D>,
    path: Seq<u8>,
    cwd: Option<int>,
    kind: InodeKind,
) -> bool {
    &&& fs0.create_had(path, cwd) ==> files_alike(fs0, fin) && fs0.create_refused(path, cwd, kind)
    &&& files_alike(fs0, fin) || one_lost(fs0, fin, kind)
}

/// What was lost is one inode.
pub(crate) proof fn lemma_one_lost<D: BlockDevice>(fs0: FileSystem<D>, fs1: FileSystem<D>, kind: InodeKind)
    requires
        files_alike(fs0, fs1) || exists|mid: FileSystem<D>| #[trigger] same_files(fs0, mid) && mid.lost_inode(fs1, kind),
    ensures
        files_alike(fs0, fs1) || one_lost(fs0, fs1, kind),
{
    if !files_alike(fs0, fs1) {
        let mid = choose|mid: FileSystem<D>| #[trigger] same_files(fs0, mid) && mid.lost_inode(fs1, kind);
        assert forall|x: int| #[trigger] mid.file(x) == fs0.file(x) by {}
        let t = choose|t: int| #[trigger] first_unused(mid, t) && fs1.file(t) == (FileView { kind, ..mid.file(t) }) && (forall|x: int|
            0 <= x < mid.sb().ninodes && x != t ==> #[trigger] fs1.file(x) == mid.file(x));
        assert forall|j: int| 0 < j < t implies (#[trigger] fs0.file(j)).kind != InodeKind::Unused by {
            assert(mid.file(j).kind != InodeKind::Unused);
        }
        assert(mid.file(t) == fs0.file(t));
        assert(first_unused(fs0, t));
        assert forall|x: int| 0 <= x < fs0.sb().ninodes && x != t implies #[trigger] fs1.file(x) == fs0.file(x) by {
            assert(fs1.file(x) == mid.file(x));
        }
    }
}

/// From the transaction to the whole call, where nothing was made.
pub(crate) proof fn lemma_create_lost<D: BlockDevice>(
    fs0: FileSystem<D>,
    fs1: FileSystem<D>,
    fs2: FileSystem<D>,
    fs3: FileSystem<D>,
    kind: InodeKind,
)
    requires
        agree(fs0, fs1),
        settled(fs2, fs3),
        fs2.sb() == fs1.sb(),
        fs2.device() == fs1.device(),
        fs3.volume.activity() == fs0.volume.activity(),
        files_alike(fs1, fs2) || one_lost(fs1, fs2, kind),
    ensures
        files_alike(fs0, fs3) || one_lost(fs0, fs3, kind),
{
    lemma_agree(fs0, fs1);
    assert forall|x: int| 0 <= x < fs0.sb().ninodes implies #[trigger] fs3.file(x) == fs2.file(x) && fs1.file(x) == fs0.file(x) by {}
    if files_alike(fs1, fs2) {
        assert forall|x: int| 0 <= x < fs0.sb().ninodes implies (#[trigger] fs3.file(x) == fs0.file(x) || (fs3.file(x).kind
            == InodeKind::Unused && fs0.file(x).kind == InodeKind::Unused)) by {
            assert(fs2.file(x) == fs1.file(x) || (fs2.file(x).kind == InodeKind::Unused && fs1.file(x).kind == InodeKind::Unused));
        }
    } else {
        let t = choose|t: int| #[trigger] first_unused(fs1, t) && fs2.file(t) == (FileView { kind, ..fs1.file(t) }) && (forall|x: int|
            0 <= x < fs1.sb().ninodes && x != t ==> #[trigger] fs2.file(x) == fs1.file(x));
        assert forall|j: int| 0 < j < t implies (#[trigger] fs0.file(j)).kind != InodeKind::Unused by {
            assert(fs1.file(j).kind != InodeKind::Unused);
        }
        assert(fs1.file(t) == fs0.file(t));
        assert(first_unused(fs0, t));
        assert(fs3.file(t) == fs2.file(t));
        assert forall|x: int| 0 <= x < fs0.sb().ninodes && x != t implies #[trigger] fs3.file(x) == fs0.file(x) by {
            assert(fs2.file(x) == fs1.file(x));
        }
    }
}

proof fn lemma_created<D: BlockDevice>(
    fs0: FileSystem<D>,
    fs1: FileSystem<D>,
    fs2: FileSystem<D>,
    fs3: FileSystem<D>,
    path: Seq<u8>,
    cwd: Option<int>,
    kind: InodeKind,
    major: int,
    minor: int,
    t: int,
)
    requires
        agree(fs0, fs1),
        settled(fs2, fs3),
        fs2.sb() == fs1.sb(),
        fs2.device() == fs1.device(),
        fs3.volume.activity() == fs0.volume.activity(),
        fs1.parent(path, cwd) is Some ==> is_inode(fs1.sb(), fs1.parent(path, cwd)->0),
        fs1.create_found(fs2, path, cwd, kind, t) || fs1.create_new(fs2, path, cwd, kind, major, minor, t),
    ensures
        fs0.create_found(fs3, path, cwd, kind, t) || fs0.create_new(fs3, path, cwd, kind, major, minor, t),
{
    lemma_agree(fs0, fs1);
    assert(fs1.parent(path, cwd) == fs0.parent(path, cwd));
    let p = fs0.parent(path, cwd)->0;
    let name = elements(path).last();
    assert(fs1.file(p) == fs0.file(p));
    assert(fs1.file(t) == fs0.file(t));
    if fs1.create_found(fs2, path, cwd, kind, t) {
        assert forall|x: int| 0 <= x < fs0.sb().ninodes implies #[trigger] fs3.file(x) == fs0.file(x) by {
            assert(fs3.file(x) == fs2.file(x));
            assert(fs2.file(x) == fs1.file(x));
        }
    } else {
        let c = fs0.file(p).bytes;
        let k = choose|k: int| #[trigger] is_insert_place(c, k) && fs2.file(p) == (FileView {
            bytes: with_entry(c, k, t, name),
            nlink: fs1.file(p).nlink + if kind == InodeKind::Directory { 1int } else { 0int },
            ..fs1.file(p)
        });
        assert(is_insert_place(c, k));
        assert(first_unused(fs1, t));
        assert(fs3.file(p) == fs2.file(p));
        assert(fs3.file(t) == fs2.file(t));
        assert forall|z: int| 0 <= z < fs0.sb().ninodes && z != p && z != t implies #[trigger] fs3.file(z) == fs0.file(z) by {
            assert(fs3.file(z) == fs2.file(z));
            assert(fs2.file(z) == fs1.file(z));
        }
        assert(fs0.made(fs3, p, name, t, kind, major, minor));
    }
}

proof fn lemma_not_created<D: BlockDevice>(
    fs0: FileSystem<D>,
    fs1: FileSystem<D>,
    fs2: FileSystem<D>,
    fs3: FileSystem<D>,
    path: Seq<u8>,
    cwd: Option<int>,
    kind: InodeKind,
)
    requires
        agree(fs0, fs1),
        settled(fs2, fs3),
        files_alike(fs1, fs2),
        fs3.volume.activity() == fs0.volume.activity(),
        fs1.create_refused(path, cwd, kind),
    ensures
        files_alike(fs0, fs3),
        fs0.create_refused(path, cwd, kind),
{
    lemma_agree(fs0, fs1);
    assert(fs1.parent(path, cwd) == fs0.parent(path, cwd));
    let p = fs0.parent(path, cwd)->0;
    let name = elements(path).last();
    assert(fs1.file(p) == fs0.file(p));
    let t = dir_target(fs0.file(p).bytes, name);
    assert(fs1.file(t->0) == fs0.file(t->0));
    assert forall|x: int| 0 <= x < fs0.sb().ninodes implies (#[trigger] fs3.file(x) == fs0.file(x) || (fs3.file(x).kind == InodeKind::Unused
        && fs0.file(x).kind == InodeKind::Unused)) by {
        assert(fs3.file(x) == fs2.file(x));
        assert(fs1.file(x) == fs0.file(x));
        assert(fs2.file(x) == fs1.file(x) || (fs2.file(x).kind == InodeKind::Unused && fs1.file(x).kind == InodeKind::Unused));
    }
    if forall|j: int| is_inode(fs1.sb(), j) ==> (#[trigger] fs1.file(j)).kind != InodeKind::Unused {
        assert forall|j: int| is_inode(fs0.sb(), j) implies (#[trigger] fs0.file(j)).kind != InodeKind::Unused by {
            assert(fs1.file(j).kind != InodeKind::Unused);
        }
    }
}


/// A disk whose inodes are in order. `owner` tells whose the data blocks are.
pub open spec fn image_ok(v: Seq<Seq<u8>>, sb: SuperBlock, owner: Map<int, (int, int)>) -> bool {
    &&& layout_wf(sb, v.len() as int)
    &&& meta_in_use(v, sb)
    &&& forall|j: int| 0 <= j < sb.ninodes ==> inode_wf(v, sb, owner, j, #[trigger] disk_inode(v, sb, j))
}

/// What recovery makes of a disk; the log itself is left out.
pub open spec fn after_recovery(disk: Seq<Seq<u8>>, v: Seq<Seq<u8>>, start: int) -> bool {
    &&& v.len() == disk.len()
    &&& forall|b: int| 0 <= b < disk.len() && b != start ==> #[trigger] v[b] == recovered(disk, start)[b]
}

/// After recovery the disk's inodes are in order.
pub open spec fn mountable(disk: Seq<Seq<u8>>, sb: SuperBlock, owner: Map<int, (int, int)>) -> bool {
    forall|v: Seq<Seq<u8>>| after_recovery(disk, v, sb.logstart as int) ==> #[trigger] image_ok(v, sb, owner)
}

/// Mounts the file system on a device, completing a commit that was cut short.
#[verifier::rlimit(60)]
pub fn initialize<D: BlockDevice>(disk: D, device: usize) -> (fs: FileSystem<D>)
    requires
        sized(disk.blocks(), BSIZE as int),
        1 < disk.blocks().len() <= usize::MAX,
        ({
            let sb = SuperBlock::decode(disk.blocks()[1]);
            &&& sb.magic == FSMAGIC
            &&& layout_wf(sb, disk.blocks().len() as int)
            &&& valid_header(disk.blocks()[sb.logstart as int], sb.logstart as int, sb.nlog as int, disk.blocks().len() as int)
            &&& exists|owner: Map<int, (int, int)>| #[trigger] mountable(disk.blocks(), sb, owner)
        }),
    ensures
        fs.wf(),
        fs.sb() == SuperBlock::decode(disk.blocks()[1]),
        fs.device() == device,
        fs.volume.session().0 == 0,
        fs.volume.session().1 == device,
        fs.volume.storage.log.header.n == 0,
        after_recovery(disk.blocks(), fs.v(), fs.sb().logstart as int),
        forall|i: int| 0 <= i < NINODE ==> (#[trigger] fs.inodes.cache.keys()[i]) is None,
{
    let ghost d0 = disk.blocks();
    let mut disk = disk;
    let mut buffers: BufferCache<BSIZE, NBUF> = BufferCache::new();
    let block = match buffers.with_read(&mut disk, device, 1) {
        Some(b) => {
            let block = buffers.contents(&b);
            buffers.release(b);
            block
        },
        None => {
            proof {
                assert(buffers.keys()[0] is None);
                assert(false);
            }
            zeros(BSIZE)
        },
    };
    proof {
        assert(block@ == d0[1]);
        assert(d0[1].len() == BSIZE);
    }
    let superblock = SuperBlock::from_bytes(&block);
    let mut storage = Storage { device: disk, buffers, log: Log::uninit() };
    proof {
        assert forall|i: int| 0 <= i < NBUF implies (#[trigger] storage.buffers.keys()[i]) is None && !(storage.buffers.taken@[i]) by {
            assert(storage.buffers.data(i) == storage.buffers.data(i));
        }
        assert forall|i: int| 0 <= i < NBUF implies !(#[trigger] storage.buffers.taken@[i]) by {
            assert(storage.buffers.keys()[i] is None);
        }
    }
    crate::filesystem::log::initialize(&mut storage, device, &superblock);
    let ghost owner = choose|owner: Map<int, (int, int)>| #[trigger] mountable(d0, superblock, owner);
    let volume = Volume { storage, superblock, owner: Ghost(owner) };
    let fs = FileSystem { volume, inodes: InodeCache::new() };
    proof {
        let v = fs.v();
        let start = superblock.logstart as int;
        assert(after_recovery(d0, v, start));
        assert(image_ok(v, superblock, owner));
        assert forall|j: int| 0 <= j < fs.sb().ninodes implies #[trigger] fs.disk_ok(j) by {
            assert(inode_wf(v, superblock, owner, j, disk_inode(v, superblock, j)));
        }
        assert forall|i: int| 0 <= i < NINODE implies #[trigger] fs.slot_ok(i) by {
            assert(fs.inodes.cache.keys()[i] is None);
        }
    }
    fs
}

impl InodeReference {
    /// Begins to work on the inode, which must be in use.
    pub fn lock<D: BlockDevice>(&self, fs: &mut FileSystem<D>) -> (r: InodeGuard)
        requires
            old(fs).wf(),
            refs_bounded(old(fs).inodes.cache, 0),
            exists|j: int| #[trigger] old(fs).held(self.cache_index as int, j) && old(fs).file(j).kind != InodeKind::Unused,
        ensures
            final(fs).wf(),
            same_files(*old(fs), *final(fs)),
            r.cache_index == self.cache_index,
            ref_added(
                old(fs).inodes.cache,
                final(fs).inodes.cache,
                self.cache_index as int,
                old(fs).inodes.cache.keys()[self.cache_index as int]->0,
            ),
            forall|j: int| #[trigger] old(fs).held(self.cache_index as int, j) ==> final(fs).working(self.cache_index as int, j),
    {
        fs.lock(self)
    }
}

impl InodeGuard {
    /// A reference to the inode.
    pub fn as_ref<D: BlockDevice>(this: &Self, fs: &mut FileSystem<D>) -> (r: InodeReference)
        requires
            old(fs).wf(),
            refs_bounded(old(fs).inodes.cache, 0),
            exists|j: int| #[trigger] old(fs).working(this.cache_index as int, j),
        ensures
            final(fs).wf(),
            same_files(*old(fs), *final(fs)),
            r.cache_index == this.cache_index,
            ref_added(
                old(fs).inodes.cache,
                final(fs).inodes.cache,
                this.cache_index as int,
                old(fs).inodes.cache.keys()[this.cache_index as int]->0,
            ),
    {
        let ghost fs0 = *fs;
        let i = this.cache_index;
        proof {
            let j = choose|j: int| #[trigger] fs0.working(i as int, j);
            assert(fs0.slot_ok(i as int));
            assert(fs0.inodes.cache.counts@[i as int] + 0 < usize::MAX);
        }
        fs.inodes.duplicate(i);
        proof {
            lemma_same_wf(fs0, *fs);
        }
        InodeReference { cache_index: i }
    }
}

impl<D: BlockDevice> FileSystem<D> {
    /// The inode that slot `i` holds.
    pub open spec fn inum_at(&self, i: int) -> int {
        self.inodes.cache.keys()[i]->0.index as int
    }

    /// The log has room for the end of the file in slot `i`, where it has no name and goes with its last
    /// reference: for its inode and the parts of the free map for its blocks.
    pub open spec fn leave_fits(&self, i: int) -> bool {
        self.inodes.cache.counts@[i] == 1 && self.file(self.inum_at(i)).nlink == 0 ==> self.end_fits(i)
    }

    /// The log has room for the end of the file in slot `i`.
    pub open spec fn end_fits(&self, i: int) -> bool {
        self.volume.fits_with(self.volume.map_of(self.inum_at(i)), 1)
    }

    /// What giving back a reference needs.
    proof fn lemma_leave(&self, i: int)
        requires
            self.wf(),
            0 <= i < NINODE,
            self.inodes.cache.counts@[i] > 0,
            self.leave_fits(i),
        ensures
            frees(self.inodes, i) ==> self.volume.fits_with(self.freeing(i), self.volume.inode_due(self.inum_at(i))),
    {
        let j = self.inum_at(i);
        assert(self.slot_ok(i));
        assert(self.inodes.cache.counts@[i] == 0 <==> self.inodes.cache.keys()[i] is None);
        if frees(self.inodes, i) {
            assert(self.held(i, j));
            self.lemma_working(i, j);
            lemma_freeing(*self, i, j);
            self.volume.lemma_used_less(self.freeing(i), self.volume.map_of(j));
        }
    }

    /// Ends the work on an inode, or gives back a reference to it. Where that was the last
    /// one and the file has no name left, the file goes.
    pub fn drop_reference(&mut self, i: usize)
        requires
            old(self).wf(),
            i < NINODE,
            old(self).inodes.cache.counts@[i as int] > 0,
            frees(old(self).inodes, i as int) ==> {
                &&& old(self).volume.storage.log.outstanding > 0
                &&& old(self).volume.fits_with(old(self).freeing(i as int), old(self).volume.inode_due(old(self).inum_at(i as int)))
            },
        ensures
            final(self).wf(),
            final(self).sb() == old(self).sb(),
            final(self).device() == old(self).device(),
            final(self).volume.session() == old(self).volume.session(),
            ref_removed(old(self).inodes.cache, final(self).inodes.cache, i as int),
            final(self).volume.owner == old(self).volume.owner,
            only_freed(*old(self), *final(self)),
            forall|x: int| 0 <= x < old(self).sb().ninodes && x != old(self).inum_at(i as int) ==>
                #[trigger] final(self).file(x) == old(self).file(x),
            ({
                let j = old(self).inum_at(i as int);
                if frees(old(self).inodes, i as int) {
                    &&& final(self).file(j).kind == InodeKind::Unused
                    &&& final(self).file(j).bytes == Seq::<u8>::empty()
                    &&& final(self).file(j).nlink == 0
                } else {
                    final(self).file(j) == old(self).file(j) && same_files(*old(self), *final(self))
                }
            }),
    {
        let ghost fs0 = *self;
        let ghost j = self.inum_at(i as int);
        proof {
            assert(fs0.slot_ok(i as int));
            assert(fs0.inodes.cache.counts@[i as int] == 0 <==> fs0.inodes.cache.keys()[i as int] is None);
            assert(fs0.held(i as int, j));
        }
        if self.inodes.cache.counts[i] == 1 && self.inodes.inodes[i].is_initialized && self.inodes.inodes[i].inode.nlink == 0 {
            self.release(i, Ghost(j));
        } else {
            self.put(i);
            proof {
                assert(self.file(j) == fs0.file(j));
            }
        }
    }

    /// Reads from a file.
    pub fn read_at(&mut self, g: &InodeGuard, offset: usize, count: usize) -> (r: Vec<u8>)
        requires
            old(self).wf(),
            old(self).working(g.cache_index as int, old(self).inum_at(g.cache_index as int)),
        ensures
            final(self).wf(),
            same_files(*old(self), *final(self)),
            final(self).inodes.cache == old(self).inodes.cache,
            final(self).inodes.inodes@ == old(self).inodes.inodes@,
            r@ == readable(old(self).file(old(self).inum_at(g.cache_index as int)).bytes, offset as int, count as int),
    {
        let ghost fs0 = *self;
        let i = g.cache_index;
        proof {
            self.lemma_working(i as int, self.inum_at(i as int));
        }
        let r = self.inodes.inodes[i].copy_to(&mut self.volume, offset, count);
        proof {
            lemma_same_wf(fs0, *self);
            assert(self.inodes.inodes@ =~= fs0.inodes.inodes@);
        }
        match r {
            Ok(bytes) => bytes,
            Err(_) => zeros(0),
        }
    }

    /// Writes to a file, as `CachedInode::copy_from` does.
    #[verifier::rlimit(40)]
    pub fn write_at(&mut self, g: &InodeGuard, src: &Vec<u8>, offset: usize, count: usize) -> (r: Result<usize, ()>)
        requires
            old(self).wf(),
            old(self).working(g.cache_index as int, old(self).inum_at(g.cache_index as int)),
            src@.len() <= count,
            old(self).file(old(self).inum_at(g.cache_index as int)).kind != InodeKind::Directory,
            ({
                let j = old(self).inum_at(g.cache_index as int);
                let size = old(self).file(j).bytes.len() as int;
                offset <= size && offset + count <= 274432 ==> old(self).volume.room(
                    write_due(size, offset as int, count as int) + old(self).volume.inode_due(j),
                )
            }),
        ensures
            final(self).wf(),
            only_file(*old(self), *final(self), g.cache_index as int, old(self).inum_at(g.cache_index as int)),
            ({
                let j = old(self).inum_at(g.cache_index as int);
                let size = old(self).file(j).bytes.len() as int;
                final(self).volume.used() <= old(self).volume.used() + if offset <= size && offset + count <= 274432 {
                    write_due(size, offset as int, count as int) + old(self).volume.inode_due(j)
                } else {
                    0
                }
            }),
            ({
                let j = old(self).inum_at(g.cache_index as int);
                let f0 = old(self).file(j);
                let f1 = final(self).file(j);
                &&& final(self).working(g.cache_index as int, j)
                &&& if offset > f0.bytes.len() || offset + count > 274432 {
                    r is Err && f1 == f0
                } else {
                    match r {
                        Ok(wrote) => {
                            &&& wrote <= src@.len()
                            &&& wrote == count || wrote + chunk_len(offset + wrote, count - wrote) > src@.len()
                            &&& wrote == 0 || wrote == count || (offset + wrote) % 1024 == 0
                            &&& f1 == (FileView { bytes: overwritten(f0.bytes, offset as int, src@.take(wrote as int)), ..f0 })
                        },
                        Err(_) => {
                            &&& disk_full(final(self).v(), old(self).sb())
                            &&& f1 == (FileView { bytes: f1.bytes, ..f0 })
                            &&& exists|w: int| #[trigger] partly_written(f0.bytes, f1.bytes, offset as int, src@, w)
                        },
                    }
                }
            }),
    {
        let ghost fs0 = *self;
        let i = g.cache_index;
        let ghost j = self.inum_at(i as int);
        proof {
            self.lemma_working(i as int, j);
            assert(fs0.slot_ok(i as int));
        }
        let r = self.inodes.inodes[i].copy_from(&mut self.volume, src, offset, count);
        proof {
            let i1 = self.inodes.inodes@[i as int].inode@;
            assert(synced(self.v(), self.sb(), self.volume.owner@, j, i1));
            assert(self.slot_ok(i as int));
            lemma_file_step(fs0, *self, i as int, j);
            lemma_synced(self.v(), self.sb(), self.volume.owner@, j, i1);
            assert(self.held(i as int, j));
            self.lemma_working(i as int, j);
        }
        r
    }

    /// Empties a file.
    #[verifier::rlimit(40)]
    pub fn truncate_file(&mut self, g: &InodeGuard)
        requires
            old(self).wf(),
            old(self).working(g.cache_index as int, old(self).inum_at(g.cache_index as int)),
            old(self).volume.storage.log.outstanding > 0,
            old(self).volume.fits_with(
                old(self).freeing(g.cache_index as int),
                old(self).volume.inode_due(old(self).inum_at(g.cache_index as int)),
            ),
        ensures
            final(self).wf(),
            only_file(*old(self), *final(self), g.cache_index as int, old(self).inum_at(g.cache_index as int)),
            ({
                let j = old(self).inum_at(g.cache_index as int);
                &&& final(self).working(g.cache_index as int, j)
                &&& final(self).file(j) == (FileView { bytes: Seq::empty(), ..old(self).file(j) })
            }),
    {
        let ghost fs0 = *self;
        let i = g.cache_index;
        let ghost j = self.inum_at(i as int);
        proof {
            self.lemma_working(i as int, j);
            assert(fs0.slot_ok(i as int));
        }
        self.inodes.inodes[i].truncate(&mut self.volume);
        proof {
            let i1 = self.inodes.inodes@[i as int].inode@;
            assert(synced(self.v(), self.sb(), self.volume.owner@, j, i1));
            assert(self.slot_ok(i as int));
            lemma_file_step(fs0, *self, i as int, j);
            lemma_synced(self.v(), self.sb(), self.volume.owner@, j, i1);
            assert(self.held(i as int, j));
            self.lemma_working(i as int, j);
        }
    }
}

/// What was written to a file is what is read from it.
pub proof fn lemma_read_what_was_written(c: Seq<u8>, offset: int, s: Seq<u8>)
    requires
        0 <= offset <= c.len(),
        offset + s.len() <= usize::MAX,
    ensures
        readable(overwritten(c, offset, s), offset, s.len() as int) == s,
{
    let d = overwritten(c, offset, s);
    assert(readable(d, offset, s.len() as int) =~= s);
}

/// Bytes that were not written over are read as before.
pub proof fn lemma_read_beside_write(c: Seq<u8>, offset: int, s: Seq<u8>, at: int, n: int)
    requires
        0 <= offset <= c.len(),
        0 <= at,
        0 <= n,
        at + n <= c.len(),
        at + n <= offset || offset + s.len() <= at,
        at + n <= usize::MAX,
    ensures
        readable(overwritten(c, offset, s), at, n) == readable(c, at, n),
{
    assert(readable(overwritten(c, offset, s), at, n) =~= readable(c, at, n));
}

/// A name that was added to a directory is found there.
pub proof fn lemma_name_added(c: Seq<u8>, k: int, t: int, name: Seq<u8>)
    requires
        c.len() % 16 == 0,
        is_insert_place(c, k),
        no_entry_of(c, name),
        0 < t < 65536,
    ensures
        dir_target(with_entry(c, k, t, name), name) == Some(t),
        forall|j: int| 0 <= j < c.len() as int / 16 && j != k ==> #[trigger] entry_inum(with_entry(c, k, t, name), j) == entry_inum(c, j)
            && entry_name(with_entry(c, k, t, name), j) == entry_name(c, j),
{
    let d = with_entry(c, k, t, name);
    let e = entry_bytes(t, padded(name));
    crate::filesystem::directory_entry::lemma_entry_bytes(t, padded(name));
    assert(d.subrange(16 * k, 16 * k + 16) =~= e);
    assert(d[16 * k] == e[0]);
    assert(d[16 * k + 1] == e[1]);
    assert(entry_inum(d, k) == t);
    assert(entry_name(d, k) =~= e.subrange(2, 16));
    crate::filesystem::directory_entry::lemma_name_found(name);
    assert(entry_matches(d, k, name));
    assert forall|j: int| 0 <= j < c.len() as int / 16 && j != k implies #[trigger] entry_inum(d, j) == entry_inum(c, j) && entry_name(d, j)
        == entry_name(c, j) by {
        assert(d[16 * j] == c[16 * j]);
        assert(d[16 * j + 1] == c[16 * j + 1]);
        assert(entry_name(d, j) =~= entry_name(c, j));
    }
    assert forall|j: int| 0 <= j < k implies !#[trigger] entry_matches(d, j, name) by {
        assert(!entry_matches(c, j, name));
        assert(entry_inum(d, j) == entry_inum(c, j));
    }
    assert(is_entry_of(d, name, k));
    lemma_dir_target(d, name);
}

/// A new file is found under the path that it was made for.
pub proof fn lemma_created_is_found<D: BlockDevice>(
    fs0: FileSystem<D>,
    fs1: FileSystem<D>,
    path: Seq<u8>,
    cwd: Option<int>,
    kind: InodeKind,
    major: int,
    minor: int,
    t: int,
)
    requires
        fs0.wf(),
        fs0.create_new(fs1, path, cwd, kind, major, minor, t),
        fs0.parent(path, cwd) matches Some(p) && is_inode(fs0.sb(), p),
    ensures
        dir_target(fs1.file(fs0.parent(path, cwd)->0).bytes, elements(path).last()) == Some(t),
{
    let p = fs0.parent(path, cwd)->0;
    let name = elements(path).last();
    let c = fs0.file(p).bytes;
    assert(fs0.disk_ok(p));
    let k = choose|k: int| #[trigger] is_insert_place(c, k) && fs1.file(p) == (FileView {
        bytes: with_entry(c, k, t, name),
        nlink: fs0.file(p).nlink + if kind == InodeKind::Directory { 1int } else { 0int },
        ..fs0.file(p)
    });
    lemma_name_added(c, k, t, name);
}


/// A directory in which the entry for a name is cleared does not have the name any more, if it had
/// it once; all other entries are as before.
pub proof fn lemma_name_removed(c: Seq<u8>, k: int, name: Seq<u8>)
    requires
        is_entry_of(c, name, k),
        forall|j: int| k < j < c.len() as int / 16 ==> !#[trigger] entry_matches(c, j, name),
    ensures
        dir_target(with_entry(c, k, 0, Seq::empty()), name) is None,
        forall|j: int| 0 <= j < c.len() as int / 16 && j != k ==> #[trigger] entry_inum(with_entry(c, k, 0, Seq::empty()), j) == entry_inum(c, j)
            && entry_name(with_entry(c, k, 0, Seq::empty()), j) == entry_name(c, j),
{
    let d = with_entry(c, k, 0, Seq::empty());
    let e = entry_bytes(0, padded(Seq::empty()));
    crate::filesystem::directory_entry::lemma_entry_bytes(0, padded(Seq::empty()));
    assert(d[16 * k] == e[0]);
    assert(d[16 * k + 1] == e[1]);
    assert(entry_inum(d, k) == 0);
    assert forall|j: int| 0 <= j < c.len() as int / 16 && j != k implies #[trigger] entry_inum(d, j) == entry_inum(c, j) && entry_name(d, j)
        == entry_name(c, j) by {
        assert(d[16 * j] == c[16 * j]);
        assert(d[16 * j + 1] == c[16 * j + 1]);
        assert(entry_name(d, j) =~= entry_name(c, j));
    }
    assert forall|j: int| 0 <= j < d.len() as int / 16 implies !#[trigger] entry_matches(d, j, name) by {
        if j != k {
            assert(!entry_matches(c, j, name));
            assert(entry_inum(d, j) == entry_inum(c, j));
        }
    }
    lemma_dir_target(d, name);
}

/// A path whose last name was removed leads nowhere, if the directory had the name once.
pub proof fn lemma_unlinked_is_gone<D: BlockDevice>(fs0: FileSystem<D>, fs1: FileSystem<D>, path: Seq<u8>, cwd: Option<int>)
    requires
        fs0.unlink_done(fs1, path, cwd),
        forall|i: int, j: int|
            0 <= i < j < fs0.file(fs0.parent(path, cwd)->0).bytes.len() as int / 16 ==> !(#[trigger] entry_matches(
                fs0.file(fs0.parent(path, cwd)->0).bytes,
                i,
                elements(path).last(),
            ) && #[trigger] entry_matches(fs0.file(fs0.parent(path, cwd)->0).bytes, j, elements(path).last())),
    ensures
        dir_target(fs1.file(fs0.parent(path, cwd)->0).bytes, elements(path).last()) is None,
{
    let p = fs0.parent(path, cwd)->0;
    let name = elements(path).last();
    let c = fs0.file(p).bytes;
    let k = choose|k: int| {
        &&& #[trigger] is_entry_of(c, name, k)
        &&& fs0.file(entry_inum(c, k)).kind == InodeKind::Directory ==> only_dots(fs0.file(entry_inum(c, k)).bytes)
        &&& fs0.unlinked(fs1, p, entry_inum(c, k), k)
    };
    lemma_name_removed(c, k, name);
}

} // verus!
