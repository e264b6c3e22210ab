//! Work on files that are open: each piece of work is a transaction of its own.
use vstd::prelude::*;
use crate::config::{LOGSIZE, MAXOPBLOCKS, NINODE};
use crate::filesystem::device::BlockDevice;
use crate::filesystem::file::{
    chunk_len, frees, lemma_ref_back, lemma_write_due, overwritten, partly_written, readable, ref_added, ref_removed, refs_bounded, same_refs, InodeGuard,
    InodeReference,
};
use crate::filesystem::inode::InodeKind;
use crate::filesystem::stat::Stat;
use crate::filesystem::volume::{disk_full, is_inode, lemma_map_less};
use crate::fs::{bits_kept, files_kept, lemma_same_wf, only_freed, same_files, FileSystem, FileView};

verus! {

/// All files but `j` are the same.
pub open spec fn others_same<D: BlockDevice>(fs0: FileSystem<D>, fs1: FileSystem<D>, j: int) -> bool {
    &&& fs1.sb() == fs0.sb()
    &&& fs1.device() == fs0.device()
    &&& forall|x: int| 0 <= x < fs0.sb().ninodes && x != j ==> #[trigger] fs1.file(x) == fs0.file(x)
}

/// Where a transaction that writes `count` bytes at `offset` of file `f0` comes to: the file
/// then is `f1`, and `wrote` bytes count as written. `src` is what could be read of the bytes to
/// write.
#[verifier::opaque]
pub open spec fn piece_written(f0: FileView, f1: FileView, src: Seq<u8>, offset: int, count: int, wrote: int, full: bool) -> bool {
    if offset > f0.bytes.len() || offset + count > 274432 {
        wrote == 0 && f1 == f0
    } else {
        ||| {
            &&& 0 <= wrote <= src.len()
            &&& wrote == count || wrote + chunk_len(offset + wrote, count - wrote) > src.len()
            &&& wrote == 0 || wrote == count || (offset + wrote) % 1024 == 0
            &&& f1 == (FileView { bytes: overwritten(f0.bytes, offset, src.take(wrote)), ..f0 })
        }
        ||| {
            &&& full
            &&& wrote == 0
            &&& f1 == (FileView { bytes: f1.bytes, ..f0 })
            &&& exists|w: int| #[trigger] partly_written(f0.bytes, f1.bytes, offset, src, w)
        }
    }
}

impl<D: BlockDevice> FileSystem<D> {
    /// Work on an open file can begin at once.
    #[verifier::opaque]
    pub open spec fn can_work(&self) -> bool {
        &&& self.wf()
        &&& self.can_begin()
        &&& refs_bounded(self.inodes.cache, 0)
    }

    /// The system calls that are active, before and after one that changes `k` blocks at most: the
    /// last one commits.
    pub open spec fn one_call(&self, fin: FileSystem<D>, k: int) -> bool {
        &&& fin.volume.activity() == self.volume.activity()
        &&& if self.volume.storage.log.outstanding == 0 {
            fin.commits() == self.commits() + 1 && fin.volume.used() == 0
        } else {
            fin.commits() == self.commits() && fin.volume.used() <= self.volume.used() + k
        }
    }

    /// `n` bytes can be written to an open file without waiting, a transaction for each 3072 of them.
    /// Where other system calls are active, none of them is committed before the last one.
    pub open spec fn room_for(&self, n: int) -> bool {
        let calls = self.volume.storage.log.outstanding;
        let pieces = (n + 3071) / 3072;
        &&& self.volume.fits(MAXOPBLOCKS as int)
        &&& calls > 0 ==> {
            &&& self.volume.used() + (pieces - 1) * MAXOPBLOCKS + (calls + 1) * MAXOPBLOCKS <= LOGSIZE
            &&& self.volume.fits(pieces * MAXOPBLOCKS)
        }
    }

    /// All references to inodes can be given back, one after the other: where a file goes with the
    /// last one, that is committed at once.
    pub open spec fn can_leave_all(&self) -> bool {
        &&& self.can_begin()
        &&& forall|i: int| #[trigger] self.refers(i) ==> {
            self.file(self.inum_at(i)).nlink == 0 ==> self.end_fits(i) && self.volume.storage.log.outstanding == 0
        }
    }

    /// One reference less leaves it so.
    pub proof fn lemma_leave_all(&self, fs0: FileSystem<D>, x: int)
        requires
            fs0.wf(),
            self.wf(),
            fs0.can_leave_all(),
            fs0.refers(x),
            ref_removed(fs0.inodes.cache, self.inodes.cache, x),
            self.volume.activity() == fs0.volume.activity(),
            fs0.volume.storage.log.outstanding == 0 || self.volume.used() == fs0.volume.used(),
            self.volume.owner == fs0.volume.owner,
            only_freed(fs0, *self),
            others_same(fs0, *self, fs0.inum_at(x)),
            frees(fs0.inodes, x) || self.file(fs0.inum_at(x)) == fs0.file(fs0.inum_at(x)),
        ensures
            self.can_leave_all(),
    {
        fs0.volume.lemma_logged();
        self.volume.lemma_logged();
        assert forall|i: int| #[trigger] self.refers(i) implies {
            self.file(self.inum_at(i)).nlink == 0 ==> self.end_fits(i) && self.volume.storage.log.outstanding == 0
        } by {
            assert(fs0.refers(i));
            fs0.lemma_refers(i);
            let j = fs0.inum_at(i);
            assert(self.inum_at(i) == j);
            if i != x {
                fs0.lemma_slots_apart(i, x);
            }
            assert(self.file(j) == fs0.file(j));
            if fs0.file(j).nlink == 0 {
                lemma_map_less(fs0.v(), self.v(), fs0.sb(), fs0.volume.owner@, j);
                assert(self.volume.logged() =~= Set::empty());
                assert(fs0.volume.logged() =~= Set::empty());
                assert(self.volume.logged() + self.volume.map_of(j) =~= self.volume.map_of(j));
                assert(fs0.volume.logged() + fs0.volume.map_of(j) =~= fs0.volume.map_of(j));
                vstd::set_lib::lemma_len_subset(self.volume.map_of(j), fs0.volume.map_of(j));
            }
        }
    }

    /// Work on an open file can begin again after a call that changed nothing.
    pub proof fn lemma_can_work(&self, fs0: FileSystem<D>)
        requires
            fs0.can_work(),
            self.wf(),
            same_refs(fs0.inodes.cache, self.inodes.cache),
            fs0.one_call(*self, 0),
        ensures
            self.can_work(),
    {
        reveal(FileSystem::can_work);
        assert forall|k: int| 0 <= k < NINODE implies #[trigger] self.inodes.cache.counts@[k] + 0 < usize::MAX by {
            assert(fs0.inodes.cache.counts@[k] + 0 < usize::MAX);
        }
    }

    /// Somebody refers to the inode in slot `i`.
    pub open spec fn refers(&self, i: int) -> bool {
        0 <= i < NINODE && self.inodes.cache.counts@[i] > 0
    }

    /// What an inode that somebody refers to is known by.
    pub proof fn lemma_refers(&self, i: int)
        requires
            self.wf(),
            self.refers(i),
        ensures
            self.held(i, self.inum_at(i)),
            self.inodes.cache.keys()[i] == Some(self.key(self.inum_at(i))),
            is_inode(self.sb(), self.inum_at(i)),
            self.file(self.inum_at(i)).kind != InodeKind::Unused,
    {
        assert(self.inodes.cache.counts@[i] == 0 <==> self.inodes.cache.keys()[i] is None);
        assert(self.slot_ok(i));
    }

    /// No two slots hold the same inode.
    pub proof fn lemma_slots_apart(&self, i: int, k: int)
        requires
            self.wf(),
            self.refers(i),
            self.refers(k),
            i != k,
        ensures
            self.inum_at(i) != self.inum_at(k),
    {
        self.lemma_refers(i);
        self.lemma_refers(k);
        if self.inum_at(i) == self.inum_at(k) {
            let c = self.inodes.cache;
            assert(c.cache.links@[k].key == c.keys()[k]);
            assert(c.cache.links@[i].key == c.keys()[i]);
            if k < i {
                assert(c.cache.links@[k].key != c.cache.links@[i].key);
            } else {
                assert(c.cache.links@[i].key != c.cache.links@[k].key);
            }
        }
    }

    /// The state in which work on the inode in slot `i` has begun.
    spec fn at_work(&self, fs0: FileSystem<D>, i: int) -> bool {
        &&& self.wf()
        &&& self.sb() == fs0.sb()
        &&& self.device() == fs0.device()
        &&& self.volume.session() == ((fs0.volume.storage.log.outstanding + 1) as usize, fs0.device(), fs0.commits())
        &&& fs0.volume.storage.log.outstanding < usize::MAX
        &&& self.working(i, fs0.inum_at(i))
        &&& ref_added(fs0.inodes.cache, self.inodes.cache, i, fs0.key(fs0.inum_at(i)))
    }

    fn begin_work(&mut self, x: &InodeReference) -> (g: InodeGuard)
        requires
            old(self).can_work(),
            old(self).refers(x.cache_index as int),
        ensures
            g.cache_index == x.cache_index,
            final(self).at_work(*old(self), x.cache_index as int),
            final(self).v() == old(self).v(),
            final(self).volume.used() == old(self).volume.used(),
            final(self).volume.logged() == old(self).volume.logged(),
            final(self).inum_at(x.cache_index as int) == old(self).inum_at(x.cache_index as int),
    {
        proof {
            reveal(FileSystem::can_work);
        }
        let ghost fs0 = *self;
        let ghost i = x.cache_index as int;
        let ghost j = self.inum_at(i);
        proof {
            fs0.lemma_refers(i);
        }
        let _ = self.begin();
        proof {
            assert(self.held(i, j));
            assert(self.file(j) == fs0.file(j));
            assert forall|k: int| 0 <= k < NINODE implies #[trigger] self.inodes.cache.counts@[k] + 0 < usize::MAX by {
                assert(fs0.inodes.cache.counts@[k] + 0 < usize::MAX);
            }
        }
        self.lock(x)
    }

    fn finish_work(&mut self, g: InodeGuard, Ghost(fs0): Ghost<FileSystem<D>>)
        requires
            fs0.can_work(),
            fs0.refers(g.cache_index as int),
            old(self).at_work(fs0, g.cache_index as int),
        ensures
            final(self).wf(),
            same_refs(fs0.inodes.cache, final(self).inodes.cache),
            final(self).sb() == fs0.sb(),
            final(self).device() == fs0.device(),
            fs0.one_call(*final(self), old(self).volume.used() - fs0.volume.used()),
            forall|x: int| 0 <= x < fs0.sb().ninodes ==> #[trigger] final(self).file(x) == old(self).file(x),
            bits_kept(*old(self), *final(self)),
    {
        proof {
            reveal(FileSystem::can_work);
        }
        let ghost fs1 = *self;
        let ghost i = g.cache_index as int;
        let ghost j = fs0.inum_at(i);
        proof {
            fs0.lemma_refers(i);
            assert(fs0.inodes.cache.counts@[i] + 0 < usize::MAX);
            assert(fs1.inodes.cache.counts@[i] >= 2);
            assert(fs1.inum_at(i) == j);
        }
        self.drop_reference(g.cache_index);
        let ghost fs2 = *self;
        proof {
            assert forall|k: int| 0 <= k < NINODE implies #[trigger] fs0.inodes.cache.counts@[k] + 0 < usize::MAX by {
            }
            lemma_ref_back(fs0.inodes.cache, fs1.inodes.cache, fs2.inodes.cache, i, fs0.key(j));
        }
        self.end();
        proof {
            assert forall|x: int| 0 <= x < fs0.sb().ninodes implies #[trigger] self.file(x) == fs1.file(x) by {
                assert(self.file(x) == fs2.file(x));
                if x != j {
                    assert(fs2.file(x) == fs1.file(x));
                }
            }
        }
    }

    /// The attributes of an open file.
    pub fn stat_file(&mut self, x: &InodeReference) -> (r: Stat)
        requires
            old(self).can_work(),
            old(self).device() <= u32::MAX,
            old(self).refers(x.cache_index as int),
        ensures
            final(self).can_work(),
            old(self).one_call(*final(self), 0),
            same_refs(old(self).inodes.cache, final(self).inodes.cache),
            files_kept(*old(self), *final(self)),
            ({
                let j = old(self).inum_at(x.cache_index as int);
                let f = old(self).file(j);
                &&& r.device == old(self).device()
                &&& r.inode == j
                &&& r.kind == f.kind
                &&& r.nlink == f.nlink
                &&& r.size == f.bytes.len()
            }),
    {
        proof {
            reveal(FileSystem::can_work);
        }
        let ghost fs0 = *self;
        let g = self.begin_work(x);
        let i = g.cache_index;
        let ghost fs1 = *self;
        proof {
            let j = fs0.inum_at(i as int);
            fs1.lemma_refers(i as int);
            fs1.lemma_work_file(i as int, j);
            assert(fs1.file(j) == fs0.file(j));
        }
        let r = self.inodes.inodes[i].stat();
        self.finish_work(g, Ghost(fs0));
        proof {
            self.lemma_can_work(fs0);
            assert forall|x: int| 0 <= x < fs0.sb().ninodes implies #[trigger] self.file(x) == fs0.file(x) by {
                assert(self.file(x) == fs1.file(x));
            }
        }
        r
    }

    /// A working inode has the attributes of its file.
    proof fn lemma_work_file(&self, i: int, j: int)
        requires
            self.wf(),
            self.working(i, j),
        ensures
            ({
                let ino = self.inodes.inodes@[i].inode;
                &&& ino.kind == self.file(j).kind
                &&& ino.major == self.file(j).major
                &&& ino.nlink == self.file(j).nlink
                &&& ino.size == self.file(j).bytes.len()
                &&& is_inode(self.sb(), j)
            }),
    {
        self.lemma_working(i, j);
    }

    /// Reads from an open file.
    pub fn read_file(&mut self, x: &InodeReference, offset: usize, n: usize) -> (r: Vec<u8>)
        requires
            old(self).can_work(),
            old(self).refers(x.cache_index as int),
        ensures
            final(self).can_work(),
            old(self).one_call(*final(self), 0),
            same_refs(old(self).inodes.cache, final(self).inodes.cache),
            files_kept(*old(self), *final(self)),
            r@ == readable(old(self).file(old(self).inum_at(x.cache_index as int)).bytes, offset as int, n as int),
    {
        proof {
            reveal(FileSystem::can_work);
        }
        let ghost fs0 = *self;
        let g = self.begin_work(x);
        let ghost fs1 = *self;
        let ghost i = x.cache_index as int;
        let ghost j = fs0.inum_at(i);
        let r = self.read_at(&g, offset, n);
        let ghost fs2 = *self;
        proof {
            assert(fs1.file(j) == fs0.file(j));
            assert(fs2.held(i, j));
            fs2.lemma_working(i, j);
        }
        self.finish_work(g, Ghost(fs0));
        proof {
            self.lemma_can_work(fs0);
            assert forall|x: int| 0 <= x < fs0.sb().ninodes implies #[trigger] self.file(x) == fs0.file(x) by {
                assert(self.file(x) == fs2.file(x));
                assert(fs2.file(x) == fs1.file(x));
            }
        }
        r
    }

    /// Writes a piece of at most three blocks' length to an open file, in one transaction. The
    /// result is how many bytes count as written: where an error occurs, none.
    #[verifier::rlimit(30)]
    pub fn write_file(&mut self, x: &InodeReference, src: &Vec<u8>, offset: usize, count: usize) -> (r: usize)
        requires
            old(self).can_work(),
            old(self).refers(x.cache_index as int),
            old(self).file(old(self).inum_at(x.cache_index as int)).kind != InodeKind::Directory,
            src@.len() <= count <= 3072,
            old(self).volume.fits(MAXOPBLOCKS as int),
        ensures
            final(self).wf(),
            old(self).one_call(*final(self), MAXOPBLOCKS as int),
            same_refs(old(self).inodes.cache, final(self).inodes.cache),
            others_same(*old(self), *final(self), old(self).inum_at(x.cache_index as int)),
            ({
                let j = old(self).inum_at(x.cache_index as int);
                exists|full: bool| {
                    &&& full ==> disk_full_of(*final(self))
                    &&& #[trigger] piece_written(old(self).file(j), final(self).file(j), src@, offset as int, count as int, r as int, full)
                }
            }),
    {
        proof {
            reveal(FileSystem::can_work);
        }
        let ghost fs0 = *self;
        let g = self.begin_work(x);
        let ghost fs1 = *self;
        let ghost i = x.cache_index as int;
        let ghost j = fs0.inum_at(i);
        proof {
            assert(fs1.file(j) == fs0.file(j));
            if offset <= fs1.file(j).bytes.len() {
                lemma_write_due(fs1.file(j).bytes.len() as int, offset as int, count as int);
            }
        }
        let r = self.write_at(&g, src, offset, count);
        let ghost fs2 = *self;
        let wrote = match r {
            Ok(w) => w,
            Err(_) => 0,
        };
        proof {
            assert(fs2.at_work(fs0, i));
        }
        self.finish_work(g, Ghost(fs0));
        proof {
            fs0.lemma_refers(i);
            assert forall|x: int| 0 <= x < fs0.sb().ninodes && x != j implies #[trigger] self.file(x) == fs0.file(x) by {
                assert(self.file(x) == fs2.file(x));
                assert(fs2.file(x) == fs1.file(x));
            }
            assert(self.file(j) == fs2.file(j));
            if disk_full(fs2.v(), fs0.sb()) {
                lemma_still_full(fs2, *self);
            }
            reveal(piece_written);
            let full = r is Err && offset <= fs0.file(j).bytes.len() && offset + count <= 274432;
            assert(piece_written(fs0.file(j), self.file(j), src@, offset as int, count as int, wrote as int, full));
        }
        wrote
    }

    /// Gives back a reference to an open file. Where that was the last one and the file has no
    /// name left, the file goes.
    pub fn drop_file(&mut self, x: InodeReference)
        requires
            old(self).wf(),
            old(self).can_begin(),
            old(self).refers(x.cache_index as int),
            old(self).leave_fits(x.cache_index as int),
        ensures
            final(self).wf(),
            final(self).volume.activity() == old(self).volume.activity(),
            if old(self).volume.storage.log.outstanding == 0 {
                final(self).commits() == old(self).commits() + 1 && final(self).volume.used() == 0
            } else {
                &&& final(self).commits() == old(self).commits()
                &&& old(self).file(old(self).inum_at(x.cache_index as int)).nlink > 0 ==> final(self).volume.used() == old(self).volume.used()
            },
            final(self).volume.owner == old(self).volume.owner,
            only_freed(*old(self), *final(self)),
            ref_removed(old(self).inodes.cache, final(self).inodes.cache, x.cache_index as int),
            others_same(*old(self), *final(self), old(self).inum_at(x.cache_index as int)),
            ({
                let j = old(self).inum_at(x.cache_index as int);
                if frees(old(self).inodes, x.cache_index as int) {
                    &&& final(self).file(j).kind == InodeKind::Unused
                    &&& final(self).file(j).bytes == Seq::<u8>::empty()
                    &&& final(self).file(j).nlink == 0
                } else {
                    final(self).file(j) == old(self).file(j)
                }
            }),
    {
        let ghost fs0 = *self;
        let ghost j = self.inum_at(x.cache_index as int);
        let _ = self.begin();
        let ghost fs1 = *self;
        proof {
            fs0.lemma_refers(x.cache_index as int);
            assert(fs1.file(j) == fs0.file(j));
            assert(fs1.volume.map_of(j) == fs0.volume.map_of(j));
            assert(fs1.leave_fits(x.cache_index as int));
            fs1.lemma_leave(x.cache_index as int);
            assert(fs1.held(x.cache_index as int, j));
            if frees(fs1.inodes, x.cache_index as int) {
                fs1.lemma_working(x.cache_index as int, j);
                fs1.lemma_work_file(x.cache_index as int, j);
            }
        }
        self.drop_reference(x.cache_index);
        let ghost fs2 = *self;
        self.end();
        proof {
            fs0.lemma_refers(x.cache_index as int);
            assert(fs1.file(j) == fs0.file(j));
            assert(self.file(j) == fs2.file(j));
            assert forall|x: int| 0 <= x < fs0.sb().ninodes && x != j implies #[trigger] self.file(x) == fs0.file(x) by {
                assert(self.file(x) == fs2.file(x));
                assert(fs2.file(x) == fs1.file(x));
                assert(fs1.file(x) == fs0.file(x));
            }
        }
    }
}

/// A full disk stays full.
proof fn lemma_still_full<D: BlockDevice>(fs0: FileSystem<D>, fs1: FileSystem<D>)
    requires
        fs1.sb() == fs0.sb(),
        bits_kept(fs0, fs1),
        disk_full(fs0.v(), fs0.sb()),
    ensures
        disk_full(fs1.v(), fs1.sb()),
{
}

impl InodeReference {
    /// A second reference to the same inode.
    pub fn duplicate<D: BlockDevice>(&self, fs: &mut FileSystem<D>) -> (r: InodeReference)
        requires
            old(fs).wf(),
            old(fs).refers(self.cache_index as int),
            old(fs).inodes.cache.counts@[self.cache_index as int] < usize::MAX,
        ensures
            final(fs).wf(),
            same_files(*old(fs), *final(fs)),
            r.cache_index == self.cache_index,
            ref_added(
                old(fs).inodes.cache,
                final(fs).inodes.cache,
                self.cache_index as int,
                old(fs).inodes.cache.keys()[self.cache_index as int]->0,
            ),
            final(fs).volume == old(fs).volume,
            final(fs).inodes.inodes == old(fs).inodes.inodes,
    {
        let ghost fs0 = *fs;
        fs.inodes.duplicate(self.cache_index);
        proof {
            lemma_same_wf(fs0, *fs);
        }
        InodeReference { cache_index: self.cache_index }
    }
}

/// No block is free.
pub open spec fn disk_full_of<D: BlockDevice>(fs: FileSystem<D>) -> bool {
    disk_full(fs.v(), fs.sb())
}

} // verus!
