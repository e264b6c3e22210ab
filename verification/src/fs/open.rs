//! Files that are opened by path.
use vstd::prelude::*;
use crate::config::NINODE;
use crate::filesystem::device::BlockDevice;
use crate::filesystem::file::{refs_bounded, same_refs, InodeGuard};
use crate::filesystem::inode::InodeKind;
use crate::filesystem::volume::is_inode;
use crate::fs::{files_kept, lemma_agree, lemma_refs_at, refs_at, same_files, slot_of, FileSystem};

verus! {

/// Nothing but the cache of inodes, which has the same references, and the log changed.
pub open spec fn undisturbed<D: BlockDevice>(fs0: FileSystem<D>, fs1: FileSystem<D>) -> bool {
    &&& fs1.wf()
    &&& fs1.sb() == fs0.sb()
    &&& fs1.device() == fs0.device()
    &&& fs1.volume.activity() == fs0.volume.activity()
    &&& same_refs(fs0.inodes.cache, fs1.inodes.cache)
    &&& files_kept(fs0, fs1)
}

impl<D: BlockDevice> FileSystem<D> {
    /// The state in which somebody works on file `j`, whose inode is in slot `i`, in a system
    /// call that began in state `fs0`.
    pub open spec fn path_opened(&self, fs0: FileSystem<D>, i: int, j: int) -> bool {
        &&& self.wf()
        &&& self.v() == fs0.v()
        &&& self.sb() == fs0.sb()
        &&& self.device() == fs0.device()
        &&& self.volume.owner == fs0.volume.owner
        &&& self.volume.used() == fs0.volume.used()
        &&& self.volume.session() == ((fs0.volume.storage.log.outstanding + 1) as usize, fs0.device(), fs0.commits())
        &&& self.working(i, j)
        &&& is_inode(fs0.sb(), j)
        &&& refs_at(fs0.inodes.cache, self.inodes.cache, i, fs0.key(j), 2)
        &&& fs0.file(j).kind != InodeKind::Unused
        &&& fs0.file(j).nlink > 0 || fs0.inodes.cache.counts@[i] > 0
    }

    /// Begins a system call and opens the file that a path names.
    pub fn open_path(&mut self, path: &Vec<u8>, cwd: &Option<usize>) -> (r: Option<InodeGuard>)
        requires
            old(self).ready(path@, slot_of(*cwd), 0),
        ensures
            match r {
                Some(g) => {
                    let j = final(self).inum_at(g.cache_index as int);
                    &&& old(self).target(path@, slot_of(*cwd)) == Some(j)
                    &&& old(self).reached(old(self).slots(), path@, slot_of(*cwd))
                    &&& final(self).path_opened(*old(self), g.cache_index as int, j)
                },
                None => {
                    &&& undisturbed(*old(self), *final(self))
                    &&& old(self).target(path@, slot_of(*cwd)) is None || !old(self).reached(old(self).slots(), path@, slot_of(*cwd))
                },
            },
    {
        let ghost fs0 = *self;
        let _ = self.begin();
        let ghost fs1 = *self;
        proof {
            lemma_agree(fs0, fs1);
            assert forall|i: int| 0 <= i < NINODE implies #[trigger] fs1.inodes.cache.counts@[i] + 4 < usize::MAX by {
                assert(fs0.inodes.cache.counts@[i] + 8 < usize::MAX);
            }
            assert(fs1.target(path@, slot_of(*cwd)) == fs0.target(path@, slot_of(*cwd)));
            assert(fs1.reached(fs0.slots(), path@, slot_of(*cwd)) == fs0.reached(fs0.slots(), path@, slot_of(*cwd)));
        }
        match self.search_inode(path, cwd) {
            None => {
                let ghost fs2 = *self;
                self.end();
                proof {
                    assert forall|x: int| 0 <= x < fs0.sb().ninodes implies #[trigger] self.file(x) == fs0.file(x) by {
                        assert(self.file(x) == fs2.file(x));
                        assert(fs1.file(x) == fs0.file(x));
                    }
                }
                None
            },
            Some(x) => {
                let ghost fs2 = *self;
                let ghost j = fs1.inodes_at(fs2, x.cache_index as int);
                proof {
                    let key = fs0.key(j);
                    let c0 = fs0.inodes.cache;
                    let i = x.cache_index as int;
                    assert(fs1.file(j) == fs0.file(j));
                    assert(fs2.held(i, j));
                    assert forall|k: int| 0 <= k < NINODE implies #[trigger] c0.counts@[k] + 6 < usize::MAX by {
                        assert(c0.counts@[k] + 8 < usize::MAX);
                    }
                    assert(c0.counts@[i] + 6 < usize::MAX);
                    assert(refs_at(c0, fs2.inodes.cache, i, key, 1)) by {
                        assert(c0.counts@[i] == 0 <==> c0.keys()[i] is None);
                        assert(fs2.inodes.cache.counts@ =~= c0.counts@.update(i, (c0.counts@[i] + 1) as usize));
                        assert(fs2.inodes.cache.keys() =~= c0.keys().update(i, Some(key)));
                    }
                    lemma_refs_at(c0, fs2.inodes.cache, fs2.inodes.cache, i, key, 1);
                    assert forall|k: int| 0 <= k < NINODE implies #[trigger] fs2.inodes.cache.counts@[k] + 0 < usize::MAX by {
                        assert(fs2.inodes.cache.counts@[k] + 1 < usize::MAX);
                    }
                }
                let g = self.lock(&x);
                proof {
                    let i = x.cache_index as int;
                    lemma_refs_at(fs0.inodes.cache, fs2.inodes.cache, self.inodes.cache, i, fs0.key(j), 1);
                    assert(self.working(i, j));
                }
                Some(g)
            },
        }
    }

    /// Reading leaves an opened file open.
    pub proof fn lemma_still_open(&self, fs0: FileSystem<D>, fs1: FileSystem<D>, i: int, j: int)
        requires
            fs1.path_opened(fs0, i, j),
            self.wf(),
            same_files(fs1, *self),
            self.inodes.cache == fs1.inodes.cache,
            self.inodes.inodes@ == fs1.inodes.inodes@,
        ensures
            self.path_opened(fs0, i, j),
    {
        self.lemma_working(i, j);
    }

    /// Closes a file that `open_path` opened, and ends the system call.
    pub(crate) fn close_path(&mut self, g: InodeGuard, Ghost(fs0): Ghost<FileSystem<D>>, Ghost(j): Ghost<int>)
        requires
            fs0.wf(),
            refs_bounded(fs0.inodes.cache, 8),
            old(self).path_opened(fs0, g.cache_index as int, j),
            fs0.volume.storage.log.outstanding < usize::MAX,
        ensures
            undisturbed(fs0, *final(self)),
    {
        let ghost fs1 = *self;
        proof {
            let i = g.cache_index as int;
            assert(fs0.inodes.cache.counts@[i] + 8 < usize::MAX);
            assert(fs1.file(j) == fs0.file(j));
        }
        self.close(g.cache_index, Ghost(j));
        let ghost fs2 = *self;
        self.end();
        proof {
            let i = g.cache_index as int;
            let c0 = fs0.inodes.cache;
            assert(c0.counts@[i] == 0 <==> c0.keys()[i] is None);
            assert(fs2.inodes.cache.counts@ =~= c0.counts@);
            assert(fs2.inodes.cache.keys() =~= c0.keys());
            assert forall|x: int| 0 <= x < fs0.sb().ninodes implies #[trigger] self.file(x) == fs0.file(x) by {
                assert(self.file(x) == fs2.file(x));
                assert(fs1.file(x) == fs0.file(x));
            }
        }
    }
}


impl<D: BlockDevice> FileSystem<D> {
    /// No file is larger than its inode can describe.
    pub proof fn lemma_file_size(&self, j: int)
        requires
            self.wf(),
            is_inode(self.sb(), j),
        ensures
            self.file(j).bytes.len() <= 274432,
    {
        assert(self.disk_ok(j));
    }
}

} // verus!
