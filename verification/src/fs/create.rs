//! Opening files for a program.
use vstd::prelude::*;
use crate::cache::CacheRc;
use crate::config::{NDEV, NINODE, ROOTDEV};
use crate::filesystem::device::BlockDevice;
use crate::filesystem::file::{frees, is_entry_of, is_insert_place, lemma_map_of, lemma_ref_back, ref_added, ref_removed, refs_bounded, same_refs, with_entry};
use crate::filesystem::inode::InodeKind;
use crate::filesystem::path::elements;
use crate::filesystem::volume::is_inode;
use crate::fs::session::others_same;
use crate::fs::{
    agree, dir_target, files_alike, files_kept, same_files, first_unused, lemma_agree, lemma_create_lost,
    lemma_not_created, lemma_one_lost, one_lost, settled, slot_of, FileSystem, FileView, InodeGuard, InodeKey,
    InodeReference,
};

verus! {

/// How a file is to be opened.
pub struct OpenMode {
    /// Make the file where it does not exist.
    pub create: bool,
    /// Nothing but reading is wanted; only then a directory can be opened.
    pub read_only: bool,
    /// Empty the file.
    pub truncate: bool,
}

/// The file that an open call finds.
pub open spec fn is_found<D: BlockDevice>(fs0: FileSystem<D>, path: Seq<u8>, cwd: Option<int>, create: bool, t: int) -> bool {
    if create {
        let p = fs0.parent(path, cwd);
        &&& p is Some
        &&& dir_target(fs0.file(p->0).bytes, elements(path).last()) == Some(t)
        &&& fs0.file(t).kind == InodeKind::File || fs0.file(t).kind == InodeKind::Device
    } else {
        fs0.target(path, cwd) == Some(t)
    }
}

/// The log has room for emptying the file that an open call finds: for its inode and the parts of
/// the free map for its blocks.
#[verifier::opaque]
pub open spec fn truncate_fits<D: BlockDevice>(fs: FileSystem<D>, path: Seq<u8>, cwd: Option<int>, create: bool) -> bool {
    forall|t: int|
        #[trigger] is_found(fs, path, cwd, create, t) && fs.file(t).kind == InodeKind::File ==> fs.volume.fits_with(fs.volume.map_of(t), 1)
}

/// What emptying the file that was opened needs.
proof fn lemma_truncate<D: BlockDevice>(
    fs0: FileSystem<D>,
    fs1: FileSystem<D>,
    fs2: FileSystem<D>,
    path: Seq<u8>,
    cwd: Option<int>,
    create: bool,
    y: int,
    t: int,
)
    requires
        agree(fs0, fs1),
        truncate_fits(fs0, path, cwd, create),
        fs1.wf(),
        fs2.wf(),
        fs2.working(y, t),
        fs2.file(t).kind == InodeKind::File,
        is_found(fs1, path, cwd, create, t) == is_found(fs0, path, cwd, create, t),
        fs2.fresh(y) && fs2.volume.inode_due(t) == 0 && fs2.volume.fits(0) || is_found(fs1, path, cwd, create, t) && same_files(fs1, fs2),
    ensures
        fs2.volume.fits_with(fs2.freeing(y), fs2.volume.inode_due(t)),
{
    reveal(truncate_fits);
    let ino = fs2.inodes.inodes@[y].inode@;
    lemma_map_of(fs2.volume, t, ino);
    fs2.volume.lemma_used_less(fs2.freeing(y), fs2.volume.map_of(t));
    if !(fs2.fresh(y) && fs2.volume.inode_due(t) == 0 && fs2.volume.fits(0)) {
        assert(is_found(fs0, path, cwd, create, t));
        assert(fs1.file(t) == fs0.file(t));
        assert(fs2.file(t) == fs1.file(t));
        assert(fs2.volume.map_of(t) == fs0.volume.map_of(t));
    }
}

/// A file as it is after it was opened: a regular file may be emptied.
pub open spec fn emptied(f: FileView, truncate: bool) -> FileView {
    if truncate && f.kind == InodeKind::File {
        FileView { bytes: Seq::empty(), ..f }
    } else {
        f
    }
}

/// What opening file `t` does to the files: it is made, or it was there and may be emptied.
pub open spec fn opened_as<D: BlockDevice>(
    fs0: FileSystem<D>,
    fin: FileSystem<D>,
    path: Seq<u8>,
    cwd: Option<int>,
    create: bool,
    truncate: bool,
    t: int,
) -> bool {
    ||| create && fs0.create_new(fin, path, cwd, InodeKind::File, 0, 0, t)
    ||| {
        &&& is_found(fs0, path, cwd, create, t)
        &&& fin.file(t) == emptied(fs0.file(t), truncate)
        &&& others_same(fs0, fin, t)
    }
}

/// A file cannot be opened: it is a directory and more than reading is wanted, or a device that
/// cannot exist, or there is no descriptor left.
pub open spec fn not_openable(f: FileView, read_only: bool, has_slot: bool) -> bool {
    ||| f.kind == InodeKind::Directory && !read_only
    ||| f.kind == InodeKind::Device && f.major >= NDEV
    ||| !has_slot
}

/// There is no such file, and none can be made.
pub open spec fn not_found<D: BlockDevice>(fs0: FileSystem<D>, fin: FileSystem<D>, path: Seq<u8>, cwd: Option<int>, create: bool) -> bool {
    if create {
        &&& files_alike(fs0, fin) || one_lost(fs0, fin, InodeKind::File)
        &&& fs0.create_had(path, cwd) ==> files_alike(fs0, fin) && fs0.create_refused(path, cwd, InodeKind::File)
    } else {
        files_kept(fs0, fin) && (fs0.target(path, cwd) is None || !fs0.reached(fs0.slots(), path, cwd))
    }
}

/// Files in two states are the same.
spec fn same_views<D: BlockDevice>(fs0: FileSystem<D>, fs1: FileSystem<D>) -> bool {
    forall|x: int| 0 <= x < fs0.sb().ninodes ==> #[trigger] fs1.file(x) == fs0.file(x)
}

/// Making a file means the same for states with the same files.
proof fn lemma_made_same<D: BlockDevice>(
    fs0: FileSystem<D>,
    fs1: FileSystem<D>,
    fs2: FileSystem<D>,
    fs3: FileSystem<D>,
    path: Seq<u8>,
    cwd: Option<int>,
    t: int,
)
    requires
        agree(fs0, fs1),
        fs2.sb() == fs1.sb(),
        same_views(fs2, fs3),
        fs1.parent(path, cwd) is Some ==> is_inode(fs1.sb(), fs1.parent(path, cwd)->0),
        fs1.create_new(fs2, path, cwd, InodeKind::File, 0, 0, t),
    ensures
        fs0.create_new(fs3, path, cwd, InodeKind::File, 0, 0, t),
{
    lemma_agree(fs0, fs1);
    assert(fs1.parent(path, cwd) == fs0.parent(path, cwd));
    let p = fs0.parent(path, cwd)->0;
    let name = elements(path).last();
    assert(fs1.file(p) == fs0.file(p));
    assert(first_unused(fs1, t));
    assert(fs3.file(t) == fs2.file(t));
    let c = fs0.file(p).bytes;
    let k = choose|k: int| #[trigger] is_insert_place(fs1.file(p).bytes, k) && fs2.file(p) == (FileView {
        bytes: with_entry(fs1.file(p).bytes, k, t, name),
        nlink: fs1.file(p).nlink + 0int,
        ..fs1.file(p)
    });
    assert(is_insert_place(c, k));
    assert(fs3.file(p) == fs2.file(p));
    assert forall|z: int| 0 <= z < fs0.sb().ninodes && z != p && z != t implies #[trigger] fs3.file(z) == fs0.file(z) by {
        assert(fs3.file(z) == fs2.file(z));
        assert(fs2.file(z) == fs1.file(z));
        assert(fs1.file(z) == fs0.file(z));
    }
}

impl<D: BlockDevice> FileSystem<D> {
    /// A file that a directory names has a name.
    proof fn lemma_found_named(&self, path: Seq<u8>, cwd: Option<int>, t: int)
        requires
            self.wf(),
            self.links_ok(),
            self.origin_ok(cwd),
            is_found(*self, path, cwd, true, t),
        ensures
            self.target_ok(t),
    {
        self.lemma_target_ok(path, path, cwd);
        let p = self.parent(path, cwd)->0;
        let c = self.file(p).bytes;
        let name = elements(path).last();
        let k = choose|k: int| #[trigger] is_entry_of(c, name, k);
        assert(is_entry_of(c, name, k));
        self.lemma_entry(p, k);
    }

    /// Finds the file, or makes it, within a transaction. The result is one reference to it.
    #[verifier::rlimit(40)]
    fn open_target(&mut self, path: &Vec<u8>, cwd: &Option<usize>, create: bool) -> (r: Result<InodeGuard, ()>)
        requires
            old(self).wf(),
            old(self).links_ok(),
            refs_bounded(old(self).inodes.cache, 8),
            old(self).device() == ROOTDEV,
            old(self).origin_ok(slot_of(*cwd)),
            old(self).root_had(path@),
            create ==> old(self).volume.room(9),
        ensures
            final(self).wf(),
            final(self).sb() == old(self).sb(),
            final(self).device() == old(self).device(),
            final(self).volume.session() == old(self).volume.session(),
            final(self).volume.used() <= old(self).volume.used() + if create { 9int } else { 0int },
            old(self).volume.logged().subset_of(final(self).volume.logged()),
            ({
                let w = slot_of(*cwd);
                match r {
                    Ok(g) => {
                        let y = g.cache_index as int;
                        let t = final(self).inum_at(y);
                        &&& ref_added(old(self).inodes.cache, final(self).inodes.cache, y, old(self).key(t))
                        &&& final(self).working(y, t)
                        &&& final(self).file(t).nlink > 0 || old(self).inodes.cache.counts@[y] > 0
                        &&& {
                            ||| {
                                &&& create && old(self).create_new(*final(self), path@, w, InodeKind::File, 0, 0, t)
                                &&& final(self).fresh(y)
                                &&& final(self).volume.inode_due(t) == 0
                            }
                            ||| {
                                &&& is_found(*old(self), path@, w, create, t) && files_kept(*old(self), *final(self))
                                &&& same_files(*old(self), *final(self))
                            }
                        }
                    },
                    Err(_) => same_refs(old(self).inodes.cache, final(self).inodes.cache) && not_found(*old(self), *final(self), path@, w, create),
                }
            }),
    {
        let ghost fs0 = *self;
        let ghost w = slot_of(*cwd);
        if create {
            let r = self.create_logged(path, cwd, InodeKind::File, 0, 0);
            proof {
                if r is Err {
                    lemma_one_lost(fs0, *self, InodeKind::File);
                }
                if r is Ok {
                    let t = self.inum_at(r->Ok_0.cache_index as int);
                    if fs0.create_found(*self, path@, w, InodeKind::File, t) {
                        fs0.lemma_found_named(path@, w, t);
                        assert(self.file(t) == fs0.file(t));
                    }
                }
            }
            return r;
        }
        proof {
            assert forall|i: int| 0 <= i < NINODE implies #[trigger] fs0.inodes.cache.counts@[i] + 4 < usize::MAX by {
                assert(fs0.inodes.cache.counts@[i] + 8 < usize::MAX);
            }
        }
        let x = match self.search_inode(path, cwd) {
            Some(x) => x,
            None => {
                return Err(());
            },
        };
        let ghost fs1 = *self;
        let ghost j = fs0.inodes_at(fs1, x.cache_index as int);
        proof {
            assert(fs1.held(x.cache_index as int, j));
            assert(fs1.file(j) == fs0.file(j));
            assert forall|i: int| 0 <= i < NINODE implies #[trigger] fs1.inodes.cache.counts@[i] + 0 < usize::MAX by {
                assert(fs0.inodes.cache.counts@[i] + 8 < usize::MAX);
            }
        }
        let g = self.lock(&x);
        let ghost fs2 = *self;
        proof {
            let i = x.cache_index as int;
            assert(fs2.working(i, j));
            assert(fs0.inodes.cache.counts@[i] + 8 < usize::MAX);
            assert(fs2.inodes.cache.counts@[i] >= 2);
        }
        self.put(x.cache_index);
        proof {
            let i = x.cache_index as int;
            lemma_ref_back(fs1.inodes.cache, fs2.inodes.cache, self.inodes.cache, i, fs0.key(j));
            assert(self.held(i, j));
            self.lemma_working(i, j);
            assert(self.file(j) == fs0.file(j));
            assert(self.inum_at(i) == j);
        }
        Ok(g)
    }

    /// Opens a file for a program, in one transaction. `has_slot` tells whether the program can
    /// get a descriptor for it. The result is a reference to the file, and the device number
    /// where it is a device.
    #[verifier::rlimit(60)]
    #[verifier::spinoff_prover]
    pub fn open_file(&mut self, path: &Vec<u8>, cwd: &Option<usize>, mode: &OpenMode, has_slot: bool) -> (r: Result<
        (InodeReference, Option<usize>),
        (),
    >)
        requires
            old(self).ready(path@, slot_of(*cwd), if mode.create { 9 } else { 0 }),
            mode.truncate ==> truncate_fits(*old(self), path@, slot_of(*cwd), mode.create),
        ensures
            final(self).wf(),
            final(self).sb() == old(self).sb(),
            final(self).device() == old(self).device(),
            final(self).volume.activity() == old(self).volume.activity(),
            ({
                let w = slot_of(*cwd);
                match r {
                    Ok((x, major)) => {
                        let y = x.cache_index as int;
                        let t = final(self).inum_at(y);
                        let f = final(self).file(t);
                        &&& ref_added(old(self).inodes.cache, final(self).inodes.cache, y, old(self).key(t))
                        &&& opened_as(*old(self), *final(self), path@, w, mode.create, mode.truncate, t)
                        &&& !not_openable(f, mode.read_only, has_slot)
                        &&& if f.kind == InodeKind::Device { major is Some && major->0 == f.major } else { major is None }
                    },
                    Err(_) => {
                        &&& same_refs(old(self).inodes.cache, final(self).inodes.cache)
                        &&& {
                            ||| not_found(*old(self), *final(self), path@, w, mode.create)
                            ||| exists|t: int| {
                                &&& #[trigger] opened_as(*old(self), *final(self), path@, w, mode.create, false, t)
                                &&& not_openable(final(self).file(t), mode.read_only, has_slot)
                            }
                        }
                    },
                }
            }),
    {
        let ghost fs0 = *self;
        let ghost w = slot_of(*cwd);
        let _ = self.begin();
        let ghost fs1 = *self;
        proof {
            lemma_agree(fs0, fs1);
            fs1.lemma_target_ok(path@, path@, w);
        }
        let g = match self.open_target(path, cwd, mode.create) {
            Ok(g) => g,
            Err(_) => {
                let ghost fs2 = *self;
                self.end();
                proof {
                    lemma_not_found(fs0, fs1, fs2, *self, path@, w, mode.create);
                }
                return Err(());
            },
        };
        let ghost fs2 = *self;
        let y = g.cache_index;
        let ghost t = self.inum_at(y as int);
        proof {
            self.lemma_working(y as int, t);
            assert(fs0.inodes.cache.counts@[y as int] + 8 < usize::MAX);
        }
        let is_device = self.inodes.inodes[y].is_device();
        let refused = (self.inodes.inodes[y].is_directory() && !mode.read_only) || (is_device && self.inodes.inodes[y].inode.major as usize >= NDEV)
            || !has_slot;
        if refused {
            proof {
                fs2.lemma_not_freed(fs2, y as int, t);
            }
            self.put(y);
            let ghost fs3 = *self;
            self.end();
            proof {
                lemma_ref_back_wide(fs0.inodes.cache, fs2.inodes.cache, fs3.inodes.cache, y as int, fs0.key(t));
                assert forall|x: int| 0 <= x < fs0.sb().ninodes implies #[trigger] self.file(x) == fs2.file(x) by {
                    assert(self.file(x) == fs3.file(x));
                }
                lemma_opened(fs0, fs1, fs2, *self, path@, w, mode.create, false, t);
            }
            return Err(());
        }
        let major = if is_device {
            Some(self.inodes.inodes[y].inode.major as usize)
        } else {
            None
        };
        if mode.truncate && self.inodes.inodes[y].is_file() {
            proof {
                lemma_truncate(fs0, fs1, fs2, path@, w, mode.create, y as int, t);
            }
            self.truncate_file(&g);
        }
        let ghost fs3 = *self;
        self.end();
        proof {
            assert forall|x: int| 0 <= x < fs0.sb().ninodes && x != t implies #[trigger] self.file(x) == fs2.file(x) by {
                assert(self.file(x) == fs3.file(x));
                assert(fs3.file(x) == fs2.file(x));
            }
            assert(self.file(t) == fs3.file(t));
            assert(self.file(t) == emptied(fs2.file(t), mode.truncate));
            lemma_opened(fs0, fs1, fs2, *self, path@, w, mode.create, mode.truncate, t);
            assert(self.inum_at(y as int) == t);
        }
        Ok((InodeReference { cache_index: y }, major))
    }
}

/// Adding a reference and removing it again changes nothing, where there is room for more.
proof fn lemma_ref_back_wide<const N: usize>(
    c0: CacheRc<InodeKey, N>,
    c1: CacheRc<InodeKey, N>,
    c2: CacheRc<InodeKey, N>,
    i: int,
    key: InodeKey,
)
    requires
        c0.wf(),
        refs_bounded(c0, 8),
        ref_added(c0, c1, i, key),
        ref_removed(c1, c2, i),
    ensures
        same_refs(c0, c2),
{
    assert forall|k: int| 0 <= k < N implies #[trigger] c0.counts@[k] + 0 < usize::MAX by {
        assert(c0.counts@[k] + 8 < usize::MAX);
    }
    lemma_ref_back(c0, c1, c2, i, key);
}

/// From the transaction to the whole call, where nothing was found.
proof fn lemma_not_found<D: BlockDevice>(
    fs0: FileSystem<D>,
    fs1: FileSystem<D>,
    fs2: FileSystem<D>,
    fs3: FileSystem<D>,
    path: Seq<u8>,
    cwd: Option<int>,
    create: bool,
)
    requires
        agree(fs0, fs1),
        settled(fs2, fs3),
        fs2.sb() == fs1.sb(),
        fs2.device() == fs1.device(),
        fs3.volume.activity() == fs0.volume.activity(),
        not_found(fs1, fs2, path, cwd, create),
    ensures
        not_found(fs0, fs3, path, cwd, create),
{
    lemma_agree(fs0, fs1);
    if create {
        lemma_create_lost(fs0, fs1, fs2, fs3, InodeKind::File);
        assert(fs1.create_had(path, cwd) == fs0.create_had(path, cwd));
        if fs0.create_had(path, cwd) {
            lemma_not_created(fs0, fs1, fs2, fs3, path, cwd, InodeKind::File);
        }
    } else {
        assert(fs1.target(path, cwd) == fs0.target(path, cwd));
        assert(fs1.reached(fs0.slots(), path, cwd) == fs0.reached(fs0.slots(), path, cwd));
        assert forall|x: int| 0 <= x < fs0.sb().ninodes implies #[trigger] fs3.file(x) == fs0.file(x) by {
            assert(fs3.file(x) == fs2.file(x));
            assert(fs2.file(x) == fs1.file(x));
        }
    }
}

/// From the transaction to the whole call, where a file was found or made.
proof fn lemma_opened<D: BlockDevice>(
    fs0: FileSystem<D>,
    fs1: FileSystem<D>,
    fs2: FileSystem<D>,
    fs3: FileSystem<D>,
    path: Seq<u8>,
    cwd: Option<int>,
    create: bool,
    truncate: bool,
    t: int,
)
    requires
        agree(fs0, fs1),
        fs2.sb() == fs1.sb(),
        fs2.device() == fs1.device(),
        fs3.sb() == fs2.sb(),
        fs3.device() == fs2.device(),
        is_inode(fs0.sb(), t),
        fs1.parent(path, cwd) is Some ==> is_inode(fs1.sb(), fs1.parent(path, cwd)->0),
        forall|x: int| 0 <= x < fs0.sb().ninodes && x != t ==> #[trigger] fs3.file(x) == fs2.file(x),
        fs3.file(t) == emptied(fs2.file(t), truncate),
        (create && fs1.create_new(fs2, path, cwd, InodeKind::File, 0, 0, t)) || (is_found(fs1, path, cwd, create, t) && files_kept(fs1, fs2)),
    ensures
        opened_as(fs0, fs3, path, cwd, create, truncate, t),
{
    lemma_agree(fs0, fs1);
    assert(fs1.parent(path, cwd) == fs0.parent(path, cwd));
    assert(fs1.target(path, cwd) == fs0.target(path, cwd));
    assert(fs1.file(fs0.parent(path, cwd)->0) == fs0.file(fs0.parent(path, cwd)->0));
    assert(fs1.file(t) == fs0.file(t));
    if create && fs1.create_new(fs2, path, cwd, InodeKind::File, 0, 0, t) {
        assert(fs3.file(t) == fs2.file(t));
        assert(same_views(fs2, fs3));
        lemma_made_same(fs0, fs1, fs2, fs3, path, cwd, t);
    } else {
        assert(fs2.file(t) == fs1.file(t));
        assert forall|x: int| 0 <= x < fs0.sb().ninodes && x != t implies #[trigger] fs3.file(x) == fs0.file(x) by {
            assert(fs3.file(x) == fs2.file(x));
            assert(fs2.file(x) == fs1.file(x));
            assert(fs1.file(x) == fs0.file(x));
        }
    }
}


/// The references and files after a change of directory from slot `from` to slot `y`, which
/// holds `t`: the new directory has one reference more and the old one less.
pub open spec fn moved_to<D: BlockDevice>(fs0: FileSystem<D>, fin: FileSystem<D>, from: Option<int>, y: int, t: int) -> bool {
    match from {
        None => ref_added(fs0.inodes.cache, fin.inodes.cache, y, fs0.key(t)) && files_kept(fs0, fin),
        Some(o) => exists|mid: FileSystem<D>| {
            &&& #[trigger] ref_added(fs0.inodes.cache, mid.inodes.cache, y, fs0.key(t))
            &&& ref_removed(mid.inodes.cache, fin.inodes.cache, o)
            &&& others_same(fs0, fin, fs0.inum_at(o))
            &&& if frees(mid.inodes, o) {
                &&& fin.file(fs0.inum_at(o)).kind == InodeKind::Unused
                &&& fin.file(fs0.inum_at(o)).bytes == Seq::<u8>::empty()
                &&& fin.file(fs0.inum_at(o)).nlink == 0
            } else {
                fin.file(fs0.inum_at(o)) == fs0.file(fs0.inum_at(o))
            }
        },
    }
}

impl<D: BlockDevice> FileSystem<D> {
    /// Changes the current directory of a program to the one that a path names. The result is
    /// its slot; the reference to the old directory is given back.
    #[verifier::rlimit(60)]
    #[verifier::spinoff_prover]
    pub fn change_directory(&mut self, path: &Vec<u8>, cwd: &Option<usize>) -> (r: Result<usize, ()>)
        requires
            old(self).ready(path@, slot_of(*cwd), 0),
            slot_of(*cwd) matches Some(i) ==> old(self).leave_fits(i),
        ensures
            final(self).wf(),
            final(self).sb() == old(self).sb(),
            final(self).device() == old(self).device(),
            final(self).volume.activity() == old(self).volume.activity(),
            ({
                let target = old(self).target(path@, slot_of(*cwd));
                match r {
                    Ok(y) => {
                        &&& target is Some
                        &&& old(self).file(target->0).kind == InodeKind::Directory
                        &&& moved_to(*old(self), *final(self), slot_of(*cwd), y as int, target->0)
                    },
                    Err(_) => {
                        &&& same_refs(old(self).inodes.cache, final(self).inodes.cache)
                        &&& files_kept(*old(self), *final(self))
                        &&& {
                            ||| target is None
                            ||| !old(self).reached(old(self).slots(), path@, slot_of(*cwd))
                            ||| old(self).file(target->0).kind != InodeKind::Directory
                        }
                    },
                }
            }),
    {
        let ghost fs0 = *self;
        let ghost w = slot_of(*cwd);
        let _ = self.begin();
        let ghost fs1 = *self;
        proof {
            lemma_agree(fs0, fs1);
            fs1.lemma_target_ok(path@, path@, w);
            assert(fs1.target(path@, w) == fs0.target(path@, w));
        }
        let g = match self.open_target(path, cwd, false) {
            Ok(g) => g,
            Err(_) => {
                let ghost fs2 = *self;
                self.end();
                proof {
                    lemma_not_found(fs0, fs1, fs2, *self, path@, w, false);
                }
                return Err(());
            },
        };
        let ghost fs2 = *self;
        let y = g.cache_index;
        let ghost t = self.inum_at(y as int);
        proof {
            self.lemma_working(y as int, t);
            assert(fs0.inodes.cache.counts@[y as int] + 8 < usize::MAX);
            assert(fs2.file(t) == fs1.file(t));
            assert(fs1.file(t) == fs0.file(t));
        }
        if !self.inodes.inodes[y].is_directory() {
            proof {
                fs2.lemma_not_freed(fs2, y as int, t);
            }
            self.put(y);
            let ghost fs3 = *self;
            self.end();
            proof {
                lemma_ref_back_wide(fs0.inodes.cache, fs2.inodes.cache, fs3.inodes.cache, y as int, fs0.key(t));
                assert forall|x: int| 0 <= x < fs0.sb().ninodes implies #[trigger] self.file(x) == fs0.file(x) by {
                    assert(self.file(x) == fs3.file(x));
                    assert(fs3.file(x) == fs2.file(x));
                    assert(fs2.file(x) == fs1.file(x));
                }
            }
            return Err(());
        }
        if let Some(o) = *cwd {
            let ghost jo = fs0.inum_at(o as int);
            proof {
                assert(fs2.inodes.cache.counts@[o as int] > 0);
                assert(fs0.inodes.cache.keys()[o as int] is Some);
                assert(fs2.inum_at(o as int) == jo);
                fs2.lemma_refers(o as int);
            }
            proof {
                assert(fs2.volume.map_of(jo) == fs0.volume.map_of(jo));
                assert(fs0.inodes.cache.counts@[o as int] > 0);
                assert(fs2.leave_fits(o as int));
                fs2.lemma_leave(o as int);
            }
            self.drop_reference(o);
            let ghost fs3 = *self;
            self.end();
            proof {
                assert(self.file(jo) == fs3.file(jo));
                assert(fs2.file(jo) == fs1.file(jo));
                assert(fs1.file(jo) == fs0.file(jo));
                assert forall|x: int| 0 <= x < fs0.sb().ninodes && x != jo implies #[trigger] self.file(x) == fs0.file(x) by {
                    assert(self.file(x) == fs3.file(x));
                    assert(fs3.file(x) == fs2.file(x));
                    assert(fs2.file(x) == fs1.file(x));
                }
                assert(ref_added(fs0.inodes.cache, fs2.inodes.cache, y as int, fs0.key(t)));
                assert(moved_to(fs0, *self, w, y as int, t));
            }
            return Ok(y);
        }
        self.end();
        proof {
            assert forall|x: int| 0 <= x < fs0.sb().ninodes implies #[trigger] self.file(x) == fs0.file(x) by {
                assert(self.file(x) == fs2.file(x));
                assert(fs2.file(x) == fs1.file(x));
            }
        }
        Ok(y)
    }
}

} // verus!
