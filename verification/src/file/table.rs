//! The table of open files.
use vstd::prelude::*;
use crate::config::NINODE;
use crate::file::{File, PIPESIZE};
use crate::filesystem::device::BlockDevice;
use crate::filesystem::file::{frees, ref_removed};
use crate::filesystem::inode::InodeKind;
use crate::fs::session::others_same;
use crate::fs::FileSystem;
use crate::pipe::{PipeInner, Pipes};

verus! {

/// An open file and how many descriptors stand for it.
pub struct SharedFile {
    pub file: File,
    pub count: usize,
}

/// All open files, by number.
pub struct FileTable {
    pub files: Vec<Option<SharedFile>>,
}

/// File `f` with one descriptor is new in a table; the others are the same.
pub open spec fn inserted(t0: FileTable, t1: FileTable, f: int, file: File) -> bool {
    &&& !t0.has(f)
    &&& t1.has(f)
    &&& t1.file(f) == file
    &&& t1.count(f) == 1
    &&& t1.files@ == if f < t0.files@.len() {
        t0.files@.update(f, Some(SharedFile { file, count: 1 }))
    } else {
        t0.files@.push(Some(SharedFile { file, count: 1 }))
    }
    &&& forall|g: int| g != f ==> #[trigger] t1.has(g) == t0.has(g)
    &&& forall|g: int| g != f && t0.has(g) ==> #[trigger] t1.files@[g] == t0.files@[g]
}

impl FileTable {
    /// File `f` is open.
    pub open spec fn has(&self, f: int) -> bool {
        0 <= f < self.files@.len() && self.files@[f] is Some && self.files@[f]->0.count > 0
    }

    pub open spec fn file(&self, f: int) -> File {
        self.files@[f]->0.file
    }

    /// Number of descriptors of file `f`.
    pub open spec fn count(&self, f: int) -> int {
        if self.has(f) {
            self.files@[f]->0.count as int
        } else {
            0
        }
    }

    pub open spec fn wf(&self) -> bool {
        forall|f: int| 0 <= f < self.files@.len() && (#[trigger] self.files@[f]) is Some ==> self.files@[f]->0.count > 0
    }

    pub fn new() -> (this: Self)
        ensures
            this.wf(),
            forall|f: int| !#[trigger] this.has(f),
    {
        FileTable { files: Vec::new() }
    }

    /// Adds a file that one descriptor will stand for.
    pub fn insert(&mut self, file: File) -> (f: usize)
        requires
            old(self).wf(),
        ensures
            final(self).wf(),
            inserted(*old(self), *final(self), f as int, file),
            forall|i: int| #[trigger] users(final(self).files@, i) == users(old(self).files@, i) + uses(Some(SharedFile { file, count: 1 }), i),
    {
        let ghost v0 = self.files@;
        let mut f: usize = 0;
        while f < self.files.len()
            invariant
                f <= self.files@.len(),
                self.files@ == v0,
                self.wf(),
                v0 == old(self).files@,
            decreases self.files@.len() - f,
        {
            let is_free = match &self.files[f] {
                None => true,
                Some(_) => false,
            };
            if is_free {
                self.files.set(f, Some(SharedFile { file, count: 1 }));
                proof {
                    assert(v0[f as int] is None);
                    assert forall|i: int| #[trigger] users(self.files@, i) == users(v0, i) + uses(Some(SharedFile { file, count: 1 }), i) by {
                        lemma_users_update(v0, f as int, Some(SharedFile { file, count: 1 }), i);
                    }
                    assert forall|g: int| g != f implies #[trigger] self.has(g) == old(self).has(g) by {}
                }
                return f;
            }
            f = f + 1;
        }
        self.files.push(Some(SharedFile { file, count: 1 }));
        proof {
            assert forall|i: int| #[trigger] users(self.files@, i) == users(v0, i) + uses(Some(SharedFile { file, count: 1 }), i) by {
                lemma_users_push(v0, Some(SharedFile { file, count: 1 }), i);
            }
            assert forall|g: int| g != f implies #[trigger] self.has(g) == old(self).has(g) by {}
            assert forall|g: int| 0 <= g < self.files@.len() && (#[trigger] self.files@[g]) is Some implies self.files@[g]->0.count > 0 by {
                if g < f {
                    assert(self.files@[g] == v0[g]);
                }
            }
        }
        f
    }

    /// One descriptor more for file `f`.
    pub fn share(&mut self, f: usize)
        requires
            old(self).wf(),
            old(self).has(f as int),
            old(self).count(f as int) < usize::MAX,
        ensures
            final(self).wf(),
            final(self).files@ == old(self).files@.update(
                f as int,
                Some(SharedFile { file: old(self).file(f as int), count: (old(self).count(f as int) + 1) as usize }),
            ),
    {
        let ghost v0 = self.files@;
        match &mut self.files[f] {
            Some(shared) => {
                shared.count = shared.count + 1;
            },
            None => {},
        }
        proof {
            assert(self.files@ =~= v0.update(f as int, self.files@[f as int]));
        }
    }

    /// One descriptor less for file `f`. The file comes back where that was the last one.
    pub fn remove(&mut self, f: usize) -> (r: Option<File>)
        requires
            old(self).wf(),
            old(self).has(f as int),
        ensures
            final(self).wf(),
            if old(self).count(f as int) == 1 {
                r == Some(old(self).file(f as int)) && final(self).files@ == old(self).files@.update(f as int, None)
            } else {
                r is None && final(self).files@ == old(self).files@.update(
                    f as int,
                    Some(SharedFile { file: old(self).file(f as int), count: (old(self).count(f as int) - 1) as usize }),
                )
            },
    {
        let ghost v0 = self.files@;
        let mut slot: Option<SharedFile> = None;
        core::mem::swap(&mut self.files[f], &mut slot);
        match slot {
            Some(shared) => {
                if shared.count == 1 {
                    proof {
                        assert(self.files@ =~= v0.update(f as int, None));
                    }
                    return Some(shared.file);
                }
                let count = shared.count - 1;
                self.files.set(f, Some(SharedFile { file: shared.file, count }));
                proof {
                    assert(self.files@ =~= v0.update(f as int, self.files@[f as int]));
                }
                None
            },
            None => None,
        }
    }
}

/// A descriptor that is added and removed again leaves the file as it was.
pub proof fn lemma_share_remove(t0: FileTable, t1: FileTable, t2: FileTable, f: int)
    requires
        t0.wf(),
        t0.has(f),
        t0.count(f) < usize::MAX,
        t1.files@ == t0.files@.update(f, Some(SharedFile { file: t0.file(f), count: (t0.count(f) + 1) as usize })),
        t2.files@ == t1.files@.update(f, Some(SharedFile { file: t1.file(f), count: (t1.count(f) - 1) as usize })),
    ensures
        t2.files@ == t0.files@,
{
    assert(t2.files@ =~= t0.files@);
}

/// Number of open files whose inode is in slot `i`.
pub open spec fn users(files: Seq<Option<SharedFile>>, i: int) -> int
    decreases files.len(),
{
    if files.len() == 0 {
        0
    } else {
        users(files.drop_last(), i) + uses(files.last(), i)
    }
}

/// Whether an entry of the table uses slot `i`: 1 or 0.
pub open spec fn uses(entry: Option<SharedFile>, i: int) -> int {
    if entry is Some && entry->0.file.slot() == i {
        1
    } else {
        0
    }
}

/// A change of one entry changes the number of users accordingly.
pub proof fn lemma_users_update(files: Seq<Option<SharedFile>>, f: int, entry: Option<SharedFile>, i: int)
    requires
        0 <= f < files.len(),
    ensures
        users(files.update(f, entry), i) == users(files, i) - uses(files[f], i) + uses(entry, i),
    decreases files.len(),
{
    let new = files.update(f, entry);
    if f == files.len() - 1 {
        assert(new.drop_last() =~= files.drop_last());
    } else {
        assert(new.drop_last() =~= files.drop_last().update(f, entry));
        lemma_users_update(files.drop_last(), f, entry, i);
    }
}

/// One entry more.
pub proof fn lemma_users_push(files: Seq<Option<SharedFile>>, entry: Option<SharedFile>, i: int)
    ensures
        users(files.push(entry), i) == users(files, i) + uses(entry, i),
{
    assert(files.push(entry).drop_last() =~= files);
}

/// Every user counts.
pub proof fn lemma_users_some(files: Seq<Option<SharedFile>>, f: int, i: int)
    requires
        0 <= f < files.len(),
    ensures
        users(files, i) >= uses(files[f], i),
        users(files, i) >= 0,
    decreases files.len(),
{
    lemma_users_positive(files, i);
    if f < files.len() - 1 {
        lemma_users_some(files.drop_last(), f, i);
    } else {
        lemma_users_positive(files.drop_last(), i);
    }
}

/// There are not less than none.
pub proof fn lemma_users_positive(files: Seq<Option<SharedFile>>, i: int)
    ensures
        users(files, i) >= 0,
    decreases files.len(),
{
    if files.len() > 0 {
        lemma_users_positive(files.drop_last(), i);
    }
}

/// What a file refers to is there.
pub open spec fn file_ok<D: BlockDevice>(file: File, fs: FileSystem<D>, pipes: Pipes<PIPESIZE>) -> bool {
    match file {
        File::Pipe { pipe } => {
            &&& pipe.number() < pipes.pipes@.len()
            &&& if pipe is Read { pipes.pipes@[pipe.number()].read_open } else { pipes.pipes@[pipe.number()].write_open }
        },
        File::Inode { inode, writable, .. } => {
            &&& inode.cache_index < NINODE
            &&& writable ==> fs.file(fs.inum_at(inode.cache_index as int)).kind != InodeKind::Directory
        },
        File::Device { inode, .. } => inode.cache_index < NINODE,
    }
}

/// Two files are not the same end of a pipe.
pub open spec fn ends_apart(x: File, y: File) -> bool {
    match (x, y) {
        (File::Pipe { pipe: p }, File::Pipe { pipe: q }) => p != q,
        _ => true,
    }
}

/// All open files are in order: what they refer to is there, every end of a pipe is one file, and
/// the file system counts at least as many references to an inode as there are files for it.
pub open spec fn files_ok<D: BlockDevice>(files: FileTable, fs: FileSystem<D>, pipes: Pipes<PIPESIZE>) -> bool {
    &&& files.wf()
    &&& forall|f: int| #[trigger] files.has(f) ==> file_ok(files.file(f), fs, pipes)
    &&& forall|f: int, g: int| f != g && #[trigger] files.has(f) && #[trigger] files.has(g) ==> ends_apart(files.file(f), files.file(g))
    &&& forall|i: int| 0 <= i < NINODE ==> users(files.files@, i) <= #[trigger] fs.inodes.cache.counts@[i]
}

/// How many references to the inode in slot `i` there are beside those of open files.
pub open spec fn spare<D: BlockDevice>(files: FileTable, fs: FileSystem<D>, i: int) -> int {
    fs.inodes.cache.counts@[i] - users(files.files@, i)
}

/// A file of a table in order is in order itself.
pub proof fn lemma_file_ok<D: BlockDevice>(files: FileTable, fs: FileSystem<D>, pipes: Pipes<PIPESIZE>, f: int)
    requires
        files_ok(files, fs, pipes),
        files.has(f),
    ensures
        files.file(f).wf(fs, pipes),
        files.file(f).spares_directories(fs),
        file_ok(files.file(f), fs, pipes),
{
    let i = files.file(f).slot();
    if !(files.file(f) is Pipe) {
        lemma_users_some(files.files@, f, i);
        assert(users(files.files@, i) <= fs.inodes.cache.counts@[i]);
    }
}

/// The kind of what is in a slot that somebody refers to stays the same.
pub open spec fn kinds_kept<D: BlockDevice>(fs0: FileSystem<D>, fs1: FileSystem<D>) -> bool {
    forall|i: int|
        0 <= i < NINODE && fs0.inodes.cache.counts@[i] > 0 ==> {
            &&& #[trigger] fs1.inum_at(i) == fs0.inum_at(i)
            &&& fs1.file(fs0.inum_at(i)).kind == fs0.file(fs0.inum_at(i)).kind
        }
}

/// Files stay in order while the file system changes, as long as no reference is lost.
pub proof fn lemma_files_fs<D: BlockDevice>(files: FileTable, fs0: FileSystem<D>, fs1: FileSystem<D>, pipes: Pipes<PIPESIZE>)
    requires
        files_ok(files, fs0, pipes),
        kinds_kept(fs0, fs1),
        forall|i: int| 0 <= i < NINODE ==> fs0.inodes.cache.counts@[i] <= #[trigger] fs1.inodes.cache.counts@[i],
    ensures
        files_ok(files, fs1, pipes),
{
    assert forall|f: int| #[trigger] files.has(f) implies file_ok(files.file(f), fs1, pipes) by {
        lemma_file_ok(files, fs0, pipes, f);
        let i = files.file(f).slot();
        if files.file(f) is Inode {
            assert(fs1.inum_at(i) == fs0.inum_at(i));
        }
    }
    assert forall|i: int| 0 <= i < NINODE implies users(files.files@, i) <= #[trigger] fs1.inodes.cache.counts@[i] by {
        assert(users(files.files@, i) <= fs0.inodes.cache.counts@[i]);
    }
}

/// Files stay in order while pipes change, as long as no end is closed.
pub proof fn lemma_files_pipes<D: BlockDevice>(files: FileTable, fs: FileSystem<D>, pipes0: Pipes<PIPESIZE>, pipes1: Pipes<PIPESIZE>)
    requires
        files_ok(files, fs, pipes0),
        pipes1.pipes@.len() >= pipes0.pipes@.len(),
        forall|p: int|
            0 <= p < pipes0.pipes@.len() ==> {
                &&& (#[trigger] pipes1.pipes@[p]).read_open == pipes0.pipes@[p].read_open
                &&& pipes1.pipes@[p].write_open == pipes0.pipes@[p].write_open
            },
    ensures
        files_ok(files, fs, pipes1),
{
    assert forall|f: int| #[trigger] files.has(f) implies file_ok(files.file(f), fs, pipes1) by {
        assert(file_ok(files.file(f), fs, pipes0));
    }
}


/// Two states of a file refer to the same inode or pipe.
pub open spec fn same_object(x: File, y: File) -> bool {
    match (x, y) {
        (File::Pipe { pipe: p }, File::Pipe { pipe: q }) => p == q,
        (File::Inode { inode: i, writable: v, .. }, File::Inode { inode: j, writable: w, .. }) => i == j && v == w,
        (File::Device { inode: i, .. }, File::Device { inode: j, .. }) => i == j,
        _ => false,
    }
}

/// Files stay in order while the state of one of them, such as its offset, changes.
pub proof fn lemma_files_same<D: BlockDevice>(files0: FileTable, files1: FileTable, fs: FileSystem<D>, pipes: Pipes<PIPESIZE>, f: int)
    requires
        files_ok(files0, fs, pipes),
        files0.has(f),
        files1.files@ == files0.files@.update(f, files1.files@[f]),
        files1.has(f),
        same_object(files0.file(f), files1.file(f)),
    ensures
        files_ok(files1, fs, pipes),
        forall|g: int| #[trigger] files1.has(g) == files0.has(g),
{
    assert forall|g: int| #[trigger] files1.has(g) implies files0.has(g) && file_ok(files1.file(g), fs, pipes) by {
        assert(files0.has(g));
    }
    assert forall|g: int| #[trigger] files1.has(g) == files0.has(g) by {}
    assert forall|g: int, h: int| g != h && #[trigger] files1.has(g) && #[trigger] files1.has(h) implies ends_apart(files1.file(g), files1.file(h)) by {
        assert(files0.has(g) && files0.has(h));
    }
    assert forall|i: int| 0 <= i < NINODE implies users(files1.files@, i) <= #[trigger] fs.inodes.cache.counts@[i] by {
        lemma_users_update(files0.files@, f, files1.files@[f], i);
    }
}

/// Files stay in order when one of them is closed for good.
pub proof fn lemma_files_closed<D: BlockDevice>(
    files0: FileTable,
    files1: FileTable,
    fs0: FileSystem<D>,
    fs1: FileSystem<D>,
    pipes0: Pipes<PIPESIZE>,
    pipes1: Pipes<PIPESIZE>,
    f: int,
)
    requires
        files_ok(files0, fs0, pipes0),
        files0.has(f),
        files1.files@ == files0.files@.update(f, None),
        fs0.wf(),
        match files0.file(f) {
            File::Pipe { pipe } => {
                let p0 = pipes0.pipes@[pipe.number()];
                &&& fs1 == fs0
                &&& pipes1.pipes@ == pipes0.pipes@.update(
                    pipe.number(),
                    if pipe is Read { PipeInner { read_open: false, ..p0 } } else { PipeInner { write_open: false, ..p0 } },
                )
            },
            _ => {
                let i = files0.file(f).slot();
                &&& pipes1 == pipes0
                &&& ref_removed(fs0.inodes.cache, fs1.inodes.cache, i)
                &&& others_same(fs0, fs1, fs0.inum_at(i))
                &&& !frees(fs0.inodes, i) ==> fs1.file(fs0.inum_at(i)) == fs0.file(fs0.inum_at(i))
            },
        },
    ensures
        files_ok(files1, fs1, pipes1),
        forall|g: int| #[trigger] files1.has(g) == (files0.has(g) && g != f),
        forall|k: int| 0 <= k < NINODE ==> #[trigger] spare(files1, fs1, k) == spare(files0, fs0, k),
{
    let i = files0.file(f).slot();
    assert forall|g: int| #[trigger] files1.has(g) == (files0.has(g) && g != f) by {}
    assert forall|k: int| 0 <= k < NINODE implies #[trigger] spare(files1, fs1, k) == spare(files0, fs0, k) by {
        lemma_users_update(files0.files@, f, None, k);
        if k == i && !(files0.file(f) is Pipe) {
            assert(uses(files0.files@[f], k) == 1);
        }
    }
    assert forall|k: int| 0 <= k < NINODE implies users(files1.files@, k) <= #[trigger] fs1.inodes.cache.counts@[k] by {
        lemma_users_update(files0.files@, f, None, k);
        assert(users(files0.files@, k) <= fs0.inodes.cache.counts@[k]);
        if k == i {
            assert(uses(files0.files@[f], k) == 1);
        }
    }
    assert forall|g: int| #[trigger] files1.has(g) implies file_ok(files1.file(g), fs1, pipes1) by {
        assert(files0.has(g));
        let k = files0.file(g).slot();
        assert(ends_apart(files0.file(f), files0.file(g)));
        if files0.file(g) is Inode && !(files0.file(f) is Pipe) {
            lemma_file_ok(files0, fs0, pipes0, g);
            lemma_file_ok(files0, fs0, pipes0, f);
            fs0.lemma_refers(k);
            fs0.lemma_refers(i);
            if k == i {
                lemma_users_some(files1.files@, g, k);
                lemma_users_update(files0.files@, f, None, k);
                assert(users(files0.files@, k) <= fs0.inodes.cache.counts@[k]);
                assert(fs0.inodes.cache.counts@[i] >= 2);
            } else {
                fs0.lemma_slots_apart(i, k);
            }
        }
    }
    assert forall|g: int, h: int| g != h && #[trigger] files1.has(g) && #[trigger] files1.has(h) implies ends_apart(files1.file(g), files1.file(h)) by {
        assert(files0.has(g) && files0.has(h));
    }
}

/// Files stay in order when one is added.
pub proof fn lemma_files_added<D: BlockDevice>(files0: FileTable, files1: FileTable, fs0: FileSystem<D>, fs1: FileSystem<D>, pipes: Pipes<PIPESIZE>, f: int)
    requires
        files_ok(files0, fs0, pipes),
        files1.wf(),
        !files0.has(f),
        files1.has(f),
        forall|g: int| g != f ==> #[trigger] files1.has(g) == files0.has(g),
        forall|g: int| g != f && files0.has(g) ==> #[trigger] files1.files@[g] == files0.files@[g],
        forall|i: int| #[trigger] users(files1.files@, i) == users(files0.files@, i) + uses(Some(SharedFile { file: files1.file(f), count: 1 }), i),
        file_ok(files1.file(f), fs1, pipes),
        forall|g: int| #[trigger] files0.has(g) ==> ends_apart(files1.file(f), files0.file(g)),
        kinds_kept(fs0, fs1),
        forall|i: int| 0 <= i < NINODE ==> fs0.inodes.cache.counts@[i] + uses(Some(SharedFile { file: files1.file(f), count: 1 }), i)
            <= #[trigger] fs1.inodes.cache.counts@[i],
    ensures
        files_ok(files1, fs1, pipes),
{
    assert forall|i: int| 0 <= i < NINODE implies fs0.inodes.cache.counts@[i] <= #[trigger] fs1.inodes.cache.counts@[i] by {}
    lemma_files_fs(files0, fs0, fs1, pipes);
    assert forall|g: int| #[trigger] files1.has(g) implies file_ok(files1.file(g), fs1, pipes) by {
        if g != f {
            assert(files0.has(g));
            assert(files1.files@[g] == files0.files@[g]);
        }
    }
    assert forall|g: int, h: int| g != h && #[trigger] files1.has(g) && #[trigger] files1.has(h) implies ends_apart(files1.file(g), files1.file(h)) by {
        if g != f {
            assert(files0.has(g));
            assert(files1.files@[g] == files0.files@[g]);
        }
        if h != f {
            assert(files0.has(h));
            assert(files1.files@[h] == files0.files@[h]);
        }
    }
    assert forall|i: int| 0 <= i < NINODE implies users(files1.files@, i) <= #[trigger] fs1.inodes.cache.counts@[i] by {
        assert(users(files0.files@, i) <= fs0.inodes.cache.counts@[i]);
    }
}


/// Where a reference to an inode goes that no open file has, open files stay in order.
pub proof fn lemma_reference_dropped<D: BlockDevice>(files: FileTable, fs0: FileSystem<D>, fs1: FileSystem<D>, pipes: Pipes<PIPESIZE>, o: int)
    requires
        files_ok(files, fs0, pipes),
        fs0.wf(),
        0 <= o < NINODE,
        spare(files, fs0, o) > 0,
        ref_removed(fs0.inodes.cache, fs1.inodes.cache, o),
        others_same(fs0, fs1, fs0.inum_at(o)),
        !frees(fs0.inodes, o) ==> fs1.file(fs0.inum_at(o)) == fs0.file(fs0.inum_at(o)),
    ensures
        files_ok(files, fs1, pipes),
{
    lemma_users_positive(files.files@, o);
    fs0.lemma_refers(o);
    assert forall|k: int| 0 <= k < NINODE implies users(files.files@, k) <= #[trigger] fs1.inodes.cache.counts@[k] by {
        assert(users(files.files@, k) <= fs0.inodes.cache.counts@[k]);
    }
    assert forall|f: int| #[trigger] files.has(f) implies file_ok(files.file(f), fs1, pipes) by {
        lemma_file_ok(files, fs0, pipes, f);
        let i = files.file(f).slot();
        if files.file(f) is Inode {
            fs0.lemma_refers(i);
            lemma_users_some(files.files@, f, i);
            if i == o {
                assert(fs0.inodes.cache.counts@[o] >= 2);
            } else {
                fs0.lemma_slots_apart(i, o);
                assert(fs1.file(fs0.inum_at(i)) == fs0.file(fs0.inum_at(i)));
            }
        }
    }
}

} // verus!
