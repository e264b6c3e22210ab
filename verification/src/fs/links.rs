//! What keeps the entries of all directories in order: each names an inode that is in use.
use vstd::prelude::*;
use crate::filesystem::device::BlockDevice;
use crate::filesystem::directory_entry::{entry_bytes, lemma_entry_bytes, padded};
use crate::filesystem::file::{entry_inum, is_entry_of, is_insert_place, with_entry};
use crate::filesystem::inode::InodeKind;
use crate::filesystem::volume::is_inode;
use crate::fs::session::others_same;
use crate::fs::{files_alike, files_kept, first_unused, is_dots, lemma_dir_target, new_directory, FileSystem, FileView};

verus! {

/// The entries of a directory after one was put at place `k`.
proof fn lemma_entries(c: Seq<u8>, k: int, t: int, name: Seq<u8>)
    requires
        c.len() % 16 == 0,
        0 <= k <= c.len() as int / 16,
        0 <= t < 65536,
    ensures
        with_entry(c, k, t, name).len() == if k < c.len() as int / 16 { c.len() } else { c.len() + 16 },
        entry_inum(with_entry(c, k, t, name), k) == t,
        forall|j: int| 0 <= j < c.len() as int / 16 && j != k ==> #[trigger] entry_inum(with_entry(c, k, t, name), j) == entry_inum(c, j),
{
    let d = with_entry(c, k, t, name);
    let e = entry_bytes(t, padded(name));
    lemma_entry_bytes(t, padded(name));
    assert(d[16 * k] == e[0]);
    assert(d[16 * k + 1] == e[1]);
    assert forall|j: int| 0 <= j < c.len() as int / 16 && j != k implies #[trigger] entry_inum(d, j) == entry_inum(c, j) by {
        assert(d[16 * j] == c[16 * j]);
        assert(d[16 * j + 1] == c[16 * j + 1]);
    }
}

/// Directories that are the same name inodes in use as long as what was in use, and had a name,
/// still does.
proof fn lemma_links_same<D: BlockDevice>(fs0: FileSystem<D>, fs1: FileSystem<D>)
    requires
        fs0.links_ok(),
        fs1.sb() == fs0.sb(),
        forall|x: int| is_inode(fs0.sb(), x) && (#[trigger] fs1.file(x)).kind == InodeKind::Directory ==> fs0.file(x).kind
            == InodeKind::Directory && fs0.file(x).bytes == fs1.file(x).bytes,
        forall|x: int| #[trigger] fs0.target_ok(x) ==> fs1.target_ok(x),
    ensures
        fs1.links_ok(),
{
    reveal(FileSystem::links_ok);
    assert forall|d: int, k: int|
        is_inode(fs1.sb(), d) && fs1.file(d).kind == InodeKind::Directory && 0 <= k < fs1.file(d).bytes.len() as int
            / 16 implies #[trigger] fs1.entry_ok(d, k) by {
        assert(fs0.entry_ok(d, k));
    }
}

/// Calls that keep the files keep the entries in order.
pub proof fn lemma_links_kept<D: BlockDevice>(fs0: FileSystem<D>, fs1: FileSystem<D>)
    requires
        fs0.links_ok(),
        files_kept(fs0, fs1) || files_alike(fs0, fs1),
    ensures
        fs1.links_ok(),
{
    assert forall|x: int| is_inode(fs0.sb(), x) && (#[trigger] fs1.file(x)).kind == InodeKind::Directory implies fs0.file(x).kind
        == InodeKind::Directory && fs0.file(x).bytes == fs1.file(x).bytes by {
        assert(fs1.file(x) == fs0.file(x));
    }
    assert forall|x: int| #[trigger] fs0.target_ok(x) implies fs1.target_ok(x) by {
        assert(fs1.file(x) == fs0.file(x));
    }
    lemma_links_same(fs0, fs1);
}

/// Work on one file that is no directory, such as writing to it or emptying it, keeps the
/// entries in order.
pub proof fn lemma_links_file<D: BlockDevice>(fs0: FileSystem<D>, fs1: FileSystem<D>, j: int)
    requires
        fs0.links_ok(),
        others_same(fs0, fs1, j),
        is_inode(fs0.sb(), j),
        fs0.file(j).kind != InodeKind::Directory,
        fs1.file(j) == (FileView { bytes: fs1.file(j).bytes, ..fs0.file(j) }),
    ensures
        fs1.links_ok(),
{
    assert forall|x: int| is_inode(fs0.sb(), x) && (#[trigger] fs1.file(x)).kind == InodeKind::Directory implies fs0.file(x).kind
        == InodeKind::Directory && fs0.file(x).bytes == fs1.file(x).bytes by {
        if x != j {
            assert(fs1.file(x) == fs0.file(x));
        }
    }
    assert forall|x: int| #[trigger] fs0.target_ok(x) implies fs1.target_ok(x) by {
        if x != j {
            assert(fs1.file(x) == fs0.file(x));
        }
    }
    lemma_links_same(fs0, fs1);
}

/// A new name for a file keeps the entries in order.
pub proof fn lemma_links_linked<D: BlockDevice>(fs0: FileSystem<D>, fs1: FileSystem<D>, p: int, t: int, k: int, name: Seq<u8>)
    requires
        fs0.wf(),
        fs0.links_ok(),
        fs1.sb() == fs0.sb(),
        is_inode(fs0.sb(), p),
        is_inode(fs0.sb(), t),
        fs0.file(p).kind == InodeKind::Directory,
        fs0.file(t).kind != InodeKind::Directory,
        fs0.file(t).kind != InodeKind::Unused,
        is_insert_place(fs0.file(p).bytes, k),
        fs0.linked(fs1, p, t, k, name),
    ensures
        fs1.links_ok(),
{
    let c = fs0.file(p).bytes;
    assert(fs0.disk_ok(p));
    lemma_entries(c, k, t, name);
    assert forall|x: int| #[trigger] fs0.target_ok(x) implies fs1.target_ok(x) by {
        if x != p && x != t {
            assert(fs1.file(x) == fs0.file(x));
        }
    }
    reveal(FileSystem::links_ok);
    assert forall|d: int, e: int|
        is_inode(fs1.sb(), d) && fs1.file(d).kind == InodeKind::Directory && 0 <= e < fs1.file(d).bytes.len() as int
            / 16 implies #[trigger] fs1.entry_ok(d, e) by {
        if d == p {
            if e == k {
                assert(fs1.target_ok(t));
            } else {
                assert(fs0.entry_ok(p, e));
            }
        } else {
            if d != t {
                assert(fs1.file(d) == fs0.file(d));
            }
            assert(fs0.entry_ok(d, e));
        }
    }
}

/// A new file, directory or device keeps the entries in order.
#[verifier::rlimit(30)]
pub proof fn lemma_links_made<D: BlockDevice>(
    fs0: FileSystem<D>,
    fs1: FileSystem<D>,
    p: int,
    name: Seq<u8>,
    t: int,
    kind: InodeKind,
    major: int,
    minor: int,
)
    requires
        fs0.wf(),
        fs0.links_ok(),
        fs1.sb() == fs0.sb(),
        is_inode(fs0.sb(), p),
        fs0.file(p).kind == InodeKind::Directory,
        kind != InodeKind::Unused,
        fs0.made(fs1, p, name, t, kind, major, minor),
    ensures
        fs1.links_ok(),
{
    let is_dir = kind == InodeKind::Directory;
    let c = fs0.file(p).bytes;
    assert(fs0.disk_ok(p));
    let k = choose|k: int| #[trigger] is_insert_place(c, k) && fs1.file(p) == (FileView {
        bytes: with_entry(c, k, t, name),
        nlink: fs0.file(p).nlink + if is_dir { 1int } else { 0int },
        ..fs0.file(p)
    });
    assert(first_unused(fs0, t));
    lemma_entries(c, k, t, name);
    assert forall|x: int| #[trigger] fs0.target_ok(x) implies fs1.target_ok(x) by {
        if x != p && x != t {
            assert(fs1.file(x) == fs0.file(x));
        }
    }
    let dots = new_directory(t, p);
    let dot = with_entry(Seq::empty(), 0, t, seq![0x2eu8]);
    lemma_entries(Seq::empty(), 0, t, seq![0x2eu8]);
    lemma_entries(dot, 1, p, seq![0x2eu8, 0x2eu8]);
    assert(fs1.target_ok(t));
    reveal(FileSystem::links_ok);
    assert forall|d: int, e: int|
        is_inode(fs1.sb(), d) && fs1.file(d).kind == InodeKind::Directory && 0 <= e < fs1.file(d).bytes.len() as int
            / 16 implies #[trigger] fs1.entry_ok(d, e) by {
        if d == t {
            assert(entry_inum(dots, 0) == t);
            assert(entry_inum(dots, 1) == p);
            assert(fs1.target_ok(p));
        } else if d == p {
            if e != k {
                assert(fs0.entry_ok(p, e));
            }
        } else {
            assert(fs1.file(d) == fs0.file(d));
            assert(fs0.entry_ok(d, e));
        }
    }
}

/// Nothing but entry `k` of directory `p`, and perhaps the inode itself, names inode `t`.
pub open spec fn only_name<D: BlockDevice>(fs: FileSystem<D>, p: int, k: int, t: int) -> bool {
    forall|d: int, e: int|
        is_inode(fs.sb(), d) && fs.file(d).kind == InodeKind::Directory && 0 <= e < fs.file(d).bytes.len() as int / 16 && !(d == p && e == k)
            && d != t ==> #[trigger] entry_inum(fs.file(d).bytes, e) != t
}

/// Removing a name keeps the entries in order, where the count of names was right, unless the
/// last name of a directory goes that somebody still uses.
#[verifier::rlimit(30)]
pub proof fn lemma_links_unlinked<D: BlockDevice>(fs0: FileSystem<D>, fs1: FileSystem<D>, p: int, t: int, k: int, name: Seq<u8>)
    requires
        fs0.wf(),
        fs0.links_ok(),
        fs1.sb() == fs0.sb(),
        is_inode(fs0.sb(), p),
        fs0.file(p).kind == InodeKind::Directory,
        is_entry_of(fs0.file(p).bytes, name, k),
        t == entry_inum(fs0.file(p).bytes, k),
        !is_dots(name),
        fs0.unlink_ok(p, name),
        fs0.unlinked(fs1, p, t, k),
        fs0.file(t).nlink == 1 ==> only_name(fs0, p, k, t),
        fs0.file(t).kind == InodeKind::Directory ==> fs0.file(t).nlink == 1 && !fs0.inodes.cache.keys().contains(Some(fs0.key(t))),
    ensures
        fs1.links_ok(),
{
    reveal(FileSystem::links_ok);
    let c = fs0.file(p).bytes;
    assert(fs0.disk_ok(p));
    lemma_dir_target(c, name);
    lemma_entries(c, k, 0, Seq::empty());
    assert(fs0.entry_ok(p, k));
    assert(fs0.target_ok(t));
    assert forall|d: int, e: int|
        is_inode(fs1.sb(), d) && fs1.file(d).kind == InodeKind::Directory && 0 <= e < fs1.file(d).bytes.len() as int
            / 16 implies #[trigger] fs1.entry_ok(d, e) by {
        if d != p && d != t {
            assert(fs1.file(d) == fs0.file(d));
        }
        assert(fs0.entry_ok(d, e));
        let x = entry_inum(fs1.file(d).bytes, e);
        if x != 0 && !(d == p && e == k) {
            assert(x == entry_inum(fs0.file(d).bytes, e));
            assert(fs0.target_ok(x));
            if x != t && x != p {
                assert(fs1.file(x) == fs0.file(x));
            }
        }
    }
}

} // verus!
