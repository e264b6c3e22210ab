//! What becomes of paths when names are added and removed.
use vstd::prelude::*;
use crate::filesystem::device::BlockDevice;
use crate::filesystem::directory_entry::{entry_bytes, lemma_entry_bytes, name_is, padded};
use crate::filesystem::file::{
    entry_inum, entry_matches, entry_name, is_entry_of, is_insert_place, no_entry_of, with_entry,
};
use crate::filesystem::inode::InodeKind;
use crate::filesystem::path::elements;
use crate::filesystem::volume::is_inode;
use crate::fs::{
    dir_target, first_unused, lemma_dir_target, lemma_name_added, lemma_name_removed,
    lemma_unlinked_is_gone, only_dots, FileSystem, FileView,
};

verus! {

/// A path leads where its last name leads from where the others lead.
pub(crate) proof fn lemma_walk_last<D: BlockDevice>(fs: FileSystem<D>, j: int, names: Seq<Seq<u8>>)
    requires
        names.len() > 0,
    ensures
        fs.walk(j, names) == match fs.walk(j, names.drop_last()) {
            Some(d) => if fs.file(d).kind == InodeKind::Directory {
                dir_target(fs.file(d).bytes, names.last())
            } else {
                None
            },
            None => None,
        },
    decreases names.len(),
{
    if names.len() == 1 {
        reveal_with_fuel(FileSystem::walk, 2);
        assert(names.drop_last() =~= Seq::<Seq<u8>>::empty());
        assert(names.skip(1) =~= Seq::<Seq<u8>>::empty());
    } else {
        assert(names.drop_last()[0] == names[0]);
        assert(names.skip(1).drop_last() =~= names.drop_last().skip(1));
        assert(names.skip(1).last() == names.last());
        if fs.file(j).kind == InodeKind::Directory {
            if let Some(t) = dir_target(fs.file(j).bytes, names[0]) {
                lemma_walk_last(fs, t, names.skip(1));
            }
        }
    }
}

/// An entry for a name that is no other name `n` does not disturb `n`.
proof fn lemma_other_added(c: Seq<u8>, k: int, t: int, name: Seq<u8>, n: Seq<u8>)
    requires
        c.len() % 16 == 0,
        is_insert_place(c, k),
        no_entry_of(c, name),
        0 < t < 65536,
        !name_is(padded(name), n),
        dir_target(c, n) is Some,
    ensures
        dir_target(with_entry(c, k, t, name), n) == dir_target(c, n),
{
    let d = with_entry(c, k, t, name);
    lemma_name_added(c, k, t, name);
    lemma_dir_target(c, n);
    let x = choose|x: int| #[trigger] is_entry_of(c, n, x);
    assert(is_entry_of(c, n, x));
    let e = entry_bytes(t, padded(name));
    lemma_entry_bytes(t, padded(name));
    assert(d.subrange(16 * k, 16 * k + 16) =~= e);
    assert(entry_name(d, k) =~= e.subrange(2, 16));
    assert(x != k);
    assert(entry_inum(d, x) == entry_inum(c, x));
    assert forall|j: int| 0 <= j < x implies !#[trigger] entry_matches(d, j, n) by {
        assert(!entry_matches(c, j, n));
        if j != k {
            assert(entry_inum(d, j) == entry_inum(c, j));
        }
    }
    assert(is_entry_of(d, n, x));
    lemma_dir_target(d, n);
}

/// Directory `p` got an entry for `name` at place `k`; the other directories are the same.
spec fn name_added<D: BlockDevice>(fs0: FileSystem<D>, fs1: FileSystem<D>, p: int, k: int, t: int, name: Seq<u8>) -> bool {
    &&& is_insert_place(fs0.file(p).bytes, k)
    &&& no_entry_of(fs0.file(p).bytes, name)
    &&& fs0.file(p).bytes.len() % 16 == 0
    &&& 0 < t < 65536
    &&& fs1.file(p).bytes == with_entry(fs0.file(p).bytes, k, t, name)
    &&& fs1.file(p).kind == fs0.file(p).kind
    &&& forall|x: int|
        is_inode(fs0.sb(), x) && x != p && (#[trigger] fs0.file(x)).kind == InodeKind::Directory ==> fs1.file(x).bytes == fs0.file(x).bytes
            && fs1.file(x).kind == InodeKind::Directory
}

/// Paths that led somewhere lead there still, though another name was added.
proof fn lemma_walk_kept<D: BlockDevice>(
    fs0: FileSystem<D>,
    fs1: FileSystem<D>,
    p: int,
    k: int,
    t: int,
    name: Seq<u8>,
    j: int,
    names: Seq<Seq<u8>>,
)
    requires
        fs0.links_ok(),
        is_inode(fs0.sb(), j),
        name_added(fs0, fs1, p, k, t, name),
        forall|i: int| 0 <= i < names.len() ==> !name_is(padded(name), #[trigger] names[i]),
        fs0.walk(j, names) is Some,
    ensures
        fs1.walk(j, names) == fs0.walk(j, names),
    decreases names.len(),
{
    if names.len() > 0 {
        let c = fs0.file(j).bytes;
        let n = names[0];
        lemma_dir_target(c, n);
        let x = choose|x: int| #[trigger] is_entry_of(c, n, x);
        assert(is_entry_of(c, n, x));
        fs0.lemma_entry(j, x);
        assert(fs0.entry_ok(j, x));
        if j == p {
            lemma_other_added(c, k, t, name, n);
        }
        assert forall|i: int| 0 <= i < names.skip(1).len() implies !name_is(padded(name), #[trigger] names.skip(1)[i]) by {
            assert(names.skip(1)[i] == names[i + 1]);
        }
        lemma_walk_kept(fs0, fs1, p, k, t, name, entry_inum(c, x), names.skip(1));
    }
}

/// A path whose last name was added leads to the file that it was added for.
proof fn lemma_added_path<D: BlockDevice>(fs0: FileSystem<D>, fs1: FileSystem<D>, path: Seq<u8>, cwd: Option<int>, k: int, t: int)
    requires
        fs0.wf(),
        fs0.links_ok(),
        fs0.origin_ok(cwd),
        fs0.parent(path, cwd) is Some,
        name_added(fs0, fs1, fs0.parent(path, cwd)->0, k, t, elements(path).last()),
        fs1.origin(path, cwd) == fs0.origin(path, cwd),
        forall|i: int| 0 <= i < elements(path).len() - 1 ==> !name_is(padded(elements(path).last()), #[trigger] elements(path)[i]),
    ensures
        fs1.target(path, cwd) == Some(t),
{
    let p = fs0.parent(path, cwd)->0;
    let names = elements(path);
    let name = names.last();
    let start = fs0.origin(path, cwd)->0;
    if cwd is Some {
        assert(fs0.slot_ok(cwd->0));
    }
    lemma_name_added(fs0.file(p).bytes, k, t, name);
    assert forall|i: int| 0 <= i < names.drop_last().len() implies !name_is(padded(name), #[trigger] names.drop_last()[i]) by {
        assert(names.drop_last()[i] == names[i]);
    }
    lemma_walk_kept(fs0, fs1, p, k, t, name, start, names.drop_last());
    lemma_walk_last(fs1, start, names);
}

/// A path under which a file was made leads to this file, unless the new name is taken for one of
/// the directories on the way.
pub proof fn lemma_created_path<D: BlockDevice>(
    fs0: FileSystem<D>,
    fs1: FileSystem<D>,
    path: Seq<u8>,
    cwd: Option<int>,
    kind: InodeKind,
    major: int,
    minor: int,
    t: int,
)
    requires
        fs0.wf(),
        fs0.links_ok(),
        fs0.origin_ok(cwd),
        fs0.create_new(fs1, path, cwd, kind, major, minor, t),
        fs1.origin(path, cwd) == fs0.origin(path, cwd),
        forall|i: int| 0 <= i < elements(path).len() - 1 ==> !name_is(padded(elements(path).last()), #[trigger] elements(path)[i]),
    ensures
        fs1.target(path, cwd) == Some(t),
{
    let p = fs0.parent(path, cwd)->0;
    let name = elements(path).last();
    let c = fs0.file(p).bytes;
    fs0.lemma_target_ok(path, path, cwd);
    assert(fs0.disk_ok(p));
    let k = choose|k: int| #[trigger] is_insert_place(c, k) && fs1.file(p) == (FileView {
        bytes: with_entry(c, k, t, name),
        nlink: fs0.file(p).nlink + if kind == InodeKind::Directory { 1int } else { 0int },
        ..fs0.file(p)
    });
    assert(first_unused(fs0, t));
    lemma_added_path(fs0, fs1, path, cwd, k, t);
}

/// A path that was made a second name of a file leads to this file, if the name was not there
/// yet, unless the new name is taken for one of the directories on the way.
pub proof fn lemma_linked_path<D: BlockDevice>(
    fs0: FileSystem<D>,
    fs1: FileSystem<D>,
    new: Seq<u8>,
    old_path: Seq<u8>,
    cwd: Option<int>,
)
    requires
        fs0.wf(),
        fs0.links_ok(),
        fs0.origin_ok(cwd),
        fs0.link_done(fs1, new, old_path, cwd),
        no_entry_of(fs0.file(fs0.parent(new, cwd)->0).bytes, elements(new).last()),
        fs1.origin(new, cwd) == fs0.origin(new, cwd),
        forall|i: int| 0 <= i < elements(new).len() - 1 ==> !name_is(padded(elements(new).last()), #[trigger] elements(new)[i]),
    ensures
        fs1.target(new, cwd) == fs0.target(old_path, cwd),
{
    let p = fs0.parent(new, cwd)->0;
    let name = elements(new).last();
    let t = fs0.target(old_path, cwd)->0;
    let c = fs0.file(p).bytes;
    fs0.lemma_target_ok(new, old_path, cwd);
    assert(fs0.disk_ok(p));
    let k = choose|k: int| #[trigger] is_insert_place(c, k) && fs0.linked(fs1, p, t, k, name);
    lemma_added_path(fs0, fs1, new, cwd, k, t);
}

/// Where paths lead, they led before, though a name was removed that is none of theirs.
proof fn lemma_walk_left<D: BlockDevice>(
    fs0: FileSystem<D>,
    fs1: FileSystem<D>,
    p: int,
    t: int,
    k: int,
    name: Seq<u8>,
    j: int,
    names: Seq<Seq<u8>>,
)
    requires
        fs0.links_ok(),
        is_inode(fs0.sb(), p),
        is_inode(fs0.sb(), j),
        is_entry_of(fs0.file(p).bytes, name, k),
        forall|i: int| k < i < fs0.file(p).bytes.len() as int / 16 ==> !#[trigger] entry_matches(fs0.file(p).bytes, i, name),
        t != p,
        fs0.unlinked(fs1, p, t, k),
        forall|i: int| 0 <= i < names.len() ==> !name_is(entry_name(fs0.file(p).bytes, k), #[trigger] names[i]),
        fs1.walk(j, names) is Some,
    ensures
        fs0.walk(j, names) == fs1.walk(j, names),
    decreases names.len(),
{
    if names.len() > 0 {
        let c0 = fs0.file(j).bytes;
        let c1 = fs1.file(j).bytes;
        let n = names[0];
        lemma_dir_target(c1, n);
        let x = choose|x: int| #[trigger] is_entry_of(c1, n, x);
        assert(is_entry_of(c1, n, x));
        if j == p {
            lemma_name_removed(c0, k, name);
            let e = entry_bytes(0, padded(Seq::empty()));
            lemma_entry_bytes(0, padded(Seq::empty()));
            assert(c1[16 * k] == e[0]);
            assert(c1[16 * k + 1] == e[1]);
            assert(entry_inum(c1, k) == 0);
            assert(x != k);
            assert(entry_inum(c1, x) == entry_inum(c0, x));
            assert forall|i: int| 0 <= i < x implies !#[trigger] entry_matches(c0, i, n) by {
                assert(!entry_matches(c1, i, n));
                if i != k {
                    assert(entry_inum(c1, i) == entry_inum(c0, i));
                }
            }
            assert(is_entry_of(c0, n, x));
        } else if j != t {
            assert(fs1.file(j) == fs0.file(j));
        }
        lemma_dir_target(c0, n);
        fs0.lemma_entry(j, x);
        assert(fs0.entry_ok(j, x));
        assert forall|i: int| 0 <= i < names.skip(1).len() implies !name_is(
            entry_name(fs0.file(p).bytes, k),
            #[trigger] names.skip(1)[i],
        ) by {
            assert(names.skip(1)[i] == names[i + 1]);
        }
        lemma_walk_left(fs0, fs1, p, t, k, name, entry_inum(c0, x), names.skip(1));
    }
}

/// A path whose last name was removed leads nowhere, if the directory had the name once and the
/// name is not taken for one of the directories on the way.
pub proof fn lemma_unlinked_path<D: BlockDevice>(fs0: FileSystem<D>, fs1: FileSystem<D>, path: Seq<u8>, cwd: Option<int>)
    requires
        fs0.wf(),
        fs0.links_ok(),
        fs0.origin_ok(cwd),
        fs0.unlink_done(fs1, path, cwd),
        fs0.unlink_ok(fs0.parent(path, cwd)->0, elements(path).last()),
        fs1.origin(path, cwd) == fs0.origin(path, cwd),
        forall|i: int, j: int|
            0 <= i < j < fs0.file(fs0.parent(path, cwd)->0).bytes.len() as int / 16 ==> !(#[trigger] entry_matches(
                fs0.file(fs0.parent(path, cwd)->0).bytes,
                i,
                elements(path).last(),
            ) && #[trigger] entry_matches(fs0.file(fs0.parent(path, cwd)->0).bytes, j, elements(path).last())),
        forall|k: int, i: int|
            #[trigger] is_entry_of(fs0.file(fs0.parent(path, cwd)->0).bytes, elements(path).last(), k) && 0 <= i < elements(path).len() - 1
                ==> !name_is(entry_name(fs0.file(fs0.parent(path, cwd)->0).bytes, k), #[trigger] elements(path)[i]),
    ensures
        fs1.target(path, cwd) is None,
{
    let p = fs0.parent(path, cwd)->0;
    let names = elements(path);
    let name = names.last();
    let c = fs0.file(p).bytes;
    let start = fs0.origin(path, cwd)->0;
    fs0.lemma_target_ok(path, path, cwd);
    if cwd is Some {
        assert(fs0.slot_ok(cwd->0));
    }
    lemma_unlinked_is_gone(fs0, fs1, path, cwd);
    let k = choose|k: int| {
        &&& #[trigger] is_entry_of(c, name, k)
        &&& fs0.file(entry_inum(c, k)).kind == InodeKind::Directory ==> only_dots(fs0.file(entry_inum(c, k)).bytes)
        &&& fs0.unlinked(fs1, p, entry_inum(c, k), k)
    };
    lemma_dir_target(c, name);
    assert forall|i: int| 0 <= i < names.drop_last().len() implies !name_is(entry_name(c, k), #[trigger] names.drop_last()[i]) by {
        assert(names.drop_last()[i] == names[i]);
    }
    if fs1.walk(start, names.drop_last()) is Some {
        lemma_walk_left(fs0, fs1, p, entry_inum(c, k), k, name, start, names.drop_last());
    }
    lemma_walk_last(fs1, start, names);
}

} // verus!
