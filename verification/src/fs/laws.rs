//! What names, paths and links are for, over the operations that change them.
use vstd::prelude::*;
use crate::filesystem::device::BlockDevice;
use crate::filesystem::directory_entry::{entry_bytes, lemma_entry_bytes, lemma_names_apart, padded};
use crate::filesystem::file::{
    entry_inum, entry_matches, entry_name, is_entry_of, is_insert_place, no_entry_of, with_entry,
};
use crate::filesystem::inode::InodeKind;
use crate::filesystem::path::{element_end, elements, elements_from, lemma_element_end};
use crate::fs::paths::lemma_walk_last;
use crate::fs::{dir_target, lemma_dir_target, lemma_name_added, new_directory, FileSystem};

verus! {

/// Two names that a directory keeps apart: they differ and have the same length, of at most 14 bytes.
pub open spec fn names_differ(x: Seq<u8>, y: Seq<u8>) -> bool {
    x != y && x.len() == y.len() <= 14
}

/// What an entry holds after one was put at place `k`.
proof fn lemma_entries_beside(c: Seq<u8>, k: int, t: int, name: Seq<u8>)
    requires
        c.len() % 16 == 0,
        0 <= k <= c.len() as int / 16,
        0 <= t < 65536,
    ensures
        ({
            let d = with_entry(c, k, t, name);
            &&& d.len() as int / 16 == if k < c.len() as int / 16 { c.len() as int / 16 } else { k + 1 }
            &&& entry_inum(d, k) == t
            &&& entry_name(d, k) == padded(name)
            &&& forall|j: int| 0 <= j < c.len() as int / 16 && j != k ==> #[trigger] entry_inum(d, j) == entry_inum(c, j) && entry_name(d, j)
                == entry_name(c, j)
        }),
{
    let d = with_entry(c, k, t, name);
    let e = entry_bytes(t, padded(name));
    lemma_entry_bytes(t, padded(name));
    assert(d.subrange(16 * k, 16 * k + 16) =~= e);
    assert(d[16 * k] == e[0]);
    assert(d[16 * k + 1] == e[1]);
    assert(entry_name(d, k) =~= e.subrange(2, 16));
    assert forall|j: int| 0 <= j < c.len() as int / 16 && j != k implies #[trigger] entry_inum(d, j) == entry_inum(c, j) && entry_name(d, j)
        == entry_name(c, j) by {
        assert(d[16 * j] == c[16 * j]);
        assert(d[16 * j + 1] == c[16 * j + 1]);
        assert(entry_name(d, j) =~= entry_name(c, j));
    }
}

/// A change of entry `k`, which matches `y` neither before nor after, changes nothing for `y`.
proof fn lemma_lookup_same(c: Seq<u8>, d: Seq<u8>, k: int, y: Seq<u8>)
    requires
        c.len() <= d.len(),
        0 <= k <= c.len() as int / 16,
        k < c.len() as int / 16 ==> !entry_matches(c, k, y),
        !entry_matches(d, k, y),
        d.len() as int / 16 <= c.len() as int / 16 || d.len() as int / 16 == k + 1,
        forall|j: int| 0 <= j < c.len() as int / 16 && j != k ==> #[trigger] entry_inum(d, j) == entry_inum(c, j) && entry_name(d, j)
            == entry_name(c, j),
    ensures
        dir_target(d, y) == dir_target(c, y),
{
    lemma_dir_target(c, y);
    lemma_dir_target(d, y);
    assert forall|j: int| 0 <= j < c.len() as int / 16 implies #[trigger] entry_matches(d, j, y) == entry_matches(c, j, y) by {
        if j != k {
            assert(entry_inum(d, j) == entry_inum(c, j));
        }
    }
    if dir_target(c, y) is Some {
        let x = choose|x: int| #[trigger] is_entry_of(c, y, x);
        assert(is_entry_of(c, y, x));
        assert(entry_matches(d, x, y));
        assert forall|j: int| 0 <= j < x implies !#[trigger] entry_matches(d, j, y) by {
            assert(!entry_matches(c, j, y));
        }
        assert(is_entry_of(d, y, x));
        assert(x != k);
        assert(entry_inum(d, x) == entry_inum(c, x));
    } else if dir_target(d, y) is Some {
        let x = choose|x: int| #[trigger] is_entry_of(d, y, x);
        assert(is_entry_of(d, y, x));
        assert(x != k);
        assert(entry_matches(c, x, y));
    }
}

/// A directory that gets a name still has the same file under every other name, or none.
pub proof fn lemma_other_name_kept(c: Seq<u8>, k: int, t: int, x: Seq<u8>, y: Seq<u8>)
    requires
        c.len() % 16 == 0,
        is_insert_place(c, k),
        0 < t < 65536,
        names_differ(x, y),
    ensures
        dir_target(with_entry(c, k, t, x), y) == dir_target(c, y),
{
    lemma_entries_beside(c, k, t, x);
    lemma_names_apart(x, y);
    lemma_lookup_same(c, with_entry(c, k, t, x), k, y);
}

/// Where nothing is found under a name, no entry matches it.
pub(crate) proof fn lemma_no_target(c: Seq<u8>, name: Seq<u8>)
    ensures
        dir_target(c, name) is None ==> no_entry_of(c, name),
{
    lemma_dir_target(c, name);
}

/// A file that was made is found under its path, where nothing was before. It has one name, the kind and
/// the numbers that were asked for, and no bytes, unless it is a directory.
pub proof fn lemma_created<D: BlockDevice>(
    fs0: FileSystem<D>,
    fs1: FileSystem<D>,
    path: Seq<u8>,
    cwd: Option<int>,
    kind: InodeKind,
    major: int,
    minor: int,
    t: int,
)
    requires
        fs0.wf(),
        fs0.links_ok(),
        fs0.origin_ok(cwd),
        fs0.create_new(fs1, path, cwd, kind, major, minor, t),
    ensures
        dir_target(fs1.file(fs0.parent(path, cwd)->0).bytes, elements(path).last()) == Some(t),
        dir_target(fs0.file(fs0.parent(path, cwd)->0).bytes, elements(path).last()) is None,
        fs0.file(t).kind == InodeKind::Unused,
        fs1.file(t).kind == kind,
        fs1.file(t).nlink == 1,
        fs1.file(t).major == major,
        fs1.file(t).minor == minor,
        kind != InodeKind::Directory ==> fs1.file(t).bytes.len() == 0,
{
    let p = fs0.parent(path, cwd)->0;
    let name = elements(path).last();
    let c = fs0.file(p).bytes;
    fs0.lemma_target_ok(path, path, cwd);
    assert(fs0.disk_ok(p));
    let k = choose|k: int| #[trigger] is_insert_place(c, k) && fs1.file(p) == (crate::fs::FileView {
        bytes: with_entry(c, k, t, name),
        nlink: fs0.file(p).nlink + if kind == InodeKind::Directory { 1int } else { 0int },
        ..fs0.file(p)
    });
    assert(crate::fs::first_unused(fs0, t));
    lemma_name_added(c, k, t, name);
    lemma_dir_target(c, name);
}

/// Making a file under a path changes nothing for any other name in its directory: what was not there
/// is not there, and what was there is the same file.
pub proof fn lemma_created_beside<D: BlockDevice>(
    fs0: FileSystem<D>,
    fs1: FileSystem<D>,
    path: Seq<u8>,
    cwd: Option<int>,
    kind: InodeKind,
    major: int,
    minor: int,
    t: int,
    y: Seq<u8>,
)
    requires
        fs0.wf(),
        fs0.links_ok(),
        fs0.origin_ok(cwd),
        fs0.create_new(fs1, path, cwd, kind, major, minor, t),
        names_differ(elements(path).last(), y),
    ensures
        dir_target(fs1.file(fs0.parent(path, cwd)->0).bytes, y) == dir_target(fs0.file(fs0.parent(path, cwd)->0).bytes, y),
{
    let p = fs0.parent(path, cwd)->0;
    let name = elements(path).last();
    let c = fs0.file(p).bytes;
    fs0.lemma_target_ok(path, path, cwd);
    assert(fs0.disk_ok(p));
    let k = choose|k: int| #[trigger] is_insert_place(c, k) && fs1.file(p) == (crate::fs::FileView {
        bytes: with_entry(c, k, t, name),
        nlink: fs0.file(p).nlink + if kind == InodeKind::Directory { 1int } else { 0int },
        ..fs0.file(p)
    });
    assert(crate::fs::first_unused(fs0, t));
    lemma_other_name_kept(c, k, t, name, y);
}

/// A new directory has itself under `.` and the directory that it was made in under `..`, and no other
/// name.
pub proof fn lemma_new_directory(t: int, p: int, name: Seq<u8>)
    requires
        0 < t < 65536,
        0 < p < 65536,
    ensures
        dir_target(new_directory(t, p), seq![0x2eu8]) == Some(t),
        dir_target(new_directory(t, p), seq![0x2eu8, 0x2eu8]) == Some(p),
        name.len() > 0 && name[0] != 0x2e && name[0] != 0 ==> dir_target(new_directory(t, p), name) is None,
{
    let dot = seq![0x2eu8];
    let dotdot = seq![0x2eu8, 0x2eu8];
    let empty = Seq::<u8>::empty();
    let one = with_entry(empty, 0, t, dot);
    let d = new_directory(t, p);
    lemma_entries_beside(empty, 0, t, dot);
    assert(one.len() == 16);
    lemma_entries_beside(one, 1, p, dotdot);
    assert(d.len() == 32);
    assert(entry_inum(d, 0) == entry_inum(one, 0));
    assert(padded(dot)[0] == 0x2e && padded(dot)[1] == 0 && padded(dotdot)[0] == 0x2e && padded(dotdot)[1] == 0x2e);
    assert(dotdot[1] == 0x2e);
    assert(entry_matches(d, 0, dot));
    assert(is_entry_of(d, dot, 0));
    lemma_dir_target(d, dot);
    assert(!entry_matches(d, 0, dotdot));
    assert(entry_matches(d, 1, dotdot));
    assert(is_entry_of(d, dotdot, 1));
    lemma_dir_target(d, dotdot);
    if name.len() > 0 && name[0] != 0x2e && name[0] != 0 {
        assert(!entry_matches(d, 0, name)) by {
            assert(entry_name(d, 0)[0] == 0x2e);
        }
        assert(!entry_matches(d, 1, name)) by {
            assert(entry_name(d, 1)[0] == 0x2e);
        }
        assert(no_entry_of(d, name));
        lemma_dir_target(d, name);
    }
}

proof fn lemma_elements_suffix(path: Seq<u8>, tail: Seq<u8>, pos: int)
    requires
        0 <= pos <= path.len(),
        tail.len() > 0,
        tail[0] == 0x2f,
    ensures
        elements_from(path + tail, pos) == elements_from(path, pos) + elements_from(path + tail, path.len() as int),
    decreases path.len() - pos,
{
    let whole = path + tail;
    if pos == path.len() {
        assert(elements_from(path, pos) =~= Seq::<Seq<u8>>::empty());
        assert(elements_from(whole, pos) =~= elements_from(path, pos) + elements_from(whole, pos));
    } else if path[pos] == 0x2f {
        assert(whole[pos] == 0x2f);
        lemma_elements_suffix(path, tail, pos + 1);
    } else {
        lemma_element_end(path, pos);
        lemma_end_same(path, tail, pos);
        let e = element_end(path, pos);
        lemma_elements_suffix(path, tail, e);
        assert(whole.subrange(pos, e) =~= path.subrange(pos, e));
        assert(elements_from(whole, pos) =~= elements_from(path, pos) + elements_from(whole, path.len() as int));
    }
}

proof fn lemma_end_same(path: Seq<u8>, tail: Seq<u8>, pos: int)
    requires
        0 <= pos <= path.len(),
        tail.len() > 0,
        tail[0] == 0x2f,
    ensures
        element_end(path + tail, pos) == element_end(path, pos),
    decreases path.len() - pos,
{
    let whole = path + tail;
    if pos < path.len() {
        assert(whole[pos] == path[pos]);
        if path[pos] != 0x2f {
            lemma_end_same(path, tail, pos + 1);
        }
    } else {
        assert(whole[pos] == 0x2f);
    }
}

proof fn lemma_one_element(whole: Seq<u8>, pos: int, name: Seq<u8>)
    requires
        0 <= pos,
        name.len() > 0,
        whole.len() == pos + name.len(),
        forall|i: int| 0 <= i < name.len() ==> #[trigger] name[i] != 0x2f,
        forall|i: int| 0 <= i < name.len() ==> #[trigger] whole[pos + i] == name[i],
    ensures
        elements_from(whole, pos) == seq![name],
{
    assert(whole[pos + 0] == name[0]);
    assert forall|i: int| pos <= i < whole.len() implies #[trigger] whole[i] != 0x2f && whole[i] == name[i - pos] by {
        assert(whole[pos + (i - pos)] == name[i - pos]);
    }
    lemma_whole_element(whole, pos, pos);
    assert(whole.subrange(pos, whole.len() as int) =~= name);
    assert(elements_from(whole, whole.len() as int) =~= Seq::<Seq<u8>>::empty());
    assert(elements_from(whole, pos) =~= seq![name]);
}

proof fn lemma_whole_element(whole: Seq<u8>, pos: int, at: int)
    requires
        0 <= pos <= at <= whole.len(),
        forall|i: int| pos <= i < whole.len() ==> #[trigger] whole[i] != 0x2f,
    ensures
        element_end(whole, at) == whole.len(),
    decreases whole.len() - at,
{
    if at < whole.len() {
        assert(whole[at] != 0x2f);
        lemma_whole_element(whole, pos, at + 1);
    }
}

/// A path is taken apart at its slashes: one more slash at the beginning or at the end changes
/// nothing, and a name after a slash is one more element.
pub proof fn lemma_path_elements(path: Seq<u8>, name: Seq<u8>)
    requires
        name.len() > 0,
        forall|i: int| 0 <= i < name.len() ==> #[trigger] name[i] != 0x2f,
    ensures
        elements(name) == seq![name],
        elements(path + seq![0x2fu8]) == elements(path),
        elements(path + seq![0x2fu8] + name) == elements(path).push(name),
        elements(seq![0x2fu8] + path) == elements(path),
        elements(Seq::<u8>::empty()) == Seq::<Seq<u8>>::empty(),
{
    let slash = seq![0x2fu8];
    lemma_one_element(name, 0, name);
    lemma_elements_suffix(path, slash, 0);
    let a = path + slash;
    assert(a[path.len() as int] == 0x2f);
    assert(elements_from(a, path.len() as int + 1) =~= Seq::<Seq<u8>>::empty());
    assert(elements_from(a, path.len() as int) =~= Seq::<Seq<u8>>::empty());
    assert(elements(a) =~= elements(path));
    let tail = slash + name;
    let b = path + tail;
    assert(path + slash + name =~= b);
    lemma_elements_suffix(path, tail, 0);
    assert(b[path.len() as int] == 0x2f);
    assert forall|i: int| 0 <= i < name.len() implies #[trigger] b[path.len() + 1 + i] == name[i] by {}
    lemma_one_element(b, path.len() as int + 1, name);
    assert(elements(b) =~= elements(path).push(name));
    let c = slash + path;
    assert(c[0] == 0x2f);
    lemma_elements_shifted(slash, path, 0);
}

proof fn lemma_elements_shifted(head: Seq<u8>, path: Seq<u8>, pos: int)
    requires
        0 <= pos <= path.len(),
    ensures
        elements_from(head + path, head.len() + pos) == elements_from(path, pos),
    decreases path.len() - pos,
{
    let whole = head + path;
    let h = head.len() as int;
    if pos < path.len() {
        assert(whole[h + pos] == path[pos]);
        if path[pos] == 0x2f {
            lemma_elements_shifted(head, path, pos + 1);
        } else {
            lemma_element_end(path, pos);
            lemma_end_shifted(head, path, pos);
            let e = element_end(path, pos);
            lemma_elements_shifted(head, path, e);
            assert(whole.subrange(h + pos, h + e) =~= path.subrange(pos, e));
        }
    }
}

proof fn lemma_end_shifted(head: Seq<u8>, path: Seq<u8>, pos: int)
    requires
        0 <= pos <= path.len(),
    ensures
        element_end(head + path, head.len() + pos) == head.len() + element_end(path, pos),
    decreases path.len() - pos,
{
    if pos < path.len() {
        assert((head + path)[head.len() + pos] == path[pos]);
        if path[pos] != 0x2f {
            lemma_end_shifted(head, path, pos + 1);
        }
    }
}

/// A path followed by a slash and a name leads to what the directory at the path has under the name,
/// and that directory is where a file of this name is made or removed. The path `/` leads to inode 1,
/// whatever the current directory is.
pub proof fn lemma_path_step<D: BlockDevice>(fs: FileSystem<D>, path: Seq<u8>, cwd: Option<int>, name: Seq<u8>)
    requires
        path.len() > 0,
        name.len() > 0,
        forall|i: int| 0 <= i < name.len() ==> #[trigger] name[i] != 0x2f,
    ensures
        ({
            let longer = path + seq![0x2fu8] + name;
            let at = fs.target(path, cwd);
            let is_dir = at is Some && fs.file(at->0).kind == InodeKind::Directory;
            &&& fs.target(longer, cwd) == if is_dir { dir_target(fs.file(at->0).bytes, name) } else { None }
            &&& fs.parent(longer, cwd) == if is_dir { at } else { None }
        }),
        fs.target(seq![0x2fu8], cwd) == Some(1int),
        fs.target(seq![0x2fu8] + name, cwd) == if fs.file(1).kind == InodeKind::Directory { dir_target(fs.file(1).bytes, name) } else { None },
{
    let slash = seq![0x2fu8];
    let longer = path + slash + name;
    lemma_path_elements(path, name);
    assert(longer[0] == path[0]);
    assert(longer[longer.len() - 1] == name[name.len() - 1]);
    assert(elements(longer).drop_last() =~= elements(path));
    assert(fs.origin(longer, cwd) == fs.origin(path, cwd));
    if let Some(start) = fs.origin(path, cwd) {
        lemma_walk_last(fs, start, elements(longer));
    }
    let none = Seq::<u8>::empty();
    lemma_path_elements(none, name);
    assert(none + slash =~= slash);
    assert(none + slash + name =~= slash + name);
    assert(elements(slash + name).drop_last() =~= Seq::<Seq<u8>>::empty());
    lemma_walk_last(fs, 1, elements(slash + name));
}

/// A second name of a file counts, and leads to the same bytes: the file has one more name, and
/// nothing else of it changes.
pub proof fn lemma_link_counts<D: BlockDevice>(fs0: FileSystem<D>, fs1: FileSystem<D>, new: Seq<u8>, old_path: Seq<u8>, cwd: Option<int>)
    requires
        fs0.wf(),
        fs0.links_ok(),
        fs0.origin_ok(cwd),
        fs0.link_done(fs1, new, old_path, cwd),
        no_entry_of(fs0.file(fs0.parent(new, cwd)->0).bytes, elements(new).last()),
    ensures
        ({
            let t = fs0.target(old_path, cwd)->0;
            let p = fs0.parent(new, cwd)->0;
            &&& t != p
            &&& dir_target(fs1.file(p).bytes, elements(new).last()) == Some(t)
            &&& fs1.file(t).nlink == fs0.file(t).nlink + 1
            &&& fs1.file(t).bytes == fs0.file(t).bytes
            &&& fs1.file(t).kind == fs0.file(t).kind
            &&& fs1.file(p).nlink == fs0.file(p).nlink
        }),
{
    let t = fs0.target(old_path, cwd)->0;
    let p = fs0.parent(new, cwd)->0;
    let name = elements(new).last();
    let c = fs0.file(p).bytes;
    fs0.lemma_target_ok(new, old_path, cwd);
    assert(fs0.disk_ok(p));
    let k = choose|k: int| #[trigger] is_insert_place(c, k) && fs0.linked(fs1, p, t, k, name);
    lemma_name_added(c, k, t, name);
}

/// A file that loses one of several names keeps its bytes. One that loses its only name goes, unless
/// somebody uses it: then it has no name, and keeps its bytes as long.
pub proof fn lemma_unlink_counts<D: BlockDevice>(fs0: FileSystem<D>, fs1: FileSystem<D>, path: Seq<u8>, cwd: Option<int>)
    requires
        fs0.wf(),
        fs0.links_ok(),
        fs0.origin_ok(cwd),
        fs0.unlink_done(fs1, path, cwd),
        fs0.unlink_ok(fs0.parent(path, cwd)->0, elements(path).last()),
    ensures
        ({
            let p = fs0.parent(path, cwd)->0;
            let t = dir_target(fs0.file(p).bytes, elements(path).last())->0;
            let used = fs0.inodes.cache.keys().contains(Some(fs0.key(t)));
            &&& dir_target(fs0.file(p).bytes, elements(path).last()) is Some
            &&& t != p
            &&& fs1.file(t).nlink == fs0.file(t).nlink - 1
            &&& fs1.file(t).nlink > 0 || used ==> fs1.file(t).bytes == fs0.file(t).bytes && fs1.file(t).kind == fs0.file(t).kind
            &&& fs1.file(t).nlink == 0 && !used ==> fs1.file(t).kind == InodeKind::Unused && fs1.file(t).bytes.len() == 0
            &&& fs0.file(p).nlink - fs1.file(p).nlink == if fs0.file(t).kind == InodeKind::Directory { 1int } else { 0int }
        }),
{
    let p = fs0.parent(path, cwd)->0;
    let name = elements(path).last();
    let c = fs0.file(p).bytes;
    lemma_dir_target(c, name);
    let k = choose|k: int| {
        &&& #[trigger] is_entry_of(c, name, k)
        &&& fs0.file(entry_inum(c, k)).kind == InodeKind::Directory ==> crate::filesystem::file::only_dots(fs0.file(entry_inum(c, k)).bytes)
        &&& fs0.unlinked(fs1, p, entry_inum(c, k), k)
    };
    assert(is_entry_of(c, name, k));
}

/// Entry `k` of a directory was found under `x`, so it is not found under another name of the same length.
proof fn lemma_found_apart(c: Seq<u8>, k: int, x: Seq<u8>, y: Seq<u8>)
    requires
        entry_matches(c, k, x),
        names_differ(x, y),
    ensures
        !entry_matches(c, k, y),
{
    if entry_matches(c, k, y) {
        assert forall|i: int| 0 <= i < x.len() implies x[i] == y[i] by {
            assert(entry_name(c, k)[i] == x[i]);
            assert(entry_name(c, k)[i] == y[i]);
        }
        assert(x =~= y);
    }
}

/// Removing a name changes nothing for any other name in its directory.
pub proof fn lemma_removed_beside<D: BlockDevice>(fs0: FileSystem<D>, fs1: FileSystem<D>, path: Seq<u8>, cwd: Option<int>, y: Seq<u8>)
    requires
        fs0.wf(),
        fs0.links_ok(),
        fs0.origin_ok(cwd),
        fs0.unlink_done(fs1, path, cwd),
        names_differ(elements(path).last(), y),
    ensures
        dir_target(fs1.file(fs0.parent(path, cwd)->0).bytes, y) == dir_target(fs0.file(fs0.parent(path, cwd)->0).bytes, y),
{
    let p = fs0.parent(path, cwd)->0;
    let name = elements(path).last();
    let c = fs0.file(p).bytes;
    fs0.lemma_target_ok(path, path, cwd);
    assert(fs0.disk_ok(p));
    let k = choose|k: int| {
        &&& #[trigger] is_entry_of(c, name, k)
        &&& fs0.file(entry_inum(c, k)).kind == InodeKind::Directory ==> crate::filesystem::file::only_dots(fs0.file(entry_inum(c, k)).bytes)
        &&& fs0.unlinked(fs1, p, entry_inum(c, k), k)
    };
    assert(is_entry_of(c, name, k));
    lemma_entries_beside(c, k, 0, Seq::empty());
    lemma_found_apart(c, k, name, y);
    lemma_lookup_same(c, with_entry(c, k, 0, Seq::empty()), k, y);
}

/// What can be removed: a name other than `.` and `..`, and a directory only if it has no entry in use but
/// its first two.
pub proof fn lemma_removable<D: BlockDevice>(fs0: FileSystem<D>, fs1: FileSystem<D>, path: Seq<u8>, cwd: Option<int>, j: int)
    requires
        fs0.unlink_done(fs1, path, cwd),
    ensures
        elements(path).last() != seq![0x2eu8],
        elements(path).last() != seq![0x2eu8, 0x2eu8],
        ({
            let t = dir_target(fs0.file(fs0.parent(path, cwd)->0).bytes, elements(path).last());
            let c = fs0.file(t->0).bytes;
            &&& t is Some
            &&& fs0.file(t->0).kind == InodeKind::Directory && 2 <= j && 16 * j + 16 <= c.len() ==> c[16 * j] == 0 && c[16 * j + 1] == 0
        }),
{
    let p = fs0.parent(path, cwd)->0;
    let name = elements(path).last();
    let c = fs0.file(p).bytes;
    let k = choose|k: int| {
        &&& #[trigger] is_entry_of(c, name, k)
        &&& fs0.file(entry_inum(c, k)).kind == InodeKind::Directory ==> crate::filesystem::file::only_dots(fs0.file(entry_inum(c, k)).bytes)
        &&& fs0.unlinked(fs1, p, entry_inum(c, k), k)
    };
    assert(is_entry_of(c, name, k));
    lemma_dir_target(c, name);
    let t = entry_inum(c, k);
    let d = fs0.file(t).bytes;
    if fs0.file(t).kind == InodeKind::Directory && 2 <= j && 16 * j + 16 <= d.len() {
        assert(entry_inum(d, j) == 0);
    }
}

/// A new name for a file changes nothing for any other name in its directory, and a directory gets no second
/// name.
pub proof fn lemma_linked_beside<D: BlockDevice>(
    fs0: FileSystem<D>,
    fs1: FileSystem<D>,
    new: Seq<u8>,
    old_path: Seq<u8>,
    cwd: Option<int>,
    y: Seq<u8>,
)
    requires
        fs0.wf(),
        fs0.links_ok(),
        fs0.origin_ok(cwd),
        fs0.link_done(fs1, new, old_path, cwd),
        names_differ(elements(new).last(), y),
    ensures
        dir_target(fs1.file(fs0.parent(new, cwd)->0).bytes, y) == dir_target(fs0.file(fs0.parent(new, cwd)->0).bytes, y),
        fs0.file(fs0.target(old_path, cwd)->0).kind != InodeKind::Directory,
{
    let t = fs0.target(old_path, cwd)->0;
    let p = fs0.parent(new, cwd)->0;
    let name = elements(new).last();
    let c = fs0.file(p).bytes;
    fs0.lemma_target_ok(new, old_path, cwd);
    assert(fs0.disk_ok(p));
    let k = choose|k: int| #[trigger] is_insert_place(c, k) && fs0.linked(fs1, p, t, k, name);
    assert(t != p);
    lemma_other_name_kept(c, k, t, name, y);
}

/// A directory that was made has itself and the directory that it is in under `.` and `..`, and that one
/// counts it.
pub proof fn lemma_directory_made<D: BlockDevice>(fs0: FileSystem<D>, fs1: FileSystem<D>, path: Seq<u8>, cwd: Option<int>, t: int)
    requires
        fs0.wf(),
        fs0.links_ok(),
        fs0.origin_ok(cwd),
        fs0.create_new(fs1, path, cwd, InodeKind::Directory, 0, 0, t),
    ensures
        ({
            let p = fs0.parent(path, cwd)->0;
            &&& dir_target(fs1.file(t).bytes, seq![0x2eu8]) == Some(t)
            &&& dir_target(fs1.file(t).bytes, seq![0x2eu8, 0x2eu8]) == Some(p)
            &&& fs1.file(p).nlink == fs0.file(p).nlink + 1
            &&& fs1.file(p).kind == fs0.file(p).kind
        }),
{
    let p = fs0.parent(path, cwd)->0;
    fs0.lemma_target_ok(path, path, cwd);
    lemma_new_directory(t, p, seq![0x61u8]);
}

/// A new file takes no place that another name has: whatever entry of its directory was in use is there as
/// it was, and the directory grows, by 16 bytes, only where all its entries are in use.
pub proof fn lemma_created_entry<D: BlockDevice>(
    fs0: FileSystem<D>,
    fs1: FileSystem<D>,
    path: Seq<u8>,
    cwd: Option<int>,
    kind: InodeKind,
    major: int,
    minor: int,
    t: int,
    j: int,
)
    requires
        fs0.wf(),
        fs0.links_ok(),
        fs0.origin_ok(cwd),
        fs0.create_new(fs1, path, cwd, kind, major, minor, t),
        0 <= j,
        16 * j + 16 <= fs0.file(fs0.parent(path, cwd)->0).bytes.len(),
    ensures
        ({
            let c = fs0.file(fs0.parent(path, cwd)->0).bytes;
            let d = fs1.file(fs0.parent(path, cwd)->0).bytes;
            &&& c[16 * j] != 0 || c[16 * j + 1] != 0 ==> d.subrange(16 * j, 16 * j + 16) == c.subrange(16 * j, 16 * j + 16)
            &&& c[16 * j] == 0 && c[16 * j + 1] == 0 ==> d.len() == c.len()
            &&& c.len() <= d.len() <= c.len() + 16
        }),
{
    let p = fs0.parent(path, cwd)->0;
    let name = elements(path).last();
    let c = fs0.file(p).bytes;
    fs0.lemma_target_ok(path, path, cwd);
    assert(fs0.disk_ok(p));
    let k = choose|k: int| #[trigger] is_insert_place(c, k) && fs1.file(p) == (crate::fs::FileView {
        bytes: with_entry(c, k, t, name),
        nlink: fs0.file(p).nlink + if kind == InodeKind::Directory { 1int } else { 0int },
        ..fs0.file(p)
    });
    let d = with_entry(c, k, t, name);
    lemma_entry_bytes(t, padded(name));
    if j != k {
        assert(d.subrange(16 * j, 16 * j + 16) =~= c.subrange(16 * j, 16 * j + 16));
    }
    assert(entry_inum(c, j) == c[16 * j] + c[16 * j + 1] * 256);
}

/// A path that ends in a slash, or has no name in it, is none under which a file can be made or removed.
pub proof fn lemma_no_parent<D: BlockDevice>(fs: FileSystem<D>, path: Seq<u8>, cwd: Option<int>)
    requires
        path.len() == 0 || path[path.len() - 1] == 0x2f,
    ensures
        fs.parent(path, cwd) is None,
{
}

} // verus!
