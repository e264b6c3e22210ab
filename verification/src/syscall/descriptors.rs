//! What keeps open files and inodes together with the processes that use them: a file counts the
//! descriptors that stand for it, and every reference to an inode is that of an open file or of a
//! current directory.
use vstd::prelude::*;
use crate::allocator::KernelAllocator;
use crate::config::{NINODE, NPROC};
use crate::file::table::{inserted, lemma_users_push, lemma_users_update, spare, users, uses, FileTable, SharedFile};
use crate::file::{File, PIPESIZE};
use crate::filesystem::device::BlockDevice;
use crate::filesystem::file::{ref_added, refs_bounded, InodeKey};
use crate::fs::create::moved_to;
use crate::fs::{slot_of, FileSystem};
use crate::pipe::Pipes;
use crate::process::process::{open_files, Process, ProcessContext};
use crate::process::table::{first_unused, first_with_pid};
use crate::process::{after_exit, context_at, exited, forked};
use crate::syscall::files::{both_inserted, descriptors, file_left, lemma_descriptors, occurrences};

verus! {

/// The descriptors of a process.
pub open spec fn ofile_of(p: Process) -> Seq<Option<usize>> {
    match p.state.held_context() {
        Some(c) => c.ofile@,
        None => Seq::empty(),
    }
}

/// Number of descriptors, of all processes, that stand for file `f`.
pub open spec fn all_descriptors(procs: Seq<Process>, f: int) -> int
    decreases procs.len(),
{
    if procs.len() == 0 {
        0
    } else {
        all_descriptors(procs.drop_last(), f) + descriptors(ofile_of(procs.last()), f)
    }
}

/// Every file counts its descriptors.
pub open spec fn counts_ok(procs: Seq<Process>, files: FileTable) -> bool {
    forall|f: int| #[trigger] files.count(f) == all_descriptors(procs, f)
}

/// The process in slot `cur` has context `c`.
pub open spec fn with_context(procs: Seq<Process>, cur: int, c: ProcessContext) -> Seq<Process> {
    procs.update(cur, Process { state: procs[cur].state.with_context(c), ..procs[cur] })
}

/// Whether an entry is `f`: 1 or 0.
pub open spec fn one(entry: Option<usize>, f: int) -> int {
    if entry == Some(f as usize) && 0 <= f <= usize::MAX {
        1
    } else {
        0
    }
}

proof fn lemma_one_changed(ofile: Seq<Option<usize>>, fd: int, entry: Option<usize>, f: int)
    requires
        0 <= fd < ofile.len(),
    ensures
        descriptors(ofile.update(fd, entry), f) == descriptors(ofile, f) - one(ofile[fd], f) + one(entry, f),
    decreases ofile.len(),
{
    let new = ofile.update(fd, entry);
    if fd == ofile.len() - 1 {
        assert(new.drop_last() =~= ofile.drop_last());
    } else {
        assert(new.drop_last() =~= ofile.drop_last().update(fd, entry));
        lemma_one_changed(ofile.drop_last(), fd, entry, f);
    }
}

/// Where one process has other descriptors, the sum changes by the difference.
proof fn lemma_process_changed(procs0: Seq<Process>, procs1: Seq<Process>, cur: int, f: int)
    requires
        procs1.len() == procs0.len(),
        0 <= cur < procs0.len(),
        forall|i: int| 0 <= i < procs0.len() && i != cur ==> ofile_of(#[trigger] procs1[i]) == ofile_of(procs0[i]),
    ensures
        all_descriptors(procs1, f) == all_descriptors(procs0, f) - descriptors(ofile_of(procs0[cur]), f) + descriptors(
            ofile_of(procs1[cur]),
            f,
        ),
    decreases procs0.len(),
{
    let n = procs0.len() - 1;
    let rest0 = procs0.drop_last();
    let rest1 = procs1.drop_last();
    if cur == n {
        lemma_same_descriptors(rest0, rest1, f);
    } else {
        assert forall|i: int| 0 <= i < rest0.len() && i != cur implies ofile_of(#[trigger] rest1[i]) == ofile_of(rest0[i]) by {
            assert(rest1[i] == procs1[i]);
        }
        lemma_process_changed(rest0, rest1, cur, f);
        assert(ofile_of(procs1[n]) == ofile_of(procs0[n]));
    }
}

proof fn lemma_same_descriptors(procs0: Seq<Process>, procs1: Seq<Process>, f: int)
    requires
        procs1.len() == procs0.len(),
        forall|i: int| 0 <= i < procs0.len() ==> ofile_of(#[trigger] procs1[i]) == ofile_of(procs0[i]),
    ensures
        all_descriptors(procs1, f) == all_descriptors(procs0, f),
    decreases procs0.len(),
{
    if procs0.len() > 0 {
        let n = procs0.len() - 1;
        assert forall|i: int| 0 <= i < n implies ofile_of(#[trigger] procs1.drop_last()[i]) == ofile_of(procs0.drop_last()[i]) by {
            assert(procs1.drop_last()[i] == procs1[i]);
        }
        lemma_same_descriptors(procs0.drop_last(), procs1.drop_last(), f);
        assert(ofile_of(procs1[n]) == ofile_of(procs0[n]));
    }
}

/// Files go on to count their descriptors where each counts as many more, or less, as one process
/// has.
proof fn lemma_counts_moved(procs0: Seq<Process>, procs1: Seq<Process>, files0: FileTable, files1: FileTable, cur: int)
    requires
        counts_ok(procs0, files0),
        procs1.len() == procs0.len(),
        0 <= cur < procs0.len(),
        forall|i: int| 0 <= i < procs0.len() && i != cur ==> ofile_of(#[trigger] procs1[i]) == ofile_of(procs0[i]),
        forall|f: int|
            #[trigger] files1.count(f) - files0.count(f) == descriptors(ofile_of(procs1[cur]), f) - descriptors(ofile_of(procs0[cur]), f),
    ensures
        counts_ok(procs1, files1),
{
    assert forall|f: int| #[trigger] files1.count(f) == all_descriptors(procs1, f) by {
        assert(files0.count(f) == all_descriptors(procs0, f));
        lemma_process_changed(procs0, procs1, cur, f);
    }
}

/// After a descriptor was duplicated, files count their descriptors.
pub proof fn lemma_counts_duplicated(
    procs: Seq<Process>,
    cur: int,
    c1: ProcessContext,
    files0: FileTable,
    files1: FileTable,
    fd: int,
    f: usize,
)
    requires
        counts_ok(procs, files0),
        0 <= cur < procs.len(),
        context_at(procs, cur) matches Some(c0) && {
            &&& 0 <= fd < c0.ofile@.len()
            &&& c0.ofile@[fd] is None
            &&& c1.ofile@ == c0.ofile@.update(fd, Some(f))
        },
        files0.has(f as int),
        files1.files@ == files0.files@.update(f as int, files1.files@[f as int]),
        files1.count(f as int) == files0.count(f as int) + 1,
    ensures
        counts_ok(with_context(procs, cur, c1), files1),
{
    let c0 = context_at(procs, cur)->0;
    assert forall|g: int|
        #[trigger] files1.count(g) - files0.count(g) == descriptors(c1.ofile@, g) - descriptors(c0.ofile@, g) by {
        lemma_one_changed(c0.ofile@, fd, Some(f), g);
        if g != f {
            assert(files1.has(g) == files0.has(g));
        }
    }
    lemma_counts_moved(procs, with_context(procs, cur, c1), files0, files1, cur);
}

/// After a file was opened, files count their descriptors.
pub proof fn lemma_counts_opened(
    procs: Seq<Process>,
    cur: int,
    c1: ProcessContext,
    files0: FileTable,
    files1: FileTable,
    fd: int,
    f: usize,
    file: File,
)
    requires
        counts_ok(procs, files0),
        0 <= cur < procs.len(),
        context_at(procs, cur) matches Some(c0) && {
            &&& 0 <= fd < c0.ofile@.len()
            &&& c0.ofile@[fd] is None
            &&& c1.ofile@ == c0.ofile@.update(fd, Some(f))
        },
        inserted(files0, files1, f as int, file),
    ensures
        counts_ok(with_context(procs, cur, c1), files1),
{
    let c0 = context_at(procs, cur)->0;
    assert forall|g: int|
        #[trigger] files1.count(g) - files0.count(g) == descriptors(c1.ofile@, g) - descriptors(c0.ofile@, g) by {
        lemma_one_changed(c0.ofile@, fd, Some(f), g);
        if g != f {
            assert(files1.has(g) == files0.has(g));
        }
    }
    lemma_counts_moved(procs, with_context(procs, cur, c1), files0, files1, cur);
}

/// After a pipe was made, files count their descriptors.
pub proof fn lemma_counts_piped(
    procs: Seq<Process>,
    cur: int,
    c1: ProcessContext,
    files0: FileTable,
    files1: FileTable,
    fd0: int,
    fd1: int,
    rf: usize,
    wf: usize,
    read: File,
    write: File,
)
    requires
        counts_ok(procs, files0),
        0 <= cur < procs.len(),
        context_at(procs, cur) matches Some(c0) && {
            &&& 0 <= fd0 < fd1 < c0.ofile@.len()
            &&& c0.ofile@[fd0] is None
            &&& c0.ofile@[fd1] is None
            &&& c1.ofile@ == c0.ofile@.update(fd0, Some(rf)).update(fd1, Some(wf))
        },
        both_inserted(files0, files1, rf as int, read, wf as int, write),
    ensures
        counts_ok(with_context(procs, cur, c1), files1),
{
    let c0 = context_at(procs, cur)->0;
    let mid = choose|mid: FileTable| #[trigger] inserted(files0, mid, rf as int, read) && inserted(mid, files1, wf as int, write);
    assert forall|g: int|
        #[trigger] files1.count(g) - files0.count(g) == descriptors(c1.ofile@, g) - descriptors(c0.ofile@, g) by {
        lemma_one_changed(c0.ofile@, fd0, Some(rf), g);
        lemma_one_changed(c0.ofile@.update(fd0, Some(rf)), fd1, Some(wf), g);
        if g != rf {
            assert(mid.has(g) == files0.has(g));
        }
        if g != wf {
            assert(files1.has(g) == mid.has(g));
        }
    }
    lemma_counts_moved(procs, with_context(procs, cur, c1), files0, files1, cur);
}

/// After a descriptor was closed, files count their descriptors.
pub proof fn lemma_counts_closed<D: BlockDevice>(
    procs: Seq<Process>,
    cur: int,
    c1: ProcessContext,
    files0: FileTable,
    files1: FileTable,
    fs0: FileSystem<D>,
    fs1: FileSystem<D>,
    pipes0: Pipes<PIPESIZE>,
    pipes1: Pipes<PIPESIZE>,
    fd: int,
    f: usize,
)
    requires
        counts_ok(procs, files0),
        files0.wf(),
        0 <= cur < procs.len(),
        context_at(procs, cur) matches Some(c0) && {
            &&& 0 <= fd < c0.ofile@.len()
            &&& c0.ofile@[fd] == Some(f)
            &&& c1.ofile@ == c0.ofile@.update(fd, None)
        },
        files0.has(f as int),
        file_left(files0, files1, fs0, fs1, pipes0, pipes1, f as int),
    ensures
        counts_ok(with_context(procs, cur, c1), files1),
{
    let c0 = context_at(procs, cur)->0;
    assert forall|g: int|
        #[trigger] files1.count(g) - files0.count(g) == descriptors(c1.ofile@, g) - descriptors(c0.ofile@, g) by {
        lemma_one_changed(c0.ofile@, fd, None, g);
        if g != f {
            assert(files1.has(g) == files0.has(g));
        }
    }
    lemma_counts_moved(procs, with_context(procs, cur, c1), files0, files1, cur);
}

/// After a process got a child, files count their descriptors. `n` is the slot of the child.
pub proof fn lemma_counts_forked(
    procs0: Seq<Process>,
    procs1: Seq<Process>,
    a0: KernelAllocator,
    a1: KernelAllocator,
    cur: int,
    n: int,
    pid: usize,
    jump: u64,
    files0: FileTable,
    files1: FileTable,
)
    requires
        counts_ok(procs0, files0),
        procs0.len() == NPROC,
        context_at(procs0, cur) is Some,
        first_unused(procs0, n),
        forked(procs0, procs1, a0, a1, cur, n, pid, jump),
        forall|f: int| #[trigger] files1.count(f) == files0.count(f) + descriptors(context_at(procs0, cur)->0.ofile@, f),
    ensures
        counts_ok(procs1, files1),
{
    assert forall|i: int| 0 <= i < procs0.len() && i != n implies ofile_of(#[trigger] procs1[i]) == ofile_of(procs0[i]) by {
        assert(procs1[i] == procs0[i]);
    }
    lemma_counts_moved(procs0, procs1, files0, files1, n);
}

/// What a process has open are its descriptors.
proof fn lemma_open_files(ofile: Seq<Option<usize>>, f: int)
    ensures
        occurrences(open_files(ofile), f) == descriptors(ofile, f),
    decreases ofile.len(),
{
    if ofile.len() > 0 {
        lemma_open_files(ofile.drop_last(), f);
        if let Some(g) = ofile.last() {
            assert(open_files(ofile).drop_last() =~= open_files(ofile.drop_last()));
        }
    }
}

proof fn lemma_none_open(ofile: Seq<Option<usize>>, f: int)
    requires
        forall|i: int| 0 <= i < ofile.len() ==> (#[trigger] ofile[i]) is None,
    ensures
        descriptors(ofile, f) == 0,
    decreases ofile.len(),
{
    if ofile.len() > 0 {
        lemma_none_open(ofile.drop_last(), f);
        assert(ofile[ofile.len() - 1] is None);
    }
}

/// After a process has ended, files count their descriptors.
pub proof fn lemma_counts_exited(
    procs0: Seq<Process>,
    procs1: Seq<Process>,
    cur: int,
    status: i32,
    files0: FileTable,
    files1: FileTable,
)
    requires
        counts_ok(procs0, files0),
        procs0.len() == NPROC,
        0 <= cur < procs0.len(),
        context_at(procs0, cur) is Some,
        exited(procs0, procs1, cur, status),
        forall|f: int| #[trigger] files1.count(f) == files0.count(f) - occurrences(open_files(context_at(procs0, cur)->0.ofile@), f),
    ensures
        counts_ok(procs1, files1),
{
    let init = choose|init: int| {
        &&& #[trigger] first_with_pid(procs0, 1, init)
        &&& forall|i: int| 0 <= i < NPROC && i != cur ==> #[trigger] procs1[i] == after_exit(procs0, cur, init, i)
        &&& procs1[cur].parent == after_exit(procs0, cur, init, cur).parent
    };
    assert forall|i: int| 0 <= i < procs0.len() && i != cur implies ofile_of(#[trigger] procs1[i]) == ofile_of(procs0[i]) by {
        assert(procs1[i] == after_exit(procs0, cur, init, i));
    }
    assert forall|f: int|
        #[trigger] files1.count(f) - files0.count(f) == descriptors(ofile_of(procs1[cur]), f) - descriptors(ofile_of(procs0[cur]), f) by {
        lemma_open_files(context_at(procs0, cur)->0.ofile@, f);
        lemma_none_open(ofile_of(procs1[cur]), f);
    }
    lemma_counts_moved(procs0, procs1, files0, files1, cur);
}

/// After a child that had ended, and had nothing open, is gone, files count their descriptors.
pub proof fn lemma_counts_reaped(procs0: Seq<Process>, procs1: Seq<Process>, child: int, files: FileTable)
    requires
        counts_ok(procs0, files),
        procs1.len() == procs0.len(),
        0 <= child < procs0.len(),
        forall|i: int| 0 <= i < ofile_of(procs0[child]).len() ==> (#[trigger] ofile_of(procs0[child])[i]) is None,
        procs1[child].state is Unused,
        forall|i: int| 0 <= i < procs0.len() && i != child ==> #[trigger] procs1[i] == procs0[i],
    ensures
        counts_ok(procs1, files),
{
    assert forall|f: int|
        #[trigger] files.count(f) - files.count(f) == descriptors(ofile_of(procs1[child]), f) - descriptors(ofile_of(procs0[child]), f) by {
        lemma_none_open(ofile_of(procs0[child]), f);
    }
    lemma_counts_moved(procs0, procs1, files, files, child);
}

proof fn lemma_descriptor(ofile: Seq<Option<usize>>, f: usize)
    ensures
        descriptors(ofile, f as int) > 0 <==> ofile.contains(Some(f)),
    decreases ofile.len(),
{
    if ofile.len() > 0 {
        let rest = ofile.drop_last();
        lemma_descriptor(rest, f);
        lemma_descriptors(rest, f as int);
        if rest.contains(Some(f)) {
            let i = choose|i: int| 0 <= i < rest.len() && rest[i] == Some(f);
            assert(ofile[i] == Some(f));
        }
        if ofile.last() == Some(f) {
            assert(ofile[ofile.len() - 1] == Some(f));
        }
        if ofile.contains(Some(f)) && ofile.last() != Some(f) {
            let i = choose|i: int| 0 <= i < ofile.len() && ofile[i] == Some(f);
            assert(rest[i] == Some(f));
        }
    }
}

proof fn lemma_somebody(procs: Seq<Process>, f: usize)
    ensures
        all_descriptors(procs, f as int) >= 0,
        all_descriptors(procs, f as int) > 0 <==> exists|i: int|
            0 <= i < procs.len() && #[trigger] ofile_of(procs[i]).contains(Some(f)),
    decreases procs.len(),
{
    if procs.len() > 0 {
        let rest = procs.drop_last();
        let n = procs.len() - 1;
        lemma_somebody(rest, f);
        lemma_descriptor(ofile_of(procs[n]), f);
        lemma_descriptors(ofile_of(procs[n]), f as int);
        if all_descriptors(rest, f as int) > 0 {
            let i = choose|i: int| 0 <= i < rest.len() && #[trigger] ofile_of(rest[i]).contains(Some(f));
            assert(ofile_of(procs[i]).contains(Some(f)));
        }
        if exists|i: int| 0 <= i < procs.len() && #[trigger] ofile_of(procs[i]).contains(Some(f)) {
            let i = choose|i: int| 0 <= i < procs.len() && #[trigger] ofile_of(procs[i]).contains(Some(f));
            if i < n {
                assert(ofile_of(rest[i]).contains(Some(f)));
            }
        }
    }
}

/// A file is open exactly as long as some process has a descriptor for it.
pub proof fn lemma_open_while_used(procs: Seq<Process>, files: FileTable, f: usize)
    requires
        counts_ok(procs, files),
        files.wf(),
    ensures
        files.has(f as int) <==> exists|i: int| 0 <= i < procs.len() && #[trigger] ofile_of(procs[i]).contains(Some(f)),
{
    assert(files.count(f as int) == all_descriptors(procs, f as int));
    lemma_somebody(procs, f);
}


/// The current directory of a process, by its slot.
pub open spec fn cwd_of(p: Process) -> Option<usize> {
    match p.state.held_context() {
        Some(c) => c.cwd,
        None => None,
    }
}

/// Number of processes whose current directory is in slot `i`.
pub open spec fn all_cwds(procs: Seq<Process>, i: int) -> int
    decreases procs.len(),
{
    if procs.len() == 0 {
        0
    } else {
        all_cwds(procs.drop_last(), i) + one(cwd_of(procs.last()), i)
    }
}

/// Every reference to an inode in memory is that of an open file or of a current directory.
pub open spec fn refs_ok<D: BlockDevice>(procs: Seq<Process>, files: FileTable, fs: FileSystem<D>) -> bool {
    forall|i: int| 0 <= i < NINODE ==> #[trigger] spare(files, fs, i) == all_cwds(procs, i)
}

proof fn lemma_same_cwds(procs0: Seq<Process>, procs1: Seq<Process>, i: int)
    requires
        procs1.len() == procs0.len(),
        forall|k: int| 0 <= k < procs0.len() ==> cwd_of(#[trigger] procs1[k]) == cwd_of(procs0[k]),
    ensures
        all_cwds(procs1, i) == all_cwds(procs0, i),
    decreases procs0.len(),
{
    if procs0.len() > 0 {
        let n = procs0.len() - 1;
        assert forall|k: int| 0 <= k < n implies cwd_of(#[trigger] procs1.drop_last()[k]) == cwd_of(procs0.drop_last()[k]) by {
            assert(procs1.drop_last()[k] == procs1[k]);
        }
        lemma_same_cwds(procs0.drop_last(), procs1.drop_last(), i);
        assert(cwd_of(procs1[n]) == cwd_of(procs0[n]));
    }
}

/// Where one process has another current directory, the number changes by the difference.
proof fn lemma_cwd_changed(procs0: Seq<Process>, procs1: Seq<Process>, cur: int, i: int)
    requires
        procs1.len() == procs0.len(),
        0 <= cur < procs0.len(),
        forall|k: int| 0 <= k < procs0.len() && k != cur ==> cwd_of(#[trigger] procs1[k]) == cwd_of(procs0[k]),
    ensures
        all_cwds(procs1, i) == all_cwds(procs0, i) - one(cwd_of(procs0[cur]), i) + one(cwd_of(procs1[cur]), i),
    decreases procs0.len(),
{
    let n = procs0.len() - 1;
    let rest0 = procs0.drop_last();
    let rest1 = procs1.drop_last();
    if cur == n {
        assert forall|k: int| 0 <= k < rest0.len() implies cwd_of(#[trigger] rest1[k]) == cwd_of(rest0[k]) by {
            assert(rest1[k] == procs1[k]);
        }
        lemma_same_cwds(rest0, rest1, i);
    } else {
        assert forall|k: int| 0 <= k < rest0.len() && k != cur implies cwd_of(#[trigger] rest1[k]) == cwd_of(rest0[k]) by {
            assert(rest1[k] == procs1[k]);
        }
        lemma_cwd_changed(rest0, rest1, cur, i);
        assert(cwd_of(procs1[n]) == cwd_of(procs0[n]));
    }
}

/// References stay accounted for where one process and the number of spare references change alike.
proof fn lemma_refs_changed<D: BlockDevice>(
    procs0: Seq<Process>,
    procs1: Seq<Process>,
    files0: FileTable,
    files1: FileTable,
    fs0: FileSystem<D>,
    fs1: FileSystem<D>,
    cur: int,
)
    requires
        refs_ok(procs0, files0, fs0),
        procs1.len() == procs0.len(),
        0 <= cur < procs0.len(),
        forall|k: int| 0 <= k < procs0.len() && k != cur ==> cwd_of(#[trigger] procs1[k]) == cwd_of(procs0[k]),
        forall|i: int|
            0 <= i < NINODE ==> #[trigger] spare(files1, fs1, i) - spare(files0, fs0, i) == one(cwd_of(procs1[cur]), i) - one(
                cwd_of(procs0[cur]),
                i,
            ),
    ensures
        refs_ok(procs1, files1, fs1),
{
    assert forall|i: int| 0 <= i < NINODE implies #[trigger] spare(files1, fs1, i) == all_cwds(procs1, i) by {
        assert(spare(files0, fs0, i) == all_cwds(procs0, i));
        lemma_cwd_changed(procs0, procs1, cur, i);
    }
}

/// A call that changes neither current directories nor what open files refer to, such as one that
/// closes a file, keeps references accounted for.
pub proof fn lemma_refs_kept<D: BlockDevice>(
    procs0: Seq<Process>,
    procs1: Seq<Process>,
    files0: FileTable,
    files1: FileTable,
    fs0: FileSystem<D>,
    fs1: FileSystem<D>,
)
    requires
        refs_ok(procs0, files0, fs0),
        procs1.len() == procs0.len(),
        forall|k: int| 0 <= k < procs0.len() ==> cwd_of(#[trigger] procs1[k]) == cwd_of(procs0[k]),
        forall|i: int| 0 <= i < NINODE ==> #[trigger] spare(files1, fs1, i) == spare(files0, fs0, i),
    ensures
        refs_ok(procs1, files1, fs1),
{
    assert forall|i: int| 0 <= i < NINODE implies #[trigger] spare(files1, fs1, i) == all_cwds(procs1, i) by {
        assert(spare(files0, fs0, i) == all_cwds(procs0, i));
        lemma_same_cwds(procs0, procs1, i);
    }
}

/// After a file was opened, references are accounted for.
pub proof fn lemma_refs_opened<D: BlockDevice>(
    procs: Seq<Process>,
    cur: int,
    c1: ProcessContext,
    files0: FileTable,
    files1: FileTable,
    fs0: FileSystem<D>,
    fs1: FileSystem<D>,
    f: int,
    file: File,
    key: InodeKey,
)
    requires
        refs_ok(procs, files0, fs0),
        fs0.wf(),
        0 <= cur < procs.len(),
        context_at(procs, cur) matches Some(c0) && c1.cwd == c0.cwd,
        inserted(files0, files1, f, file),
        files0.wf(),
        ref_added(fs0.inodes.cache, fs1.inodes.cache, file.slot(), key),
        fs0.inodes.cache.counts@[file.slot()] < usize::MAX,
    ensures
        refs_ok(with_context(procs, cur, c1), files1, fs1),
{
    assert forall|i: int| 0 <= i < NINODE implies #[trigger] spare(files1, fs1, i) == spare(files0, fs0, i) by {
        if f < files0.files@.len() {
            lemma_users_update(files0.files@, f, Some(SharedFile { file, count: 1 }), i);
            assert(!files0.has(f));
            assert(uses(files0.files@[f], i) == 0);
        } else {
            lemma_users_push(files0.files@, Some(SharedFile { file, count: 1 }), i);
        }
        assert(users(files1.files@, i) == users(files0.files@, i) + uses(Some(SharedFile { file, count: 1 }), i));
    }
    lemma_refs_kept(procs, with_context(procs, cur, c1), files0, files1, fs0, fs1);
}

/// After a process changed its current directory, references are accounted for.
pub proof fn lemma_refs_moved<D: BlockDevice>(
    procs: Seq<Process>,
    cur: int,
    c1: ProcessContext,
    files: FileTable,
    fs0: FileSystem<D>,
    fs1: FileSystem<D>,
    t: int,
)
    requires
        refs_ok(procs, files, fs0),
        fs0.wf(),
        0 <= cur < procs.len(),
        context_at(procs, cur) matches Some(c0) && c1.cwd matches Some(y) && moved_to(fs0, fs1, slot_of(c0.cwd), y as int, t),
        refs_bounded(fs0.inodes.cache, 8),
    ensures
        refs_ok(with_context(procs, cur, c1), files, fs1),
{
    let c0 = context_at(procs, cur)->0;
    let y = c1.cwd->0 as int;
    assert forall|i: int| 0 <= i < NINODE implies #[trigger] spare(files, fs1, i) - spare(files, fs0, i) == one(c1.cwd, i) - one(c0.cwd, i) by {
        assert(fs0.inodes.cache.counts@[y] + 8 < usize::MAX);
    }
    lemma_refs_changed(procs, with_context(procs, cur, c1), files, files, fs0, fs1, cur);
}

/// After a process got a child, references are accounted for. `n` is the slot of the child.
pub proof fn lemma_refs_forked<D: BlockDevice>(
    procs0: Seq<Process>,
    procs1: Seq<Process>,
    a0: KernelAllocator,
    a1: KernelAllocator,
    cur: int,
    n: int,
    pid: usize,
    jump: u64,
    files0: FileTable,
    files1: FileTable,
    fs0: FileSystem<D>,
    fs1: FileSystem<D>,
)
    requires
        refs_ok(procs0, files0, fs0),
        fs0.wf(),
        procs0.len() == NPROC,
        context_at(procs0, cur) is Some,
        first_unused(procs0, n),
        forked(procs0, procs1, a0, a1, cur, n, pid, jump),
        forall|i: int| #[trigger] users(files1.files@, i) == users(files0.files@, i),
        match context_at(procs0, cur)->0.cwd {
            Some(o) => {
                &&& ref_added(fs0.inodes.cache, fs1.inodes.cache, o as int, fs0.inodes.cache.keys()[o as int]->0)
                &&& fs0.inodes.cache.counts@[o as int] < usize::MAX
            },
            None => fs1 == fs0,
        },
    ensures
        refs_ok(procs1, files1, fs1),
{
    assert forall|i: int| 0 <= i < procs0.len() && i != n implies cwd_of(#[trigger] procs1[i]) == cwd_of(procs0[i]) by {
        assert(procs1[i] == procs0[i]);
    }
    assert forall|i: int| 0 <= i < NINODE implies #[trigger] spare(files1, fs1, i) - spare(files0, fs0, i) == one(cwd_of(procs1[n]), i) - one(
        cwd_of(procs0[n]),
        i,
    ) by {
        assert(users(files1.files@, i) == users(files0.files@, i));
    }
    lemma_refs_changed(procs0, procs1, files0, files1, fs0, fs1, n);
}

/// After a process has ended, references are accounted for.
pub proof fn lemma_refs_exited<D: BlockDevice>(
    procs0: Seq<Process>,
    procs1: Seq<Process>,
    cur: int,
    status: i32,
    files0: FileTable,
    files1: FileTable,
    fs0: FileSystem<D>,
    fs1: FileSystem<D>,
)
    requires
        refs_ok(procs0, files0, fs0),
        procs0.len() == NPROC,
        0 <= cur < procs0.len(),
        context_at(procs0, cur) is Some,
        exited(procs0, procs1, cur, status),
        forall|k: int|
            0 <= k < NINODE ==> #[trigger] spare(files1, fs1, k) == spare(files0, fs0, k) - if context_at(procs0, cur)->0.cwd == Some(
                k as usize,
            ) { 1int } else { 0int },
    ensures
        refs_ok(procs1, files1, fs1),
{
    let init = choose|init: int| {
        &&& #[trigger] first_with_pid(procs0, 1, init)
        &&& forall|i: int| 0 <= i < NPROC && i != cur ==> #[trigger] procs1[i] == after_exit(procs0, cur, init, i)
        &&& procs1[cur].parent == after_exit(procs0, cur, init, cur).parent
    };
    assert forall|i: int| 0 <= i < procs0.len() && i != cur implies cwd_of(#[trigger] procs1[i]) == cwd_of(procs0[i]) by {
        assert(procs1[i] == after_exit(procs0, cur, init, i));
    }
    lemma_refs_changed(procs0, procs1, files0, files1, fs0, fs1, cur);
}

/// A process has a reference to its current directory that no open file has.
pub proof fn lemma_cwd_referred<D: BlockDevice>(procs: Seq<Process>, files: FileTable, fs: FileSystem<D>, cur: int)
    requires
        refs_ok(procs, files, fs),
        0 <= cur < procs.len(),
        cwd_of(procs[cur]) matches Some(o) && o < NINODE,
    ensures
        spare(files, fs, cwd_of(procs[cur])->0 as int) > 0,
{
    let o = cwd_of(procs[cur])->0 as int;
    assert(spare(files, fs, o) == all_cwds(procs, o));
    lemma_cwd_counted(procs, cur, o);
}

proof fn lemma_cwd_counted(procs: Seq<Process>, cur: int, o: int)
    requires
        0 <= o <= usize::MAX,
    ensures
        all_cwds(procs, o) >= 0,
        0 <= cur < procs.len() && cwd_of(procs[cur]) == Some(o as usize) ==> all_cwds(procs, o) > 0,
    decreases procs.len(),
{
    if procs.len() > 0 {
        lemma_cwd_counted(procs.drop_last(), cur, o);
    }
}

/// A process has its descriptors counted by the files that they stand for.
pub proof fn lemma_descriptors_counted(procs: Seq<Process>, files: FileTable, cur: int, f: int)
    requires
        counts_ok(procs, files),
        0 <= cur < procs.len(),
    ensures
        occurrences(open_files(ofile_of(procs[cur])), f) <= files.count(f),
{
    assert(files.count(f) == all_descriptors(procs, f));
    lemma_open_files(ofile_of(procs[cur]), f);
    lemma_part(procs, cur, f);
}

proof fn lemma_part(procs: Seq<Process>, cur: int, f: int)
    ensures
        all_descriptors(procs, f) >= 0,
        0 <= cur < procs.len() ==> descriptors(ofile_of(procs[cur]), f) <= all_descriptors(procs, f),
    decreases procs.len(),
{
    if procs.len() > 0 {
        lemma_part(procs.drop_last(), cur, f);
        lemma_descriptors(ofile_of(procs.last()), f);
    }
}

} // verus!
