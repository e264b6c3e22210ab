//! System calls on paths.
use vstd::prelude::*;
use arrayvec::ArrayVec;
use crate::allocator::{frame_at, is_frame, Frame, KernelAllocator};
use crate::bounded::{argument_slice, arguments, no_arguments, push_argument};
use crate::config::{MAXARG, NINODE};
use crate::exec::{args, execute, execute_came_to};
use crate::file::table::{
    file_ok, files_ok, inserted, kinds_kept, lemma_file_ok, lemma_files_added, lemma_files_fs, lemma_users_positive,
    lemma_users_some, users, FileTable,
};
use crate::file::{File, PIPESIZE};
use crate::filesystem::bytes::{get_u64, le64, zeros};
use crate::filesystem::device::BlockDevice;
use crate::filesystem::file::{frees, ref_added, ref_removed, same_refs};
use crate::filesystem::inode::InodeKind;
use crate::filesystem::path::{elements, is_absolute};
use crate::fs::create::{moved_to, not_found, not_openable, opened_as, truncate_fits, OpenMode};
use crate::fs::open::undisturbed;
use crate::fs::session::others_same;
use crate::fs::{files_kept, first_unused, node_refused, slot_of, FileSystem};
use crate::pipe::Pipes;
use crate::process::memory::{lemma_safe_trans, others_safe};
use crate::process::process::{is_kernel_page, lemma_page_dropped, lemma_page_returned, lemma_page_taken, ProcessContext};
use crate::process::read_memory;
use crate::riscv::paging::{accessible, is_inner_table, kernel_kept, taken_but, user_byte, PGSIZE};
use crate::syscall::files::fds_ok;
use crate::syscall::{arg_raw, arg_string, first_fd, free_fd, no_fd, path_arg, read_string_from_process_memory, user_string};

verus! {

pub const O_RDONLY: u64 = 0x000;

pub const O_WRONLY: u64 = 0x001;

pub const O_RDWR: u64 = 0x002;

pub const O_CREATE: u64 = 0x200;

pub const O_TRUNC: u64 = 0x400;

/// What a second name for a file comes to.
pub open spec fn link_came_to<D: BlockDevice>(c: ProcessContext, a: KernelAllocator, fs0: FileSystem<D>, fs1: FileSystem<D>, r: Result<u64, ()>) -> bool {
    match (path_arg(c, a, 0), path_arg(c, a, 1)) {
        (Some(path), Some(new)) => {
            let w = slot_of(c.cwd);
            &&& r is Ok ==> fs0.link_done(fs1, new, path, w)
            &&& r is Err ==> files_kept(fs0, fs1) && fs0.link_refused(new, path, w)
        },
        _ => r is Err && fs1 == fs0,
    }
}

/// What removing a name comes to.
pub open spec fn unlink_came_to<D: BlockDevice>(c: ProcessContext, a: KernelAllocator, fs0: FileSystem<D>, fs1: FileSystem<D>, r: Result<u64, ()>) -> bool {
    match path_arg(c, a, 0) {
        Some(path) => {
            let w = slot_of(c.cwd);
            &&& r is Ok ==> fs0.unlink_done(fs1, path, w)
            &&& r is Err ==> files_kept(fs0, fs1) && fs0.unlink_refused(path, w)
        },
        None => r is Err && fs1 == fs0,
    }
}

/// What making a file that is not a regular one comes to.
pub open spec fn node_came_to<D: BlockDevice>(
    c: ProcessContext,
    a: KernelAllocator,
    fs0: FileSystem<D>,
    fs1: FileSystem<D>,
    kind: InodeKind,
    major: int,
    minor: int,
    r: Result<u64, ()>,
) -> bool {
    match path_arg(c, a, 0) {
        Some(path) => {
            let w = slot_of(c.cwd);
            &&& r is Ok ==> exists|t: int| #[trigger] fs0.create_new(fs1, path, w, kind, major, minor, t)
            &&& r is Err ==> node_refused(fs0, fs1, path, w, kind)
        },
        None => r is Err && fs1 == fs0,
    }
}

/// What making a file for a device comes to.
pub open spec fn mknod_came_to<D: BlockDevice>(c: ProcessContext, a: KernelAllocator, fs0: FileSystem<D>, fs1: FileSystem<D>, r: Result<u64, ()>) -> bool {
    node_came_to(c, a, fs0, fs1, InodeKind::Device, c.trapframe.a1 as int % 65536, c.trapframe.a2 as int % 65536, r)
}

/// Gives the file at the path in the first argument a second name, the path in the second one.
pub fn sys_link<D: BlockDevice>(context: &ProcessContext, a: &KernelAllocator, fs: &mut FileSystem<D>) -> (r: Result<u64, ()>)
    requires
        a.wf(),
        context.wf(a),
        old(fs).wf(),
        match (path_arg(*context, *a, 0), path_arg(*context, *a, 1)) {
            (Some(path), Some(new)) => {
                &&& old(fs).ready(path, slot_of(context.cwd), 6)
                &&& old(fs).target(path, slot_of(context.cwd)) matches Some(t) ==> {
                    &&& old(fs).file(t).nlink < 65535
                    &&& is_absolute(new) ==> old(fs).slots().holding(old(fs).key(t)).can_hold(
                        old(fs).key(crate::filesystem::ROOTINO as int),
                    )
                }
            },
            _ => true,
        },
    ensures
        final(fs).wf(),
        final(fs).sb() == old(fs).sb(),
        same_refs(old(fs).inodes.cache, final(fs).inodes.cache),
        r matches Ok(v) ==> v == 0,
        link_came_to(*context, *a, *old(fs), *final(fs), r),
{
    let path = match arg_string(context, a, 0) {
        Ok(s) => s,
        Err(_) => {
            return Err(());
        },
    };
    let new = match arg_string(context, a, 1) {
        Ok(s) => s,
        Err(_) => {
            return Err(());
        },
    };
    match fs.link(&new, &path, &context.cwd) {
        Ok(_) => Ok(0),
        Err(_) => Err(()),
    }
}

/// Removes the name in the first argument.
pub fn sys_unlink<D: BlockDevice>(context: &ProcessContext, a: &KernelAllocator, fs: &mut FileSystem<D>) -> (r: Result<u64, ()>)
    requires
        a.wf(),
        context.wf(a),
        old(fs).wf(),
        path_arg(*context, *a, 0) matches Some(path) ==> {
            &&& old(fs).ready(path, slot_of(context.cwd), 3)
            &&& old(fs).parent(path, slot_of(context.cwd)) matches Some(p) ==> old(fs).unlink_ok(p, elements(path).last()) && old(
                fs,
            ).unlink_fits(p, elements(path).last())
        },
    ensures
        final(fs).wf(),
        final(fs).sb() == old(fs).sb(),
        same_refs(old(fs).inodes.cache, final(fs).inodes.cache),
        r matches Ok(v) ==> v == 0,
        unlink_came_to(*context, *a, *old(fs), *final(fs), r),
{
    let path = match arg_string(context, a, 0) {
        Ok(s) => s,
        Err(_) => {
            return Err(());
        },
    };
    match fs.unlink(&path, &context.cwd) {
        Ok(_) => Ok(0),
        Err(_) => Err(()),
    }
}

/// Makes a directory.
pub fn sys_mkdir<D: BlockDevice>(context: &ProcessContext, a: &KernelAllocator, fs: &mut FileSystem<D>) -> (r: Result<u64, ()>)
    requires
        a.wf(),
        context.wf(a),
        old(fs).wf(),
        path_arg(*context, *a, 0) matches Some(path) ==> {
            &&& old(fs).ready(path, slot_of(context.cwd), 9)
            &&& old(fs).parent(path, slot_of(context.cwd)) matches Some(p) ==> old(fs).file(p).nlink < 65535
        },
    ensures
        final(fs).wf(),
        final(fs).sb() == old(fs).sb(),
        same_refs(old(fs).inodes.cache, final(fs).inodes.cache),
        r matches Ok(v) ==> v == 0,
        node_came_to(*context, *a, *old(fs), *final(fs), InodeKind::Directory, 0, 0, r),
{
    let path = match arg_string(context, a, 0) {
        Ok(s) => s,
        Err(_) => {
            return Err(());
        },
    };
    match fs.make_directory(&path, &context.cwd) {
        Ok(_) => Ok(0),
        Err(_) => Err(()),
    }
}

/// Makes a file for the device whose numbers are in the second and third argument.
pub fn sys_mknod<D: BlockDevice>(context: &ProcessContext, a: &KernelAllocator, fs: &mut FileSystem<D>) -> (r: Result<u64, ()>)
    requires
        a.wf(),
        context.wf(a),
        old(fs).wf(),
        path_arg(*context, *a, 0) matches Some(path) ==> old(fs).ready(path, slot_of(context.cwd), 9),
    ensures
        final(fs).wf(),
        final(fs).sb() == old(fs).sb(),
        same_refs(old(fs).inodes.cache, final(fs).inodes.cache),
        r matches Ok(v) ==> v == 0,
        mknod_came_to(*context, *a, *old(fs), *final(fs), r),
{
    let path = match arg_string(context, a, 0) {
        Ok(s) => s,
        Err(_) => {
            return Err(());
        },
    };
    let major = (arg_raw(&context.trapframe, 1) % 65536) as u16;
    let minor = (arg_raw(&context.trapframe, 2) % 65536) as u16;
    match fs.make_special_file(&path, &context.cwd, major, minor) {
        Ok(_) => Ok(0),
        Err(_) => Err(()),
    }
}

/// The current directory of a process has a reference of its own.
pub open spec fn cwd_ok<D: BlockDevice>(cwd: Option<usize>, files: FileTable, fs: FileSystem<D>) -> bool {
    cwd matches Some(o) ==> o < NINODE && users(files.files@, o as int) < fs.inodes.cache.counts@[o as int]
}

/// What a change of the current directory comes to.
pub open spec fn chdir_came_to<D: BlockDevice>(
    c0: ProcessContext,
    c1: ProcessContext,
    a: KernelAllocator,
    fs0: FileSystem<D>,
    fs1: FileSystem<D>,
    r: Result<u64, ()>,
) -> bool {
    let w = slot_of(c0.cwd);
    let path = path_arg(c0, a, 0);
    let target = fs0.target(path->0, w);
    match r {
        Ok(v) => {
            &&& v == 0
            &&& path is Some
            &&& target is Some
            &&& fs0.file(target->0).kind == InodeKind::Directory
            &&& c1.cwd is Some
            &&& c1 == (ProcessContext { cwd: c1.cwd, ..c0 })
            &&& moved_to(fs0, fs1, w, c1.cwd->0 as int, target->0)
        },
        Err(_) => {
            &&& c1 == c0
            &&& same_refs(fs0.inodes.cache, fs1.inodes.cache)
            &&& files_kept(fs0, fs1)
            &&& {
                ||| path is None
                ||| target is None
                ||| !fs0.reached(fs0.slots(), path->0, w)
                ||| fs0.file(target->0).kind != InodeKind::Directory
            }
        },
    }
}

/// Changes the current directory.
pub fn sys_chdir<D: BlockDevice>(
    context: &mut ProcessContext,
    a: &KernelAllocator,
    fs: &mut FileSystem<D>,
    files: &FileTable,
    pipes: &Pipes<PIPESIZE>,
) -> (r: Result<u64, ()>)
    requires
        a.wf(),
        old(context).wf(a),
        old(fs).wf(),
        path_arg(*old(context), *a, 0) matches Some(path) ==> old(fs).ready(path, slot_of(old(context).cwd), 0),
        slot_of(old(context).cwd) matches Some(i) ==> old(fs).leave_fits(i),
        files_ok(*files, *old(fs), *pipes),
        cwd_ok(old(context).cwd, *files, *old(fs)),
    ensures
        final(context).wf(a),
        final(fs).wf(),
        final(fs).sb() == old(fs).sb(),
        files_ok(*files, *final(fs), *pipes),
        cwd_ok(final(context).cwd, *files, *final(fs)),
        chdir_came_to(*old(context), *final(context), *a, *old(fs), *final(fs), r),
{
    let path = match arg_string(context, a, 0) {
        Ok(s) => s,
        Err(_) => {
            return Err(());
        },
    };
    let ghost fs0 = *fs;
    let ghost w = slot_of(context.cwd);
    match fs.change_directory(&path, &context.cwd) {
        Ok(y) => {
            proof {
                lemma_files_moved(*files, fs0, *fs, *pipes, context.cwd, y as int, fs0.target(path@, w)->0);
            }
            context.cwd = Some(y);
            Ok(0)
        },
        Err(_) => {
            proof {
                lemma_kinds_of(fs0, *fs);
                lemma_files_fs(*files, fs0, *fs, *pipes);
            }
            Err(())
        },
    }
}

/// The same references and files mean the same kinds.
proof fn lemma_kinds_of<D: BlockDevice>(fs0: FileSystem<D>, fs1: FileSystem<D>)
    requires
        fs0.wf(),
        same_refs(fs0.inodes.cache, fs1.inodes.cache),
        forall|x: int| 0 <= x < fs0.sb().ninodes && fs0.file(x).kind != InodeKind::Unused ==> (#[trigger] fs1.file(x)).kind == fs0.file(x).kind,
    ensures
        kinds_kept(fs0, fs1),
        forall|i: int| 0 <= i < NINODE ==> fs0.inodes.cache.counts@[i] <= #[trigger] fs1.inodes.cache.counts@[i],
{
    assert forall|i: int| 0 <= i < NINODE && fs0.inodes.cache.counts@[i] > 0 implies {
        &&& #[trigger] fs1.inum_at(i) == fs0.inum_at(i)
        &&& fs1.file(fs0.inum_at(i)).kind == fs0.file(fs0.inum_at(i)).kind
    } by {
        fs0.lemma_refers(i);
        assert(fs1.file(fs0.inum_at(i)).kind == fs0.file(fs0.inum_at(i)).kind);
    }
}

/// A change of directory leaves the open files in order.
proof fn lemma_files_moved<D: BlockDevice>(
    files: FileTable,
    fs0: FileSystem<D>,
    fs1: FileSystem<D>,
    pipes: Pipes<PIPESIZE>,
    from: Option<usize>,
    y: int,
    t: int,
)
    requires
        fs0.wf(),
        crate::filesystem::file::refs_bounded(fs0.inodes.cache, 8),
        files_ok(files, fs0, pipes),
        cwd_ok(from, files, fs0),
        moved_to(fs0, fs1, slot_of(from), y, t),
        0 <= y <= usize::MAX,
    ensures
        files_ok(files, fs1, pipes),
        cwd_ok(Some(y as usize), files, fs1),
{
    let c0 = fs0.inodes.cache;
    assert(c0.counts@[y] + 8 < usize::MAX);
    assert(users(files.files@, y) <= c0.counts@[y]);
    match from {
        None => {
            assert forall|i: int| 0 <= i < NINODE && c0.counts@[i] > 0 implies {
                &&& #[trigger] fs1.inum_at(i) == fs0.inum_at(i)
                &&& fs1.file(fs0.inum_at(i)).kind == fs0.file(fs0.inum_at(i)).kind
            } by {
                fs0.lemma_refers(i);
                assert(fs1.file(fs0.inum_at(i)) == fs0.file(fs0.inum_at(i)));
            }
            lemma_files_fs(files, fs0, fs1, pipes);
        },
        Some(o) => {
            let o = o as int;
            let mid = choose|mid: FileSystem<D>| {
                &&& #[trigger] ref_added(c0, mid.inodes.cache, y, fs0.key(t))
                &&& ref_removed(mid.inodes.cache, fs1.inodes.cache, o)
                &&& others_same(fs0, fs1, fs0.inum_at(o))
                &&& if frees(mid.inodes, o) {
                    &&& fs1.file(fs0.inum_at(o)).kind == InodeKind::Unused
                    &&& fs1.file(fs0.inum_at(o)).bytes == Seq::<u8>::empty()
                    &&& fs1.file(fs0.inum_at(o)).nlink == 0
                } else {
                    fs1.file(fs0.inum_at(o)) == fs0.file(fs0.inum_at(o))
                }
            };
            lemma_users_positive(files.files@, o);
            fs0.lemma_refers(o);
            assert forall|f: int| #[trigger] files.has(f) implies file_ok(files.file(f), fs1, pipes) by {
                lemma_file_ok(files, fs0, pipes, f);
                let i = files.file(f).slot();
                if files.file(f) is Inode {
                    fs0.lemma_refers(i);
                    lemma_users_some(files.files@, f, i);
                    if i == o {
                        assert(c0.counts@[o] >= 2);
                    } else {
                        fs0.lemma_slots_apart(i, o);
                        assert(fs1.file(fs0.inum_at(i)) == fs0.file(fs0.inum_at(i)));
                    }
                    assert(fs1.inum_at(i) == fs0.inum_at(i));
                }
            }
            assert forall|i: int| 0 <= i < NINODE implies users(files.files@, i) <= #[trigger] fs1.inodes.cache.counts@[i] by {
                assert(users(files.files@, i) <= c0.counts@[i]);
            }
        },
    }
}

/// What a program wants of the file that it opens.
pub open spec fn mode_create(mode: u64) -> bool {
    mode & O_CREATE != 0
}

pub open spec fn mode_truncate(mode: u64) -> bool {
    mode & O_TRUNC != 0
}

pub open spec fn mode_readable(mode: u64) -> bool {
    mode & O_WRONLY == 0
}

pub open spec fn mode_writable(mode: u64) -> bool {
    mode & O_WRONLY != 0 || mode & O_RDWR != 0
}

/// The file that stands for an inode that was opened with `mode`.
pub open spec fn file_for<D: BlockDevice>(file: File, fs: FileSystem<D>, mode: u64) -> bool {
    let f = fs.file(fs.inum_at(file.slot()));
    if f.kind == InodeKind::Device {
        file matches File::Device { major, readable, writable, .. } && major == f.major && readable == mode_readable(mode) && writable
            == mode_writable(mode)
    } else {
        file matches File::Inode { offset, readable, writable, .. } && offset == 0 && readable == mode_readable(mode) && writable
            == mode_writable(mode)
    }
}

/// File `f` was opened: it is new in the table and stands for the inode that was found or made.
#[verifier::opaque]
pub open spec fn file_opened<D: BlockDevice>(
    fs0: FileSystem<D>,
    fs1: FileSystem<D>,
    files0: FileTable,
    files1: FileTable,
    path: Seq<u8>,
    w: Option<int>,
    mode: u64,
    f: int,
) -> bool {
    let file = files1.file(f);
    let t = fs1.inum_at(file.slot());
    &&& inserted(files0, files1, f, file)
    &&& file_for(file, fs1, mode)
    &&& ref_added(fs0.inodes.cache, fs1.inodes.cache, file.slot(), fs0.key(t))
    &&& opened_as(fs0, fs1, path, w, mode_create(mode), mode_truncate(mode), t)
    &&& !not_openable(fs1.file(t), mode == O_RDONLY, true)
}

/// Nothing was opened: there is no such file, or it cannot be opened in this way.
#[verifier::opaque]
pub open spec fn open_refused<D: BlockDevice>(
    fs0: FileSystem<D>,
    fs1: FileSystem<D>,
    path: Seq<u8>,
    w: Option<int>,
    mode: u64,
    has_slot: bool,
) -> bool {
    &&& same_refs(fs0.inodes.cache, fs1.inodes.cache)
    &&& {
        ||| not_found(fs0, fs1, path, w, mode_create(mode))
        ||| exists|t: int| {
            &&& #[trigger] opened_as(fs0, fs1, path, w, mode_create(mode), false, t)
            &&& not_openable(fs1.file(t), mode == O_RDONLY, has_slot)
        }
    }
}

/// The first free descriptor became `fd`, and stands for file `f`.
pub open spec fn descriptor_made(c0: ProcessContext, c1: ProcessContext, fd: int, f: usize) -> bool {
    &&& first_fd(c0.ofile@, fd)
    &&& c1.ofile@ == c0.ofile@.update(fd, Some(f))
    &&& c1 == (ProcessContext { ofile: c1.ofile, ..c0 })
}

/// A call of open gave the program descriptor `fd` for the file at the path in the first argument.
#[verifier::opaque]
pub open spec fn open_succeeded<D: BlockDevice>(
    c0: ProcessContext,
    c1: ProcessContext,
    a: KernelAllocator,
    fs0: FileSystem<D>,
    fs1: FileSystem<D>,
    files0: FileTable,
    files1: FileTable,
    fd: u64,
) -> bool {
    let path = path_arg(c0, a, 0);
    &&& path is Some
    &&& exists|f: usize| {
        &&& #[trigger] descriptor_made(c0, c1, fd as int, f)
        &&& file_opened(fs0, fs1, files0, files1, path->0, slot_of(c0.cwd), c0.trapframe.a1, f as int)
    }
}

/// Opens a file and adds it to the table.
#[verifier::rlimit(40)]
#[verifier::spinoff_prover]
fn open_in_table<D: BlockDevice>(
    fs: &mut FileSystem<D>,
    files: &mut FileTable,
    pipes: &Pipes<PIPESIZE>,
    path: &Vec<u8>,
    cwd: &Option<usize>,
    mode: u64,
    has_slot: bool,
) -> (r: Result<usize, ()>)
    requires
        old(fs).ready(path@, slot_of(*cwd), if mode & O_CREATE != 0 { 9 } else { 0 }),
        mode & O_TRUNC != 0 ==> truncate_fits(*old(fs), path@, slot_of(*cwd), mode & O_CREATE != 0),
        files_ok(*old(files), *old(fs), *pipes),
    ensures
        final(fs).wf(),
        final(fs).sb() == old(fs).sb(),
        files_ok(*final(files), *final(fs), *pipes),
        forall|g: int| old(files).has(g) ==> #[trigger] final(files).has(g),
        match r {
            Ok(f) => {
                &&& has_slot
                &&& final(files).has(f as int)
                &&& file_opened(*old(fs), *final(fs), *old(files), *final(files), path@, slot_of(*cwd), mode, f as int)
            },
            Err(_) => *final(files) == *old(files) && open_refused(*old(fs), *final(fs), path@, slot_of(*cwd), mode, has_slot),
        },
{
    proof {
        reveal(file_opened);
        reveal(open_refused);
    }
    let ghost fs0 = *fs;
    let ghost files0 = *files;
    let ghost w = slot_of(*cwd);
    let open_mode = OpenMode { create: mode & O_CREATE != 0, read_only: mode == O_RDONLY, truncate: mode & O_TRUNC != 0 };
    let readable = mode & O_WRONLY == 0;
    let writable = mode & O_WRONLY != 0 || mode & O_RDWR != 0;
    match fs.open_file(path, cwd, &open_mode, has_slot) {
        Ok((inode, major)) => {
            let ghost y = inode.cache_index as int;
            let ghost t = fs.inum_at(y);
            let file = match major {
                Some(major) => File::new_device(inode, major, readable, writable),
                None => File::new_inode(inode, readable, writable),
            };
            let f = files.insert(file);
            proof {
                assert(0u64 & 1 == 0 && 0u64 & 2 == 0) by (bit_vector);
                lemma_kinds_opened(fs0, *fs, path@, w, mode_create(mode), mode_truncate(mode), y, t);
                assert(file_for(files.file(f as int), *fs, mode));
                lemma_files_added(files0, *files, fs0, *fs, *pipes, f as int);
            }
            Ok(f)
        },
        Err(_) => {
            proof {
                lemma_kinds_refused(fs0, *fs, path@, w, mode_create(mode));
                lemma_files_fs(files0, fs0, *fs, *pipes);
            }
            Err(())
        },
    }
}

/// Opens the file at the path in the first argument, with the mode in the second one. The result
/// is a descriptor for it.
#[verifier::rlimit(40)]
#[verifier::spinoff_prover]
pub fn sys_open<D: BlockDevice>(
    context: &mut ProcessContext,
    a: &KernelAllocator,
    fs: &mut FileSystem<D>,
    files: &mut FileTable,
    pipes: &Pipes<PIPESIZE>,
) -> (r: Result<u64, ()>)
    requires
        a.wf(),
        old(context).wf(a),
        old(fs).wf(),
        path_arg(*old(context), *a, 0) matches Some(path) ==> {
            let mode = old(context).trapframe.a1;
            let create = mode & O_CREATE != 0;
            &&& old(fs).ready(path, slot_of(old(context).cwd), if create { 9 } else { 0 })
            &&& mode & O_TRUNC != 0 ==> truncate_fits(*old(fs), path, slot_of(old(context).cwd), create)
        },
        files_ok(*old(files), *old(fs), *pipes),
        fds_ok(old(context).ofile@, *old(files)),
    ensures
        final(context).wf(a),
        final(fs).wf(),
        final(fs).sb() == old(fs).sb(),
        files_ok(*final(files), *final(fs), *pipes),
        fds_ok(final(context).ofile@, *final(files)),
        r matches Ok(fd) ==> open_succeeded(*old(context), *final(context), *a, *old(fs), *final(fs), *old(files), *final(files), fd),
        r is Err ==> *final(context) == *old(context) && *final(files) == *old(files),
        r is Err ==> match path_arg(*old(context), *a, 0) {
            None => *final(fs) == *old(fs),
            Some(path) => open_refused(
                *old(fs),
                *final(fs),
                path,
                slot_of(old(context).cwd),
                old(context).trapframe.a1,
                !no_fd(old(context).ofile@),
            ),
        },
{
    let path = match arg_string(context, a, 0) {
        Ok(s) => s,
        Err(_) => {
            return Err(());
        },
    };
    let mode = arg_raw(&context.trapframe, 1);
    let ghost files0 = *files;
    let ghost c0 = *context;
    let slot = free_fd(context);
    proof {
        if slot is Some {
            assert(c0.ofile@[slot->0 as int] is None);
        }
        assert(slot is Some == !no_fd(c0.ofile@));
    }
    let f = match open_in_table(fs, files, pipes, &path, &context.cwd, mode, slot.is_some()) {
        Ok(f) => f,
        Err(_) => {
            return Err(());
        },
    };
    let fd = match slot {
        Some(fd) => fd,
        None => {
            return Err(());
        },
    };
    context.ofile.set(fd, Some(f));
    proof {
        reveal(open_succeeded);
        assert(descriptor_made(c0, *context, (fd as u64) as int, f));
        assert(open_succeeded(c0, *context, *a, *old(fs), *fs, files0, *files, fd as u64));
        assert forall|i: int| 0 <= i < context.ofile@.len() && (#[trigger] context.ofile@[i]) is Some implies files.has(
            context.ofile@[i]->0 as int,
        ) by {
            if i != fd {
                assert(c0.ofile@[i] is Some);
                assert(files0.has(c0.ofile@[i]->0 as int));
            }
        }
    }
    Ok(fd as u64)
}

/// Opening a file keeps what other files refer to.
proof fn lemma_kinds_opened<D: BlockDevice>(
    fs0: FileSystem<D>,
    fs1: FileSystem<D>,
    path: Seq<u8>,
    w: Option<int>,
    create: bool,
    truncate: bool,
    y: int,
    t: int,
)
    requires
        fs0.wf(),
        crate::filesystem::file::refs_bounded(fs0.inodes.cache, 8),
        opened_as(fs0, fs1, path, w, create, truncate, t),
        ref_added(fs0.inodes.cache, fs1.inodes.cache, y, fs0.key(t)),
    ensures
        kinds_kept(fs0, fs1),
        forall|i: int| 0 <= i < NINODE ==> fs0.inodes.cache.counts@[i] + if i == y { 1int } else { 0int } <= #[trigger] fs1.inodes.cache.counts@[i],
{
    assert forall|i: int| 0 <= i < NINODE && fs0.inodes.cache.counts@[i] > 0 implies {
        &&& #[trigger] fs1.inum_at(i) == fs0.inum_at(i)
        &&& fs1.file(fs0.inum_at(i)).kind == fs0.file(fs0.inum_at(i)).kind
    } by {
        fs0.lemma_refers(i);
        lemma_kind_opened(fs0, fs1, path, w, create, truncate, t, fs0.inum_at(i));
    }
    assert(fs0.inodes.cache.counts@[y] + 8 < usize::MAX);
}

proof fn lemma_kind_opened<D: BlockDevice>(
    fs0: FileSystem<D>,
    fs1: FileSystem<D>,
    path: Seq<u8>,
    w: Option<int>,
    create: bool,
    truncate: bool,
    t: int,
    x: int,
)
    requires
        opened_as(fs0, fs1, path, w, create, truncate, t),
        0 <= x < fs0.sb().ninodes,
        fs0.file(x).kind != InodeKind::Unused,
    ensures
        fs1.file(x).kind == fs0.file(x).kind,
{
    if create && fs0.create_new(fs1, path, w, InodeKind::File, 0, 0, t) {
        assert(first_unused(fs0, t));
        let p = fs0.parent(path, w)->0;
        if x != p {
            assert(fs1.file(x) == fs0.file(x));
        }
    } else if x != t {
        assert(fs1.file(x) == fs0.file(x));
    }
}

/// So does a refusal.
proof fn lemma_kinds_refused<D: BlockDevice>(fs0: FileSystem<D>, fs1: FileSystem<D>, path: Seq<u8>, w: Option<int>, create: bool)
    requires
        fs0.wf(),
        fs1.sb() == fs0.sb(),
        same_refs(fs0.inodes.cache, fs1.inodes.cache),
        not_found(fs0, fs1, path, w, create) || exists|t: int| #[trigger] opened_as(fs0, fs1, path, w, create, false, t),
    ensures
        kinds_kept(fs0, fs1),
        forall|i: int| 0 <= i < NINODE ==> fs0.inodes.cache.counts@[i] <= #[trigger] fs1.inodes.cache.counts@[i],
{
    assert forall|x: int| 0 <= x < fs0.sb().ninodes && fs0.file(x).kind != InodeKind::Unused implies (#[trigger] fs1.file(x)).kind
        == fs0.file(x).kind by {
        if !not_found(fs0, fs1, path, w, create) {
            let t = choose|t: int| #[trigger] opened_as(fs0, fs1, path, w, create, false, t);
            lemma_kind_opened(fs0, fs1, path, w, create, false, t, x);
        }
    }
    lemma_kinds_of(fs0, fs1);
}

/// The number of eight bytes at `va` in the memory of a process.
pub open spec fn user_word(context: ProcessContext, ram: Seq<Frame>, va: int) -> Option<int> {
    let root = context.pagetable.root();
    if va < context.sz && va + 8 <= context.sz && accessible(ram, root, va, 8) {
        Some(le64(Seq::new(8, |i: int| user_byte(ram, root, va + i)->0), 0))
    } else {
        None
    }
}

/// The strings whose addresses stand in memory from `va + 8 * i` on, up to an address of 0, where
/// there are at most 32 of them and each is shorter than a page.
pub open spec fn user_arguments(context: ProcessContext, ram: Seq<Frame>, va: int, i: int) -> Option<Seq<Seq<u8>>>
    decreases 33 - i,
{
    match user_word(context, ram, va + 8 * i) {
        None => None,
        Some(addr) => if addr == 0 {
            Some(Seq::empty())
        } else if i >= 32 {
            None
        } else {
            match (user_string(ram, context.pagetable.root(), addr, PGSIZE as int), user_arguments(context, ram, va, i + 1)) {
                (Some(s), Some(rest)) => Some(seq![s] + rest),
                _ => None,
            }
        },
    }
}

/// Reads the arguments for a program from the memory of a process.
#[verifier::rlimit(40)]
fn read_arguments(context: &ProcessContext, a: &KernelAllocator, argv: u64) -> (r: Result<ArrayVec<Vec<u8>, MAXARG>, ()>)
    requires
        a.wf(),
        context.wf(a),
    ensures
        match r {
            Ok(v) => user_arguments(*context, a.frames(), argv as int, 0) == Some(arguments(v)),
            Err(_) => user_arguments(*context, a.frames(), argv as int, 0) is None,
        },
{
    let ghost ram = a.frames();
    let ghost root = context.pagetable.root();
    let ghost whole = user_arguments(*context, ram, argv as int, 0);
    let mut v = no_arguments();
    let mut i: u64 = 0;
    proof {
        if whole is Some {
            assert(arguments(v) + whole->0 =~= whole->0);
        }
    }
    loop
        invariant
            a.wf(),
            context.wf(a),
            ram == a.frames(),
            root == context.pagetable.root(),
            whole == user_arguments(*context, ram, argv as int, 0),
            i <= 32,
            arguments(v).len() == i,
            match user_arguments(*context, ram, argv as int, i as int) {
                Some(rest) => whole == Some(arguments(v) + rest),
                None => whole is None,
            },
        decreases 33 - i,
    {
        let va = match argv.checked_add(8 * i) {
            Some(va) => va,
            None => {
                return Err(());
            },
        };
        let bytes = match read_memory(context, a, va, 8) {
            Some(bytes) => bytes,
            None => {
                return Err(());
            },
        };
        let addr = get_u64(&bytes, 0);
        proof {
            assert(bytes@ =~= Seq::new(8, |k: int| user_byte(ram, root, va + k)->0));
            assert(user_word(*context, ram, va as int) == Some(addr as int));
        }
        if addr == 0 {
            proof {
                assert(arguments(v) + Seq::<Seq<u8>>::empty() =~= arguments(v));
            }
            return Ok(v);
        }
        let mut buffer = zeros(PGSIZE as usize);
        let len = match read_string_from_process_memory(context, a, addr, &mut buffer) {
            Ok(len) => len,
            Err(_) => {
                return Err(());
            },
        };
        let ghost s = buffer@.take(len as int);
        buffer.truncate(len);
        proof {
            assert(buffer@ =~= s);
        }
        let ghost before = arguments(v);
        match push_argument(&mut v, buffer) {
            Ok(_) => {},
            Err(_) => {
                return Err(());
            },
        }
        proof {
            match user_arguments(*context, ram, argv as int, i + 1) {
                Some(rest) => {
                    assert(before + (seq![s] + rest) =~= arguments(v) + rest);
                },
                None => {},
            }
        }
        i = i + 1;
    }
}

/// The kernel holds a page for itself.
pub open spec fn page_held(a: KernelAllocator, pa: u64) -> bool {
    is_kernel_page(a.frames(), pa as int) && pa >= a.end()
}

/// Pages were taken for the kernel.
pub open spec fn pages_out(a0: KernelAllocator, a1: KernelAllocator, pages: Seq<u64>) -> bool {
    &&& a1.wf()
    &&& a1.end() == a0.end()
    &&& pages.len() <= a0.free().len()
    &&& a1.free() == a0.free().skip(pages.len() as int)
    &&& others_safe(a0.frames(), a1.frames(), -1)
    &&& forall|k: int| 0 <= k < pages.len() ==> frame_at(#[trigger] pages[k] as int) == a0.free()[k] && page_held(a1, pages[k])
    &&& forall|q: int| is_frame(q) && (forall|k: int| 0 <= k < pages.len() ==> q != frame_at(#[trigger] pages[k] as int)) ==>
        #[trigger] a1.frames()[q] == a0.frames()[q]
}

/// Pages of the kernel went back to the free list.
pub open spec fn pages_back(a0: KernelAllocator, a1: KernelAllocator, pages: Seq<u64>) -> bool {
    &&& a1.wf()
    &&& a1.end() == a0.end()
    &&& a1.free().len() == a0.free().len() + pages.len()
    &&& forall|k: int| 0 <= k < pages.len() ==> a1.frames()[frame_at(#[trigger] pages[k] as int)] is Free
    &&& forall|q: int| is_frame(q) && (forall|k: int| 0 <= k < pages.len() ==> q != frame_at(#[trigger] pages[k] as int)) ==>
        #[trigger] a1.frames()[q] == a0.frames()[q]
}

/// Gives pages of the kernel back. `s0` is a state in which they were free.
#[verifier::rlimit(40)]
#[verifier::spinoff_prover]
fn give_back(a: &mut KernelAllocator, context: &ProcessContext, pages: &Vec<u64>, Ghost(s0): Ghost<Seq<Frame>>)
    requires
        old(a).wf(),
        context.wf(old(a)),
        forall|k: int| 0 <= k < pages@.len() ==> page_held(*old(a), #[trigger] pages@[k]),
        forall|k: int| 0 <= k < pages@.len() ==> frame_at(#[trigger] pages@[k] as int) != frame_at(context.trapframe_addr as int),
        forall|j: int, k: int| 0 <= j < k < pages@.len() ==> frame_at(#[trigger] pages@[j] as int) != frame_at(#[trigger] pages@[k] as int),
        forall|k: int| 0 <= k < pages@.len() ==> s0[frame_at(#[trigger] pages@[k] as int)] is Free,
    ensures
        pages_back(*old(a), *final(a), pages@),
        context.wf(final(a)),
        others_safe(s0, old(a).frames(), -1) ==> others_safe(s0, final(a).frames(), -1),
{
    let ghost a0 = *a;
    let mut i: usize = 0;
    proof {
        assert forall|k: int| 0 <= k < pages@.len() implies is_frame(frame_at(#[trigger] pages@[k] as int)) by {
            assert(page_held(a0, pages@[k]));
        }
    }
    while i < pages.len()
        invariant
            forall|k: int| 0 <= k < pages@.len() ==> is_frame(frame_at(#[trigger] pages@[k] as int)),
            i <= pages@.len(),
            a0 == *old(a),
            a.wf(),
            a.end() == a0.end(),
            context.wf(a),
            forall|k: int| i <= k < pages@.len() ==> page_held(*a, #[trigger] pages@[k]),
            forall|k: int| 0 <= k < pages@.len() ==> frame_at(#[trigger] pages@[k] as int) != frame_at(context.trapframe_addr as int),
            forall|j: int, k: int| 0 <= j < k < pages@.len() ==> frame_at(#[trigger] pages@[j] as int) != frame_at(#[trigger] pages@[k] as int),
            forall|k: int| 0 <= k < pages@.len() ==> s0[frame_at(#[trigger] pages@[k] as int)] is Free,
            a.free().len() == a0.free().len() + i,
            forall|k: int| 0 <= k < i ==> a.frames()[frame_at(#[trigger] pages@[k] as int)] is Free,
            forall|q: int| is_frame(q) && (forall|k: int| 0 <= k < pages@.len() ==> q != frame_at(#[trigger] pages@[k] as int)) ==>
                #[trigger] a.frames()[q] == a0.frames()[q],
            others_safe(s0, a0.frames(), -1) ==> others_safe(s0, a.frames(), -1),
        decreases pages@.len() - i,
    {
        let ghost a1 = *a;
        let ghost p = frame_at(pages@[i as int] as int);
        proof {
            assert(page_held(a1, pages@[i as int]));
        }
        a.deallocate_page(pages[i]);
        proof {
            assert(s0[frame_at(pages@[i as int] as int)] is Free);
            lemma_page_dropped(*context, a1, *a, p);
            if others_safe(s0, a1.frames(), -1) {
                lemma_page_returned(s0, a1.frames(), a.frames(), p);
            }
            assert forall|k: int| i + 1 <= k < pages@.len() implies page_held(*a, #[trigger] pages@[k]) by {
                assert(page_held(a1, pages@[k]));
                assert(frame_at(pages@[k] as int) != p);
            }
            assert forall|k: int| 0 <= k < i + 1 implies a.frames()[frame_at(#[trigger] pages@[k] as int)] is Free by {
                if k < i {
                    assert(a1.frames()[frame_at(pages@[k] as int)] is Free);
                    assert(frame_at(pages@[k] as int) != p);
                }
            }
        }
        i = i + 1;
    }
}

/// Takes a page for each of `n` arguments, or none.
#[verifier::rlimit(40)]
#[verifier::spinoff_prover]
fn take_pages(a: &mut KernelAllocator, context: &ProcessContext, n: usize) -> (r: Result<Vec<u64>, ()>)
    requires
        old(a).wf(),
        context.wf(old(a)),
    ensures
        context.wf(final(a)),
        match r {
            Ok(pages) => pages@.len() == n && pages_out(*old(a), *final(a), pages@),
            Err(_) => old(a).free().len() < n && nothing_taken(*old(a), *final(a)),
        },
{
    let ghost a0 = *a;
    let mut pages: Vec<u64> = Vec::new();
    proof {
        crate::process::lemma_safe_same(a0.frames(), -1);
        assert(a0.free().skip(0) =~= a0.free());
    }
    while pages.len() < n
        invariant
            a0 == *old(a),
            a0.wf(),
            context.wf(&a0),
            context.wf(a),
            pages@.len() <= n,
            pages_out(a0, *a, pages@),
        decreases n - pages@.len(),
    {
        let ghost a1 = *a;
        match a.allocate_page() {
            Some(pa) => {
                proof {
                    let p = frame_at(pa as int);
                    let m = pages@.len() as int;
                    assert(p == a0.free()[m]);
                    lemma_page_taken(a1.frames(), a.frames(), p);
                    assert(others_safe(a1.frames(), a.frames(), -1));
                    lemma_safe_trans(a0.frames(), a1.frames(), a.frames(), -1);
                    context.lemma_safe(a1, *a, -1);
                    let new = pages@.push(pa);
                    assert(a0.free().skip(m).skip(1) =~= a0.free().skip(m + 1));
                    assert forall|k: int| 0 <= k < new.len() implies frame_at(#[trigger] new[k] as int) == a0.free()[k] && page_held(*a, new[k]) by {
                        if k < m {
                            assert(new[k] == pages@[k]);
                            assert(page_held(a1, pages@[k]));
                        }
                    }
                    assert forall|q: int| is_frame(q) && (forall|k: int| 0 <= k < new.len() ==> q != frame_at(#[trigger] new[k] as int)) implies
                        #[trigger] a.frames()[q] == a0.frames()[q] by {
                        assert(q != frame_at(new[m] as int));
                        assert forall|k: int| 0 <= k < pages@.len() implies q != frame_at(#[trigger] pages@[k] as int) by {
                            assert(new[k] == pages@[k]);
                        }
                        assert(a1.frames()[q] == a0.frames()[q]);
                    }
                }
                pages.push(pa);
            },
            None => {
                proof {
                    lemma_pages_apart(a0, a1, pages@, *context);
                }
                give_back(a, context, &pages, Ghost(a0.frames()));
                proof {
                    lemma_pages_returned(a0, a1, *a, pages@);
                }
                return Err(());
            },
        }
    }
    Ok(pages)
}

/// No page was lost, and all memory is as before.
pub open spec fn nothing_taken(a0: KernelAllocator, a1: KernelAllocator) -> bool {
    &&& a1.wf()
    &&& a1.end() == a0.end()
    &&& a1.free().len() == a0.free().len()
    &&& others_safe(a0.frames(), a1.frames(), -1)
    &&& taken_but(a0.frames(), a1.frames(), Set::empty())
}

/// Pages that were taken differ from each other and from the page of the trap frame.
proof fn lemma_pages_apart(a0: KernelAllocator, a1: KernelAllocator, pages: Seq<u64>, context: ProcessContext)
    requires
        a0.wf(),
        context.wf(&a0),
        pages_out(a0, a1, pages),
    ensures
        forall|k: int| 0 <= k < pages.len() ==> frame_at(#[trigger] pages[k] as int) != frame_at(context.trapframe_addr as int),
        forall|j: int, k: int| 0 <= j < k < pages.len() ==> frame_at(#[trigger] pages[j] as int) != frame_at(#[trigger] pages[k] as int),
        forall|k: int| 0 <= k < pages.len() ==> a0.frames()[frame_at(#[trigger] pages[k] as int)] is Free,
{
    assert forall|k: int| 0 <= k < pages.len() implies a0.frames()[frame_at(#[trigger] pages[k] as int)] is Free by {
        assert(a0.frames()[a0.free()[k]] is Free);
    }
}

/// Pages that were taken and given back leave nothing taken.
proof fn lemma_pages_returned(a0: KernelAllocator, a1: KernelAllocator, a2: KernelAllocator, pages: Seq<u64>)
    requires
        a0.wf(),
        pages_out(a0, a1, pages),
        pages_back(a1, a2, pages),
        others_safe(a0.frames(), a2.frames(), -1),
    ensures
        nothing_taken(a0, a2),
{
    reveal(taken_but);
    let s0 = a0.frames();
    let s2 = a2.frames();
    assert forall|p: int|
        #![trigger s0[p]]
        is_frame(p) && (s0[p] is Free || is_inner_table(s0, p)) implies s2[p] is Free || is_inner_table(s2, p) by {
        if exists|k: int| 0 <= k < pages.len() && p == frame_at(#[trigger] pages[k] as int) {
            let k = choose|k: int| 0 <= k < pages.len() && p == frame_at(#[trigger] pages[k] as int);
            assert(s2[frame_at(pages[k] as int)] is Free);
        } else {
            assert(a1.frames()[p] == s0[p]);
            assert(s2[p] == a1.frames()[p]);
        }
    }
}

/// What a call to run a program comes to: a page is taken for each argument, the program is
/// run, and the pages are given back.
pub open spec fn exec_came_to<D: BlockDevice>(
    a0: KernelAllocator,
    a1: KernelAllocator,
    fs0: FileSystem<D>,
    c0: ProcessContext,
    c1: ProcessContext,
    path: Seq<u8>,
    argv: Seq<Seq<u8>>,
    r: Result<usize, ()>,
) -> bool {
    if a0.free().len() < argv.len() {
        r is Err && c1 == c0 && nothing_taken(a0, a1)
    } else {
        exists|m0: KernelAllocator, m1: KernelAllocator, pages: Seq<u64>| {
            &&& pages.len() == argv.len()
            &&& #[trigger] pages_out(a0, m0, pages)
            &&& execute_came_to(m0, m1, fs0, c0, c1, path, argv, r)
            &&& #[trigger] pages_back(m1, a1, pages)
        }
    }
}

/// Replaces the program of the process by the one at the path in the first argument, with the
/// arguments at the address in the second one. The result is how many there are.
pub fn sys_exec<D: BlockDevice>(a: &mut KernelAllocator, fs: &mut FileSystem<D>, context: &mut ProcessContext, trampoline: u64) -> (r: Result<u64, ()>)
    requires
        old(a).wf(),
        old(context).wf(old(a)),
        old(fs).wf(),
        path_arg(*old(context), *old(a), 0) matches Some(path) ==> old(fs).ready(path, slot_of(old(context).cwd), 0),
        trampoline <= 0xff_ffff_ffff_0000,
    ensures
        final(a).wf(),
        final(a).end() == old(a).end(),
        final(context).wf(final(a)),
        match (path_arg(*old(context), *old(a), 0), user_arguments(*old(context), old(a).frames(), old(context).trapframe.a1 as int, 0)) {
            (Some(path), Some(argv)) => {
                &&& undisturbed(*old(fs), *final(fs))
                &&& r matches Ok(n) ==> n <= usize::MAX
                &&& exec_came_to(
                    *old(a),
                    *final(a),
                    *old(fs),
                    *old(context),
                    *final(context),
                    path,
                    argv,
                    match r {
                        Ok(n) => Ok(n as usize),
                        Err(_) => Err(()),
                    },
                )
            },
            _ => r is Err && *final(a) == *old(a) && *final(fs) == *old(fs) && *final(context) == *old(context),
        },
{
    let path = match arg_string(context, a, 0) {
        Ok(s) => s,
        Err(_) => {
            return Err(());
        },
    };
    let argv_user = arg_raw(&context.trapframe, 1);
    let argv = match read_arguments(context, a, argv_user) {
        Ok(argv) => argv,
        Err(_) => {
            return Err(());
        },
    };
    let slice = argument_slice(&argv);
    let ghost a0 = *a;
    let ghost c0 = *context;
    proof {
        assert(args(slice@) =~= arguments(argv));
    }
    let pages = match take_pages(a, context, slice.len()) {
        Ok(pages) => pages,
        Err(_) => {
            return Err(());
        },
    };
    let ghost m0 = *a;
    let r = execute(a, fs, context, trampoline, &path, slice);
    let ghost m1 = *a;
    proof {
        lemma_pages_apart(a0, m0, pages@, c0);
        reveal(kernel_kept);
        assert forall|k: int| 0 <= k < pages@.len() implies page_held(m1, #[trigger] pages@[k]) by {
            assert(page_held(m0, pages@[k]));
            assert(m0.frames()[frame_at(pages@[k] as int)] is Data);
        }
    }
    give_back(a, context, &pages, Ghost(a0.frames()));
    proof {
        assert(pages_out(a0, m0, pages@) && pages_back(m1, *a, pages@));
    }
    match r {
        Ok(argc) => Ok(argc as u64),
        Err(_) => Err(()),
    }
}

} // verus!
