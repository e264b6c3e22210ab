//! What a program finds when it starts, in terms of the bytes of its file.
use vstd::prelude::*;
use crate::allocator::{Frame, KernelAllocator};
use crate::exec::{
    argv_at, execute_came_to, image_byte, image_flags, program_ok, program_set_up, segment, segments, size_after, stack_at, stack_top,
};
use crate::filesystem::bytes::{le16, le32, le64};
use crate::filesystem::device::BlockDevice;
use crate::fs::{slot_of, FileSystem};
use crate::process::process::ProcessContext;
use crate::process::memory::memory_wf;
use crate::riscv::paging::{lookup, page_count, translate, user_byte, PTE};

verus! {

/// Where program header `k` of an ELF file stands.
pub open spec fn phdr(f: Seq<u8>, k: int) -> int {
    le64(f, 32) + 56 * k
}

/// Program header `k` is for a segment that has to be loaded.
pub open spec fn is_load(f: Seq<u8>, k: int) -> bool {
    0 <= k < le16(f, 56) && le32(f, phdr(f, k)) == 1
}

/// Where segment `k` ends in memory.
pub open spec fn load_end(f: Seq<u8>, k: int) -> int {
    le64(f, phdr(f, k) + 16) + le64(f, phdr(f, k) + 40)
}

/// The bytes of segment `k` that stand in the file reach byte `va` of memory.
pub open spec fn covers(f: Seq<u8>, k: int, va: int) -> bool {
    &&& is_load(f, k)
    &&& le64(f, phdr(f, k) + 16) <= va < le64(f, phdr(f, k) + 16) + le64(f, phdr(f, k) + 32)
}

/// The file of the program that was started.
pub open spec fn program_file<D: BlockDevice>(fs: FileSystem<D>, path: Seq<u8>, c: ProcessContext) -> Seq<u8> {
    fs.file(fs.target(path, slot_of(c.cwd))->0).bytes
}

proof fn lemma_size_below(f: Seq<u8>, k: int, x: int)
    requires
        0 <= k <= le16(f, 56),
        0 <= x,
        forall|i: int| 0 <= i < k && #[trigger] is_load(f, i) ==> load_end(f, i) <= x,
    ensures
        0 <= size_after(f, k) <= x,
    decreases k,
{
    if k > 0 {
        lemma_size_below(f, k - 1, x);
        assert(is_load(f, k - 1) <==> segment(f, k - 1).kind == 1);
        if is_load(f, k - 1) {
            assert(load_end(f, k - 1) <= x);
        }
    }
}

proof fn lemma_size_above(f: Seq<u8>, k: int, n: int)
    requires
        is_load(f, k),
        k < n,
    ensures
        load_end(f, k) <= size_after(f, n),
    decreases n - k,
{
    if k < n - 1 {
        lemma_size_above(f, k, n - 1);
    }
}

proof fn lemma_flags_stay(f: Seq<u8>, k: int, n: int, vp: int)
    requires
        0 < k <= n,
        0 <= vp < page_count(size_after(f, k)),
    ensures
        image_flags(f, n, vp) == image_flags(f, k, vp),
        page_count(size_after(f, k)) <= page_count(size_after(f, n)),
    decreases n - k,
{
    if k < n {
        lemma_flags_stay(f, k, n - 1, vp);
    }
}

proof fn lemma_permission_bits(e: u64, x: u64, w: u64)
    by (bit_vector)
    requires
        x == 8 || x == 0,
        w == 4 || w == 0,
        e & 0x3ff == ((x | w) | 2 | 16) | 1,
    ensures
        e & 8 != 0 <==> x == 8,
        e & 4 != 0 <==> w == 4,
        e & 2 != 0,
        e & 16 != 0,
        e & 1 != 0,
{
}

/// The bits of an entry that was made for flags in a file.
proof fn lemma_entry_bits(e: PTE, flags: u32)
    requires
        e.flags() == crate::exec::grown_flags(crate::exec::perm_of(flags)) | 1,
    ensures
        e.0 & 8 != 0 <==> flags & 1 != 0,
        e.0 & 4 != 0 <==> flags & 2 != 0,
        e.0 & 2 != 0,
        e.0 & 16 != 0,
{
    let x: u64 = if flags & 1 != 0 { 8 } else { 0 };
    let w: u64 = if flags & 2 != 0 { 4 } else { 0 };
    lemma_permission_bits(e.0, x, w);
}

/// A program that is set up has the pages of its segments.
proof fn lemma_page_flags(ram: Seq<Frame>, root: int, f: Seq<u8>, argv: Seq<Seq<u8>>, vp: int)
    requires
        program_set_up(ram, root, f, argv),
        0 <= vp < (stack_top(f) - 8192) / 4096,
    ensures
        lookup(ram, root, vp) is Some,
        lookup(ram, root, vp)->0.flags() == image_flags(f, segments(f), vp) | 1,
{
    assert(crate::exec::has_flags(ram, root, vp, image_flags(f, segments(f), vp)));
}

/// The flags of a page that segment `k` is the first to need.
proof fn lemma_first_flags(f: Seq<u8>, k: int, vp: int)
    requires
        is_load(f, k),
        0 <= vp,
        4096 * vp < load_end(f, k),
        forall|i: int| 0 <= i < k && #[trigger] is_load(f, i) ==> load_end(f, i) <= 4096 * vp,
    ensures
        image_flags(f, segments(f), vp) == crate::exec::grown_flags(crate::exec::perm_of(le32(f, phdr(f, k) + 4) as u32)),
        vp < (stack_top(f) - 8192) / 4096,
{
    lemma_size_below(f, k, 4096 * vp);
    lemma_size_above(f, k, k + 1);
    assert(page_count(size_after(f, k)) <= vp < page_count(size_after(f, k + 1)));
    lemma_flags_stay(f, k + 1, segments(f), vp);
}

/// After a program was started, a page that a segment is the first to need can be executed exactly
/// where the flags of the segment in the file have bit 0 set, and written exactly where they have
/// bit 1 set. User code can read all of them.
pub proof fn lemma_page_permissions<D: BlockDevice>(
    a0: KernelAllocator,
    a1: KernelAllocator,
    fs0: FileSystem<D>,
    c0: ProcessContext,
    c1: ProcessContext,
    path: Seq<u8>,
    argv: Seq<Seq<u8>>,
    argc: usize,
    k: int,
    vp: int,
)
    requires
        execute_came_to(a0, a1, fs0, c0, c1, path, argv, Ok(argc)),
        is_load(program_file(fs0, path, c0), k),
        0 <= vp,
        4096 * vp < load_end(program_file(fs0, path, c0), k),
        forall|i: int|
            0 <= i < k && #[trigger] is_load(program_file(fs0, path, c0), i) ==> load_end(program_file(fs0, path, c0), i) <= 4096 * vp,
    ensures
        ({
            let f = program_file(fs0, path, c0);
            let flags = le32(f, phdr(f, k) + 4) as u32;
            let e = lookup(a1.frames(), c1.pagetable.root(), vp);
            &&& e is Some
            &&& (e->0).0 & 8 != 0 <==> flags & 1 != 0
            &&& (e->0).0 & 4 != 0 <==> flags & 2 != 0
            &&& (e->0).0 & 2 != 0
            &&& (e->0).0 & 16 != 0
        }),
{
    let f = program_file(fs0, path, c0);
    let ram = a1.frames();
    let root = c1.pagetable.root();
    lemma_set_up(a0, a1, fs0, c0, c1, path, argv, argc);
    lemma_first_flags(f, k, vp);
    lemma_page_flags(ram, root, f, argv, vp);
    lemma_entry_bits(lookup(ram, root, vp)->0, le32(f, phdr(f, k) + 4) as u32);
}

/// A program that was started is set up.
proof fn lemma_set_up<D: BlockDevice>(
    a0: KernelAllocator,
    a1: KernelAllocator,
    fs0: FileSystem<D>,
    c0: ProcessContext,
    c1: ProcessContext,
    path: Seq<u8>,
    argv: Seq<Seq<u8>>,
    argc: usize,
)
    requires
        execute_came_to(a0, a1, fs0, c0, c1, path, argv, Ok(argc)),
    ensures
        program_set_up(a1.frames(), c1.pagetable.root(), program_file(fs0, path, c0), argv),
{
}

proof fn lemma_image_covered(f: Seq<u8>, k: int, n: int, va: int)
    requires
        covers(f, k, va),
        k < n <= le16(f, 56),
        forall|i: int| k < i < n ==> !#[trigger] covers(f, i, va),
    ensures
        image_byte(f, n, va) == f[le64(f, phdr(f, k) + 8) + (va - le64(f, phdr(f, k) + 16))],
    decreases n - k,
{
    if k < n - 1 {
        assert(!covers(f, n - 1, va));
        lemma_image_covered(f, k, n - 1, va);
    }
}

proof fn lemma_image_bare(f: Seq<u8>, n: int, va: int)
    requires
        0 <= n <= le16(f, 56),
        forall|i: int| 0 <= i < n ==> !#[trigger] covers(f, i, va),
    ensures
        image_byte(f, n, va) == 0,
    decreases n,
{
    if n > 0 {
        assert(!covers(f, n - 1, va));
        lemma_image_bare(f, n - 1, va);
    }
}

/// After a program was started, its memory holds the bytes of its file: each byte comes from the last
/// segment that has it, and is zero where none has.
pub proof fn lemma_program_bytes<D: BlockDevice>(
    a0: KernelAllocator,
    a1: KernelAllocator,
    fs0: FileSystem<D>,
    c0: ProcessContext,
    c1: ProcessContext,
    path: Seq<u8>,
    argv: Seq<Seq<u8>>,
    argc: usize,
    k: int,
    va: int,
)
    requires
        execute_came_to(a0, a1, fs0, c0, c1, path, argv, Ok(argc)),
        is_load(program_file(fs0, path, c0), k),
        0 <= va < load_end(program_file(fs0, path, c0), k),
        covers(program_file(fs0, path, c0), k, va) || forall|i: int| !#[trigger] covers(program_file(fs0, path, c0), i, va),
        forall|i: int| k < i ==> !#[trigger] covers(program_file(fs0, path, c0), i, va),
    ensures
        ({
            let f = program_file(fs0, path, c0);
            let at = phdr(f, k);
            user_byte(a1.frames(), c1.pagetable.root(), va) == Some(
                if covers(f, k, va) {
                    f[le64(f, at + 8) + (va - le64(f, at + 16))]
                } else {
                    0u8
                },
            )
        }),
{
    let f = program_file(fs0, path, c0);
    lemma_size_above(f, k, segments(f));
    assert(va < stack_top(f) - 8192);
    assert(user_byte(a1.frames(), c1.pagetable.root(), va) == Some(image_byte(f, segments(f), va)));
    if covers(f, k, va) {
        lemma_image_covered(f, k, segments(f), va);
    } else {
        lemma_image_bare(f, segments(f), va);
    }
}

pub(crate) proof fn lemma_stack_bits(e: u64)
    by (bit_vector)
    requires
        e & 0x3ff == (4u64 | 2 | 16) | 1,
    ensures
        e & 4 != 0,
        e & 2 != 0,
        e & 16 != 0,
        e & 8 == 0,
{
}

/// The registers and the size of the memory of a program that starts.
proof fn lemma_started<D: BlockDevice>(
    a0: KernelAllocator,
    a1: KernelAllocator,
    fs0: FileSystem<D>,
    c0: ProcessContext,
    c1: ProcessContext,
    path: Seq<u8>,
    argv: Seq<Seq<u8>>,
    argc: usize,
)
    requires
        execute_came_to(a0, a1, fs0, c0, c1, path, argv, Ok(argc)),
    ensures
        ({
            let f = program_file(fs0, path, c0);
            let top = stack_top(f);
            &&& program_set_up(a1.frames(), c1.pagetable.root(), f, argv)
            &&& argc == argv.len()
            &&& top % 4096 == 0
            &&& 8192 <= top
            &&& c1.sz == top
            &&& c1.trapframe.epc == le64(f, 24)
            &&& c1.trapframe.sp == argv_at(top, argv)
            &&& c1.trapframe.a1 == argv_at(top, argv)
            &&& argv_at(top, argv) % 16 == 0
            &&& top - 4096 <= argv_at(top, argv) < top
        }),
{
    let f = program_file(fs0, path, c0);
    let top = stack_top(f);
    lemma_top(f);
    lemma_top_bounded(a1.frames(), c1.pagetable.root(), f, argv);
    lemma_stack_place(top, argv);
}

proof fn lemma_top(f: Seq<u8>)
    ensures
        stack_top(f) % 4096 == 0,
        8192 <= stack_top(f),
{
    lemma_size_nonnegative(f, segments(f));
    lemma_top_aligned(size_after(f, segments(f)));
}

proof fn lemma_top_bounded(ram: Seq<Frame>, root: int, f: Seq<u8>, argv: Seq<Seq<u8>>)
    requires
        program_set_up(ram, root, f, argv),
    ensures
        stack_top(f) <= 0x800_0000,
{
    lemma_memory_bounded(ram, root, stack_top(f));
}

proof fn lemma_top_aligned(size: int)
    ensures
        0 <= size ==> 0 <= crate::riscv::paging::roundup(size),
        crate::riscv::paging::roundup(size) % 4096 == 0,
{
}

proof fn lemma_memory_bounded(ram: Seq<Frame>, root: int, size: int)
    requires
        memory_wf(ram, root, size),
    ensures
        size <= 0x800_0000,
{
    assert(page_count(size) <= crate::allocator::NFRAMES);
}

proof fn lemma_stack_place(top: int, argv: Seq<Seq<u8>>)
    requires
        top % 4096 == 0,
        crate::exec::args_fit(argv),
    ensures
        argv_at(top, argv) % 16 == 0,
        top - 4096 <= argv_at(top, argv) < top,
{
    assert(top % 16 == 0);
    crate::exec::lemma_stack_shift(top, argv, argv.len() as int);
    crate::exec::lemma_stack_down(top, argv, 0, argv.len() as int);
    assert(stack_at(top, argv, 0) == top);
    let n = argv.len() as int;
    let sp = stack_at(top, argv, n) - (n + 1) * 8;
    assert((n + 1) * 8 >= 8);
    assert((sp - sp % 16) % 16 == 0);
}

/// What a program finds when it starts: it begins at the entry point in its file, with the number of
/// arguments and the address of an array of pointers to them, which a zero ends. Each argument is
/// there, with a zero at its end.
pub proof fn lemma_program_start<D: BlockDevice>(
    a0: KernelAllocator,
    a1: KernelAllocator,
    fs0: FileSystem<D>,
    c0: ProcessContext,
    c1: ProcessContext,
    path: Seq<u8>,
    argv: Seq<Seq<u8>>,
    argc: usize,
)
    requires
        execute_came_to(a0, a1, fs0, c0, c1, path, argv, Ok(argc)),
    ensures
        ({
            let f = program_file(fs0, path, c0);
            let ram = a1.frames();
            let root = c1.pagetable.root();
            let sp = c1.trapframe.sp as int;
            &&& argc == argv.len()
            &&& c1.trapframe.epc == le64(f, 24)
            &&& c1.trapframe.a1 == sp
            &&& sp % 16 == 0
            &&& c1.sz - 4096 <= sp < c1.sz
            &&& forall|k: int| 0 <= k < argv.len() ==> #[trigger] points_to(ram, root, sp + 8 * k, argv[k])
            &&& forall|i: int| 0 <= i < 8 ==> #[trigger] user_byte(ram, root, sp + 8 * argv.len() + i) == Some(0u8)
        }),
{
    lemma_started(a0, a1, fs0, c0, c1, path, argv, argc);
    lemma_arguments(a1.frames(), c1.pagetable.root(), c1.sz as int, argv);
}

/// The stack of a program that starts lies above its image. User code can read and write but not
/// execute it, and can reach nothing in the page below it.
pub proof fn lemma_program_stack<D: BlockDevice>(
    a0: KernelAllocator,
    a1: KernelAllocator,
    fs0: FileSystem<D>,
    c0: ProcessContext,
    c1: ProcessContext,
    path: Seq<u8>,
    argv: Seq<Seq<u8>>,
    argc: usize,
)
    requires
        execute_came_to(a0, a1, fs0, c0, c1, path, argv, Ok(argc)),
    ensures
        c1.sz % 4096 == 0,
        forall|k: int| #[trigger] is_load(program_file(fs0, path, c0), k) ==> load_end(program_file(fs0, path, c0), k) <= c1.sz - 8192,
        forall|va: int| c1.sz - 8192 <= va < c1.sz - 4096 ==> (#[trigger] user_byte(a1.frames(), c1.pagetable.root(), va)) is None,
        stack_page(a1.frames(), c1.pagetable.root(), c1.sz / 4096 - 1),
{
    let f = program_file(fs0, path, c0);
    let ram = a1.frames();
    let root = c1.pagetable.root();
    lemma_started(a0, a1, fs0, c0, c1, path, argv, argc);
    assert forall|k: int| #[trigger] is_load(f, k) implies load_end(f, k) <= c1.sz - 8192 by {
        lemma_size_above(f, k, segments(f));
    }
    assert(translate(ram, root, (stack_top(f) - 8192) / 4096) is None);
    assert forall|va: int| c1.sz - 8192 <= va < c1.sz - 4096 implies (#[trigger] user_byte(ram, root, va)) is None by {
        assert(va / 4096 == (stack_top(f) - 8192) / 4096);
    }
    assert((stack_top(f) - 4096) / 4096 == c1.sz / 4096 - 1);
    lemma_stack_bits((lookup(ram, root, (stack_top(f) - 4096) / 4096)->0).0);
}

proof fn lemma_arguments(ram: Seq<Frame>, root: int, top: int, argv: Seq<Seq<u8>>)
    requires
        crate::exec::stack_holds(ram, root, top, argv),
    ensures
        forall|k: int| 0 <= k < argv.len() ==> #[trigger] points_to(ram, root, argv_at(top, argv) + 8 * k, argv[k]),
        forall|i: int| 0 <= i < 8 ==> #[trigger] user_byte(ram, root, argv_at(top, argv) + 8 * argv.len() + i) == Some(0u8),
{
    let sp = argv_at(top, argv);
    assert forall|k: int| 0 <= k < argv.len() implies #[trigger] points_to(ram, root, sp + 8 * k, argv[k]) by {
        let p = stack_at(top, argv, k + 1);
        assert(crate::exec::word_at(ram, root, sp + 8 * k, p));
        lemma_string(ram, root, p, argv[k]);
    }
    lemma_zero_word(ram, root, sp + 8 * argv.len());
}

proof fn lemma_string(ram: Seq<Frame>, root: int, p: int, s: Seq<u8>)
    requires
        crate::exec::argument_at(ram, root, p, s),
    ensures
        is_string(ram, root, p, s),
{
}

proof fn lemma_size_nonnegative(f: Seq<u8>, k: int)
    ensures
        0 <= size_after(f, k),
    decreases k,
{
    if k > 0 {
        lemma_size_nonnegative(f, k - 1);
    }
}

/// Page `vp` can be read and written by user code, but not executed.
pub open spec fn stack_page(ram: Seq<Frame>, root: int, vp: int) -> bool {
    let e = (lookup(ram, root, vp)->0).0;
    &&& lookup(ram, root, vp) is Some
    &&& e & 4 != 0
    &&& e & 2 != 0
    &&& e & 16 != 0
    &&& e & 8 == 0
}

/// The bytes `s` stand in user memory at `va`, and a zero after them.
pub open spec fn is_string(ram: Seq<Frame>, root: int, va: int, s: Seq<u8>) -> bool {
    &&& forall|i: int| 0 <= i < s.len() ==> #[trigger] user_byte(ram, root, va + i) == Some(s[i])
    &&& user_byte(ram, root, va + s.len()) == Some(0u8)
}

/// The eight bytes of user memory at `va` are the address of `s`.
pub open spec fn points_to(ram: Seq<Frame>, root: int, va: int, s: Seq<u8>) -> bool {
    exists|p: int| #[trigger] is_string(ram, root, p, s) && le64(Seq::new(8, |i: int| user_byte(ram, root, va + i)->0), 0) == p
}

proof fn lemma_zero_word(ram: Seq<Frame>, root: int, va: int)
    requires
        crate::exec::word_at(ram, root, va, 0),
    ensures
        forall|i: int| 0 <= i < 8 ==> #[trigger] user_byte(ram, root, va + i) == Some(0u8),
{
    let word = Seq::new(8, |i: int| user_byte(ram, root, va + i)->0);
    assert forall|i: int| 0 <= i < 8 implies #[trigger] user_byte(ram, root, va + i) == Some(0u8) by {
        assert(user_byte(ram, root, va + i) is Some);
        assert(word[i] == user_byte(ram, root, va + i)->0);
        assert(le64(word, 0) == 0);
        assert(word[0] == 0 && word[1] == 0 && word[2] == 0 && word[3] == 0 && word[4] == 0 && word[5] == 0 && word[6] == 0 && word[7] == 0);
    }
}

/// What can be run: a file that begins with 0x7f and the letters ELF and has its program headers, of which
/// those of segments to be loaded begin at a page, take no less memory than they have bytes, and have
/// these bytes in the file.
pub proof fn lemma_runnable(f: Seq<u8>)
    ensures
        program_ok(f) <==> {
            &&& f.len() >= 64
            &&& f[0] == 0x7f && f[1] == 0x45 && f[2] == 0x4c && f[3] == 0x46
            &&& forall|k: int| 0 <= k < le16(f, 56) ==> #[trigger] phdr(f, k) + 56 <= f.len()
            &&& forall|k: int| #[trigger] is_load(f, k) ==> {
                &&& le64(f, phdr(f, k) + 32) <= le64(f, phdr(f, k) + 40)
                &&& load_end(f, k) <= 0xffff_ffff_ffff_ffff
                &&& le64(f, phdr(f, k) + 16) % 4096 == 0
                &&& le64(f, phdr(f, k) + 32) == 0 || le64(f, phdr(f, k) + 8) + le64(f, phdr(f, k) + 32) <= f.len()
            }
        },
{
    if program_ok(f) {
        assert forall|k: int| 0 <= k < le16(f, 56) implies #[trigger] phdr(f, k) + 56 <= f.len() by {
            assert(crate::exec::segment_ok(f, k));
        }
        assert forall|k: int| #[trigger] is_load(f, k) implies {
            &&& le64(f, phdr(f, k) + 32) <= le64(f, phdr(f, k) + 40)
            &&& load_end(f, k) <= 0xffff_ffff_ffff_ffff
            &&& le64(f, phdr(f, k) + 16) % 4096 == 0
            &&& le64(f, phdr(f, k) + 32) == 0 || le64(f, phdr(f, k) + 8) + le64(f, phdr(f, k) + 32) <= f.len()
        } by {
            assert(crate::exec::segment_ok(f, k));
        }
    }
    if f.len() >= 64 && f[0] == 0x7f && f[1] == 0x45 && f[2] == 0x4c && f[3] == 0x46 && (forall|k: int|
        0 <= k < le16(f, 56) ==> #[trigger] phdr(f, k) + 56 <= f.len()) && (forall|k: int| #[trigger] is_load(f, k) ==> {
        &&& le64(f, phdr(f, k) + 32) <= le64(f, phdr(f, k) + 40)
        &&& load_end(f, k) <= 0xffff_ffff_ffff_ffff
        &&& le64(f, phdr(f, k) + 16) % 4096 == 0
        &&& le64(f, phdr(f, k) + 32) == 0 || le64(f, phdr(f, k) + 8) + le64(f, phdr(f, k) + 32) <= f.len()
    }) {
        assert forall|k: int| 0 <= k < segments(f) implies #[trigger] crate::exec::segment_ok(f, k) by {
            assert(phdr(f, k) + 56 <= f.len());
            if le32(f, phdr(f, k)) == 1 {
                assert(is_load(f, k));
            }
        }
    }
}

/// A program that was started has the files, the directory and the kernel stack of the one before it, and
/// where none could be started everything of the process is as before.
pub proof fn lemma_program_keeps<D: BlockDevice>(
    a0: KernelAllocator,
    a1: KernelAllocator,
    fs0: FileSystem<D>,
    c0: ProcessContext,
    c1: ProcessContext,
    path: Seq<u8>,
    argv: Seq<Seq<u8>>,
    r: Result<usize, ()>,
)
    requires
        execute_came_to(a0, a1, fs0, c0, c1, path, argv, r),
    ensures
        c1.ofile == c0.ofile,
        c1.cwd == c0.cwd,
        c1.kstack == c0.kstack,
        c1.trapframe_addr == c0.trapframe_addr,
        r is Err ==> c1 == c0,
        r is Ok ==> fs0.target(path, slot_of(c0.cwd)) is Some && program_ok(program_file(fs0, path, c0)),
{
}

/// The new program traps to the kernel as the one before it: at the address 0x3f_ffff_e000 the kernel finds
/// the same page for the registers, which user code cannot access.
pub proof fn lemma_program_trap_frame<D: BlockDevice>(
    a0: KernelAllocator,
    a1: KernelAllocator,
    fs0: FileSystem<D>,
    c0: ProcessContext,
    c1: ProcessContext,
    path: Seq<u8>,
    argv: Seq<Seq<u8>>,
    argc: usize,
)
    requires
        execute_came_to(a0, a1, fs0, c0, c1, path, argv, Ok(argc)),
        c0.trapframe_addr % 4096 == 0,
        c0.trapframe_addr < 0x100_0000_0000_0000,
    ensures
        ({
            let e = lookup(a1.frames(), c1.pagetable.root(), 0x3f_ffff_e000int / 4096);
            &&& e is Some
            &&& e->0.pa() == c0.trapframe_addr
            &&& (e->0).0 & 2 != 0
            &&& (e->0).0 & 4 != 0
            &&& (e->0).0 & 16 == 0
        }),
{
    crate::riscv::mmu::lemma_kernel_page_entry(c0.trapframe_addr);
}

} // verus!
