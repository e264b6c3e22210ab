//! Replacing the program of a process.
use vstd::prelude::*;
use crate::allocator::{is_frame, Frame, KernelAllocator};
use crate::config::MAXARG;
use crate::elf::{ELFHeader, ProgramHeader, ELF_HEADER_SIZE, PROGRAM_HEADER_SIZE};
use crate::filesystem::bytes::{le16, le32, le64, put_u64, zeros};
use crate::filesystem::device::BlockDevice;
use crate::filesystem::file::{readable, InodeGuard};
use crate::fs::open::undisturbed;
use crate::fs::{slot_of, FileSystem};
use crate::process::memory::{
    grow_memory, lemma_safe_kept, lemma_safe_trans, lemma_safe_written, lemma_user_bytes, mem_end, memory_wf, others_safe, own_page, same_below, same_top, trampoline_page, trapframe_page, frames_for, lemma_frames_for, pages_and_tables,
};
use crate::process::process::ProcessContext;
use crate::process::trapframe::TrapFrame;
use crate::process::{allocate_pagetable, free_pagetable};
use crate::riscv::paging::{
    accessible, clone_bytes, frame_of, grown_flags, has_page, is_owned, is_page, is_root, lemma_bytes_taken, lemma_no_bytes, lemma_only_bytes,
    lemma_taken_less, lemma_taken_trans, lookup, only_bytes, page_count, page_frames, pg_roundup, roundup, taken_but, translate, user_byte, written, PageTable, PGSIZE, PTE,
};

pub mod laws;

verus! {

/// The permissions of a segment's pages.
pub open spec fn perm_of(flags: u32) -> u64 {
    let x: u64 = if flags & 1 != 0 { PTE::X } else { 0 };
    let w: u64 = if flags & 2 != 0 { PTE::W } else { 0 };
    x | w
}

fn flags2perm(flags: u32) -> (perm: u64)
    ensures
        perm == perm_of(flags),
        perm & 0x3ff == perm,
{
    let mut perm: u64 = 0;
    if flags & 0x1 != 0 {
        perm = perm | PTE::X;
    }
    if flags & 0x2 != 0 {
        perm = perm | PTE::W;
    }
    proof {
        assert(((0u64 | 8) | 4) == (8 | 4) && (0u64 | 8) == (8 | 0) && (0u64 | 4) == (0 | 4) && 0u64 | 0 == 0 && (8u64 | 4) & 0x3ff == (8 | 4) && (8u64 | 0)
            & 0x3ff == (8 | 0) && (0u64 | 4) & 0x3ff == (0 | 4) && 0u64 & 0x3ff == 0) by (bit_vector);
    }
    perm
}

/// Offset of program header `k` in the file `f`.
pub open spec fn header_at(f: Seq<u8>, k: int) -> int {
    le64(f, 32) + 56 * k
}

/// Program header `k` of the file `f`.
pub open spec fn segment(f: Seq<u8>, k: int) -> ProgramHeader {
    ProgramHeader::decode(f, header_at(f, k))
}

/// Number of program headers.
pub open spec fn segments(f: Seq<u8>) -> int {
    le16(f, 56)
}

/// Program header `k` is there and, where it is to be loaded, makes sense.
pub open spec fn segment_ok(f: Seq<u8>, k: int) -> bool {
    let h = segment(f, k);
    &&& header_at(f, k) + 56 <= f.len()
    &&& h.kind == ProgramHeader::KIND_LOAD ==> {
        &&& h.filesz <= h.memsz
        &&& h.vaddr + h.memsz <= u64::MAX
        &&& h.vaddr % 4096 == 0
        &&& h.filesz == 0 || h.off + h.filesz <= f.len()
    }
}

/// `f` is a program that can be loaded.
pub open spec fn program_ok(f: Seq<u8>) -> bool {
    &&& f.len() >= 64
    &&& le32(f, 0) == 0x464c_457f
    &&& forall|k: int| 0 <= k < segments(f) ==> #[trigger] segment_ok(f, k)
}

/// Bytes of memory that the first `k` segments need.
pub open spec fn size_after(f: Seq<u8>, k: int) -> int
    decreases k,
{
    if k <= 0 {
        0
    } else {
        let before = size_after(f, k - 1);
        let h = segment(f, k - 1);
        if h.kind == ProgramHeader::KIND_LOAD && h.vaddr + h.memsz > before {
            h.vaddr + h.memsz
        } else {
            before
        }
    }
}

/// The byte at `va` after the first `k` segments were loaded.
pub open spec fn image_byte(f: Seq<u8>, k: int, va: int) -> u8
    decreases k,
{
    if k <= 0 {
        0
    } else {
        let h = segment(f, k - 1);
        if h.kind == ProgramHeader::KIND_LOAD && h.vaddr <= va < h.vaddr + h.filesz {
            f[h.off + va - h.vaddr]
        } else {
            image_byte(f, k - 1, va)
        }
    }
}

/// The permission bits of page `vp` after the first `k` segments were loaded: those of the
/// segment that first needed the page.
pub open spec fn image_flags(f: Seq<u8>, k: int, vp: int) -> u64
    decreases k,
{
    if k <= 0 {
        0
    } else if page_count(size_after(f, k - 1)) <= vp < page_count(size_after(f, k)) {
        grown_flags(perm_of(segment(f, k - 1).flags))
    } else {
        image_flags(f, k - 1, vp)
    }
}

/// Page `vp` is mapped with the bits `flags`.
pub open spec fn has_flags(ram: Seq<Frame>, root: int, vp: int, flags: u64) -> bool {
    &&& lookup(ram, root, vp) is Some
    &&& lookup(ram, root, vp)->0.flags() == flags | 1
}

/// The pages of the first `k` segments have their permissions.
pub open spec fn flags_loaded(ram: Seq<Frame>, root: int, f: Seq<u8>, k: int, size: int) -> bool {
    forall|vp: int| 0 <= vp < page_count(size) ==> #[trigger] has_flags(ram, root, vp, image_flags(f, k, vp))
}

/// User memory holds the first `k` segments of `f`.
pub open spec fn loaded(ram: Seq<Frame>, root: int, f: Seq<u8>, k: int, size: int) -> bool {
    forall|va: int| 0 <= va < mem_end(size) ==> #[trigger] user_byte(ram, root, va) == Some(image_byte(f, k, va))
}

/// Reading a whole record of `n` bytes.
proof fn lemma_record(f: Seq<u8>, at: int, n: int)
    requires
        0 <= at,
        0 <= n,
        at + n <= usize::MAX,
    ensures
        readable(f, at, n).len() == n <==> at + n <= f.len() || n == 0,
        at + n <= f.len() ==> readable(f, at, n) == f.subrange(at, at + n),
{
}

/// A header that was read on its own is the one in the file.
proof fn lemma_segment(f: Seq<u8>, at: int)
    requires
        0 <= at,
        at + 56 <= f.len(),
    ensures
        ProgramHeader::decode(f.subrange(at, at + 56), 0) == ProgramHeader::decode(f, at),
{
    let s = f.subrange(at, at + 56);
    assert forall|i: int| 0 <= i < 56 implies #[trigger] s[i] == f[at + i] by {}
    assert(le32(s, 0) == le32(f, at) && le32(s, 4) == le32(f, at + 4) && le32(s, 8) == le32(f, at + 8) && le32(s, 12) == le32(f, at + 12));
    assert(le32(s, 16) == le32(f, at + 16) && le32(s, 20) == le32(f, at + 20) && le32(s, 24) == le32(f, at + 24) && le32(s, 28) == le32(f, at + 28));
    assert(le32(s, 32) == le32(f, at + 32) && le32(s, 36) == le32(f, at + 36) && le32(s, 40) == le32(f, at + 40) && le32(s, 44) == le32(f, at + 44));
    assert(le32(s, 48) == le32(f, at + 48) && le32(s, 52) == le32(f, at + 52));
}

/// Loads `size` bytes of a file from `offset` on into user memory from `va` on, which must be
/// there. `false` means that the file has fewer bytes.
#[verifier::rlimit(40)]
fn load_segment<D: BlockDevice>(
    a: &mut KernelAllocator,
    pagetable: &PageTable,
    va: u64,
    fs: &mut FileSystem<D>,
    inode: &InodeGuard,
    offset: u64,
    size: u64,
    Ghost(fs0): Ghost<FileSystem<D>>,
    Ghost(j): Ghost<int>,
    Ghost(sz): Ghost<int>,
) -> (r: bool)
    requires
        old(a).wf(),
        old(fs).path_opened(fs0, inode.cache_index as int, j),
        old(fs).inum_at(inode.cache_index as int) == j,
        memory_wf(old(a).frames(), pagetable.root(), sz),
        accessible(old(a).frames(), pagetable.root(), 0, mem_end(sz)),
        va + size <= sz,
        va + size + 4096 <= u64::MAX,
    ensures
        final(a).wf(),
        final(a).end() == old(a).end(),
        final(a).free() == old(a).free(),
        final(fs).path_opened(fs0, inode.cache_index as int, j),
        final(fs).inum_at(inode.cache_index as int) == j,
        memory_wf(final(a).frames(), pagetable.root(), sz),
        accessible(final(a).frames(), pagetable.root(), 0, mem_end(sz)),
        others_safe(old(a).frames(), final(a).frames(), pagetable.root()),
        only_bytes(old(a).frames(), final(a).frames()),
        forall|vp: int| is_page(vp) ==> #[trigger] lookup(final(a).frames(), pagetable.root(), vp) == lookup(
            old(a).frames(),
            pagetable.root(),
            vp,
        ),
        r == (size == 0 || offset + size <= fs0.file(j).bytes.len()),
        r ==> forall|v: int| 0 <= v < mem_end(sz) ==> #[trigger] user_byte(final(a).frames(), pagetable.root(), v) == if va <= v < va + size {
            Some(fs0.file(j).bytes[offset + v - va])
        } else {
            user_byte(old(a).frames(), pagetable.root(), v)
        },
{
    let ghost s0 = a.frames();
    let ghost root = pagetable.root();
    let ghost f = fs0.file(j).bytes;
    proof {
        crate::process::lemma_safe_same(s0, root);
        lemma_no_bytes(s0);
        assert(fs0.file(j) == fs.file(j));
        fs.lemma_file_size(j);
    }
    if size > 0 && offset > 0x8_0000 {
        return false;
    }
    let mut i: u64 = 0;
    while i < size
        invariant
            a.wf(),
            a.end() == old(a).end(),
            a.free() == old(a).free(),
            s0 == old(a).frames(),
            root == pagetable.root(),
            f == fs0.file(j).bytes,
            f.len() <= 274432,
            fs.path_opened(fs0, inode.cache_index as int, j),
            fs.inum_at(inode.cache_index as int) == j,
            memory_wf(a.frames(), root, sz),
            accessible(a.frames(), root, 0, mem_end(sz)),
            others_safe(s0, a.frames(), root),
            only_bytes(s0, a.frames()),
            forall|vp: int| is_page(vp) ==> #[trigger] lookup(a.frames(), root, vp) == lookup(s0, root, vp),
            va + size <= sz,
            va + size + 4096 <= u64::MAX,
            size > 0 ==> offset <= 0x8_0000,
            i <= size || i < size + 4096,
            i < size ==> offset + i <= f.len() || i == 0,
            i > 0 ==> offset + (if i < size { i } else { size }) <= f.len(),
            forall|v: int| 0 <= v < mem_end(sz) ==> #[trigger] user_byte(a.frames(), root, v) == if va <= v < va + (if i < size { i } else { size }) {
                Some(f[offset + v - va])
            } else {
                user_byte(s0, root, v)
            },
        decreases size + 4096 - i,
    {
        let ghost s1 = a.frames();
        let ghost fs1 = *fs;
        let n: u64 = if size - i < PGSIZE {
            size - i
        } else {
            PGSIZE
        };
        let bytes = fs.read_at(inode, (offset + i) as usize, n as usize);
        proof {
            fs.lemma_still_open(fs0, fs1, inode.cache_index as int, j);
            assert(fs1.file(j) == fs0.file(j));
            lemma_record(f, offset + i, n as int);
        }
        if bytes.len() != n as usize {
            return false;
        }
        let w = pagetable.write(a, va + i, &bytes);
        proof {
            assert(mem_end(sz) >= sz);
            assert forall|x: int| va + i <= x < va + i + n implies (#[trigger] user_byte(s1, root, x)) is Some by {}
            assert(w is Ok) by {
                if w is Err {
                    let k = w->Err_0;
                    assert(user_byte(s1, root, va + i + k) is None);
                }
            }
            lemma_only_bytes(s0, s1, a.frames(), root, va + i, bytes@);
            lemma_safe_written(s1, a.frames(), root, va + i, bytes@, sz);
            lemma_safe_trans(s0, s1, a.frames(), root);
            assert forall|v: int| 0 <= v < mem_end(sz) implies #[trigger] user_byte(a.frames(), root, v) == if va <= v < va + i + n {
                Some(f[offset + v - va])
            } else {
                user_byte(s0, root, v)
            } by {
                if va + i <= v < va + i + n {
                    assert(user_byte(a.frames(), root, v) == Some(bytes@[v - (va + i)]));
                } else {
                    assert(user_byte(a.frames(), root, v) == user_byte(s1, root, v));
                }
            }
            assert forall|v: int| 0 <= v < 0 + mem_end(sz) implies (#[trigger] user_byte(a.frames(), root, v)) is Some by {
                assert(user_byte(s1, root, v) is Some);
            }
        }
        i = i + PGSIZE;
    }
    true
}


/// More segments need no less memory.
proof fn lemma_size_grows(f: Seq<u8>, k: int, n: int)
    requires
        k <= n,
    ensures
        size_after(f, k) <= size_after(f, n),
        0 <= size_after(f, k),
    decreases n, n - k,
{
    if k < n {
        if n > 0 {
            lemma_size_grows(f, k, n - 1);
        }
    } else if k > 0 {
        lemma_size_grows(f, k - 1, k - 1);
    }
}

/// Reads program header `k`. `None` means that the file ends before it does.
fn read_segment<D: BlockDevice>(
    fs: &mut FileSystem<D>,
    inode: &InodeGuard,
    elf: &ELFHeader,
    k: u16,
    Ghost(fs0): Ghost<FileSystem<D>>,
    Ghost(j): Ghost<int>,
) -> (r: Option<ProgramHeader>)
    requires
        old(fs).path_opened(fs0, inode.cache_index as int, j),
        old(fs).inum_at(inode.cache_index as int) == j,
        elf.phoff == le64(fs0.file(j).bytes, 32),
    ensures
        final(fs).path_opened(fs0, inode.cache_index as int, j),
        final(fs).inum_at(inode.cache_index as int) == j,
        r is Some <==> header_at(fs0.file(j).bytes, k as int) + 56 <= fs0.file(j).bytes.len(),
        r matches Some(h) ==> h == segment(fs0.file(j).bytes, k as int),
{
    let ghost fs1 = *fs;
    let ghost f = fs0.file(j).bytes;
    proof {
        fs.lemma_file_size(j);
        assert(fs.file(j) == fs0.file(j));
    }
    let at = 56 * k as u64;
    if elf.phoff > 0x8_0000 {
        return None;
    }
    let bytes = fs.read_at(inode, (elf.phoff + at) as usize, PROGRAM_HEADER_SIZE);
    proof {
        fs.lemma_still_open(fs0, fs1, inode.cache_index as int, j);
        lemma_record(f, header_at(f, k as int), 56);
    }
    if bytes.len() != PROGRAM_HEADER_SIZE {
        return None;
    }
    proof {
        lemma_segment(f, header_at(f, k as int));
    }
    Some(ProgramHeader::from_bytes(&bytes))
}

/// Loads one segment of a program. On success the result is the new size of the memory, else
/// the size that it has.
#[verifier::rlimit(40)]
fn load_one<D: BlockDevice>(
    a: &mut KernelAllocator,
    pagetable: &PageTable,
    size: u64,
    fs: &mut FileSystem<D>,
    inode: &InodeGuard,
    header: ProgramHeader,
    Ghost(fs0): Ghost<FileSystem<D>>,
    Ghost(j): Ghost<int>,
    Ghost(k): Ghost<int>,
) -> (r: Result<u64, u64>)
    requires
        old(a).wf(),
        old(fs).path_opened(fs0, inode.cache_index as int, j),
        old(fs).inum_at(inode.cache_index as int) == j,
        0 <= k,
        header == segment(fs0.file(j).bytes, k),
        header_at(fs0.file(j).bytes, k) + 56 <= fs0.file(j).bytes.len(),
        size == size_after(fs0.file(j).bytes, k),
        memory_wf(old(a).frames(), pagetable.root(), size as int),
        loaded(old(a).frames(), pagetable.root(), fs0.file(j).bytes, k, size as int),
        flags_loaded(old(a).frames(), pagetable.root(), fs0.file(j).bytes, k, size as int),
        forall|i: int| 0 <= i < k ==> #[trigger] segment_ok(fs0.file(j).bytes, i),
    ensures
        final(a).wf(),
        final(a).end() == old(a).end(),
        final(fs).path_opened(fs0, inode.cache_index as int, j),
        final(fs).inum_at(inode.cache_index as int) == j,
        others_safe(old(a).frames(), final(a).frames(), pagetable.root()),
        ({
            let f = fs0.file(j).bytes;
            match r {
                Ok(s) => {
                    &&& segment_ok(f, k)
                    &&& s == size_after(f, k + 1)
                    &&& same_top(old(a).frames(), final(a).frames(), pagetable.root())
                    &&& memory_wf(final(a).frames(), pagetable.root(), s as int)
                    &&& loaded(final(a).frames(), pagetable.root(), f, k + 1, s as int)
                    &&& flags_loaded(final(a).frames(), pagetable.root(), f, k + 1, s as int)
                    &&& final(a).free().len() + pages_and_tables(size as int, s as int) >= old(a).free().len()
                    &&& pages_added(old(a).frames(), final(a).frames(), pagetable.root(), size as int, s as int)
                },
                Err(s) => {
                    &&& memory_wf(final(a).frames(), pagetable.root(), s as int)
                    &&& pages_added(old(a).frames(), final(a).frames(), pagetable.root(), size as int, s as int)
                    &&& !segment_ok(f, k) || old(a).free().len() < pages_and_tables(size as int, size_after(f, k + 1))
                },
            }
        }),
{
    let ghost s1 = a.frames();
    let ghost root = pagetable.root();
    let ghost f = fs0.file(j).bytes;
    proof {
        crate::process::lemma_safe_same(s1, root);
        lemma_nothing_added(s1, s1, root, size as int);
    }
    if header.kind != ProgramHeader::KIND_LOAD {
        proof {
            assert forall|va: int| 0 <= va < mem_end(size as int) implies #[trigger] user_byte(a.frames(), root, va) == Some(
                image_byte(f, k + 1, va),
            ) by {}
            assert forall|vp: int| 0 <= vp < page_count(size as int) implies #[trigger] has_flags(
                a.frames(),
                root,
                vp,
                image_flags(f, k + 1, vp),
            ) by {
                assert(has_flags(s1, root, vp, image_flags(f, k, vp)));
            }
        }
        return Ok(size);
    }
    if header.memsz < header.filesz || header.vaddr.checked_add(header.memsz).is_none() || header.vaddr % PGSIZE != 0 {
        return Err(size);
    }
    let perm = flags2perm(header.flags);
    let grown = match grow_memory(a, pagetable, size, header.vaddr + header.memsz, perm) {
        Ok(new_size) => new_size,
        Err(_) => {
            proof {
                lemma_nothing_added(s1, a.frames(), root, size as int);
            }
            return Err(size);
        },
    };
    let ghost s2 = a.frames();
    proof {
        lemma_grown_added(s1, s2, root, size as int, grown as int);
        assert(grown == size_after(f, k + 1));
        assert(same_top(s1, s2, root));
        assert forall|va: int| 0 <= va < mem_end(grown as int) implies #[trigger] user_byte(s2, root, va) == Some(image_byte(f, k, va)) by {
            if va < mem_end(size as int) {
                assert(user_byte(s2, root, va) == user_byte(s1, root, va));
            } else {
                lemma_image_end(f, k, va);
            }
        }
        assert(accessible(s2, root, 0, mem_end(grown as int)));
        assert forall|vp: int| 0 <= vp < page_count(grown as int) implies #[trigger] has_flags(s2, root, vp, image_flags(f, k + 1, vp)) by {
            if vp < page_count(size as int) {
                assert(has_flags(s1, root, vp, image_flags(f, k, vp)));
                assert(lookup(s2, root, vp) == lookup(s1, root, vp));
            } else {
                assert(has_page(s2, root, vp, grown_flags(perm)));
            }
        }
    }
    if !load_segment(a, pagetable, header.vaddr, fs, inode, header.off, header.filesz, Ghost(fs0), Ghost(j), Ghost(grown as int)) {
        proof {
            lemma_safe_trans(s1, s2, a.frames(), root);
            lemma_bytes_taken(s2, a.frames());
            lemma_nothing_added(s2, a.frames(), root, grown as int);
            lemma_added_trans(s1, s2, a.frames(), root, size as int, grown as int, grown as int);
        }
        return Err(grown);
    }
    proof {
        lemma_safe_trans(s1, s2, a.frames(), root);
        lemma_bytes_taken(s2, a.frames());
        lemma_nothing_added(s2, a.frames(), root, grown as int);
        lemma_added_trans(s1, s2, a.frames(), root, size as int, grown as int, grown as int);
        assert forall|va: int| 0 <= va < mem_end(grown as int) implies #[trigger] user_byte(a.frames(), root, va) == Some(
            image_byte(f, k + 1, va),
        ) by {
            assert(user_byte(s2, root, va) == Some(image_byte(f, k, va)));
        }
        assert forall|vp: int| 0 <= vp < page_count(grown as int) implies #[trigger] has_flags(a.frames(), root, vp, image_flags(f, k + 1, vp)) by {
            assert(has_flags(s2, root, vp, image_flags(f, k + 1, vp)));
            assert(lookup(a.frames(), root, vp) == lookup(s2, root, vp));
        }
    }
    Ok(grown)
}

/// Loads all segments of a program into the memory of a new page table. On success the result
/// is the size of the memory, else it is the part of it that has to be freed.
#[verifier::rlimit(90)]
#[verifier::spinoff_prover]
fn load_program<D: BlockDevice>(
    a: &mut KernelAllocator,
    pagetable: &PageTable,
    fs: &mut FileSystem<D>,
    inode: &InodeGuard,
    elf: &ELFHeader,
    Ghost(fs0): Ghost<FileSystem<D>>,
    Ghost(j): Ghost<int>,
) -> (r: Result<u64, u64>)
    requires
        old(a).wf(),
        old(fs).path_opened(fs0, inode.cache_index as int, j),
        old(fs).inum_at(inode.cache_index as int) == j,
        memory_wf(old(a).frames(), pagetable.root(), 0),
        fs0.file(j).bytes.len() >= 64,
        elf.phoff == le64(fs0.file(j).bytes, 32),
        elf.phnum == le16(fs0.file(j).bytes, 56),
    ensures
        final(a).wf(),
        final(a).end() == old(a).end(),
        final(fs).path_opened(fs0, inode.cache_index as int, j),
        others_safe(old(a).frames(), final(a).frames(), pagetable.root()),
        ({
            let f = fs0.file(j).bytes;
            let n = segments(f);
            match r {
                Ok(size) => {
                    &&& forall|k: int| 0 <= k < n ==> #[trigger] segment_ok(f, k)
                    &&& size == size_after(f, n)
                    &&& same_top(old(a).frames(), final(a).frames(), pagetable.root())
                    &&& memory_wf(final(a).frames(), pagetable.root(), size as int)
                    &&& loaded(final(a).frames(), pagetable.root(), f, n, size as int)
                    &&& flags_loaded(final(a).frames(), pagetable.root(), f, n, size as int)
                    &&& final(a).free().len() + frames_for(page_count(size as int)) >= old(a).free().len()
                    &&& pages_added(old(a).frames(), final(a).frames(), pagetable.root(), 0, size as int)
                },
                Err(size) => {
                    &&& memory_wf(final(a).frames(), pagetable.root(), size as int)
                    &&& pages_added(old(a).frames(), final(a).frames(), pagetable.root(), 0, size as int)
                    &&& (exists|k: int| 0 <= k < n && !#[trigger] segment_ok(f, k)) || old(a).free().len() < frames_for(page_count(size_after(f, n)))
                },
            }
        }),
{
    let ghost a0 = *a;
    let ghost s0 = a.frames();
    let ghost root = pagetable.root();
    let ghost f = fs0.file(j).bytes;
    proof {
        crate::process::lemma_safe_same(s0, root);
        lemma_nothing_added(s0, s0, root, 0);
        fs.lemma_file_size(j);
        assert(fs.file(j) == fs0.file(j));
        assert(page_count(0) == 0);
        lemma_frames_for(0, 0);
    }
    let mut size: u64 = 0;
    let mut k: u16 = 0;
    while k < elf.phnum
        invariant
            a0 == *old(a),
            s0 == a0.frames(),
            a.wf(),
            a.end() == a0.end(),
            root == pagetable.root(),
            f == fs0.file(j).bytes,
            elf.phoff == le64(f, 32),
            elf.phnum == le16(f, 56),
            fs.path_opened(fs0, inode.cache_index as int, j),
            fs.inum_at(inode.cache_index as int) == j,
            others_safe(s0, a.frames(), root),
            same_top(s0, a.frames(), root),
            k <= elf.phnum,
            size == size_after(f, k as int),
            memory_wf(a.frames(), root, size as int),
            loaded(a.frames(), root, f, k as int, size as int),
            flags_loaded(a.frames(), root, f, k as int, size as int),
            forall|i: int| 0 <= i < k ==> #[trigger] segment_ok(f, i),
            a.free().len() + frames_for(page_count(size as int)) >= a0.free().len(),
            pages_added(s0, a.frames(), root, 0, size as int),
        decreases elf.phnum - k,
    {
        let ghost s1 = a.frames();
        let header = match read_segment(fs, inode, elf, k, Ghost(fs0), Ghost(j)) {
            Some(header) => header,
            None => {
                proof {
                    assert(!segment_ok(f, k as int));
                }
                return Err(size);
            },
        };
        proof {
            lemma_size_grows(f, k + 1, segments(f));
        }
        match load_one(a, pagetable, size, fs, inode, header, Ghost(fs0), Ghost(j), Ghost(k as int)) {
            Ok(new_size) => {
                proof {
                    lemma_safe_trans(s0, s1, a.frames(), root);
                    lemma_added_trans(s0, s1, a.frames(), root, 0, size as int, new_size as int);
                }
                size = new_size;
            },
            Err(left) => {
                proof {
                    lemma_safe_trans(s0, s1, a.frames(), root);
                    lemma_added_trans(s0, s1, a.frames(), root, 0, size as int, left as int);
                    lemma_frames_for(page_count(size_after(f, k + 1)), page_count(size_after(f, segments(f))));
                }
                return Err(left);
            },
        }
        k = k + 1;
    }
    Ok(size)
}

/// Beyond the size of the memory the image holds zeros.
proof fn lemma_image_end(f: Seq<u8>, k: int, va: int)
    requires
        va >= size_after(f, k),
        forall|i: int| 0 <= i < k ==> #[trigger] segment_ok(f, i),
    ensures
        image_byte(f, k, va) == 0,
    decreases k,
{
    if k > 0 {
        assert(segment_ok(f, k - 1));
        lemma_size_grows(f, k - 1, k);
        lemma_image_end(f, k - 1, va);
    }
}

/// The stack pointer after the first `k` arguments were pushed on a stack that begins at
/// `top`.
pub open spec fn stack_at(top: int, argv: Seq<Seq<u8>>, k: int) -> int
    decreases k,
{
    if k <= 0 {
        top
    } else {
        let sp = stack_at(top, argv, k - 1) - (argv[k - 1].len() + 1);
        sp - sp % 16
    }
}

/// Where the array of pointers to the arguments stands.
pub open spec fn argv_at(top: int, argv: Seq<Seq<u8>>) -> int {
    let sp = stack_at(top, argv, argv.len() as int) - (argv.len() + 1) * 8;
    sp - sp % 16
}

/// The arguments and the pointers to them, with a zero at the end, fit in the stack page.
pub open spec fn args_fit(argv: Seq<Seq<u8>>) -> bool {
    &&& argv.len() < MAXARG
    &&& forall|k: int| 0 <= k <= argv.len() ==> #[trigger] stack_at(0, argv, k) >= -4096
    &&& argv_at(0, argv) >= -4096
}

/// `arg` stands in user memory at `va`, with a zero at the end.
pub open spec fn argument_at(ram: Seq<Frame>, root: int, va: int, arg: Seq<u8>) -> bool {
    forall|x: int| va <= x < va + arg.len() + 1 ==> #[trigger] user_byte(ram, root, x) == Some(arg.push(0)[x - va])
}

/// The word `w` stands in user memory at `va`.
pub open spec fn word_at(ram: Seq<Frame>, root: int, va: int, w: int) -> bool {
    &&& accessible(ram, root, va, 8)
    &&& le64(Seq::new(8, |i: int| user_byte(ram, root, va + i)->0), 0) == w
}

/// The stack holds the arguments and the array of pointers to them.
pub open spec fn stack_holds(ram: Seq<Frame>, root: int, top: int, argv: Seq<Seq<u8>>) -> bool {
    &&& forall|k: int| 0 <= k < argv.len() ==> argument_at(ram, root, stack_at(top, argv, k + 1), #[trigger] argv[k])
    &&& forall|k: int| 0 <= k < argv.len() ==> #[trigger] word_at(ram, root, argv_at(top, argv) + 8 * k, stack_at(top, argv, k + 1))
    &&& word_at(ram, root, argv_at(top, argv) + 8 * argv.len(), 0)
}

/// The arguments as rows of bytes.
pub open spec fn args(argv: Seq<Vec<u8>>) -> Seq<Seq<u8>> {
    Seq::new(argv.len(), |i: int| argv[i]@)
}

/// The layout of the stack does not depend on where it is.
proof fn lemma_stack_shift(top: int, argv: Seq<Seq<u8>>, k: int)
    requires
        top % 16 == 0,
        0 <= k <= argv.len(),
    ensures
        stack_at(top, argv, k) == top + stack_at(0, argv, k),
        stack_at(top, argv, k) % 16 == 0,
        argv_at(top, argv) == top + argv_at(0, argv),
    decreases argv.len() - k, k,
{
    lemma_stack_shift_one(top, argv, k);
    lemma_stack_shift_one(top, argv, argv.len() as int);
}

proof fn lemma_stack_shift_one(top: int, argv: Seq<Seq<u8>>, k: int)
    requires
        top % 16 == 0,
        0 <= k <= argv.len(),
    ensures
        stack_at(top, argv, k) == top + stack_at(0, argv, k),
        stack_at(top, argv, k) % 16 == 0,
    decreases k,
{
    if k > 0 {
        lemma_stack_shift_one(top, argv, k - 1);
    }
}

/// The stack grows downwards.
proof fn lemma_stack_down(top: int, argv: Seq<Seq<u8>>, i: int, k: int)
    requires
        0 <= i <= k <= argv.len(),
    ensures
        stack_at(top, argv, k) <= stack_at(top, argv, i),
    decreases k - i,
{
    if i < k {
        lemma_stack_down(top, argv, i, k - 1);
    }
}

/// The bytes of a row of words.
fn words_to_bytes(words: &Vec<u64>) -> (bytes: Vec<u8>)
    requires
        words@.len() <= MAXARG,
    ensures
        bytes@.len() == 8 * words@.len(),
        forall|k: int| 0 <= k < words@.len() ==> le64(bytes@, 8 * k) == #[trigger] words@[k],
{
    let n = words.len();
    let mut bytes = zeros(8 * n);
    let mut i: usize = 0;
    while i < n
        invariant
            n == words@.len(),
            n <= MAXARG,
            i <= n,
            bytes@.len() == 8 * n,
            forall|k: int| 0 <= k < i ==> le64(bytes@, 8 * k) == #[trigger] words@[k],
        decreases n - i,
    {
        let ghost b0 = bytes@;
        put_u64(&mut bytes, 8 * i, words[i]);
        proof {
            assert forall|k: int| 0 <= k < i implies le64(bytes@, 8 * k) == #[trigger] words@[k] by {
                assert forall|x: int| 8 * k <= x < 8 * k + 8 implies #[trigger] bytes@[x] == b0[x] by {}
                assert(le32(bytes@, 8 * k) == le32(b0, 8 * k));
                assert(le32(bytes@, 8 * k + 4) == le32(b0, 8 * k + 4));
            }
        }
        i = i + 1;
    }
    bytes
}

/// A word that was written is there.
proof fn lemma_word(s0: Seq<Frame>, s1: Seq<Frame>, root: int, va: int, bytes: Seq<u8>, k: int)
    requires
        written(s0, s1, root, va, bytes),
        0 <= k,
        8 * k + 8 <= bytes.len(),
    ensures
        word_at(s1, root, va + 8 * k, le64(bytes, 8 * k)),
{
    let s = Seq::new(8, |i: int| user_byte(s1, root, va + 8 * k + i)->0);
    assert forall|i: int| 0 <= i < 8 implies #[trigger] s[i] == bytes[8 * k + i] by {
        assert(user_byte(s1, root, va + 8 * k + i) == Some(bytes[va + 8 * k + i - va]));
    }
    assert(le32(s, 0) == le32(bytes, 8 * k));
    assert(le32(s, 4) == le32(bytes, 8 * k + 4));
    assert forall|x: int| va + 8 * k <= x < va + 8 * k + 8 implies (#[trigger] user_byte(s1, root, x)) is Some by {
        assert(user_byte(s1, root, x) == Some(bytes[x - va]));
    }
}

/// Pushes the arguments of a program on its stack, a page that ends at `top`, and the array of
/// pointers to them. The result is the new stack pointer, where that array begins.
#[verifier::rlimit(60)]
fn push_arguments(a: &mut KernelAllocator, pagetable: &PageTable, top: u64, argv: &[Vec<u8>]) -> (r: Result<u64, ()>)
    requires
        old(a).wf(),
        memory_wf(old(a).frames(), pagetable.root(), top as int),
        top % 4096 == 0,
        top >= 8192,
        accessible(old(a).frames(), pagetable.root(), top - 4096, 4096),
    ensures
        final(a).wf(),
        final(a).end() == old(a).end(),
        final(a).free() == old(a).free(),
        memory_wf(final(a).frames(), pagetable.root(), top as int),
        others_safe(old(a).frames(), final(a).frames(), pagetable.root()),
        same_below(old(a).frames(), final(a).frames(), pagetable.root(), top - 4096),
        only_bytes(old(a).frames(), final(a).frames()),
        forall|vp: int| is_page(vp) ==> #[trigger] lookup(final(a).frames(), pagetable.root(), vp) == lookup(
            old(a).frames(),
            pagetable.root(),
            vp,
        ),
        match r {
            Ok(sp) => {
                &&& args_fit(args(argv@))
                &&& sp == argv_at(top as int, args(argv@))
                &&& stack_holds(final(a).frames(), pagetable.root(), top as int, args(argv@))
            },
            Err(_) => !args_fit(args(argv@)),
        },
{
    let ghost s0 = a.frames();
    let ghost root = pagetable.root();
    let ghost av = args(argv@);
    proof {
        crate::process::lemma_safe_same(s0, root);
        lemma_no_bytes(s0);
    }
    let stackbase = top - PGSIZE;
    let mut sp = top;
    let mut ustack: Vec<u64> = Vec::new();
    let n = argv.len();
    if n >= MAXARG {
        return Err(());
    }
    let mut i: usize = 0;
    while i < n
        invariant
            n == argv@.len(),
            n < MAXARG,
            av == args(argv@),
            i <= n,
            a.wf(),
            a.end() == old(a).end(),
            a.free() == old(a).free(),
            root == pagetable.root(),
            s0 == old(a).frames(),
            memory_wf(s0, root, top as int),
            memory_wf(a.frames(), root, top as int),
            others_safe(s0, a.frames(), root),
            only_bytes(s0, a.frames()),
            top % 4096 == 0,
            stackbase == top - 4096,
            top >= 8192,
            stackbase <= sp <= top,
            sp == stack_at(top as int, av, i as int),
            accessible(a.frames(), root, top - 4096, 4096),
            same_below(s0, a.frames(), root, top - 4096),
            forall|vp: int| is_page(vp) ==> #[trigger] lookup(a.frames(), root, vp) == lookup(s0, root, vp),
            forall|k: int| 0 <= k <= i ==> #[trigger] stack_at(0, av, k) >= -4096,
            ustack@.len() == i,
            forall|k: int| 0 <= k < i ==> #[trigger] ustack@[k] == stack_at(top as int, av, k + 1),
            forall|k: int| 0 <= k < i ==> argument_at(a.frames(), root, stack_at(top as int, av, k + 1), #[trigger] av[k]),
        decreases n - i,
    {
        let ghost s1 = a.frames();
        let ghost sp0 = sp as int;
        let len = argv[i].len();
        proof {
            lemma_stack_shift(top as int, av, i as int);
            lemma_stack_shift(top as int, av, i + 1);
            assert(av[i as int] == argv@[i as int]@);
        }
        if len as u64 >= sp {
            proof {
                assert(stack_at(0, av, i + 1) < -4096);
            }
            return Err(());
        }
        sp = sp - (len as u64 + 1);
        sp = sp - sp % 16;
        if sp < stackbase {
            proof {
                assert(stack_at(0, av, i + 1) < -4096);
            }
            return Err(());
        }
        let mut arg = clone_bytes(&argv[i]);
        arg.push(0);
        let w = pagetable.write(a, sp, &arg);
        proof {
            assert(w is Ok) by {
                if w is Err {
                    let k = w->Err_0;
                    assert(user_byte(s1, root, sp + k) is None);
                    assert(user_byte(s1, root, sp + k) is Some);
                }
            }
            let s2 = a.frames();
            lemma_only_bytes(s0, s1, s2, root, sp as int, arg@);
            lemma_safe_written(s1, s2, root, sp as int, arg@, top as int);
            lemma_safe_trans(s0, s1, s2, root);
            assert forall|x: int| top - 4096 <= x < top - 4096 + 4096 implies (#[trigger] user_byte(s2, root, x)) is Some by {
                assert(user_byte(s1, root, x) is Some);
                if sp <= x < sp + arg@.len() {
                    assert(user_byte(s2, root, x) == Some(arg@[x - sp]));
                } else {
                    assert(user_byte(s2, root, x) == user_byte(s1, root, x));
                }
            }
            assert forall|x: int| 0 <= x < top - 4096 implies #[trigger] user_byte(s2, root, x) == user_byte(s0, root, x) by {
                assert(user_byte(s2, root, x) == user_byte(s1, root, x));
            }
            assert(argument_at(s2, root, sp as int, av[i as int])) by {
                assert(arg@ =~= av[i as int].push(0));
            }
            assert forall|k: int| 0 <= k < i implies argument_at(s2, root, stack_at(top as int, av, k + 1), #[trigger] av[k]) by {
                assert(argument_at(s1, root, stack_at(top as int, av, k + 1), av[k]));
                lemma_stack_down(top as int, av, k + 1, i as int);
                assert forall|x: int| stack_at(top as int, av, k + 1) <= x < stack_at(top as int, av, k + 1) + av[k].len() + 1 implies
                    #[trigger] user_byte(s2, root, x) == Some(av[k].push(0)[x - stack_at(top as int, av, k + 1)]) by {
                    assert(user_byte(s1, root, x) == Some(av[k].push(0)[x - stack_at(top as int, av, k + 1)]));
                    assert(sp + arg@.len() <= sp0);
                }
            }
        }
        ustack.push(sp);
        i = i + 1;
    }
    let ghost s1 = a.frames();
    let ghost sp0 = sp as int;
    proof {
        lemma_stack_shift(top as int, av, n as int);
    }
    sp = sp - (n as u64 + 1) * 8;
    sp = sp - sp % 16;
    if sp < stackbase {
        return Err(());
    }
    ustack.push(0);
    let bytes = words_to_bytes(&ustack);
    let w = pagetable.write(a, sp, &bytes);
    proof {
        assert(w is Ok) by {
            if w is Err {
                let k = w->Err_0;
                assert(user_byte(s1, root, sp + k) is None);
                assert(user_byte(s1, root, sp + k) is Some);
            }
        }
        let s2 = a.frames();
        lemma_only_bytes(s0, s1, s2, root, sp as int, bytes@);
        lemma_safe_written(s1, s2, root, sp as int, bytes@, top as int);
        lemma_safe_trans(s0, s1, s2, root);
        assert forall|x: int| 0 <= x < top - 4096 implies #[trigger] user_byte(s2, root, x) == user_byte(s0, root, x) by {
            assert(user_byte(s2, root, x) == user_byte(s1, root, x));
        }
        assert forall|k: int| 0 <= k < av.len() implies argument_at(s2, root, stack_at(top as int, av, k + 1), #[trigger] av[k]) by {
            assert(argument_at(s1, root, stack_at(top as int, av, k + 1), av[k]));
            lemma_stack_down(top as int, av, k + 1, n as int);
            assert forall|x: int| stack_at(top as int, av, k + 1) <= x < stack_at(top as int, av, k + 1) + av[k].len() + 1 implies
                #[trigger] user_byte(s2, root, x) == Some(av[k].push(0)[x - stack_at(top as int, av, k + 1)]) by {
                assert(user_byte(s1, root, x) == Some(av[k].push(0)[x - stack_at(top as int, av, k + 1)]));
                assert(sp + bytes@.len() <= sp0);
            }
        }
        assert forall|k: int| 0 <= k < av.len() implies #[trigger] word_at(
            s2,
            root,
            argv_at(top as int, av) + 8 * k,
            stack_at(top as int, av, k + 1),
        ) by {
            lemma_word(s1, s2, root, sp as int, bytes@, k);
            assert(ustack@[k] == stack_at(top as int, av, k + 1));
        }
        lemma_word(s1, s2, root, sp as int, bytes@, n as int);
        assert(ustack@[n as int] == 0);
    }
    Ok(sp)
}


/// Memory that a program of the file `f` takes at most, in pages, tables included.
pub open spec fn pages_needed(f: Seq<u8>) -> int {
    3 + frames_for(page_count(size_after(f, segments(f))) + 2)
}

/// The image alone takes less.
proof fn lemma_image_needed(f: Seq<u8>)
    ensures
        3 + frames_for(page_count(size_after(f, segments(f)))) <= pages_needed(f),
{
    lemma_size_grows(f, 0, segments(f));
    lemma_frames_for(page_count(size_after(f, segments(f))), page_count(size_after(f, segments(f))) + 2);
}

/// The top of the stack of program `f`: two pages lie above its image, a guard page that user
/// code cannot access, and the stack.
pub open spec fn stack_top(f: Seq<u8>) -> int {
    roundup(size_after(f, segments(f))) + 8192
}

/// The state of a process that runs program `f` from its start.
pub open spec fn program_set_up(ram: Seq<Frame>, root: int, f: Seq<u8>, argv: Seq<Seq<u8>>) -> bool {
    &&& memory_wf(ram, root, stack_top(f))
    &&& forall|va: int| 0 <= va < stack_top(f) - 8192 ==> #[trigger] user_byte(ram, root, va) == Some(image_byte(f, segments(f), va))
    &&& forall|vp: int| 0 <= vp < (stack_top(f) - 8192) / 4096 ==> #[trigger] has_flags(ram, root, vp, image_flags(f, segments(f), vp))
    &&& translate(ram, root, (stack_top(f) - 8192) / 4096) is None
    &&& has_flags(ram, root, (stack_top(f) - 4096) / 4096, grown_flags(PTE::W))
    &&& stack_holds(ram, root, stack_top(f), argv)
}

/// Makes the memory of a program that was loaded: the guard page, the stack and the arguments.
/// The result is the size of the memory and the stack pointer, or the part that has to be
/// freed.
#[verifier::rlimit(60)]
fn set_up_stack(a: &mut KernelAllocator, pagetable: &PageTable, size: u64, argv: &[Vec<u8>], Ghost(f): Ghost<Seq<u8>>) -> (r: Result<
    (u64, u64),
    u64,
>)
    requires
        old(a).wf(),
        size == size_after(f, segments(f)),
        memory_wf(old(a).frames(), pagetable.root(), size as int),
        loaded(old(a).frames(), pagetable.root(), f, segments(f), size as int),
        flags_loaded(old(a).frames(), pagetable.root(), f, segments(f), size as int),
        program_ok(f),
    ensures
        final(a).wf(),
        final(a).end() == old(a).end(),
        others_safe(old(a).frames(), final(a).frames(), pagetable.root()),
        match r {
            Ok((top, sp)) => {
                &&& top == stack_top(f)
                &&& same_top(old(a).frames(), final(a).frames(), pagetable.root())
                &&& args_fit(args(argv@))
                &&& sp == argv_at(top as int, args(argv@))
                &&& program_set_up(final(a).frames(), pagetable.root(), f, args(argv@))
                &&& pages_added(old(a).frames(), final(a).frames(), pagetable.root(), size as int, top as int)
            },
            Err(left) => {
                &&& memory_wf(final(a).frames(), pagetable.root(), left as int)
                &&& pages_added(old(a).frames(), final(a).frames(), pagetable.root(), size as int, left as int)
                &&& !args_fit(args(argv@)) || old(a).free().len() < frames_for(page_count(size as int) + 2) - frames_for(page_count(size as int))
            },
        },
{
    let ghost s0 = a.frames();
    let ghost root = pagetable.root();
    let base = pg_roundup(size);
    proof {
        assert((4u64 & 0x3ff) == 4) by (bit_vector);
        assert(page_count(base as int) == page_count(size as int));
        assert(mem_end(base as int) == base);
        assert(page_count(base + 8192) == page_count(base as int) + 2);
    }
    let top = match grow_memory(a, pagetable, base, base + 2 * PGSIZE, PTE::W) {
        Ok(top) => top,
        Err(_) => {
            proof {
                lemma_nothing_added(s0, a.frames(), root, size as int);
            }
            return Err(size);
        },
    };
    let ghost s1 = a.frames();
    let ghost guard = base as int / 4096;
    proof {
        lemma_grown_added(s0, s1, root, size as int, top as int);
        assert(page_count(top as int) == guard + 2);
        assert(mem_end(top as int) == top);
        assert(same_top(s0, s1, root));
        assert(own_page(s1, root, guard));
        crate::process::memory::lemma_user_page(s1, root, guard, PTE::W);
    }
    pagetable.set_user_page(a, top - 2 * PGSIZE, false);
    let ghost s2 = a.frames();
    proof {
        lemma_safe_kept(s1, s2, root, guard, 1);
        lemma_safe_trans(s0, s1, s2, root);
        lemma_guarded(s1, s2, root, guard, top as int);
        assert(same_top(s1, s2, root));
        crate::riscv::paging::lemma_taken_none(s1, s2);
        lemma_nothing_added(s1, s2, root, top as int);
        lemma_added_trans(s0, s1, s2, root, size as int, top as int, top as int);
        assert forall|va: int| 0 <= va < top && va / 4096 != guard implies #[trigger] user_byte(s2, root, va) == user_byte(s1, root, va) by {
            assert(lookup(s2, root, va / 4096) == lookup(s1, root, va / 4096));
            lemma_user_bytes(s1, s2, root, va);
        }
        assert forall|x: int| top - 4096 <= x < top - 4096 + 4096 implies (#[trigger] user_byte(s2, root, x)) is Some by {
            assert(user_byte(s1, root, x) == Some(0u8));
        }
    }
    match push_arguments(a, pagetable, top, argv) {
        Ok(sp) => {
            proof {
                let s3 = a.frames();
                lemma_safe_trans(s0, s2, s3, root);
                lemma_bytes_taken(s2, s3);
                lemma_nothing_added(s2, s3, root, top as int);
                lemma_added_trans(s0, s2, s3, root, size as int, top as int, top as int);
                assert forall|va: int| 0 <= va < stack_top(f) - 8192 implies #[trigger] user_byte(s3, root, va) == Some(
                    image_byte(f, segments(f), va),
                ) by {
                    assert(user_byte(s3, root, va) == user_byte(s2, root, va));
                    assert(user_byte(s2, root, va) == user_byte(s1, root, va));
                    assert(user_byte(s1, root, va) == user_byte(s0, root, va));
                }
                assert(lookup(s3, root, guard) == lookup(s2, root, guard));
                assert(same_top(s2, s3, root));
                assert forall|vp: int| 0 <= vp < guard implies #[trigger] has_flags(s3, root, vp, image_flags(f, segments(f), vp)) by {
                    assert(has_flags(s0, root, vp, image_flags(f, segments(f), vp)));
                    assert(lookup(s3, root, vp) == lookup(s2, root, vp));
                    assert(lookup(s2, root, vp) == lookup(s1, root, vp));
                    assert(lookup(s1, root, vp) == lookup(s0, root, vp));
                }
                assert(has_page(s1, root, guard + 1, grown_flags(PTE::W)));
                assert(lookup(s2, root, guard + 1) == lookup(s1, root, guard + 1));
                assert(lookup(s3, root, guard + 1) == lookup(s2, root, guard + 1));
                assert((stack_top(f) - 4096) / 4096 == guard + 1);
            }
            Ok((top, sp))
        },
        Err(_) => {
            proof {
                lemma_safe_trans(s0, s2, a.frames(), root);
                lemma_bytes_taken(s2, a.frames());
                lemma_nothing_added(s2, a.frames(), root, top as int);
                lemma_added_trans(s0, s2, a.frames(), root, size as int, top as int, top as int);
            }
            Err(top)
        },
    }
}

/// Taking the user bit from a page leaves the memory in order.
proof fn lemma_guarded(s0: Seq<Frame>, s1: Seq<Frame>, root: int, guard: int, size: int)
    requires
        memory_wf(s0, root, size),
        crate::riscv::paging::kept_outside(s0, s1, root, guard, 1),
        0 <= guard < page_count(size),
        lookup(s1, root, guard) is Some,
        !lookup(s1, root, guard)->0.user(),
        (lookup(s1, root, guard)->0).0 & !PTE::U == (lookup(s0, root, guard)->0).0 & !PTE::U,
        lookup(s0, root, guard)->0.readable(),
    ensures
        memory_wf(s1, root, size),
{
    assert forall|vp: int| 0 <= vp < page_count(size) implies #[trigger] own_page(s1, root, vp) by {
        assert(own_page(s0, root, vp));
        assert(is_owned(s0, root, vp));
        assert(is_owned(s1, root, vp));
        if vp != guard {
            assert(lookup(s1, root, vp) == lookup(s0, root, vp));
        } else {
            let x = (lookup(s0, root, guard)->0).0;
            let y = (lookup(s1, root, guard)->0).0;
            assert(y & 0x3ff != 1) by (bit_vector)
                requires
                    y & !16 == x & !16,
                    x & 2 != 0,
            ;
        }
    }
    assert forall|vp: int| page_count(size) <= vp < trapframe_page() implies (#[trigger] lookup(s1, root, vp)) is None by {
        assert(lookup(s0, root, vp) is None);
    }
    assert(lookup(s1, root, trapframe_page()) == lookup(s0, root, trapframe_page()));
    assert(lookup(s1, root, trampoline_page()) == lookup(s0, root, trampoline_page()));
}

/// Opens the program that a path names and loads it into a new page table.
#[verifier::rlimit(60)]
fn load<D: BlockDevice>(
    a: &mut KernelAllocator,
    fs: &mut FileSystem<D>,
    path: &Vec<u8>,
    cwd: &Option<usize>,
    trampoline: u64,
    trapframe: u64,
) -> (r: Result<(PageTable, u64, u64), ()>)
    requires
        old(a).wf(),
        old(fs).ready(path@, slot_of(*cwd), 0),
        trampoline <= 0xff_ffff_ffff_0000,
        trapframe <= 0xff_ffff_ffff_0000,
    ensures
        final(a).wf(),
        final(a).end() == old(a).end(),
        undisturbed(*old(fs), *final(fs)),
        ({
            let target = old(fs).target(path@, slot_of(*cwd));
            let f = old(fs).file(target->0).bytes;
            match r {
                Ok((pagetable, size, entry)) => {
                    let root = pagetable.root();
                    &&& target is Some
                    &&& program_ok(f)
                    &&& size == size_after(f, segments(f))
                    &&& entry == le64(f, 24)
                    &&& !is_root(old(a).frames(), root)
                    &&& lookup(final(a).frames(), root, trampoline_page()) == Some(PTE::leaf(trampoline, PTE::R | PTE::X))
                    &&& lookup(final(a).frames(), root, trapframe_page()) == Some(PTE::leaf(trapframe, PTE::R | PTE::W))
                    &&& others_safe(old(a).frames(), final(a).frames(), root)
                    &&& memory_wf(final(a).frames(), root, size as int)
                    &&& loaded(final(a).frames(), root, f, segments(f), size as int)
                    &&& flags_loaded(final(a).frames(), root, f, segments(f), size as int)
                    &&& final(a).free().len() + 3 + frames_for(page_count(size as int)) >= old(a).free().len()
                    &&& taken_but(
                        old(a).frames(),
                        final(a).frames(),
                        set![root].union(page_frames(final(a).frames(), root, 0, page_count(size as int))),
                    )
                },
                Err(_) => {
                    &&& others_safe(old(a).frames(), final(a).frames(), -1)
                    &&& taken_but(old(a).frames(), final(a).frames(), Set::empty())
                    &&& {
                        ||| target is None
                        ||| !old(fs).reached(old(fs).slots(), path@, slot_of(*cwd))
                        ||| !program_ok(f)
                        ||| old(a).free().len() < 3 + frames_for(page_count(size_after(f, segments(f))))
                    }
                },
            }
        }),
{
    let ghost fs0 = *fs;
    let ghost a0 = *a;
    proof {
        crate::process::lemma_safe_same(a0.frames(), -1);
        crate::riscv::paging::lemma_taken_none(a0.frames(), a0.frames());
    }
    let inode = match fs.open_path(path, cwd) {
        Some(inode) => inode,
        None => {
            return Err(());
        },
    };
    let ghost i = inode.cache_index as int;
    let ghost j = fs.inum_at(i);
    let ghost f = fs0.file(j).bytes;
    let ghost fs1 = *fs;
    let bytes = fs.read_at(&inode, 0, ELF_HEADER_SIZE);
    proof {
        fs.lemma_still_open(fs0, fs1, i, j);
        assert(fs1.file(j) == fs0.file(j));
        lemma_record(f, 0, 64);
        assert(page_count(size_after(f, segments(f))) >= 0) by {
            lemma_size_grows(f, 0, segments(f));
        }
        lemma_frames_for(0, page_count(size_after(f, segments(f))));
    }
    if bytes.len() != ELF_HEADER_SIZE {
        fs.close_path(inode, Ghost(fs0), Ghost(j));
        return Err(());
    }
    let elf = ELFHeader::from_bytes(&bytes);
    proof {
        lemma_header(f);
    }
    if !elf.validate_magic() {
        fs.close_path(inode, Ghost(fs0), Ghost(j));
        return Err(());
    }
    let pagetable = match allocate_pagetable(a, trampoline, trapframe) {
        Ok(pagetable) => pagetable,
        Err(_) => {
            fs.close_path(inode, Ghost(fs0), Ghost(j));
            return Err(());
        },
    };
    let ghost a1 = *a;
    let ghost root = pagetable.root();
    let r = load_program(a, &pagetable, fs, &inode, &elf, Ghost(fs0), Ghost(j));
    fs.close_path(inode, Ghost(fs0), Ghost(j));
    let ghost a2 = *a;
    let ghost left = match r {
        Ok(size) => size as int,
        Err(size) => size as int,
    };
    proof {
        lemma_safe_trans(a0.frames(), a1.frames(), a2.frames(), root);
        lemma_taken_trans(a0.frames(), a1.frames(), a2.frames(), set![root], page_frames(a2.frames(), root, 0, page_count(left)));
    }
    match r {
        Ok(size) => Ok((pagetable, size, elf.entry)),
        Err(size) => {
            free_pagetable(a, pagetable, size);
            proof {
                lemma_image_freed(a0.frames(), a2.frames(), a.frames(), root, size as int);
                lemma_safe_trans(a0.frames(), a2.frames(), a.frames(), root);
                lemma_safe_new(a0.frames(), a.frames(), root);
            }
            Err(())
        },
    }
}

/// The memory of a page table went from `size` to `new_size` bytes: the pages that it had stay
/// in their frames, and of the free frames its pages took those that were taken.
spec fn pages_added(s0: Seq<Frame>, s1: Seq<Frame>, root: int, size: int, new_size: int) -> bool {
    &&& size <= new_size
    &&& taken_but(s0, s1, page_frames(s1, root, 0, page_count(new_size)))
    &&& forall|vp: int| 0 <= vp < page_count(size) ==> #[trigger] frame_of(s1, root, vp) == frame_of(s0, root, vp)
}

proof fn lemma_nothing_added(s0: Seq<Frame>, s1: Seq<Frame>, root: int, size: int)
    requires
        s1 == s0 || taken_but(s0, s1, Set::empty()),
        forall|vp: int| 0 <= vp < page_count(size) ==> #[trigger] frame_of(s1, root, vp) == frame_of(s0, root, vp),
    ensures
        pages_added(s0, s1, root, size, size),
{
    if s1 == s0 {
        crate::riscv::paging::lemma_taken_none(s0, s1);
    }
    lemma_taken_less(s0, s1, Set::empty(), page_frames(s1, root, 0, page_count(size)));
}

proof fn lemma_grown_added(s0: Seq<Frame>, s1: Seq<Frame>, root: int, size: int, new_size: int)
    requires
        0 <= size <= new_size,
        page_count(new_size) <= trapframe_page(),
        taken_but(s0, s1, page_frames(s1, root, page_count(size), page_count(new_size) - page_count(size))),
        forall|vp: int| is_page(vp) && !(page_count(size) <= vp < page_count(new_size)) ==> #[trigger] lookup(s1, root, vp) == lookup(s0, root, vp),
    ensures
        pages_added(s0, s1, root, size, new_size),
{
    let n = page_count(size);
    let x = page_frames(s1, root, n, page_count(new_size) - n);
    let y = page_frames(s1, root, 0, page_count(new_size));
    assert forall|p: int| #[trigger] x.contains(p) implies y.contains(p) by {
        let v = choose|v: int| n <= v < n + (page_count(new_size) - n) && #[trigger] is_owned(s1, root, v) && frame_of(s1, root, v) == p;
        assert(0 <= v < 0 + page_count(new_size) && is_owned(s1, root, v) && frame_of(s1, root, v) == p);
    }
    lemma_taken_less(s0, s1, x, y);
    assert forall|vp: int| 0 <= vp < n implies #[trigger] frame_of(s1, root, vp) == frame_of(s0, root, vp) by {
        assert(lookup(s1, root, vp) == lookup(s0, root, vp));
    }
}

proof fn lemma_added_trans(s0: Seq<Frame>, s1: Seq<Frame>, s2: Seq<Frame>, root: int, size0: int, size1: int, size2: int)
    requires
        pages_added(s0, s1, root, size0, size1),
        pages_added(s1, s2, root, size1, size2),
        memory_wf(s2, root, size2),
    ensures
        pages_added(s0, s2, root, size0, size2),
{
    let x = page_frames(s1, root, 0, page_count(size1));
    let y = page_frames(s2, root, 0, page_count(size2));
    lemma_taken_trans(s0, s1, s2, x, y);
    lemma_frames_stay(s1, s2, root, size1, size2);
    lemma_taken_less(s0, s2, x.union(y), y);
    assert forall|vp: int| 0 <= vp < page_count(size0) implies #[trigger] frame_of(s2, root, vp) == frame_of(s0, root, vp) by {
        assert(frame_of(s1, root, vp) == frame_of(s0, root, vp));
    }
}

/// Pages that stay in their frames are still there.
proof fn lemma_frames_stay(s1: Seq<Frame>, s2: Seq<Frame>, root: int, size1: int, size2: int)
    requires
        pages_added(s1, s2, root, size1, size2),
        memory_wf(s2, root, size2),
    ensures
        forall|p: int| #[trigger] page_frames(s1, root, 0, page_count(size1)).contains(p) ==> page_frames(s2, root, 0, page_count(size2)).contains(p),
{
    assert forall|p: int| #[trigger] page_frames(s1, root, 0, page_count(size1)).contains(p) implies page_frames(
        s2,
        root,
        0,
        page_count(size2),
    ).contains(p) by {
        let v = choose|v: int| 0 <= v < 0 + page_count(size1) && #[trigger] is_owned(s1, root, v) && frame_of(s1, root, v) == p;
        assert(frame_of(s2, root, v) == frame_of(s1, root, v));
        assert(own_page(s2, root, v));
        assert(0 <= v < 0 + page_count(size2) && is_owned(s2, root, v) && frame_of(s2, root, v) == p);
    }
}

/// A new page table got more pages.
proof fn lemma_image_grown(s0: Seq<Frame>, s1: Seq<Frame>, s2: Seq<Frame>, root: int, size1: int, size2: int)
    requires
        taken_but(s0, s1, set![root].union(page_frames(s1, root, 0, page_count(size1)))),
        pages_added(s1, s2, root, size1, size2),
        memory_wf(s2, root, size2),
    ensures
        taken_but(s0, s2, set![root].union(page_frames(s2, root, 0, page_count(size2)))),
{
    let x = set![root].union(page_frames(s1, root, 0, page_count(size1)));
    let y = page_frames(s2, root, 0, page_count(size2));
    lemma_taken_trans(s0, s1, s2, x, y);
    lemma_frames_stay(s1, s2, root, size1, size2);
    lemma_taken_less(s0, s2, x.union(y), set![root].union(y));
}

/// A new page table that was freed with its pages took nothing.
proof fn lemma_image_freed(s0: Seq<Frame>, s1: Seq<Frame>, s2: Seq<Frame>, root: int, size: int)
    requires
        taken_but(s0, s1, set![root].union(page_frames(s1, root, 0, page_count(size)))),
        taken_but(s1, s2, Set::empty()),
        s2[root] is Free,
        forall|vp: int| 0 <= vp < page_count(size) ==> s2[#[trigger] frame_of(s1, root, vp)] is Free,
    ensures
        taken_but(s0, s2, Set::empty()),
{
    let x = set![root].union(page_frames(s1, root, 0, page_count(size)));
    lemma_taken_trans(s0, s1, s2, x, Set::empty());
    assert forall|p: int| is_frame(p) && #[trigger] x.union(Set::empty()).contains(p) implies s2[p] is Free by {
        if p != root {
            let v = choose|v: int| 0 <= v < 0 + page_count(size) && #[trigger] is_owned(s1, root, v) && frame_of(s1, root, v) == p;
            assert(s2[frame_of(s1, root, v)] is Free);
        }
    }
    lemma_taken_less(s0, s2, x.union(Set::empty()), Set::empty());
}

/// What is safe for all but a page table that was not there is safe for all.
proof fn lemma_safe_new(s0: Seq<Frame>, s1: Seq<Frame>, root: int)
    requires
        others_safe(s0, s1, root),
        !is_root(s0, root),
    ensures
        others_safe(s0, s1, -1),
{
    assert forall|r: int| #[trigger] is_root(s0, r) implies r != root by {}
}

/// A file header that was read on its own is the one in the file.
proof fn lemma_header(f: Seq<u8>)
    requires
        f.len() >= 64,
    ensures
        ({
            let s = f.subrange(0, 64);
            &&& le32(s, 0) == le32(f, 0)
            &&& le64(s, 24) == le64(f, 24)
            &&& le64(s, 32) == le64(f, 32)
            &&& le16(s, 56) == le16(f, 56)
        }),
{
    let s = f.subrange(0, 64);
    assert(le32(s, 24) == le32(f, 24) && le32(s, 28) == le32(f, 28) && le32(s, 32) == le32(f, 32) && le32(s, 36) == le32(f, 36));
}

/// What running the program at `path` with arguments `argv` does to a process: on success it has
/// the memory of the program, with the arguments on its stack, and will begin at the entry
/// point; else it is as before.
pub open spec fn execute_came_to<D: BlockDevice>(
    a0: KernelAllocator,
    a1: KernelAllocator,
    fs0: FileSystem<D>,
    c0: ProcessContext,
    c1: ProcessContext,
    path: Seq<u8>,
    argv: Seq<Seq<u8>>,
    r: Result<usize, ()>,
) -> bool {
    let target = fs0.target(path, slot_of(c0.cwd));
    let f = fs0.file(target->0).bytes;
    match r {
        Ok(argc) => {
            &&& target is Some
            &&& program_ok(f)
            &&& args_fit(argv)
            &&& argc == argv.len()
            &&& program_set_up(a1.frames(), c1.pagetable.root(), f, argv)
            &&& lookup(a1.frames(), c1.pagetable.root(), trapframe_page()) == Some(PTE::leaf(c0.trapframe_addr, PTE::R | PTE::W))
            &&& c1 == (ProcessContext {
                sz: stack_top(f) as u64,
                pagetable: c1.pagetable,
                trapframe: TrapFrame {
                    a1: argv_at(stack_top(f), argv) as u64,
                    sp: argv_at(stack_top(f), argv) as u64,
                    epc: le64(f, 24) as u64,
                    ..c0.trapframe
                },
                ..c0
            })
            &&& others_safe(a0.frames(), a1.frames(), c0.pagetable.root())
            &&& !is_root(a0.frames(), c1.pagetable.root())
            &&& !is_root(a1.frames(), c0.pagetable.root())
            &&& taken_but(
                a0.frames(),
                a1.frames(),
                set![c1.pagetable.root()].union(page_frames(a1.frames(), c1.pagetable.root(), 0, page_count(c1.sz as int))),
            )
            &&& a1.frames()[c0.pagetable.root()] is Free
            &&& forall|vp: int| 0 <= vp < page_count(c0.sz as int) ==> a1.frames()[#[trigger] frame_of(a0.frames(), c0.pagetable.root(), vp)] is Free
        },
        Err(_) => {
            &&& c1 == c0
            &&& others_safe(a0.frames(), a1.frames(), -1)
            &&& taken_but(a0.frames(), a1.frames(), Set::empty())
            &&& {
                ||| target is None
                ||| !fs0.reached(fs0.slots(), path, slot_of(c0.cwd))
                ||| !program_ok(f)
                ||| !args_fit(argv)
                ||| a0.free().len() < pages_needed(f)
            }
        },
    }
}

/// Replaces the program of a process by the one that a path names. On success the result is
/// the number of arguments, and the process will begin at the entry point of the program; on
/// failure the process is as before.
#[verifier::rlimit(100)]
#[verifier::spinoff_prover]
pub fn execute<D: BlockDevice>(
    a: &mut KernelAllocator,
    fs: &mut FileSystem<D>,
    context: &mut ProcessContext,
    trampoline: u64,
    path: &Vec<u8>,
    argv: &[Vec<u8>],
) -> (r: Result<usize, ()>)
    requires
        old(a).wf(),
        old(context).wf(old(a)),
        old(fs).ready(path@, slot_of(old(context).cwd), 0),
        trampoline <= 0xff_ffff_ffff_0000,
    ensures
        final(a).wf(),
        final(a).end() == old(a).end(),
        final(context).wf(final(a)),
        undisturbed(*old(fs), *final(fs)),
        execute_came_to(*old(a), *final(a), *old(fs), *old(context), *final(context), path@, args(argv@), r),
        r is Ok ==> lookup(final(a).frames(), final(context).pagetable.root(), trampoline_page()) == Some(PTE::leaf(trampoline, PTE::R | PTE::X)),
{
    let ghost a0 = *a;
    let ghost c0 = *context;
    let ghost old_root = context.pagetable.root();
    let ghost f = fs.file(fs.target(path@, slot_of(context.cwd))->0).bytes;
    let (pagetable, size, entry) = match load(a, fs, path, &context.cwd, trampoline, context.trapframe_addr) {
        Ok(x) => x,
        Err(_) => {
            proof {
                lemma_image_needed(f);
                c0.lemma_safe(a0, *a, -1);
            }
            return Err(());
        },
    };
    let ghost a1 = *a;
    let ghost root = pagetable.root();
    let (top, sp) = match set_up_stack(a, &pagetable, size, argv, Ghost(f)) {
        Ok(x) => x,
        Err(left) => {
            let ghost a2 = *a;
            proof {
                lemma_image_grown(a0.frames(), a1.frames(), a2.frames(), root, size as int, left as int);
            }
            free_pagetable(a, pagetable, left);
            proof {
                lemma_image_freed(a0.frames(), a2.frames(), a.frames(), root, left as int);
                lemma_safe_trans(a0.frames(), a1.frames(), a2.frames(), root);
                lemma_safe_trans(a0.frames(), a2.frames(), a.frames(), root);
                lemma_safe_new(a0.frames(), a.frames(), root);
                c0.lemma_safe(a0, *a, -1);
            }
            return Err(());
        },
    };
    let ghost a2 = *a;
    proof {
        lemma_safe_trans(a0.frames(), a1.frames(), a2.frames(), root);
        assert(root != old_root);
        c0.lemma_safe(a0, a2, root);
        lemma_image_grown(a0.frames(), a1.frames(), a2.frames(), root, size as int, top as int);
        assert forall|vp: int| 0 <= vp < page_count(c0.sz as int) implies frame_of(a2.frames(), old_root, vp) == #[trigger] frame_of(
            a0.frames(),
            old_root,
            vp,
        ) by {
            assert(own_page(a0.frames(), old_root, vp));
            assert(lookup(a2.frames(), old_root, vp) == lookup(a0.frames(), old_root, vp));
        }
    }
    context.trapframe.a1 = sp;
    let mut old_pagetable = pagetable;
    core::mem::swap(&mut context.pagetable, &mut old_pagetable);
    let old_size = context.sz;
    context.sz = top;
    context.trapframe.epc = entry;
    context.trapframe.sp = sp;
    free_pagetable(a, old_pagetable, old_size);
    proof {
        let s2 = a2.frames();
        let s3 = a.frames();
        lemma_safe_new(a0.frames(), s2, root);
        assert(others_safe(a0.frames(), s2, old_root));
        lemma_safe_trans(a0.frames(), s2, s3, old_root);
        crate::process::memory::lemma_memory_safe(s2, s3, old_root, root, top as int);
        lemma_set_up_safe(s2, s3, old_root, root, f, args(argv@));
        c0.lemma_kernel_page(a0.frames(), *a);
        assert(lookup(s3, root, trapframe_page()) == lookup(s2, root, trapframe_page()));
        assert(lookup(s3, root, trampoline_page()) == lookup(s2, root, trampoline_page()));
        let fin = context.pagetable;
        assert(fin.root() == root);
        let x = set![root].union(page_frames(s2, root, 0, page_count(top as int)));
        let y = set![root].union(page_frames(s3, root, 0, page_count(top as int)));
        lemma_taken_trans(a0.frames(), s2, s3, x, Set::empty());
        assert forall|p: int| #[trigger] x.union(Set::empty()).contains(p) implies y.contains(p) by {
            if p != root {
                let v = choose|v: int| 0 <= v < 0 + page_count(top as int) && #[trigger] is_owned(s2, root, v) && frame_of(s2, root, v) == p;
                assert(own_page(s3, root, v));
                assert(lookup(s3, root, v) == lookup(s2, root, v));
                assert(is_owned(s3, root, v) && frame_of(s3, root, v) == p);
            }
        }
        lemma_taken_less(a0.frames(), s3, x.union(Set::empty()), y);
        assert forall|vp: int| 0 <= vp < page_count(c0.sz as int) implies s3[#[trigger] frame_of(a0.frames(), old_root, vp)] is Free by {
            assert(frame_of(s2, old_root, vp) == frame_of(a0.frames(), old_root, vp));
            assert(s3[frame_of(s2, old_root, vp)] is Free);
        }
    }
    Ok(argv.len())
}

/// Work on another process leaves a program that was set up as it is.
#[verifier::rlimit(40)]
#[verifier::spinoff_prover]
proof fn lemma_set_up_safe(s0: Seq<Frame>, s1: Seq<Frame>, other: int, root: int, f: Seq<u8>, argv: Seq<Seq<u8>>)
    requires
        program_set_up(s0, root, f, argv),
        others_safe(s0, s1, other),
        root != other,
    ensures
        program_set_up(s1, root, f, argv),
{
    crate::process::memory::lemma_memory_safe(s0, s1, other, root, stack_top(f));
    let top = stack_top(f);
    assert forall|k: int| 0 <= k < argv.len() implies argument_at(s1, root, stack_at(top, argv, k + 1), #[trigger] argv[k]) by {
        assert(argument_at(s0, root, stack_at(top, argv, k + 1), argv[k]));
    }
    assert forall|va: int, w: int| word_at(s0, root, va, w) implies #[trigger] word_at(s1, root, va, w) by {
        assert(Seq::new(8, |i: int| user_byte(s1, root, va + i)->0) =~= Seq::new(8, |i: int| user_byte(s0, root, va + i)->0));
    }
    assert forall|vp: int| 0 <= vp < (top - 8192) / 4096 implies #[trigger] has_flags(s1, root, vp, image_flags(f, segments(f), vp)) by {
        assert(has_flags(s0, root, vp, image_flags(f, segments(f), vp)));
        assert(lookup(s1, root, vp) == lookup(s0, root, vp));
    }
    assert(lookup(s1, root, (top - 4096) / 4096) == lookup(s0, root, (top - 4096) / 4096));
    let vp = (top - 8192) / 4096;
    if is_page(vp) {
        assert(lookup(s1, root, vp) == lookup(s0, root, vp));
    }
}

} // verus!
