//! The memory of a process.
use vstd::prelude::*;
use crate::allocator::{data_kept, frames_wf, is_frame, Frame, KernelAllocator, NFRAMES};
use crate::riscv::paging::{
    accessible, fits_in_ram, frame_of, grown_flags, has_page, is_owned, is_page, is_root, kept_outside, kernel_kept, lemma_grown_flags, lemma_translate, lemma_written_maps, lookup, page_count, page_frames, page_zero, tables_due, tables_for, taken_but, translate, user_byte, written, PageTable, PTE, lemma_own_kept, own_only,
};

verus! {

/// Number of the virtual page that holds the trap frame.
pub open spec fn trapframe_page() -> int {
    0x3ff_fffe
}

/// Number of the virtual page that holds the trampoline.
pub open spec fn trampoline_page() -> int {
    0x3ff_ffff
}

/// Page `vp` is mapped for the supervisor alone.
pub open spec fn supervisor_page(ram: Seq<Frame>, root: int, vp: int) -> bool {
    &&& lookup(ram, root, vp) is Some
    &&& !lookup(ram, root, vp)->0.user()
    &&& lookup(ram, root, vp)->0.flags() != PTE::V
}

/// Page `vp` is mapped to a frame of its own.
pub open spec fn own_page(ram: Seq<Frame>, root: int, vp: int) -> bool {
    &&& is_owned(ram, root, vp)
    &&& lookup(ram, root, vp)->0.flags() != PTE::V
}

/// The page table of a process with `size` bytes of memory: these are mapped to frames of
/// their own, the trap frame and the trampoline are there, and nothing else is.
pub open spec fn memory_wf(ram: Seq<Frame>, root: int, size: int) -> bool {
    &&& is_root(ram, root)
    &&& 0 <= size
    &&& page_count(size) <= NFRAMES
    &&& forall|vp: int| 0 <= vp < page_count(size) ==> #[trigger] own_page(ram, root, vp)
    &&& forall|vp: int| page_count(size) <= vp < trapframe_page() ==> (#[trigger] lookup(ram, root, vp)) is None
    &&& supervisor_page(ram, root, trapframe_page())
    &&& supervisor_page(ram, root, trampoline_page())
    &&& own_only(ram, root)
}

/// The trap frame and the trampoline are mapped as before.
pub open spec fn same_top(old: Seq<Frame>, new: Seq<Frame>, root: int) -> bool {
    &&& lookup(new, root, trapframe_page()) == lookup(old, root, trapframe_page())
    &&& lookup(new, root, trampoline_page()) == lookup(old, root, trampoline_page())
}

/// A page table that maps no other pages for user code than its own memory.
pub proof fn lemma_own_only(ram: Seq<Frame>, root: int, size: int)
    requires
        0 <= size,
        forall|vp: int| 0 <= vp < page_count(size) ==> #[trigger] own_page(ram, root, vp),
        forall|vp: int| page_count(size) <= vp < trapframe_page() ==> (#[trigger] lookup(ram, root, vp)) is None,
        supervisor_page(ram, root, trapframe_page()),
        supervisor_page(ram, root, trampoline_page()),
    ensures
        own_only(ram, root),
{
    crate::memory_layout::layout_facts();
    assert forall|vp: int| is_page(vp) && (#[trigger] lookup(ram, root, vp)) is Some && lookup(ram, root, vp)->0.user() implies is_owned(ram, root, vp) by {
        if vp < page_count(size) {
            assert(own_page(ram, root, vp));
        } else {
            assert(vp >= trapframe_page());
            assert(vp == trapframe_page() || vp == trampoline_page());
        }
    }
}

/// All page tables but `root` keep their mappings and their memory, and so does the kernel.
pub open spec fn others_safe(old: Seq<Frame>, new: Seq<Frame>, root: int) -> bool {
    &&& forall|r: int| #[trigger] is_root(old, r) && r != root ==> is_root(new, r)
    &&& forall|r: int, vp: int|
        is_root(old, r) && r != root && is_page(vp) ==> #[trigger] lookup(new, r, vp) == lookup(old, r, vp)
    &&& forall|r: int, vp: int| is_root(old, r) && r != root && is_page(vp) && #[trigger] is_owned(old, r, vp) ==> is_owned(new, r, vp)
    &&& forall|r: int, va: int| is_root(old, r) && own_only(old, r) && r != root ==> #[trigger] user_byte(new, r, va) == user_byte(old, r, va)
    &&& kernel_kept(old, new)
}

pub proof fn lemma_safe_trans(s0: Seq<Frame>, s1: Seq<Frame>, s2: Seq<Frame>, root: int)
    requires
        others_safe(s0, s1, root),
        others_safe(s1, s2, root),
    ensures
        others_safe(s0, s2, root),
{
    reveal(kernel_kept);
    assert forall|r: int, vp: int| is_root(s0, r) && r != root && is_page(vp) implies #[trigger] lookup(s2, r, vp) == lookup(s0, r, vp) by {
        assert(lookup(s1, r, vp) == lookup(s0, r, vp));
    }
    assert forall|r: int, vp: int| is_root(s0, r) && r != root && is_page(vp) && #[trigger] is_owned(s0, r, vp) implies is_owned(s2, r, vp) by {
        assert(is_owned(s1, r, vp));
    }
    assert forall|r: int, va: int| is_root(s0, r) && own_only(s0, r) && r != root implies #[trigger] user_byte(s2, r, va) == user_byte(s0, r, va) by {
        assert(is_root(s1, r));
        lemma_own_kept(s0, s1, r);
        assert(user_byte(s1, r, va) == user_byte(s0, r, va));
    }
}

/// Where mappings are the same and memory keeps its contents, user memory is the same.
pub proof fn lemma_user_bytes(s0: Seq<Frame>, s1: Seq<Frame>, r: int, va: int)
    requires
        frames_wf(s0),
        is_root(s0, r),
        own_only(s0, r),
        is_page(va / 4096) ==> lookup(s1, r, va / 4096) == lookup(s0, r, va / 4096),
        data_kept(s0, s1),
    ensures
        user_byte(s1, r, va) == user_byte(s0, r, va),
{
    if translate(s0, r, va / 4096) is Some {
        lemma_translate(s0, r, va / 4096);
        let p = translate(s0, r, va / 4096)->0;
        assert(s0[p] is Data);
    }
}

/// A change of some pages of one table leaves the others alone.
pub proof fn lemma_safe_kept(s0: Seq<Frame>, s1: Seq<Frame>, root: int, vp: int, n: int)
    requires
        frames_wf(s0),
        kept_outside(s0, s1, root, vp, n),
    ensures
        others_safe(s0, s1, root),
{
    assert forall|r: int, va: int| is_root(s0, r) && own_only(s0, r) && r != root implies #[trigger] user_byte(s1, r, va) == user_byte(s0, r, va) by {
        if is_page(va / 4096) {
            assert(lookup(s1, r, va / 4096) == lookup(s0, r, va / 4096));
        }
        lemma_user_bytes(s0, s1, r, va);
    }
}

/// Writing to the memory of one table leaves the others alone, and all mappings.
pub proof fn lemma_safe_written(s0: Seq<Frame>, s1: Seq<Frame>, root: int, va: int, bytes: Seq<u8>, size: int)
    requires
        frames_wf(s0),
        written(s0, s1, root, va, bytes),
    ensures
        others_safe(s0, s1, root),
        memory_wf(s0, root, size) ==> memory_wf(s1, root, size),
        forall|vp: int| is_root(s0, root) && is_page(vp) ==> #[trigger] lookup(s1, root, vp) == lookup(s0, root, vp),
{
    reveal(kernel_kept);
    lemma_written_maps(s0, s1, root, va, bytes);
    if memory_wf(s0, root, size) {
        lemma_memory_same(s0, s1, root, size);
    }
}

/// The memory of a process is in order as long as its mappings are the same.
pub proof fn lemma_memory_same(s0: Seq<Frame>, s1: Seq<Frame>, root: int, size: int)
    requires
        memory_wf(s0, root, size),
        is_root(s1, root),
        forall|vp: int| is_page(vp) ==> #[trigger] lookup(s1, root, vp) == lookup(s0, root, vp),
        forall|vp: int| is_page(vp) && #[trigger] is_owned(s0, root, vp) ==> is_owned(s1, root, vp),
    ensures
        memory_wf(s1, root, size),
{
    assert forall|vp: int| 0 <= vp < page_count(size) implies #[trigger] own_page(s1, root, vp) by {
        assert(own_page(s0, root, vp));
        assert(is_owned(s0, root, vp));
        assert(lookup(s1, root, vp) == lookup(s0, root, vp));
    }
    assert forall|vp: int| page_count(size) <= vp < trapframe_page() implies (#[trigger] lookup(s1, root, vp)) is None by {
        assert(lookup(s0, root, vp) is None);
    }
    assert(lookup(s1, root, trapframe_page()) == lookup(s0, root, trapframe_page()));
    assert(lookup(s1, root, trampoline_page()) == lookup(s0, root, trampoline_page()));
}

/// Another process's work leaves the memory of a process in order.
pub proof fn lemma_memory_safe(s0: Seq<Frame>, s1: Seq<Frame>, other: int, root: int, size: int)
    requires
        memory_wf(s0, root, size),
        others_safe(s0, s1, other),
        root != other,
    ensures
        memory_wf(s1, root, size),
{
    lemma_memory_same(s0, s1, root, size);
}

/// A process never has more pages than RAM has frames.
pub proof fn lemma_pages_bounded(ram: Seq<Frame>, root: int, n: int)
    requires
        frames_wf(ram),
        is_root(ram, root),
        0 <= n <= trapframe_page(),
        forall|vp: int| 0 <= vp < n ==> #[trigger] is_owned(ram, root, vp),
    ensures
        n <= NFRAMES,
{
    let s = Seq::new(n as nat, |vp: int| frame_of(ram, root, vp));
    assert forall|i: int, j: int| 0 <= i < s.len() && 0 <= j < s.len() && i != j implies s[i] != s[j] by {
        assert(is_owned(ram, root, i));
        assert(is_owned(ram, root, j));
        if s[i] == s[j] {
            crate::riscv::paging::lemma_owned_injective(ram, root, i, root, j);
        }
    }
    assert forall|k: int| 0 <= k < s.len() implies is_frame(#[trigger] s[k]) by {
        assert(is_owned(ram, root, k));
    }
    crate::allocator::lemma_frames_bounded(s);
}

/// A process's memory: its page table and the number of bytes in it.
pub struct ProcessMemory {
    pub pagetable: PageTable,
    pub size: u64,
}

impl ProcessMemory {
    pub open spec fn wf(&self, a: &KernelAllocator) -> bool {
        memory_wf(a.frames(), self.pagetable.root(), self.size as int)
    }

    /// Reads `n` bytes from `addr` on. `None` means that part of them lies outside of the
    /// memory, or that user code may not access it.
    pub fn read(&self, a: &KernelAllocator, addr: u64, n: usize) -> (r: Option<Vec<u8>>)
        requires
            a.wf(),
            self.wf(a),
        ensures
            r is Some <==> addr < self.size && addr + n <= self.size && accessible(
                a.frames(),
                self.pagetable.root(),
                addr as int,
                n as int,
            ),
            r matches Some(bytes) ==> bytes@.len() == n && forall|i: int| 0 <= i < n ==> user_byte(
                a.frames(),
                self.pagetable.root(),
                addr + i,
            ) == Some(#[trigger] bytes@[i]),
    {
        if addr >= self.size || n as u64 > self.size - addr {
            return None;
        }
        let mut dst = crate::filesystem::bytes::zeros(n);
        match self.pagetable.read(a, &mut dst, addr) {
            Ok(_) => {
                proof {
                    assert forall|i: int| addr <= i < addr + n implies (#[trigger] user_byte(a.frames(), self.pagetable.root(), i)) is Some by {
                        assert(user_byte(a.frames(), self.pagetable.root(), addr + (i - addr)) == Some(dst@[i - addr]));
                    }
                }
                Some(dst)
            },
            Err(k) => {
                proof {
                    assert(user_byte(a.frames(), self.pagetable.root(), addr + k) is None);
                }
                None
            },
        }
    }

    /// Writes bytes from `addr` on. `false` means that user code may not access part of the
    /// memory; the bytes before that part are written.
    #[must_use]
    pub fn write(&self, a: &mut KernelAllocator, addr: u64, value: &Vec<u8>) -> (r: bool)
        requires
            old(a).wf(),
            self.wf(old(a)),
        ensures
            final(a).wf(),
            self.wf(final(a)),
            final(a).end() == old(a).end(),
            final(a).free() == old(a).free(),
            r == accessible(old(a).frames(), self.pagetable.root(), addr as int, value@.len() as int),
            r ==> written(old(a).frames(), final(a).frames(), self.pagetable.root(), addr as int, value@),
            !r ==> exists|n: int| 0 <= n < value@.len() && #[trigger] written(
                old(a).frames(),
                final(a).frames(),
                self.pagetable.root(),
                addr as int,
                value@.take(n),
            ),
    {
        let ghost s0 = a.frames();
        match self.pagetable.write(a, addr, value) {
            Ok(_) => {
                proof {
                    lemma_safe_written(s0, a.frames(), self.pagetable.root(), addr as int, value@, self.size as int);
                }
                true
            },
            Err(n) => {
                proof {
                    lemma_safe_written(s0, a.frames(), self.pagetable.root(), addr as int, value@.take(n as int), self.size as int);
                    assert(written(s0, a.frames(), self.pagetable.root(), addr as int, value@.take(n as int)));
                    assert(user_byte(s0, self.pagetable.root(), addr + n) is None);
                }
                false
            },
        }
    }
}


/// User memory up to the end of the last page.
pub open spec fn mem_end(size: int) -> int {
    page_count(size) * 4096
}

/// The user memory below `end` is the same.
pub open spec fn same_below(old: Seq<Frame>, new: Seq<Frame>, root: int, end: int) -> bool {
    forall|va: int| 0 <= va < end ==> #[trigger] user_byte(new, root, va) == user_byte(old, root, va)
}

/// A fresh page is readable for user code and holds zeros.
proof fn lemma_fresh_page(ram: Seq<Frame>, root: int, vp: int, perm: u64)
    requires
        frames_wf(ram),
        is_root(ram, root),
        is_page(vp),
        perm & 0x3ff == perm,
        has_page(ram, root, vp, grown_flags(perm)),
        page_zero(ram, root, vp),
    ensures
        own_page(ram, root, vp),
        forall|va: int| vp * 4096 <= va < vp * 4096 + 4096 ==> #[trigger] user_byte(ram, root, va) == Some(0u8),
{
    lemma_grown_flags(perm);
    let e = (lookup(ram, root, vp)->0).0;
    assert(e & 16 != 0) by (bit_vector)
        requires
            e & 0x3ff == (perm | 2 | 16) | 1,
    ;
    assert forall|va: int| vp * 4096 <= va < vp * 4096 + 4096 implies #[trigger] user_byte(ram, root, va) == Some(0u8) by {
        assert(va / 4096 == vp);
    }
}

/// Number of frames that the first `pages` pages of memory take, tables included.
#[verifier::opaque]
pub open spec fn frames_for(pages: int) -> int {
    pages + tables_for(0, pages)
}

/// More pages take more frames.
pub proof fn lemma_frames_for(m: int, n: int)
    requires
        0 <= m <= n,
    ensures
        frames_for(0) == 0,
        m <= frames_for(m) <= frames_for(n),
{
    reveal(frames_for);
    reveal(tables_for);
}

/// Number of pages that bring the memory of a process from `size` to `new_size` bytes, and of the
/// tables that they take at most.
pub open spec fn pages_and_tables(size: int, new_size: int) -> int {
    frames_for(page_count(new_size)) - frames_for(page_count(size))
}

/// What the memory of a process takes in another page table.
pub proof fn lemma_copy_frames(ram: Seq<Frame>, root: int, size: int)
    requires
        0 <= size,
    ensures
        page_count(size) + tables_due(ram, root, 0, page_count(size)) <= pages_and_tables(0, size),
{
    reveal(frames_for);
    lemma_frames_for(0, 0);
    crate::riscv::paging::lemma_tables_joined(ram, root, 0, page_count(size));
    assert(page_count(0) == 0);
    assert(tables_for(0, 0) == 0) by {
        reveal(tables_for);
    }
}

/// Brings the memory of a process from `size` to `new_size` bytes and returns the new size.
/// The new pages hold zeros; user code may read them and use them as `perm` says. It fails
/// only when no page is left, and then changes nothing.
#[verifier::rlimit(40)]
pub fn grow_memory(a: &mut KernelAllocator, pagetable: &PageTable, size: u64, new_size: u64, perm: u64) -> (r: Result<u64, ()>)
    requires
        old(a).wf(),
        memory_wf(old(a).frames(), pagetable.root(), size as int),
        perm & 0x3ff == perm,
    ensures
        final(a).wf(),
        final(a).end() == old(a).end(),
        others_safe(old(a).frames(), final(a).frames(), pagetable.root()),
        same_below(old(a).frames(), final(a).frames(), pagetable.root(), mem_end(size as int)),
        ({
            let root = pagetable.root();
            let n = page_count(new_size as int) - page_count(size as int);
            match r {
                Ok(s) => {
                    &&& s == if new_size > size { new_size } else { size }
                    &&& memory_wf(final(a).frames(), root, s as int)
                    &&& forall|va: int| mem_end(size as int) <= va < mem_end(s as int) ==> #[trigger] user_byte(
                        final(a).frames(),
                        root,
                        va,
                    ) == Some(0u8)
                    &&& forall|vp: int| page_count(size as int) <= vp < page_count(s as int) ==> #[trigger] has_page(
                        final(a).frames(),
                        root,
                        vp,
                        grown_flags(perm),
                    )
                    &&& forall|vp: int| is_page(vp) && !(page_count(size as int) <= vp < page_count(s as int)) ==> #[trigger] lookup(
                        final(a).frames(),
                        root,
                        vp,
                    ) == lookup(old(a).frames(), root, vp)
                    &&& final(a).free().len() + pages_and_tables(size as int, s as int) >= old(a).free().len()
                    &&& taken_but(
                        old(a).frames(),
                        final(a).frames(),
                        page_frames(final(a).frames(), root, page_count(size as int), page_count(s as int) - page_count(size as int)),
                    )
                },
                Err(_) => {
                    &&& new_size > size
                    &&& memory_wf(final(a).frames(), root, size as int)
                    &&& forall|vp: int| is_page(vp) ==> #[trigger] lookup(final(a).frames(), root, vp) == lookup(old(a).frames(), root, vp)
                    &&& old(a).free().len() < pages_and_tables(size as int, new_size as int)
                    &&& final(a).free().len() <= n
                    &&& taken_but(old(a).frames(), final(a).frames(), Set::empty())
                },
            }
        }),
{
    let ghost s0 = a.frames();
    let ghost root = pagetable.root();
    proof {
        if fits_in_ram(size as int, new_size as int) {
            assert(page_count(new_size as int) <= page_count(size as int) + NFRAMES);
        }
    }
    let r = pagetable.grow(a, size, new_size, perm);
    proof {
        let s1 = a.frames();
        let vp0 = page_count(size as int);
        if new_size >= size {
            let n = page_count(new_size as int) - vp0;
            reveal(frames_for);
            if vp0 > 0 {
                assert(own_page(s0, root, vp0 - 1));
            }
            crate::riscv::paging::lemma_tables_joined(s0, root, vp0, n);
            lemma_safe_kept(s0, s1, root, vp0, n);
            crate::riscv::paging::lemma_taken_pages(s0, s1, root, vp0, if r is Ok { n } else { 0 });
            assert forall|va: int| 0 <= va < mem_end(size as int) implies #[trigger] user_byte(s1, root, va) == user_byte(s0, root, va) by {
                assert(lookup(s1, root, va / 4096) == lookup(s0, root, va / 4096));
                lemma_user_bytes(s0, s1, root, va);
            }
            if r is Ok {
                assert forall|vp: int| vp0 <= vp < vp0 + n && is_page(vp) implies #[trigger] own_page(s1, root, vp) by {
                    assert(has_page(s1, root, vp, grown_flags(perm)));
                    lemma_fresh_page(s1, root, vp, perm);
                }
                assert forall|vp: int| 0 <= vp < vp0 implies #[trigger] own_page(s1, root, vp) by {
                    assert(own_page(s0, root, vp));
                    assert(is_owned(s0, root, vp));
                    assert(lookup(s1, root, vp) == lookup(s0, root, vp));
                }
                let top = if vp0 + n <= trapframe_page() { vp0 + n } else { trapframe_page() };
                assert forall|vp: int| 0 <= vp < top implies #[trigger] is_owned(s1, root, vp) by {
                    assert(own_page(s1, root, vp));
                }
                lemma_pages_bounded(s1, root, top);
                assert(top == vp0 + n);
                assert forall|vp: int| vp0 + n <= vp < trapframe_page() implies (#[trigger] lookup(s1, root, vp)) is None by {
                    assert(lookup(s0, root, vp) is None);
                }
                assert(lookup(s1, root, trapframe_page()) == lookup(s0, root, trapframe_page()));
                assert(lookup(s1, root, trampoline_page()) == lookup(s0, root, trampoline_page()));
                assert forall|va: int| mem_end(size as int) <= va < mem_end(new_size as int) implies #[trigger] user_byte(s1, root, va) == Some(
                    0u8,
                ) by {
                    assert(has_page(s1, root, va / 4096, grown_flags(perm)));
                    lemma_fresh_page(s1, root, va / 4096, perm);
                }
            } else {
                lemma_memory_same(s0, s1, root, size as int);
            }
        } else {
            reveal(kernel_kept);
            lemma_safe_kept(s0, s1, root, 0, 0);
            crate::riscv::paging::lemma_none_taken(s0, root, vp0);
            crate::riscv::paging::lemma_taken_pages(s0, s1, root, vp0, 0);
        }
    }
    r
}

/// Brings the memory of a process down from `size` to `new_size` bytes, frees the pages
/// beyond and returns the new size.
#[verifier::rlimit(40)]
pub fn shrink_memory(a: &mut KernelAllocator, pagetable: &PageTable, size: u64, new_size: u64) -> (r: Result<u64, ()>)
    requires
        old(a).wf(),
        memory_wf(old(a).frames(), pagetable.root(), size as int),
    ensures
        final(a).wf(),
        final(a).end() == old(a).end(),
        others_safe(old(a).frames(), final(a).frames(), pagetable.root()),
        r is Ok,
        r->Ok_0 == if new_size < size { new_size } else { size },
        memory_wf(final(a).frames(), pagetable.root(), r->Ok_0 as int),
        same_below(old(a).frames(), final(a).frames(), pagetable.root(), mem_end(r->Ok_0 as int)),
        forall|vp: int| 0 <= vp < page_count(r->Ok_0 as int) ==> #[trigger] lookup(final(a).frames(), pagetable.root(), vp) == lookup(
            old(a).frames(),
            pagetable.root(),
            vp,
        ),
        final(a).free().len() == old(a).free().len() + page_count(size as int) - page_count(r->Ok_0 as int),
        taken_but(old(a).frames(), final(a).frames(), Set::empty()),
        forall|vp: int| page_count(r->Ok_0 as int) <= vp < page_count(size as int) ==>
            final(a).frames()[#[trigger] frame_of(old(a).frames(), pagetable.root(), vp)] is Free,
{
    let ghost a0 = *a;
    let ghost s0 = a.frames();
    let ghost root = pagetable.root();
    proof {
        reveal(kernel_kept);
        assert forall|vp: int| page_count(new_size as int) <= vp < page_count(size as int) implies (#[trigger] lookup(s0, root, vp)) is Some
            && is_owned(s0, root, vp) && lookup(s0, root, vp)->0.flags() != PTE::V by {
            assert(own_page(s0, root, vp));
        }
    }
    let r = pagetable.shrink(a, size, new_size);
    proof {
        if new_size < size {
            crate::riscv::paging::lemma_all_mapped(s0, root, page_count(new_size as int), page_count(size as int) - page_count(new_size as int));
            let s1 = a.frames();
            let vp = page_count(new_size as int);
            let n = page_count(size as int) - vp;
            crate::process::lemma_safe_freed(a0, *a, root, vp, n);
            crate::process::lemma_free_stays(a0, *a, root, vp, n);
            assert forall|v: int| 0 <= v < vp implies #[trigger] own_page(s1, root, v) by {
                assert(own_page(s0, root, v));
                assert(is_owned(s0, root, v));
                assert(lookup(s1, root, v) == lookup(s0, root, v));
            }
            assert forall|v: int| vp <= v < trapframe_page() implies (#[trigger] lookup(s1, root, v)) is None by {
                if v >= vp + n {
                    assert(lookup(s0, root, v) is None);
                }
            }
            assert(lookup(s1, root, trapframe_page()) == lookup(s0, root, trapframe_page()));
            assert(lookup(s1, root, trampoline_page()) == lookup(s0, root, trampoline_page()));
            assert forall|va: int| 0 <= va < mem_end(new_size as int) implies #[trigger] user_byte(s1, root, va) == user_byte(s0, root, va) by {
                assert(own_page(s0, root, va / 4096));
            }
        }
        crate::riscv::paging::lemma_taken_none(s0, a.frames());
    }
    r
}


/// What is known of a page that was allocated for user code.
pub proof fn lemma_user_page(ram: Seq<Frame>, root: int, vp: int, perm: u64)
    requires
        perm & 0x3ff == perm,
        has_page(ram, root, vp, grown_flags(perm)),
    ensures
        lookup(ram, root, vp)->0.user(),
        lookup(ram, root, vp)->0.readable(),
{
    let e = (lookup(ram, root, vp)->0).0;
    assert(e & 16 != 0 && e & 2 != 0) by (bit_vector)
        requires
            e & 0x3ff == (perm | 2 | 16) | 1,
    ;
}

} // verus!
