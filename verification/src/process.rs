//! Processes.
use vstd::prelude::*;
use crate::allocator::{frame_at, is_frame, is_frame_addr, Frame, KernelAllocator};
use crate::bitmap::Bitmap;
use crate::config::{NCPU, NOFILE, NPROC};
use crate::cpu::preemption;
use crate::filesystem::bytes::{copy_into, le32, put_u32, slice_of, spliced, zeros};
use crate::interrupt::{is_enabled_before, set_enabled_before, InterruptState};
use crate::memory_layout::{kstack, kstack_index, kstack_spec, KERNBASE, TRAMPOLINE, TRAPFRAME};
use crate::process::context::CPUContext;
use crate::process::kernel_stack::{stack_taken, KernelStackAllocator};
use crate::process::memory::{
    lemma_memory_same, lemma_safe_kept, lemma_safe_trans, lemma_safe_written, lemma_user_bytes, mem_end, memory_wf, others_safe, own_page, supervisor_page,
    trampoline_page, trapframe_page, ProcessMemory,
};
use crate::process::process::{frames_of_process, memory_copied, open_files, permissions_copied, released_safe, Process, ProcessContext, ProcessState, StateName};
use crate::process::table::{first_unused, first_with_pid, killed_by, pid_after, pids_ok, waits_for, woke, woken, ProcessTable};
use crate::process::trapframe::TrapFrame;
use crate::riscv::paging::{
    accessible, clone_bytes, frame_of, frames_back, get_frame, has_page, is_owned, is_page, is_root, is_table_of, kernel_kept, lemma_leaf_entry, lookup, mapped, is_inner_table, lemma_taken_less, lemma_taken_none, lemma_taken_pages, lemma_taken_trans, page_count, pg_roundup, set_frame, tables_grown, taken_but, translate, unmapped, user_byte, written, PageTable, PGSIZE, PTE, child, index_of, leaf_of, lemma_missing, lemma_tables_some, missing, own_only, lemma_written_maps,
};
use crate::vm::{map_kernel, only_mapped, page_range, pages_same, stack_pages, stacks_mapped};

pub mod context;
pub mod cpu;
pub mod kernel_stack;
pub mod laws;
pub mod memory;
pub mod mycpu;
pub mod process;
pub mod table;
pub mod trapframe;

verus! {

/// Mapping pages for the supervisor leaves all other page tables alone.
pub proof fn lemma_safe_mapped(s0: Seq<Frame>, s1: Seq<Frame>, root: int, vp: int, pa: int, flags: u64, n: int)
    requires
        crate::allocator::frames_wf(s0),
        mapped(s0, s1, root, vp, pa, flags, n),
        crate::riscv::paging::roots_kept(s0, s1),
        crate::allocator::data_kept(s0, s1),
        crate::riscv::paging::owned_kept(s0, s1),
        crate::riscv::paging::others_kept(s0, s1, pa, 0),
    ensures
        others_safe(s0, s1, root),
{
    reveal(kernel_kept);
    assert forall|r: int, va: int| is_root(s0, r) && own_only(s0, r) && r != root implies #[trigger] user_byte(s1, r, va) == user_byte(s0, r, va) by {
        if is_page(va / 4096) {
            assert(lookup(s1, r, va / 4096) == lookup(s0, r, va / 4096));
        }
        lemma_user_bytes(s0, s1, r, va);
    }
}

/// A mapping without the user bit is a supervisor page.
proof fn lemma_supervisor_leaf(ram: Seq<Frame>, root: int, vp: int, pa: u64, flags: u64)
    requires
        lookup(ram, root, vp) == Some(PTE::leaf(pa, flags)),
        pa < 0x100_0000_0000_0000,
        flags == PTE::R | PTE::X || flags == PTE::R | PTE::W,
    ensures
        supervisor_page(ram, root, vp),
{
    assert((2u64 | 8) & 0x3ff == (2 | 8) && (2u64 | 4) & 0x3ff == (2 | 4) && (2u64 | 8) & 16 == 0 && (2u64 | 4) & 16 == 0 && (2u64 | 8)
        | 1 != 1 && (2u64 | 4) | 1 != 1) by (bit_vector);
    lemma_leaf_entry(pa, flags);
}

/// Makes the page table of a process that has no memory yet. The trampoline and the trap
/// frame are mapped at the top of the address space, for the supervisor alone. It fails only
/// when no page is left.
#[verifier::rlimit(100)]
#[verifier::spinoff_prover]
pub fn allocate_pagetable(a: &mut KernelAllocator, trampoline: u64, trapframe: u64) -> (r: Result<PageTable, ()>)
    requires
        old(a).wf(),
        trampoline <= 0xff_ffff_ffff_0000,
        trapframe <= 0xff_ffff_ffff_0000,
    ensures
        final(a).wf(),
        final(a).end() == old(a).end(),
        match r {
            Ok(this) => {
                &&& old(a).frames()[this.root()] is Free
                &&& is_frame(this.root())
                &&& memory_wf(final(a).frames(), this.root(), 0)
                &&& lookup(final(a).frames(), this.root(), trampoline_page()) == Some(PTE::leaf(trampoline, PTE::R | PTE::X))
                &&& lookup(final(a).frames(), this.root(), trapframe_page()) == Some(PTE::leaf(trapframe, PTE::R | PTE::W))
                &&& others_safe(old(a).frames(), final(a).frames(), this.root())
                &&& final(a).free().len() + 3 >= old(a).free().len()
                &&& taken_but(old(a).frames(), final(a).frames(), set![this.root()])
            },
            Err(_) => {
                &&& old(a).free().len() < 3
                &&& taken_but(old(a).frames(), final(a).frames(), Set::empty())
                &&& others_safe(old(a).frames(), final(a).frames(), -1)
            },
        },
{
    let ghost a0 = *a;
    proof {
        crate::memory_layout::layout_facts();
        lemma_safe_same(a0.frames(), -1);
    }
    let pagetable = match PageTable::allocate(a) {
        Ok(pagetable) => pagetable,
        Err(_) => {
            proof {
                lemma_taken_none(a0.frames(), a0.frames());
            }
            return Err(());
        },
    };
    let ghost root = pagetable.root();
    let ghost a1 = *a;
    let ghost mine: Set<int> = set![root];
    proof {
        a0.lemma_first_free();
        lemma_safe_grown(a0.frames(), a1.frames(), root);
        assert(taken_but(a0.frames(), a1.frames(), mine)) by {
            reveal(taken_but);
        }
        assert(mine.union(Set::empty()) =~= mine);
    }
    proof {
        lemma_tables_some(a1.frames(), root, trampoline_page(), 1);
    }
    if map_top(a, &pagetable, TRAMPOLINE, trampoline, PTE::R | PTE::X).is_err() {
        let ghost a2 = *a;
        proof {
            lemma_safe_trans(a0.frames(), a1.frames(), a2.frames(), root);
            lemma_taken_trans(a0.frames(), a1.frames(), a2.frames(), mine, Set::empty());
            assert forall|vp: int| is_page(vp) implies (#[trigger] lookup(a2.frames(), root, vp)) is None by {
                assert(lookup(a1.frames(), root, vp) is None);
            }
        }
        drop_table(a, pagetable, Ghost(a0));
        proof {
            lemma_taken_trans(a0.frames(), a2.frames(), a.frames(), mine, Set::empty());
            lemma_taken_less(a0.frames(), a.frames(), mine, Set::empty());
        }
        return Err(());
    }
    let ghost a2 = *a;
    proof {
        lemma_safe_trans(a0.frames(), a1.frames(), a2.frames(), root);
        lemma_taken_trans(a0.frames(), a1.frames(), a2.frames(), mine, Set::empty());
        assert forall|vp: int| is_page(vp) && vp != trampoline_page() implies (#[trigger] lookup(a2.frames(), root, vp)) is None by {
            assert(lookup(a1.frames(), root, vp) is None);
        }
        lemma_top_tables(a2.frames(), root);
    }
    if map_top(a, &pagetable, TRAPFRAME, trapframe, PTE::R | PTE::W).is_err() {
        let ghost a3 = *a;
        proof {
            lemma_safe_trans(a0.frames(), a2.frames(), a3.frames(), root);
            lemma_taken_trans(a0.frames(), a2.frames(), a3.frames(), mine, Set::empty());
            assert(lookup(a3.frames(), root, trampoline_page()) == lookup(a2.frames(), root, trampoline_page()));
        }
        pagetable.unmap(a, TRAMPOLINE, 1, false);
        let ghost a4 = *a;
        proof {
            lemma_taken_none(a3.frames(), a4.frames());
            lemma_taken_trans(a0.frames(), a3.frames(), a4.frames(), mine, Set::empty());
            lemma_safe_unmapped(a3.frames(), a4.frames(), root, trampoline_page(), 1);
            lemma_safe_trans(a0.frames(), a3.frames(), a4.frames(), root);
            assert forall|vp: int| is_page(vp) implies (#[trigger] lookup(a4.frames(), root, vp)) is None by {
                if vp != trampoline_page() {
                    assert(lookup(a2.frames(), root, vp) is None);
                    assert(lookup(a3.frames(), root, vp) == lookup(a2.frames(), root, vp));
                }
            }
        }
        drop_table(a, pagetable, Ghost(a0));
        proof {
            lemma_taken_trans(a0.frames(), a4.frames(), a.frames(), mine, Set::empty());
            lemma_taken_less(a0.frames(), a.frames(), mine, Set::empty());
        }
        return Err(());
    }
    proof {
        let s = a.frames();
        lemma_safe_trans(a0.frames(), a2.frames(), s, root);
        lemma_taken_trans(a0.frames(), a2.frames(), s, mine, Set::empty());
        assert(lookup(s, root, trampoline_page()) == lookup(a2.frames(), root, trampoline_page()));
        assert forall|vp: int| 0 <= vp < trapframe_page() implies (#[trigger] lookup(s, root, vp)) is None by {
            assert(lookup(a2.frames(), root, vp) is None);
        }
        assert(page_count(0) == 0);
    }
    Ok(pagetable)
}

/// The trap frame is mapped in the same tables as the trampoline.
proof fn lemma_top_tables(ram: Seq<Frame>, root: int)
    requires
        lookup(ram, root, trampoline_page()) is Some,
    ensures
        missing(ram, root, trapframe_page()) == 0,
{
    crate::memory_layout::layout_facts();
    lemma_missing(ram, root, trampoline_page(), trapframe_page());
}

/// Maps one page for the supervisor. It fails only when no page is left for a table.
#[verifier::rlimit(40)]
fn map_top(a: &mut KernelAllocator, pagetable: &PageTable, va: u64, pa: u64, flags: u64) -> (r: Result<(), ()>)
    requires
        old(a).wf(),
        pagetable.wf(old(a)),
        va as int % 4096 == 0,
        va + 4096 <= 0x40_0000_0000,
        pa <= 0xff_ffff_ffff_0000,
        flags == PTE::R | PTE::X || flags == PTE::R | PTE::W,
        lookup(old(a).frames(), pagetable.root(), va as int / 4096) is None,
    ensures
        final(a).wf(),
        final(a).end() == old(a).end(),
        pagetable.wf(final(a)),
        others_safe(old(a).frames(), final(a).frames(), pagetable.root()),
        taken_but(old(a).frames(), final(a).frames(), Set::empty()),
        forall|vp: int| is_page(vp) && vp != va as int / 4096 ==> #[trigger] lookup(final(a).frames(), pagetable.root(), vp) == lookup(
            old(a).frames(),
            pagetable.root(),
            vp,
        ),
        final(a).free().len() + missing(old(a).frames(), pagetable.root(), va as int / 4096) >= old(a).free().len(),
        match r {
            Ok(_) => {
                &&& lookup(final(a).frames(), pagetable.root(), va as int / 4096) == Some(PTE::leaf(pa, flags))
                &&& supervisor_page(final(a).frames(), pagetable.root(), va as int / 4096)
            },
            Err(_) => {
                &&& lookup(final(a).frames(), pagetable.root(), va as int / 4096) is None
                &&& old(a).free().len() < missing(old(a).frames(), pagetable.root(), va as int / 4096)
            },
        },
{
    let ghost s0 = a.frames();
    let ghost root = pagetable.root();
    let ghost vp = va as int / 4096;
    proof {
        assert((2u64 | 8) & 0x3ff == (2 | 8) && (2u64 | 4) & 0x3ff == (2 | 4) && (2u64 | 8) & 16 == 0 && (2u64 | 4) & 16 == 0) by (bit_vector);
        assert(lookup(s0, root, vp + 0) is None);
        lemma_tables_some(s0, root, vp, 1);
    }
    let r = pagetable.map(a, va, pa, PGSIZE, flags);
    proof {
        let s1 = a.frames();
        let n = if r is Ok {
            1
        } else {
            choose|n: int| 0 <= n < 1 && #[trigger] mapped(s0, s1, root, vp, pa as int, flags, n)
        };
        lemma_taken_pages(s0, s1, root, vp, 0);
        lemma_safe_mapped(s0, s1, root, vp, pa as int, flags, n);
        if r is Ok {
            assert(lookup(s1, root, vp + 0) == Some(PTE::leaf((pa + 0 * 4096) as u64, flags)));
            lemma_supervisor_leaf(s1, root, vp, pa, flags);
        } else {
            assert(lookup(s1, root, vp) == lookup(s0, root, vp));
        }
    }
    r
}

/// Nothing changed.
pub proof fn lemma_safe_same(s: Seq<Frame>, root: int)
    ensures
        others_safe(s, s, root),
{
    reveal(kernel_kept);
}

/// A new page table leaves the others alone.
pub proof fn lemma_safe_grown(s0: Seq<Frame>, s1: Seq<Frame>, root: int)
    requires
        crate::allocator::frames_wf(s0),
        tables_grown(s0, s1),
    ensures
        others_safe(s0, s1, root),
{
    reveal(kernel_kept);
    assert forall|r: int, va: int| is_root(s0, r) && own_only(s0, r) && r != root implies #[trigger] user_byte(s1, r, va) == user_byte(s0, r, va) by {
        if is_page(va / 4096) {
            assert(lookup(s1, r, va / 4096) == lookup(s0, r, va / 4096));
        }
        lemma_user_bytes(s0, s1, r, va);
    }
    assert forall|r: int, vp: int| is_root(s0, r) && r != root && is_page(vp) && #[trigger] is_owned(s0, r, vp) implies is_owned(s1, r, vp) by {
        assert(lookup(s1, r, vp) == lookup(s0, r, vp));
    }
}

/// Removing mappings to memory that is not freed leaves the others alone.
proof fn lemma_safe_unmapped(s0: Seq<Frame>, s1: Seq<Frame>, root: int, vp: int, n: int)
    requires
        crate::allocator::frames_wf(s0),
        unmapped(s0, s1, root, vp, n),
        forall|q: int| is_frame(q) && !(#[trigger] s0[q] is Table) ==> s1[q] == s0[q],
    ensures
        others_safe(s0, s1, root),
{
    reveal(kernel_kept);
    assert forall|r: int, va: int| is_root(s0, r) && own_only(s0, r) && r != root implies #[trigger] user_byte(s1, r, va) == user_byte(s0, r, va) by {
        if is_page(va / 4096) {
            assert(lookup(s1, r, va / 4096) == lookup(s0, r, va / 4096));
        }
        lemma_user_bytes(s0, s1, r, va);
    }
}

/// Frees a page table in which nothing is mapped.
fn drop_table(a: &mut KernelAllocator, pagetable: PageTable, Ghost(a0): Ghost<KernelAllocator>)
    requires
        old(a).wf(),
        pagetable.wf(old(a)),
        forall|vp: int| is_page(vp) ==> (#[trigger] lookup(old(a).frames(), pagetable.root(), vp)) is None,
        others_safe(a0.frames(), old(a).frames(), pagetable.root()),
    ensures
        final(a).wf(),
        final(a).end() == old(a).end(),
        others_safe(a0.frames(), final(a).frames(), pagetable.root()),
        !is_root(a0.frames(), pagetable.root()) ==> others_safe(a0.frames(), final(a).frames(), -1),
        !is_root(final(a).frames(), pagetable.root()),
        final(a).frames()[pagetable.root()] is Free,
        taken_but(old(a).frames(), final(a).frames(), Set::empty()),
        forall|p: int| is_frame(p) && #[trigger] old(a).frames()[p] is Free ==> final(a).frames()[p] is Free,
        final(a).free().len() > old(a).free().len(),
{
    let ghost a1 = *a;
    let ghost root = pagetable.root();
    pagetable.drop(a);
    proof {
        reveal(kernel_kept);
        let s0 = a1.frames();
        let s1 = a.frames();
        assert(is_table_of(s0, root, root));
        assert(s1[root] is Free);
        assert forall|p: int| is_frame(p) && #[trigger] s0[p] is Free implies s1[p] is Free by {
            if !is_table_of(s0, root, p) {
                assert(s1[p] == s0[p]);
            }
        }
        assert(taken_but(s0, s1, Set::empty())) by {
            reveal(taken_but);
            assert forall|p: int|
                #![trigger s0[p]]
                is_frame(p) && (s0[p] is Free || is_inner_table(s0, p)) implies s1[p] is Free || is_inner_table(s1, p) by {
                if !is_table_of(s0, root, p) {
                    assert(s1[p] == s0[p]);
                }
            }
        }
        assert forall|p: int| is_frame(p) && #[trigger] s0[p] is Data implies s1[p] == s0[p] by {
            if is_table_of(s0, root, p) {
                crate::riscv::paging::lemma_tree_tables(s0, root, 2, p);
            }
        }
        assert forall|r: int, va: int| is_root(s0, r) && own_only(s0, r) && r != root implies #[trigger] user_byte(s1, r, va) == user_byte(s0, r, va) by {
            if is_page(va / 4096) {
                assert(lookup(s1, r, va / 4096) == lookup(s0, r, va / 4096));
            }
            lemma_user_bytes(s0, s1, r, va);
        }
        assert forall|r: int, vp: int| is_root(s0, r) && r != root && is_page(vp) && #[trigger] is_owned(s0, r, vp) implies is_owned(s1, r, vp) by {
            assert(lookup(s1, r, vp) == lookup(s0, r, vp));
        }
        lemma_safe_trans(a0.frames(), s0, s1, root);
        let s = a0.frames();
        if !is_root(s, root) {
            assert forall|r: int| #[trigger] is_root(s, r) implies r != root by {}
        }
    }
}

/// Frees the memory of a process, `size` bytes, and its page table.
#[verifier::rlimit(60)]
pub fn free_pagetable(a: &mut KernelAllocator, pagetable: PageTable, size: u64)
    requires
        old(a).wf(),
        memory_wf(old(a).frames(), pagetable.root(), size as int),
    ensures
        final(a).wf(),
        final(a).end() == old(a).end(),
        others_safe(old(a).frames(), final(a).frames(), pagetable.root()),
        !is_root(final(a).frames(), pagetable.root()),
        final(a).frames()[pagetable.root()] is Free,
        taken_but(old(a).frames(), final(a).frames(), Set::empty()),
        forall|vp: int| 0 <= vp < page_count(size as int) ==> final(a).frames()[#[trigger] frame_of(old(a).frames(), pagetable.root(), vp)] is Free,
        final(a).free().len() > old(a).free().len() + page_count(size as int),
{
    let ghost a0 = *a;
    let ghost root = pagetable.root();
    proof {
        crate::memory_layout::layout_facts();
        assert(supervisor_page(a0.frames(), root, trampoline_page()));
        assert(supervisor_page(a0.frames(), root, trapframe_page()));
    }
    pagetable.unmap(a, TRAMPOLINE, 1, false);
    let ghost a1 = *a;
    proof {
        lemma_safe_unmapped(a0.frames(), a1.frames(), root, trampoline_page(), 1);
        assert(lookup(a1.frames(), root, trapframe_page()) == lookup(a0.frames(), root, trapframe_page()));
    }
    pagetable.unmap(a, TRAPFRAME, 1, false);
    let ghost a2 = *a;
    proof {
        lemma_safe_unmapped(a1.frames(), a2.frames(), root, trapframe_page(), 1);
        lemma_safe_trans(a0.frames(), a1.frames(), a2.frames(), root);
        assert forall|vp: int| 0 <= vp < trapframe_page() implies #[trigger] lookup(a2.frames(), root, vp) == lookup(a0.frames(), root, vp) by {
            assert(lookup(a1.frames(), root, vp) == lookup(a0.frames(), root, vp));
        }
        assert forall|vp: int| 0 <= vp < page_count(size as int) implies #[trigger] own_page(a2.frames(), root, vp) by {
            assert(own_page(a0.frames(), root, vp));
            assert(is_owned(a0.frames(), root, vp));
            assert(is_owned(a1.frames(), root, vp));
            assert(lookup(a2.frames(), root, vp) == lookup(a0.frames(), root, vp));
        }
        assert(lookup(a2.frames(), root, trampoline_page()) == lookup(a1.frames(), root, trampoline_page()));
        lemma_taken_none(a0.frames(), a1.frames());
        lemma_taken_none(a1.frames(), a2.frames());
        lemma_taken_trans(a0.frames(), a1.frames(), a2.frames(), Set::empty(), Set::empty());
        assert(Set::<int>::empty().union(Set::empty()) =~= Set::<int>::empty());
    }
    if size > 0 {
        let npages = pg_roundup(size) / PGSIZE;
        proof {
            assert(npages == page_count(size as int));
            assert forall|vp: int| 0 <= vp < npages implies (#[trigger] lookup(a2.frames(), root, vp)) is Some && lookup(a2.frames(), root, vp)->0.flags()
                != PTE::V by {
                assert(own_page(a2.frames(), root, vp));
            }
            assert forall|vp: int| 0 <= vp < npages implies #[trigger] is_owned(a2.frames(), root, vp) by {
                assert(own_page(a2.frames(), root, vp));
            }
        }
        pagetable.unmap(a, 0, npages, true);
        proof {
            lemma_safe_freed(a2, *a, root, 0, npages as int);
            lemma_safe_trans(a0.frames(), a2.frames(), a.frames(), root);
            lemma_free_stays(a2, *a, root, 0, npages as int);
            lemma_taken_none(a2.frames(), a.frames());
            lemma_taken_trans(a0.frames(), a2.frames(), a.frames(), Set::empty(), Set::empty());
        }
    }
    let ghost a3 = *a;
    proof {
        assert forall|vp: int| 0 <= vp < page_count(size as int) implies a3.frames()[#[trigger] frame_of(a0.frames(), root, vp)] is Free
            && is_frame(frame_of(a0.frames(), root, vp)) by {
            assert(own_page(a2.frames(), root, vp));
            assert(is_owned(a2.frames(), root, vp));
            assert(lookup(a2.frames(), root, vp) == lookup(a0.frames(), root, vp));
            assert(frame_of(a2.frames(), root, vp) == frame_of(a0.frames(), root, vp));
        }
        assert forall|vp: int| is_page(vp) implies (#[trigger] lookup(a.frames(), root, vp)) is None by {
            if vp >= page_count(size as int) {
                if vp < trapframe_page() {
                    assert(lookup(a0.frames(), root, vp) is None);
                    assert(lookup(a2.frames(), root, vp) == lookup(a0.frames(), root, vp));
                }
                assert(lookup(a2.frames(), root, vp) is None);
                if size > 0 {
                    assert(lookup(a.frames(), root, vp) == lookup(a2.frames(), root, vp));
                }
            }
        }
    }
    drop_table(a, pagetable, Ghost(a0));
    proof {
        lemma_taken_trans(a0.frames(), a3.frames(), a.frames(), Set::empty(), Set::empty());
    }
}

/// Freed pages are free, and what was free stays so.
pub proof fn lemma_free_stays(a0: KernelAllocator, a1: KernelAllocator, root: int, vp0: int, n: int)
    requires
        a0.wf(),
        a1.wf(),
        0 <= n,
        a1.free() == frames_back(a0.frames(), root, vp0, n) + a0.free(),
    ensures
        forall|p: int| is_frame(p) && #[trigger] a0.frames()[p] is Free ==> a1.frames()[p] is Free,
        forall|vp: int| vp0 <= vp < vp0 + n ==> a1.frames()[#[trigger] frame_of(a0.frames(), root, vp)] is Free,
{
    assert forall|p: int| is_frame(p) && #[trigger] a0.frames()[p] is Free implies a1.frames()[p] is Free by {
        let k = choose|k: int| 0 <= k < a0.free().len() && a0.free()[k] == p;
        assert(a1.free()[n + k] == p);
    }
    assert forall|vp: int| vp0 <= vp < vp0 + n implies a1.frames()[#[trigger] frame_of(a0.frames(), root, vp)] is Free by {
        assert(a1.free()[vp0 + n - 1 - vp] == frame_of(a0.frames(), root, vp));
    }
}

/// Freeing the memory of one process leaves the others alone.
pub proof fn lemma_safe_freed(a0: KernelAllocator, a1: KernelAllocator, root: int, vp0: int, n: int)
    requires
        a0.wf(),
        a1.wf(),
        is_root(a0.frames(), root),
        0 <= n,
        0 <= vp0,
        vp0 + n <= trapframe_page(),
        forall|vp: int| vp0 <= vp < vp0 + n ==> #[trigger] is_owned(a0.frames(), root, vp),
        unmapped(a0.frames(), a1.frames(), root, vp0, n),
        a1.free() == frames_back(a0.frames(), root, vp0, n) + a0.free(),
        forall|q: int|
            is_frame(q) && (#[trigger] a0.frames()[q] is Data || a0.frames()[q] is Reserved) && !a1.free().contains(q) ==> a1.frames()[q]
                == a0.frames()[q],
    ensures
        others_safe(a0.frames(), a1.frames(), root),
        forall|va: int|
            0 <= va / 4096 < trapframe_page() && !(vp0 <= va / 4096 < vp0 + n) && is_owned(a0.frames(), root, va / 4096) ==> #[trigger] user_byte(
                a1.frames(),
                root,
                va,
            ) == user_byte(a0.frames(), root, va),
{
    reveal(kernel_kept);
    let s0 = a0.frames();
    let s1 = a1.frames();
    assert forall|q: int| is_frame(q) && s0[q] is Data && #[trigger] a1.free().contains(q) implies exists|vp: int|
        vp0 <= vp < vp0 + n && q == #[trigger] frame_of(s0, root, vp) by {
        let k = choose|k: int| 0 <= k < a1.free().len() && a1.free()[k] == q;
        if k < n {
            assert(q == frame_of(s0, root, vp0 + n - 1 - k));
        } else {
            assert(a1.free()[k] == a0.free()[k - n]);
            assert(s0[a0.free()[k - n]] is Free);
        }
    }
    assert forall|r: int, va: int| is_root(s0, r) && own_only(s0, r) && r != root implies #[trigger] user_byte(s1, r, va) == user_byte(s0, r, va) by {
        let vp = va / 4096;
        if is_page(vp) {
            assert(lookup(s1, r, vp) == lookup(s0, r, vp));
            let t = crate::riscv::paging::translate(s0, r, vp);
            if t is Some {
                crate::riscv::paging::lemma_translate(s0, r, vp);
                let q = t->0;
                assert(s0[q] is Data);
                if a1.free().contains(q) {
                    let v2 = choose|v2: int| vp0 <= v2 < vp0 + n && q == #[trigger] frame_of(s0, root, v2);
                    assert(is_owned(s0, root, v2));
                    assert(is_owned(s0, r, vp));
                    crate::riscv::paging::lemma_owned_injective(s0, root, v2, r, vp);
                }
            }
        }
    }
    assert forall|va: int|
        0 <= va / 4096 < trapframe_page() && !(vp0 <= va / 4096 < vp0 + n) && is_owned(s0, root, va / 4096) implies #[trigger] user_byte(
        s1,
        root,
        va,
    ) == user_byte(s0, root, va) by {
        let vp = va / 4096;
        let q = frame_of(s0, root, vp);
        assert(lookup(s1, root, vp) == lookup(s0, root, vp));
        assert(s0[q] is Data);
        if a1.free().contains(q) {
            let v2 = choose|v2: int| vp0 <= v2 < vp0 + n && q == #[trigger] frame_of(s0, root, v2);
            assert(is_owned(s0, root, v2));
            crate::riscv::paging::lemma_owned_injective(s0, root, v2, root, vp);
        }
    }
    assert forall|p: int| is_frame(p) && #[trigger] s0[p] is Data && s0[p]->owner@ == None::<(int, int)> implies s1[p] == s0[p] by {
        if a1.free().contains(p) {
            let v2 = choose|v2: int| vp0 <= v2 < vp0 + n && p == #[trigger] frame_of(s0, root, v2);
            assert(is_owned(s0, root, v2));
        }
    }
}


/// Maps all kernel stacks, none of which is mapped yet: takes a page for each. There must be
/// enough free pages.
#[verifier::rlimit(40)]
pub fn initialize_kstack(a: &mut KernelAllocator, pagetable: &PageTable)
    requires
        old(a).wf(),
        pagetable.wf(old(a)),
        old(a).free().len() >= NPROC + missing(old(a).frames(), pagetable.root(), kstack_spec(0) / 4096),
        forall|i: int| 0 <= i < NPROC ==> lookup(old(a).frames(), pagetable.root(), #[trigger] kstack_spec(i) / 4096) is None,
    ensures
        final(a).wf(),
        final(a).end() == old(a).end(),
        pagetable.wf(final(a)),
        exists|pas: Seq<u64>| #[trigger] stacks_mapped(final(a).frames(), pagetable.root(), pas, NPROC as int),
        pages_same(old(a).frames(), final(a).frames(), pagetable.root(), stack_pages(NPROC as int).complement()),
        others_safe(old(a).frames(), final(a).frames(), pagetable.root()),
{
    let ghost s0 = a.frames();
    let ghost root = pagetable.root();
    let ghost mut pas: Seq<u64> = Seq::empty();
    let ghost tables = missing(s0, root, kstack_spec(0) / 4096);
    let ghost pages: Set<int> = stack_pages(NPROC as int).complement();
    let ghost mut done: Set<int> = pages;
    proof {
        lemma_tables_some(s0, root, kstack_spec(0) / 4096, 1);
        assert forall|vp: int| is_page(vp) && !pages.contains(vp) implies (#[trigger] lookup(s0, root, vp)) is None by {
            let k = choose|k: int| 0 <= k < NPROC && vp == #[trigger] kstack_spec(k) / 4096;
            assert(lookup(s0, root, kstack_spec(k) / 4096) is None);
        }
        lemma_safe_same(s0, root);
        assert(stacks_mapped(s0, root, pas, 0));
        assert(pages.union(stack_pages(0)) =~= pages);
    }
    let mut i: usize = 0;
    while i < NPROC
        invariant
            i <= NPROC,
            a.wf(),
            a.end() == old(a).end(),
            pagetable.wf(a),
            root == pagetable.root(),
            a.free().len() + i + (if i == 0 { 0 } else { tables }) >= NPROC + tables,
            tables == missing(s0, root, kstack_spec(0) / 4096),
            i == 0 ==> a.frames() == s0,
            0 <= tables <= 2,
            done == pages.union(stack_pages(i as int)),
            only_mapped(a.frames(), root, done),
            forall|k: int| 0 <= k < NPROC ==> !pages.contains(#[trigger] kstack_spec(k) / 4096),
            stacks_mapped(a.frames(), root, pas, i as int),
            pages_same(s0, a.frames(), root, pages),
            others_safe(s0, a.frames(), root),
            crate::allocator::frames_wf(s0),
            s0 == old(a).frames(),
        decreases NPROC - i,
    {
        let ghost a1 = *a;
        let ghost s1 = a.frames();
        let memory = match a.allocate_page() {
            Some(pa) => pa,
            None => 0,
        };
        let ghost s2 = a.frames();
        let va = kstack(i);
        proof {
            let p = crate::allocator::frame_at(memory as int);
            crate::process::process::lemma_page_taken(s1, s2, p);
            assert(others_safe(s1, s2, root));
            crate::riscv::paging::lemma_same_tables(s1, s2);
            crate::memory_layout::lemma_kstack_index(i as int);
            assert forall|vp: int| is_page(vp) && !done.contains(vp) implies (#[trigger] lookup(s2, root, vp)) is None by {
                assert(lookup(s1, root, vp) is None);
            }
            assert(kstack_spec(i as int) / 4096 == 0x3ff_ffff - 2 * (i + 1));
            let vp = kstack_spec(i as int) / 4096;
            if i > 0 {
                let near = kstack_spec(i - 1) / 4096;
                assert(near == 0x3ff_ffff - 2 * i);
                assert(lookup(s1, root, kstack_spec(i - 1) / 4096) is Some);
                assert(is_page(near));
                assert(lookup(s2, root, near) == lookup(s1, root, near));
                lemma_missing(s2, root, near, vp);
            } else {
                assert(is_page(vp));
                assert(leaf_of(s2, root, vp) == leaf_of(s1, root, vp));
                assert(missing(s2, root, vp) == missing(s1, root, vp)) by {
                    reveal(missing);
                    assert(child(s2, root, index_of(2, vp)) == child(s1, root, index_of(2, vp)));
                }
            }
            lemma_tables_some(s2, root, vp, 1);
            assert forall|vp: int| #[trigger] page_range(va as int, 4096).contains(vp) implies !done.contains(vp) by {
                assert(vp == kstack_spec(i as int) / 4096);
                if stack_pages(i as int).contains(vp) {
                    let k = choose|k: int| 0 <= k < i && vp == #[trigger] kstack_spec(k) / 4096;
                    assert(kstack_spec(k) / 4096 == 0x3ff_ffff - 2 * (k + 1));
                }
            }
        }
        map_kernel(a, pagetable, va, memory, PGSIZE, PTE::R | PTE::W, Ghost(done));
        proof {
            let s3 = a.frames();
            reveal(kernel_kept);
            lemma_safe_trans(s1, s2, s3, root);
            lemma_safe_trans(s0, s1, s3, root);
            let vpi = kstack_spec(i as int) / 4096;
            assert(lookup(s3, root, va as int / 4096 + 0) == Some(PTE::leaf((memory + 0 * 4096) as u64, PTE::R | PTE::W)));
            let pas1 = pas.push(memory);
            assert forall|k: int| 0 <= k < i + 1 implies lookup(s3, root, #[trigger] kstack_spec(k) / 4096) == Some(
                PTE::leaf(pas1[k], PTE::R | PTE::W),
            ) by {
                if k < i {
                    assert(kstack_spec(k) / 4096 == 0x3ff_ffff - 2 * (k + 1));
                    assert(stack_pages(i as int).contains(kstack_spec(k) / 4096));
                    assert(done.contains(kstack_spec(k) / 4096));
                    assert(is_page(kstack_spec(k) / 4096));
                    assert(lookup(s2, root, kstack_spec(k) / 4096) == lookup(s1, root, kstack_spec(k) / 4096));
                }
            }
            assert forall|k: int| 0 <= k < i + 1 implies crate::process::process::is_kernel_page(s3, #[trigger] pas1[k] as int) by {
                if k < i {
                    assert(crate::process::process::is_kernel_page(s1, pas[k] as int));
                }
            }
            assert(pas1.no_duplicates()) by {
                assert forall|k: int| 0 <= k < i implies #[trigger] pas[k] != memory by {
                    assert(crate::process::process::is_kernel_page(s1, pas[k] as int));
                }
            }
            assert forall|vp: int| is_page(vp) && pages.contains(vp) implies #[trigger] lookup(s3, root, vp) == lookup(s0, root, vp) by {
                assert(done.contains(vp));
                assert(lookup(s3, root, vp) == lookup(s2, root, vp));
                assert(lookup(s2, root, vp) == lookup(s1, root, vp));
            }
            let done1 = done.union(page_range(va as int, 4096));
            assert(done1 =~= pages.union(stack_pages(i + 1))) by {
                assert forall|vp: int| done1.contains(vp) == pages.union(stack_pages(i + 1)).contains(vp) by {
                    if stack_pages(i as int).contains(vp) {
                        let k = choose|k: int| 0 <= k < i && vp == #[trigger] kstack_spec(k) / 4096;
                        assert(0 <= k < i + 1 && vp == kstack_spec(k) / 4096);
                    }
                    if page_range(va as int, 4096).contains(vp) {
                        assert(vp == kstack_spec(i as int) / 4096);
                    }
                    if stack_pages(i + 1).contains(vp) {
                        let k = choose|k: int| 0 <= k < i + 1 && vp == #[trigger] kstack_spec(k) / 4096;
                        if k < i {
                            assert(0 <= k < i && vp == kstack_spec(k) / 4096);
                        }
                    }
                }
            }
            pas = pas1;
            done = done1;
        }
        i = i + 1;
    }
}


/// The process that a CPU is about. `P` names a process.
pub enum Assigned<P> {
    Idle,
    Switching(P),
    Assigned(P),
}

impl<P> Assigned<P> {
    /// The process that the CPU runs.
    pub fn get(&self) -> (r: Option<&P>)
        ensures
            match r {
                Some(p) => *self == Assigned::Assigned(*p),
                None => !(self is Assigned),
            },
    {
        match self {
            Assigned::Assigned(process) => Some(process),
            _ => None,
        }
    }

    /// A context switch to or from the process begins.
    pub fn switch(&mut self, process: P)
        ensures
            *final(self) == Assigned::Switching(process),
    {
        *self = Assigned::Switching(process);
    }

    /// The context switch is complete.
    pub fn assign(&mut self)
        requires
            *old(self) is Switching,
        ensures
            *old(self) matches Assigned::Switching(p) && *final(self) == Assigned::Assigned(p),
    {
        let mut this = Assigned::Idle;
        core::mem::swap(self, &mut this);
        match this {
            Assigned::Switching(process) => {
                *self = Assigned::Assigned(process);
            },
            _ => {},
        }
    }

    /// The CPU is about no process any more.
    pub fn release(&mut self)
        ensures
            *final(self) == Assigned::<P>::Idle,
    {
        *self = Assigned::Idle;
    }
}

/// The number of the process in slot `current`.
pub fn id(table: &ProcessTable, current: Option<usize>) -> (r: Option<usize>)
    requires
        table.wf(),
        current matches Some(c) ==> c < NPROC,
    ensures
        r == match current {
            Some(c) => Some(table.procs@[c as int].pid),
            None => None,
        },
{
    match current {
        Some(c) => Some(table.procs[c].pid),
        None => None,
    }
}

/// Whether the process in slot `current` was told to end.
pub fn is_killed(table: &ProcessTable, current: Option<usize>) -> (r: Option<bool>)
    requires
        table.wf(),
        current matches Some(c) ==> c < NPROC,
    ensures
        r == match current {
            Some(c) => Some(table.procs@[c as int].killed),
            None => None,
        },
{
    match current {
        Some(c) => Some(table.procs[c].killed),
        None => None,
    }
}

/// Tells the process in slot `current` to end.
pub fn set_killed(table: &mut ProcessTable, current: Option<usize>) -> (r: Option<()>)
    requires
        old(table).wf(),
        current matches Some(c) ==> c < NPROC,
    ensures
        final(table).wf(),
        r is Some == current is Some,
        final(table).next_pid == old(table).next_pid,
        match current {
            Some(c) => final(table).procs@ == old(table).procs@.update(c as int, Process { killed: true, ..old(table).procs@[c as int] }),
            None => *final(table) == *old(table),
        },
{
    match current {
        Some(c) => {
            let ghost procs0 = table.procs@;
            table.procs[c].killed = true;
            proof {
                assert(table.procs@ =~= procs0.update(c as int, Process { killed: true, ..procs0[c as int] }));
                assert forall|k: int| 0 <= k < NPROC implies (#[trigger] table.procs@[k]).name@.len() == 16 by {
                    assert(procs0[k].name@.len() == 16);
                }
            }
            Some(())
        },
        None => None,
    }
}

/// Whether the process in slot `current` runs.
pub fn is_running(table: &ProcessTable, current: Option<usize>) -> (r: bool)
    requires
        table.wf(),
        current matches Some(c) ==> c < NPROC,
    ensures
        r == (current is Some && table.procs@[current->0 as int].state is Running),
{
    match current {
        Some(c) => table.procs[c].state.is_running(),
        None => false,
    }
}

/// The first kernel stack that is not in use.
pub fn allocate_kstack(used: &mut Bitmap<NPROC>) -> (r: Option<u64>)
    requires
        old(used).wf(),
    ensures
        final(used).wf(),
        match r {
            Some(addr) => exists|i: int| {
                &&& 0 <= i < NPROC
                &&& addr == #[trigger] kstack_spec(i)
                &&& !old(used)@[i]
                &&& forall|j: int| 0 <= j < i ==> #[trigger] old(used)@[j]
                &&& final(used)@ == old(used)@.update(i, true)
            },
            None => *final(used) == *old(used) && forall|j: int| 0 <= j < NPROC ==> #[trigger] old(used)@[j],
        },
{
    match used.allocate() {
        Some(i) => {
            let addr = kstack(i);
            proof {
                assert(addr == kstack_spec(i as int));
            }
            Some(addr)
        },
        None => None,
    }
}

/// Takes back a kernel stack. `Err` means that it was not in use.
pub fn deallocate_kstack(used: &mut Bitmap<NPROC>, addr: u64) -> (r: Result<(), ()>)
    requires
        old(used).wf(),
        exists|i: int| 0 <= i < NPROC && addr == #[trigger] kstack_spec(i),
    ensures
        final(used).wf(),
        exists|i: int| {
            &&& 0 <= i < NPROC
            &&& addr == #[trigger] kstack_spec(i)
            &&& r is Ok <==> old(used)@[i]
            &&& r is Ok ==> final(used)@ == old(used)@.update(i, false)
            &&& r is Err ==> final(used)@ == old(used)@
        },
{
    let ghost i = choose|i: int| 0 <= i < NPROC && addr == #[trigger] kstack_spec(i);
    proof {
        crate::memory_layout::lemma_kstack_index(i);
        assert(addr == kstack_spec(i));
    }
    used.deallocate(kstack_index(addr))
}

/// Reads `n` bytes of the memory of a process. `None` means that part of them lies outside of
/// it, or that user code may not access it.
pub fn read_memory(context: &ProcessContext, a: &KernelAllocator, addr: u64, n: usize) -> (r: Option<Vec<u8>>)
    requires
        a.wf(),
        context.wf(a),
    ensures
        r is Some <==> addr < context.sz && addr + n <= context.sz && accessible(
            a.frames(),
            context.pagetable.root(),
            addr as int,
            n as int,
        ),
        r matches Some(bytes) ==> bytes@.len() == n && forall|i: int| 0 <= i < n ==> user_byte(
            a.frames(),
            context.pagetable.root(),
            addr + i,
        ) == Some(#[trigger] bytes@[i]),
{
    let mem = ProcessMemory { pagetable: PageTable { table: context.pagetable.table }, size: context.sz };
    mem.read(a, addr, n)
}

/// Writes to the memory of a process. `false` means that user code may not access part of the
/// memory; the bytes before that part are written.
#[must_use]
pub fn write_memory(context: &ProcessContext, a: &mut KernelAllocator, addr: u64, value: &Vec<u8>) -> (r: bool)
    requires
        old(a).wf(),
        context.wf(old(a)),
    ensures
        final(a).wf(),
        context.wf(final(a)),
        final(a).end() == old(a).end(),
        final(a).free() == old(a).free(),
        r == accessible(old(a).frames(), context.pagetable.root(), addr as int, value@.len() as int),
        r ==> written(old(a).frames(), final(a).frames(), context.pagetable.root(), addr as int, value@),
        !r ==> exists|n: int| 0 <= n < value@.len() && #[trigger] written(
            old(a).frames(),
            final(a).frames(),
            context.pagetable.root(),
            addr as int,
            value@.take(n),
        ),
        others_safe(old(a).frames(), final(a).frames(), context.pagetable.root()),
{
    let ghost a0 = *a;
    let mem = ProcessMemory { pagetable: PageTable { table: context.pagetable.table }, size: context.sz };
    let r = mem.write(a, addr, value);
    proof {
        let root = context.pagetable.root();
        let bytes = if r {
            value@
        } else {
            value@.take(choose|n: int| 0 <= n < value@.len() && #[trigger] written(a0.frames(), a.frames(), root, addr as int, value@.take(n)))
        };
        lemma_safe_written(a0.frames(), a.frames(), root, addr as int, bytes, context.sz as int);
        context.lemma_kernel_page(a0.frames(), *a);
    }
    r
}

/// The kernel's memory from `addr` on, `n` bytes within one page.
pub open spec fn kernel_bytes(ram: Seq<Frame>, addr: int, n: int) -> Seq<u8> {
    ram[frame_at(addr - addr % 4096)]->bytes@.subrange(addr % 4096, addr % 4096 + n)
}

/// The `n` bytes from `addr` on lie within one page of ordinary memory.
pub open spec fn in_kernel_page(ram: Seq<Frame>, addr: int, n: int) -> bool {
    &&& is_frame_addr(addr - addr % 4096)
    &&& ram[frame_at(addr - addr % 4096)] is Data
    &&& addr % 4096 + n <= 4096
}

/// Copies bytes from either a user address, or a kernel address, depending on `user_src`.
/// `false` means that user code may not access part of them.
pub fn copyin_either(context: &ProcessContext, a: &KernelAllocator, dst: &mut Vec<u8>, user_src: bool, src: u64) -> (r: bool)
    requires
        a.wf(),
        context.wf(a),
        !user_src ==> in_kernel_page(a.frames(), src as int, old(dst)@.len() as int),
    ensures
        final(dst)@.len() == old(dst)@.len(),
        user_src ==> r == accessible(a.frames(), context.pagetable.root(), src as int, old(dst)@.len() as int),
        user_src && r ==> forall|i: int| 0 <= i < old(dst)@.len() ==> user_byte(a.frames(), context.pagetable.root(), src + i) == Some(
            #[trigger] final(dst)@[i],
        ),
        !user_src ==> r && final(dst)@ == kernel_bytes(a.frames(), src as int, old(dst)@.len() as int),
{
    if user_src {
        let ghost ram = a.frames();
        let ghost root = context.pagetable.root();
        match context.pagetable.read(a, dst, src) {
            Ok(_) => {
                proof {
                    assert forall|i: int| src <= i < src + dst@.len() implies (#[trigger] user_byte(ram, root, i)) is Some by {
                        assert(user_byte(ram, root, src + (i - src)) == Some(dst@[i - src]));
                    }
                }
                true
            },
            Err(k) => {
                proof {
                    assert(user_byte(ram, root, src + k) is None);
                }
                false
            },
        }
    } else {
        let n = dst.len();
        let at: usize = (src % PGSIZE) as usize;
        let p: usize = ((src - src % PGSIZE - KERNBASE) / PGSIZE) as usize;
        match &a.ram[p] {
            Frame::Data { bytes, .. } => {
                *dst = slice_of(bytes, at, n);
            },
            _ => {},
        }
        true
    }
}

/// Copies bytes to either a user address, or a kernel address, depending on `user_dst`. `false`
/// means that user code may not access part of the destination.
pub fn copyout_either(context: &ProcessContext, a: &mut KernelAllocator, user_dst: bool, dst: u64, src: &Vec<u8>) -> (r: bool)
    requires
        old(a).wf(),
        context.wf(old(a)),
        !user_dst ==> in_kernel_page(old(a).frames(), dst as int, src@.len() as int),
    ensures
        final(a).wf(),
        final(a).end() == old(a).end(),
        final(a).free() == old(a).free(),
        user_dst ==> r == accessible(old(a).frames(), context.pagetable.root(), dst as int, src@.len() as int),
        user_dst && r ==> written(old(a).frames(), final(a).frames(), context.pagetable.root(), dst as int, src@),
        !user_dst ==> {
            let p = frame_at(dst - dst as int % 4096);
            &&& r
            &&& final(a).frames()[p] is Data
            &&& final(a).frames()[p]->bytes@ == spliced(old(a).frames()[p]->bytes@, dst as int % 4096, src@)
            &&& forall|q: int| is_frame(q) && q != p ==> #[trigger] final(a).frames()[q] == old(a).frames()[q]
        },
{
    if user_dst {
        write_memory(context, a, dst, src)
    } else {
        let n = src.len();
        let at: usize = (dst % PGSIZE) as usize;
        let p: usize = ((dst - dst % PGSIZE - KERNBASE) / PGSIZE) as usize;
        let mut contents = get_frame(a, p);
        copy_into(&mut contents, at, src, 0, n);
        proof {
            assert(src@.subrange(0, n as int) =~= src@);
        }
        set_frame(a, p, contents);
        true
    }
}

/// The token on which a process waits for its children.
pub open spec fn child_token(i: int) -> usize {
    (0x1000_0000 + i) as usize
}

/// The token on which the process in slot `i` has to sleep while it waits for a child.
pub fn process_token(i: usize) -> (r: usize)
    requires
        i < NPROC,
    ensures
        r == child_token(i as int),
{
    0x1000_0000 + i
}

/// The running process in slot `cur` has begun to wait for `token`.
pub open spec fn slept(procs0: Seq<Process>, procs1: Seq<Process>, cur: int, token: usize) -> bool {
    procs0[cur].state matches ProcessState::Running(c) && procs1 == procs0.update(
        cur,
        Process { state: ProcessState::Sleeping(c, token), ..procs0[cur] },
    )
}

/// The running process in slot `cur` has given up the CPU.
pub open spec fn paused(procs0: Seq<Process>, procs1: Seq<Process>, cur: int) -> bool {
    procs0[cur].state matches ProcessState::Running(c) && procs1 == procs0.update(
        cur,
        Process { state: ProcessState::Runnable(c), ..procs0[cur] },
    )
}

/// What a step of the scheduler from slot `from` on makes of the table.
pub open spec fn scheduled(procs0: Seq<Process>, procs1: Seq<Process>, from: int, r: Option<usize>) -> bool {
    match r {
        Some(i) => {
            &&& from <= i < procs0.len()
            &&& forall|j: int| from <= j < i ==> !((#[trigger] procs0[j]).state is Runnable)
            &&& procs0[i as int].state matches ProcessState::Runnable(c) && procs1 == procs0.update(
                i as int,
                Process { state: ProcessState::Running(c), ..procs0[i as int] },
            )
        },
        None => {
            &&& procs1 == procs0
            &&& forall|j: int| from <= j < procs0.len() ==> !((#[trigger] procs0[j]).state is Runnable)
        },
    }
}

/// The running process gives up the CPU and waits for `token`.
pub fn sleep(table: &mut ProcessTable, current: usize, token: usize)
    requires
        old(table).wf(),
        current < NPROC,
        old(table).procs@[current as int].state is Running,
    ensures
        final(table).wf(),
        final(table).next_pid == old(table).next_pid,
        old(table).procs@[current as int].state matches ProcessState::Running(c) && final(table).procs@ == old(table).procs@.update(
            current as int,
            Process { state: ProcessState::Sleeping(c, token), ..old(table).procs@[current as int] },
        ),
        slept(old(table).procs@, final(table).procs@, current as int, token),
{
    let ghost procs0 = table.procs@;
    let _ = table.procs[current].state.sleep(token);
    proof {
        assert(table.procs@ =~= procs0.update(current as int, table.procs@[current as int]));
        assert forall|k: int| 0 <= k < NPROC implies (#[trigger] table.procs@[k]).name@.len() == 16 by {
            assert(procs0[k].name@.len() == 16);
        }
    }
}

/// Wakes all processes that wait for `token`.
pub fn wakeup(table: &mut ProcessTable, current: Option<usize>, token: usize)
    requires
        old(table).wf(),
    ensures
        final(table).wf(),
        final(table).next_pid == old(table).next_pid,
        forall|i: int| 0 <= i < NPROC ==> #[trigger] final(table).procs@[i] == if current != Some(i as usize) && waits_for(
            old(table).procs@[i],
            token,
        ) {
            woken(old(table).procs@[i])
        } else {
            old(table).procs@[i]
        },
        woke(old(table).procs@, final(table).procs@, token, current),
{
    table.wakeup(token, current);
}

/// The running process gives up the CPU for now.
pub fn pause(table: &mut ProcessTable, current: usize)
    requires
        old(table).wf(),
        current < NPROC,
        old(table).procs@[current as int].state is Running,
    ensures
        final(table).wf(),
        final(table).next_pid == old(table).next_pid,
        old(table).procs@[current as int].state matches ProcessState::Running(c) && final(table).procs@ == old(table).procs@.update(
            current as int,
            Process { state: ProcessState::Runnable(c), ..old(table).procs@[current as int] },
        ),
        paused(old(table).procs@, final(table).procs@, current as int),
{
    let ghost procs0 = table.procs@;
    let _ = table.procs[current].state.pause();
    proof {
        assert(table.procs@ =~= procs0.update(current as int, table.procs@[current as int]));
        assert forall|k: int| 0 <= k < NPROC implies (#[trigger] table.procs@[k]).name@.len() == 16 by {
            assert(procs0[k].name@.len() == 16);
        }
    }
}

/// From a process, which cannot run on, to the scheduler of its CPU. Interrupts must be off, and
/// only the lock of the process held. The result is whether interrupts were on before that, which
/// `back_from_scheduler` restores.
pub fn return_to_scheduler(
    slot: &mut Assigned<usize>,
    process: usize,
    table: &mut ProcessTable,
    contexts: &Vec<CPUContext>,
    cpu: usize,
    registers: &mut CPUContext,
    state: &InterruptState,
    enabled: bool,
) -> (intena: bool)
    requires
        old(table).wf(),
        process < NPROC,
        context_at(old(table).procs@, process as int) is Some,
        !(old(table).procs@[process as int].state is Running),
        contexts@.len() == NCPU,
        cpu < NCPU,
        !enabled,
        state.depth_of_disable == 1,
    ensures
        final(table).wf(),
        final(table).next_pid == old(table).next_pid,
        *final(slot) == Assigned::Switching(process),
        *final(registers) == contexts@[cpu as int],
        ({
            let p = old(table).procs@[process as int];
            let c = context_at(old(table).procs@, process as int)->0;
            final(table).procs@ == old(table).procs@.update(
                process as int,
                Process { state: p.state.with_context(ProcessContext { context: *old(registers), ..c }), ..p },
            )
        }),
        intena == state.is_enabled_before,
{
    let ghost procs0 = table.procs@;
    match table.procs[process].context() {
        Some(context) => {
            preemption(contexts, cpu, registers, &mut context.context);
        },
        None => {},
    }
    proof {
        assert(table.procs@ =~= procs0.update(process as int, table.procs@[process as int]));
        assert forall|k: int| 0 <= k < NPROC implies (#[trigger] table.procs@[k]).name@.len() == 16 by {
            assert(procs0[k].name@.len() == 16);
        }
    }
    slot.switch(process);
    is_enabled_before(state)
}

/// The process goes on after `return_to_scheduler`.
pub fn back_from_scheduler(slot: &mut Assigned<usize>, state: &mut InterruptState, intena: bool)
    requires
        *old(slot) is Switching,
    ensures
        *final(state) == (InterruptState { is_enabled_before: intena, ..*old(state) }),
        *old(slot) matches Assigned::Switching(process) && *final(slot) == Assigned::Assigned(process),
{
    set_enabled_before(state, intena);
    slot.assign();
}

/// One step of the scheduler, which goes round the table: the first process from slot `from` on
/// that can run begins to. `None` means that there is none up to the end of the table.
pub fn scheduler(table: &mut ProcessTable, from: usize) -> (r: Option<usize>)
    requires
        old(table).wf(),
        from <= NPROC,
    ensures
        final(table).wf(),
        final(table).next_pid == old(table).next_pid,
        match r {
            Some(i) => {
                &&& from <= i < NPROC
                &&& forall|j: int| from <= j < i ==> !((#[trigger] old(table).procs@[j]).state is Runnable)
                &&& old(table).procs@[i as int].state matches ProcessState::Runnable(c) && final(table).procs@ == old(table).procs@.update(
                    i as int,
                    Process { state: ProcessState::Running(c), ..old(table).procs@[i as int] },
                )
            },
            None => {
                &&& *final(table) == *old(table)
                &&& forall|j: int| from <= j < NPROC ==> !((#[trigger] old(table).procs@[j]).state is Runnable)
            },
        },
        scheduled(old(table).procs@, final(table).procs@, from as int, r),
{
    let mut i: usize = from;
    while i < NPROC
        invariant
            from <= i <= NPROC,
            table.wf(),
            *table == *old(table),
            forall|j: int| from <= j < i ==> !((#[trigger] table.procs@[j]).state is Runnable),
        decreases NPROC - i,
    {
        if table.procs[i].state.is_runnable() {
            let ghost procs0 = table.procs@;
            let _ = table.procs[i].state.run();
            proof {
                assert(table.procs@ =~= procs0.update(i as int, table.procs@[i as int]));
                assert forall|k: int| 0 <= k < NPROC implies (#[trigger] table.procs@[k]).name@.len() == 16 by {
                    assert(procs0[k].name@.len() == 16);
                }
            }
            return Some(i);
        }
        i = i + 1;
    }
    None
}

/// Tells a process to end. `false` means that there is none with this number.
pub fn kill(table: &mut ProcessTable, pid: usize) -> (r: bool)
    requires
        old(table).wf(),
    ensures
        final(table).wf(),
        final(table).next_pid == old(table).next_pid,
        r == exists|i: int| first_with_pid(old(table).procs@, pid, i),
        forall|i: int| 0 <= i < NPROC ==> #[trigger] final(table).procs@[i] == if first_with_pid(old(table).procs@, pid, i) {
            Process { killed: true, ..woken(old(table).procs@[i]) }
        } else {
            old(table).procs@[i]
        },
        killed_by(old(table).procs@, final(table).procs@, pid, r),
{
    table.kill(pid)
}

/// A listing of all processes, for debugging: number, state and name of each that is in use.
pub fn procdump(table: &ProcessTable) -> (r: Vec<Option<(usize, StateName, Vec<u8>)>>)
    requires
        table.wf(),
    ensures
        r@.len() == NPROC,
        forall|i: int| 0 <= i < NPROC ==> match #[trigger] r@[i] {
            None => table.procs@[i].state is Unused,
            Some((pid, state, name)) => {
                let p = table.procs@[i];
                !(p.state is Unused) && pid == p.pid && state == p.state.name_of() && name@ == p.name@
            },
        },
{
    let mut r: Vec<Option<(usize, StateName, Vec<u8>)>> = Vec::new();
    let mut i: usize = 0;
    while i < NPROC
        invariant
            i <= NPROC,
            table.wf(),
            r@.len() == i,
            forall|k: int| 0 <= k < i ==> match #[trigger] r@[k] {
                None => table.procs@[k].state is Unused,
                Some((pid, state, name)) => {
                    let p = table.procs@[k];
                    !(p.state is Unused) && pid == p.pid && state == p.state.name_of() && name@ == p.name@
                },
            },
        decreases NPROC - i,
    {
        r.push(table.procs[i].dump());
        i = i + 1;
    }
    r
}

/// Two contexts share nothing.
pub open spec fn apart(c: ProcessContext, d: ProcessContext) -> bool {
    &&& c.pagetable.root() != d.pagetable.root()
    &&& frame_at(c.trapframe_addr as int) != frame_at(d.trapframe_addr as int)
    &&& c.kstack != d.kstack
}

/// The kernel stack at `addr` is in use.
pub open spec fn stack_used(stacks: KernelStackAllocator, addr: u64) -> bool {
    exists|i: int| 0 <= i < NPROC && addr == #[trigger] kstack_spec(i) && stacks.used()[i]
}

/// The context of slot `i`.
pub open spec fn context_at(procs: Seq<Process>, i: int) -> Option<ProcessContext> {
    procs[i].state.held_context()
}

/// All processes have their contexts in order, and no two share anything.
pub open spec fn contexts_wf(procs: Seq<Process>, a: KernelAllocator, stacks: KernelStackAllocator) -> bool {
    &&& forall|i: int|
        0 <= i < procs.len() && (#[trigger] context_at(procs, i)) is Some ==> context_at(procs, i)->0.wf(&a) && stack_used(
            stacks,
            context_at(procs, i)->0.kstack,
        )
    &&& forall|i: int, j: int|
        0 <= i < procs.len() && 0 <= j < procs.len() && i != j && (#[trigger] context_at(procs, i)) is Some && (#[trigger] context_at(
            procs,
            j,
        )) is Some ==> apart(context_at(procs, i)->0, context_at(procs, j)->0)
}

/// Changes of state that keep the contexts keep them in order.
pub proof fn lemma_same_contexts(procs0: Seq<Process>, procs1: Seq<Process>, a: KernelAllocator, stacks: KernelStackAllocator)
    requires
        contexts_wf(procs0, a, stacks),
        procs1.len() == procs0.len(),
        forall|i: int| 0 <= i < procs0.len() ==> #[trigger] context_at(procs1, i) == context_at(procs0, i),
    ensures
        contexts_wf(procs1, a, stacks),
{
    assert forall|i: int, j: int|
        0 <= i < procs1.len() && 0 <= j < procs1.len() && i != j && (#[trigger] context_at(procs1, i)) is Some && (#[trigger] context_at(
            procs1,
            j,
        )) is Some implies apart(context_at(procs1, i)->0, context_at(procs1, j)->0) by {
        assert(context_at(procs1, i) == context_at(procs0, i));
        assert(context_at(procs1, j) == context_at(procs0, j));
    }
}

/// What making a child of the process in slot `current` comes to. Where it fails, for want of a
/// slot, a page or a kernel stack, no process has changed.
pub open spec fn fork_came_to(
    procs0: Seq<Process>,
    procs1: Seq<Process>,
    a0: KernelAllocator,
    a1: KernelAllocator,
    stacks0: KernelStackAllocator,
    stacks1: KernelStackAllocator,
    next_pid: usize,
    current: int,
    jump: u64,
    r: Option<usize>,
) -> bool {
    let parent = context_at(procs0, current)->0;
    match r {
        Some(pid) => exists|n: int| {
            &&& #[trigger] first_unused(procs0, n)
            &&& pid == next_pid
            &&& forked(procs0, procs1, a0, a1, current, n, pid, jump)
            &&& stack_taken(stacks0, stacks1, context_at(procs1, n)->0.kstack)
            &&& taken_but(a0.frames(), a1.frames(), frames_of_process(a1.frames(), context_at(procs1, n)->0))
        },
        None => {
            &&& others_safe(a0.frames(), a1.frames(), -1)
            &&& taken_but(a0.frames(), a1.frames(), Set::empty())
            &&& stacks1.used() == stacks0.used()
            &&& {
                ||| forall|i: int| 0 <= i < NPROC ==> !((#[trigger] procs0[i]).state is Unused)
                ||| a0.free().len() < 4 + crate::process::memory::pages_and_tables(0, parent.sz as int)
                ||| forall|i: int| 0 <= i < NPROC ==> #[trigger] stacks0.used()[i]
            }
            &&& forall|i: int| 0 <= i < NPROC ==> #[trigger] procs1[i] == if first_unused(procs0, i) {
                Process { state: ProcessState::Used, pid: next_pid, ..procs0[i] }
            } else {
                procs0[i]
            }
        },
    }
}

/// How the next process number changes where a process is made: it counts up where there is a slot.
pub open spec fn numbered(procs0: Seq<Process>, next0: usize, next1: usize) -> bool {
    next1 == if exists|i: int| 0 <= i < procs0.len() && (#[trigger] procs0[i]).state is Unused {
        pid_after(next0)
    } else {
        next0
    }
}

/// Makes a child of the process in slot `current`, with a copy of its memory, and returns the
/// child's number. `None` means that no slot, no page or no kernel stack is left. The files and
/// the directory that the child shares have to be counted once more.
#[verifier::rlimit(60)]
pub fn fork(
    table: &mut ProcessTable,
    current: usize,
    a: &mut KernelAllocator,
    stacks: &mut KernelStackAllocator,
    trampoline: u64,
    jump: u64,
) -> (r: Option<usize>)
    requires
        old(table).wf(),
        old(a).wf(),
        old(stacks).wf(),
        contexts_wf(old(table).procs@, *old(a), *old(stacks)),
        current < NPROC,
        context_at(old(table).procs@, current as int) is Some,
        trampoline <= 0xff_ffff_ffff_0000,
    ensures
        final(table).wf(),
        final(a).wf(),
        final(a).end() == old(a).end(),
        final(stacks).wf(),
        contexts_wf(final(table).procs@, *final(a), *final(stacks)),
        final(table).next_pid == if exists|i: int| 0 <= i < NPROC && (#[trigger] old(table).procs@[i]).state is Unused {
            pid_after(old(table).next_pid)
        } else {
            old(table).next_pid
        },
        numbered(old(table).procs@, old(table).next_pid, final(table).next_pid),
        pids_ok(old(table).procs@, old(table).next_pid) && old(table).next_pid < usize::MAX ==> pids_ok(
            final(table).procs@,
            final(table).next_pid,
        ),
        fork_came_to(
            old(table).procs@,
            final(table).procs@,
            *old(a),
            *final(a),
            *old(stacks),
            *final(stacks),
            old(table).next_pid,
            current as int,
            jump,
            r,
        ),
        r is Some ==> exists|n: int| #[trigger] first_unused(old(table).procs@, n) && lookup(
            final(a).frames(),
            context_at(final(table).procs@, n)->0.pagetable.root(),
            trampoline_page(),
        ) == Some(PTE::leaf(trampoline, PTE::R | PTE::X)),
{
    let ghost procs0 = table.procs@;
    let ghost a0 = *a;
    let ghost st0 = *stacks;
    proof {
        lemma_safe_same(a0.frames(), -1);
        lemma_taken_none(a0.frames(), a0.frames());
    }
    let n = match table.allocate_process() {
        Some(n) => n,
        None => {
            return None;
        },
    };
    let ghost procs1 = table.procs@;
    proof {
        assert(procs0[n as int].state is Unused);
        assert forall|i: int| 0 <= i < procs0.len() implies #[trigger] context_at(procs1, i) == context_at(procs0, i) by {}
        lemma_same_contexts(procs0, procs1, a0, st0);
        assert forall|i: int| 0 <= i < NPROC implies #[trigger] procs1[i] == if first_unused(procs0, i) {
            Process { state: ProcessState::Used, pid: old(table).next_pid, ..procs0[i] }
        } else {
            procs0[i]
        } by {
            if i > n {
                assert(procs0[n as int].state is Unused);
            }
        }
    }
    let pid = table.procs[n].pid;
    let context_new = match table.procs[current].context_ref() {
        Some(context) => {
            match context.try_clone(a, stacks, trampoline, jump) {
                Ok(context_new) => context_new,
                Err(_) => {
                    proof {
                        lemma_contexts_safe(procs1, a0, *a, st0, *stacks, -1);
                    }
                    return None;
                },
            }
        },
        None => {
            return None;
        },
    };
    let ghost new = context_new;
    let name = clone_bytes(&table.procs[current].name);
    table.procs[n].name = name;
    table.procs[n].parent = Some(current);
    let _ = table.procs[n].state.setup(context_new);
    proof {
        let procs2 = table.procs@;
        let root = new.pagetable.root();
        let k = choose|k: int| 0 <= k < NPROC && new.kstack == #[trigger] kstack_spec(k) && !st0.used()[k] && stacks.used() == st0.used().update(
            k,
            true,
        );
        assert(stacks.used() == st0.used().update(k, true));
        assert forall|addr: u64| stack_used(st0, addr) implies #[trigger] stack_used(*stacks, addr) && addr != new.kstack by {
            let m = choose|m: int| 0 <= m < NPROC && addr == #[trigger] kstack_spec(m) && st0.used()[m];
            assert(m != k);
            assert(stacks.used()[m]);
            crate::memory_layout::lemma_kstack_index(m);
            crate::memory_layout::lemma_kstack_index(k);
        }
        assert(stack_used(*stacks, new.kstack)) by {
            assert(stacks.used()[k]);
        }
        lemma_contexts_safe(procs1, a0, *a, st0, *stacks, root);
        assert(procs2 =~= procs1.update(n as int, procs2[n as int]));
        assert forall|i: int, j: int|
            0 <= i < procs2.len() && 0 <= j < procs2.len() && i != j && (#[trigger] context_at(procs2, i)) is Some && (#[trigger] context_at(
                procs2,
                j,
            )) is Some implies apart(context_at(procs2, i)->0, context_at(procs2, j)->0) by {
            if i != n {
                assert(context_at(procs2, i) == context_at(procs1, i));
                assert(stack_used(st0, context_at(procs1, i)->0.kstack));
            }
            if j != n {
                assert(context_at(procs2, j) == context_at(procs1, j));
                assert(stack_used(st0, context_at(procs1, j)->0.kstack));
            }
        }
        assert forall|i: int| 0 <= i < procs2.len() && (#[trigger] context_at(procs2, i)) is Some implies context_at(procs2, i)->0.wf(a)
            && stack_used(*stacks, context_at(procs2, i)->0.kstack) by {
            if i != n {
                assert(context_at(procs2, i) == context_at(procs1, i));
            }
        }
        assert forall|i: int| 0 <= i < NPROC implies (#[trigger] procs2[i]).name@.len() == 16 by {
            assert(procs1[i].name@.len() == 16);
        }
        assert(first_unused(procs0, n as int));
        assert(forked(procs0, procs2, a0, *a, current as int, n as int, pid, jump));
    }
    Some(pid)
}

/// The difference that a fork makes: slot `n` holds a child of slot `current`.
pub open spec fn forked(
    procs0: Seq<Process>,
    procs1: Seq<Process>,
    a0: KernelAllocator,
    a1: KernelAllocator,
    current: int,
    n: int,
    pid: usize,
    jump: u64,
) -> bool {
    let parent = context_at(procs0, current)->0;
    let p = procs1[n];
    &&& procs1.len() == procs0.len()
    &&& forall|i: int| 0 <= i < procs0.len() && i != n ==> #[trigger] procs1[i] == procs0[i]
    &&& p.pid == pid
    &&& p.parent == Some(current as usize)
    &&& p.name@ == procs0[current].name@
    &&& p.killed == procs0[n].killed
    &&& p.state matches ProcessState::Runnable(c) && {
        &&& c.sz == parent.sz
        &&& c.trapframe == (TrapFrame { a0: 0, ..parent.trapframe })
        &&& c.context == (CPUContext { ra: jump, sp: (c.kstack + PGSIZE) as u64, ..CPUContext::zero() })
        &&& c.ofile@ == parent.ofile@
        &&& c.cwd == parent.cwd
        &&& memory_copied(a0.frames(), a1.frames(), parent.pagetable.root(), c.pagetable.root(), mem_end(parent.sz as int))
        &&& lookup(a1.frames(), c.pagetable.root(), trapframe_page()) == Some(PTE::leaf(c.trapframe_addr, PTE::R | PTE::W))
        &&& permissions_copied(a0.frames(), a1.frames(), parent.pagetable.root(), c.pagetable.root(), page_count(parent.sz as int))
        &&& others_safe(a0.frames(), a1.frames(), c.pagetable.root())
    }
}

/// Work on memory that is none of theirs keeps the contexts in order.
proof fn lemma_contexts_safe(
    procs: Seq<Process>,
    a0: KernelAllocator,
    a1: KernelAllocator,
    st0: KernelStackAllocator,
    st1: KernelStackAllocator,
    root: int,
)
    requires
        contexts_wf(procs, a0, st0),
        others_safe(a0.frames(), a1.frames(), root),
        a1.end() == a0.end(),
        !is_root(a0.frames(), root),
        forall|addr: u64| stack_used(st0, addr) ==> #[trigger] stack_used(st1, addr),
    ensures
        contexts_wf(procs, a1, st1),
{
    assert forall|i: int| 0 <= i < procs.len() && (#[trigger] context_at(procs, i)) is Some implies context_at(procs, i)->0.wf(&a1) && stack_used(
        st1,
        context_at(procs, i)->0.kstack,
    ) by {
        let c = context_at(procs, i)->0;
        assert(c.wf(&a0));
        assert(is_root(a0.frames(), c.pagetable.root()));
        c.lemma_safe(a0, a1, root);
    }
}

/// What the end of the process in slot `cur` makes of slot `i`: its children get `init` as
/// their parent, which is woken where there are any, and so is the parent.
pub open spec fn after_exit(procs: Seq<Process>, cur: int, init: int, i: int) -> Process {
    let p = procs[i];
    let orphans = exists|k: int| 0 <= k < procs.len() && (#[trigger] procs[k]).parent == Some(cur as usize);
    let moved = if p.parent == Some(cur as usize) {
        Process { parent: Some(init as usize), ..p }
    } else {
        p
    };
    let parent = if procs[cur].parent == Some(cur as usize) {
        Some(init as usize)
    } else {
        procs[cur].parent
    };
    if i != cur && ((orphans && waits_for(p, child_token(init))) || (parent is Some && waits_for(p, child_token(parent->0 as int)))) {
        woken(moved)
    } else {
        moved
    }
}

/// The process in slot `cur` has ended with `status`.
pub open spec fn exited(procs0: Seq<Process>, procs1: Seq<Process>, cur: int, status: i32) -> bool {
    let c = context_at(procs0, cur)->0;
    let p = procs1[cur];
    &&& procs1.len() == procs0.len()
    &&& exists|init: int| {
        &&& #[trigger] first_with_pid(procs0, 1, init)
        &&& forall|i: int| 0 <= i < NPROC && i != cur ==> #[trigger] procs1[i] == after_exit(procs0, cur, init, i)
        &&& p.parent == after_exit(procs0, cur, init, cur).parent
    }
    &&& p.pid == procs0[cur].pid
    &&& p.killed == procs0[cur].killed
    &&& p.name == procs0[cur].name
    &&& p.state matches ProcessState::Zombie(z, s) && {
        &&& s == status
        &&& z.ofile@ == Seq::new(c.ofile@.len(), |i: int| None::<usize>)
        &&& z == (ProcessContext { ofile: z.ofile, cwd: None, ..c })
    }
}

/// Ends the process in slot `current`, which must not be the first one. It stays a zombie until
/// its parent asks for its status. The files that it had open and its directory are handed out
/// for the caller to release.
#[verifier::rlimit(60)]
pub fn exit(table: &mut ProcessTable, current: usize, status: i32) -> (r: (Vec<usize>, Option<usize>))
    requires
        old(table).wf(),
        current < NPROC,
        old(table).procs@[current as int].state is Running,
        old(table).procs@[current as int].pid != 1,
        exists|i: int| first_with_pid(old(table).procs@, 1, i),
        forall|i: int| 0 <= i < NPROC && (#[trigger] old(table).procs@[i]).parent is Some ==> old(table).procs@[i].parent->0 < NPROC,
    ensures
        final(table).wf(),
        final(table).next_pid == old(table).next_pid,
        ({
            let c = context_at(old(table).procs@, current as int)->0;
            &&& r.0@ == open_files(c.ofile@)
            &&& r.1 == c.cwd
        }),
        exited(old(table).procs@, final(table).procs@, current as int, status),
{
    let ghost procs0 = table.procs@;
    let ghost c = context_at(procs0, current as int)->0;
    let released = match table.procs[current].context() {
        Some(context) => context.release_files(),
        None => (Vec::new(), None),
    };
    let ghost procs1 = table.procs@;
    proof {
        assert(procs1 =~= procs0.update(current as int, procs1[current as int]));
        assert forall|k: int| 0 <= k < NPROC implies (#[trigger] procs1[k]).name@.len() == 16 by {
            assert(procs0[k].name@.len() == 16);
        }
    }
    let mut init: usize = 0;
    while table.procs[init].pid != 1
        invariant
            table.procs@ == procs1,
            procs1.len() == NPROC,
            procs0.len() == NPROC,
            init < NPROC,
            forall|k: int| 0 <= k < NPROC ==> (#[trigger] procs1[k]).pid == procs0[k].pid,
            exists|i: int| first_with_pid(procs0, 1, i),
            forall|j: int| 0 <= j < init ==> (#[trigger] procs0[j]).pid != 1,
        decreases NPROC - init,
    {
        proof {
            let i = choose|i: int| first_with_pid(procs0, 1, i);
            assert(procs1[init as int].pid == procs0[init as int].pid);
            assert(procs0[i].pid == 1);
            assert(i > init);
        }
        init = init + 1;
    }
    proof {
        assert(procs1[init as int].pid == procs0[init as int].pid);
        assert(first_with_pid(procs0, 1, init as int));
        assert(init != current);
    }
    reparent(table, current, init);
    let ghost procs2 = table.procs@;
    match table.procs[current].parent {
        Some(parent) => {
            let token = process_token(parent);
            table.wakeup(token, Some(current));
        },
        None => {},
    }
    let ghost procs3 = table.procs@;
    let _ = table.procs[current].state.die(status);
    proof {
        let cur = current as int;
        let procs4 = table.procs@;
        assert(procs4 =~= procs3.update(cur, procs4[cur]));
        assert forall|i: int| 0 <= i < NPROC && i != current implies #[trigger] procs4[i] == after_exit(procs0, cur, init as int, i) by {
            assert(procs4[i] == procs3[i]);
            lemma_after_exit(procs0, procs1, procs2, procs3, cur, init as int, i);
        }
        lemma_after_exit(procs0, procs1, procs2, procs3, cur, init as int, cur);
        assert forall|k: int| 0 <= k < NPROC implies (#[trigger] procs4[k]).name@.len() == 16 by {
            assert(procs3[k].name@.len() == 16);
        }
        assert(first_with_pid(procs0, 1, init as int));
    }
    released
}

/// What `reparent` makes of slot `i`.
pub open spec fn reparented(procs: Seq<Process>, cur: int, init: int, i: int) -> Process {
    let p = procs[i];
    let orphans = exists|k: int| 0 <= k < procs.len() && (#[trigger] procs[k]).parent == Some(cur as usize);
    let moved = if p.parent == Some(cur as usize) {
        Process { parent: Some(init as usize), ..p }
    } else {
        p
    };
    if i != cur && orphans && waits_for(p, child_token(init)) {
        woken(moved)
    } else {
        moved
    }
}

/// Gives the children of the process in slot `current` to `init`, and wakes it.
#[verifier::rlimit(40)]
fn reparent(table: &mut ProcessTable, current: usize, init: usize)
    requires
        old(table).wf(),
        current < NPROC,
        init < NPROC,
        init != current,
    ensures
        final(table).wf(),
        final(table).next_pid == old(table).next_pid,
        forall|i: int| 0 <= i < NPROC ==> #[trigger] final(table).procs@[i] == reparented(old(table).procs@, current as int, init as int, i),
{
    let ghost procs0 = table.procs@;
    let ghost cur = current as int;
    let token = process_token(init);
    let mut i: usize = 0;
    let ghost mut any: bool = false;
    while i < NPROC
        invariant
            i <= NPROC,
            table.wf(),
            table.next_pid == old(table).next_pid,
            procs0 == old(table).procs@,
            procs0.len() == NPROC,
            current < NPROC,
            init < NPROC,
            init != current,
            cur == current,
            token == child_token(init as int),
            any == exists|k: int| 0 <= k < i && (#[trigger] procs0[k]).parent == Some(current),
            forall|k: int| 0 <= k < NPROC ==> #[trigger] table.procs@[k] == reparented_up_to(procs0, cur, init as int, k, i as int, any),
        decreases NPROC - i,
    {
        let ghost before = table.procs@;
        let is_child = match table.procs[i].parent {
            Some(p) => p == current,
            None => false,
        };
        proof {
            assert(before[i as int] == reparented_up_to(procs0, cur, init as int, i as int, i as int, any));
            assert(is_child == (procs0[i as int].parent == Some(current)));
        }
        if is_child {
            table.procs[i].parent = Some(init);
            proof {
                assert forall|k: int| 0 <= k < NPROC implies (#[trigger] table.procs@[k]).name@.len() == 16 by {
                    assert(before[k].name@.len() == 16);
                }
            }
            let ghost middle = table.procs@;
            table.wakeup(token, Some(current));
            proof {
                assert forall|k: int| 0 <= k < NPROC implies #[trigger] table.procs@[k] == reparented_up_to(
                    procs0,
                    cur,
                    init as int,
                    k,
                    i + 1,
                    true,
                ) by {
                    assert(before[k] == reparented_up_to(procs0, cur, init as int, k, i as int, any));
                    assert(middle[k] == if k == i { Process { parent: Some(init), ..before[k] } } else { before[k] });
                }
                assert(procs0[i as int].parent == Some(current));
                any = true;
            }
        } else {
            proof {
                assert forall|k: int| 0 <= k < NPROC implies #[trigger] table.procs@[k] == reparented_up_to(
                    procs0,
                    cur,
                    init as int,
                    k,
                    i + 1,
                    any,
                ) by {
                    assert(before[k] == reparented_up_to(procs0, cur, init as int, k, i as int, any));
                }
                if exists|k: int| 0 <= k < i + 1 && (#[trigger] procs0[k]).parent == Some(current) {
                    let k = choose|k: int| 0 <= k < i + 1 && (#[trigger] procs0[k]).parent == Some(current);
                    assert(k < i);
                }
            }
        }
        i = i + 1;
    }
    proof {
        assert forall|k: int| 0 <= k < NPROC implies #[trigger] table.procs@[k] == reparented(procs0, cur, init as int, k) by {
            assert(table.procs@[k] == reparented_up_to(procs0, cur, init as int, k, NPROC as int, any));
        }
    }
}

/// Slot `k` when the first `n` slots were looked at, with children among them or not.
spec fn reparented_up_to(procs: Seq<Process>, cur: int, init: int, k: int, n: int, any: bool) -> Process {
    let p = procs[k];
    let moved = if k < n && p.parent == Some(cur as usize) {
        Process { parent: Some(init as usize), ..p }
    } else {
        p
    };
    if k != cur && any && waits_for(p, child_token(init)) {
        woken(moved)
    } else {
        moved
    }
}

proof fn lemma_after_exit(
    procs0: Seq<Process>,
    procs1: Seq<Process>,
    procs2: Seq<Process>,
    procs3: Seq<Process>,
    cur: int,
    init: int,
    i: int,
)
    requires
        procs0.len() == NPROC,
        procs1.len() == NPROC,
        0 <= cur < NPROC,
        0 <= init < NPROC,
        init != cur,
        0 <= i < NPROC,
        forall|k: int| 0 <= k < NPROC && k != cur ==> #[trigger] procs1[k] == procs0[k],
        procs1[cur].parent == procs0[cur].parent,
        procs1[cur].state is Running,
        procs0[cur].parent is Some ==> procs0[cur].parent->0 < NPROC,
        forall|k: int| 0 <= k < NPROC ==> #[trigger] procs2[k] == reparented(procs1, cur, init, k),
        match procs2[cur].parent {
            Some(parent) => forall|k: int| 0 <= k < NPROC ==> #[trigger] procs3[k] == if k != cur && waits_for(
                procs2[k],
                child_token(parent as int),
            ) {
                woken(procs2[k])
            } else {
                procs2[k]
            },
            None => procs3 == procs2,
        },
    ensures
        i != cur ==> procs3[i] == after_exit(procs0, cur, init, i),
        i == cur ==> procs3[cur].parent == after_exit(procs0, cur, init, cur).parent && procs3[cur].state == procs1[cur].state && procs3[cur].pid
            == procs1[cur].pid && procs3[cur].killed == procs1[cur].killed && procs3[cur].name == procs1[cur].name,
{
    let o0 = exists|k: int| 0 <= k < procs0.len() && (#[trigger] procs0[k]).parent == Some(cur as usize);
    let o1 = exists|k: int| 0 <= k < procs1.len() && (#[trigger] procs1[k]).parent == Some(cur as usize);
    assert(o0 == o1) by {
        if o0 {
            let k = choose|k: int| 0 <= k < procs0.len() && (#[trigger] procs0[k]).parent == Some(cur as usize);
            assert(procs1[k].parent == Some(cur as usize));
        }
        if o1 {
            let k = choose|k: int| 0 <= k < procs1.len() && (#[trigger] procs1[k]).parent == Some(cur as usize);
            assert(procs0[k].parent == Some(cur as usize));
        }
    }
    assert(procs2[cur] == reparented(procs1, cur, init, cur));
    assert(procs2[i] == reparented(procs1, cur, init, i));
    if i != cur {
        assert(procs1[i] == procs0[i]);
    }
}

/// What a process that waits for a child has to do.
#[derive(Clone, Copy, Debug, PartialEq, Eq, Structural)]
pub enum WaitProgress {
    /// The child with this number has ended, and is gone.
    Reaped(usize),
    /// There is no child, the process was killed, or the status cannot be written.
    Failed,
    /// Wait for a child to end.
    Sleep,
}

/// The first child of `cur` that has ended.
pub open spec fn first_zombie(procs: Seq<Process>, cur: int, i: int) -> bool {
    &&& 0 <= i < procs.len()
    &&& is_zombie_child(procs, cur, i)
    &&& forall|j: int| 0 <= j < i ==> !#[trigger] is_zombie_child(procs, cur, j)
}

pub open spec fn is_zombie_child(procs: Seq<Process>, cur: int, i: int) -> bool {
    procs[i].parent == Some(cur as usize) && procs[i].state is Zombie
}

/// A status as it is written to memory.
pub open spec fn is_status(bytes: Seq<u8>, status: i32) -> bool {
    &&& bytes.len() == 4
    &&& le32(bytes, 0) == if status >= 0 { status as int } else { status + 0x1_0000_0000 }
}

fn status_bytes(status: i32) -> (r: Vec<u8>)
    ensures
        is_status(r@, status),
{
    let mut r = zeros(4);
    let w: u32 = if status >= 0 {
        status as u32
    } else {
        (status as i64 + 0x1_0000_0000) as u32
    };
    put_u32(&mut r, 0, w);
    r
}

/// What comes of the child in slot `i` of the process in slot `cur`, which has ended: it is gone
/// from the table, its memory and its kernel stack are free, and its status is at `addr`. Where the
/// status cannot be written there, the child stays.
pub open spec fn reaped(
    procs0: Seq<Process>,
    procs1: Seq<Process>,
    a0: KernelAllocator,
    a1: KernelAllocator,
    st0: KernelStackAllocator,
    st1: KernelStackAllocator,
    cur: int,
    i: int,
    addr: Option<u64>,
    r: WaitProgress,
) -> bool {
    let root = context_at(procs0, cur)->0.pagetable.root();
    let z = procs0[i];
    let c = context_at(procs0, i)->0;
    if addr is Some && !accessible(a0.frames(), root, addr->0 as int, 4) {
        &&& r == WaitProgress::Failed
        &&& procs1 == procs0
        &&& st1 == st0
        &&& exists|n: int| 0 <= n < 4 && #[trigger] written(a0.frames(), a1.frames(), root, addr->0 as int, status_of(z).take(n))
    } else {
        &&& r == WaitProgress::Reaped(z.pid)
        &&& forall|k: int| 0 <= k < NPROC && k != i ==> #[trigger] procs1[k] == procs0[k]
        &&& procs1[i].state is Unused && procs1[i].pid == 0 && procs1[i].parent is None && !procs1[i].killed
        &&& procs1[i].name@ == z.name@.update(0, 0u8)
        &&& !is_root(a1.frames(), c.pagetable.root())
        &&& exists|m: int| 0 <= m < NPROC && c.kstack == #[trigger] kstack_spec(m) && st1.used() == st0.used().update(m, false)
        &&& a1.free().len() > a0.free().len() + page_count(c.sz as int) + 1
        &&& addr matches Some(va) ==> forall|x: int| va <= x < va + 4 ==> #[trigger] user_byte(a1.frames(), root, x) == Some(
            status_of(z)[x - va],
        )
        &&& forall|q: int, x: int|
            is_root(a0.frames(), q) && own_only(a0.frames(), q) && q != c.pagetable.root() && !(q == root && addr is Some && addr->0 <= x < addr->0 + 4)
                ==> #[trigger] user_byte(a1.frames(), q, x) == user_byte(a0.frames(), q, x)
    }
}

/// What waiting for a child of the process in slot `cur` comes to.
pub open spec fn wait_came_to(
    procs0: Seq<Process>,
    procs1: Seq<Process>,
    a0: KernelAllocator,
    a1: KernelAllocator,
    st0: KernelStackAllocator,
    st1: KernelStackAllocator,
    cur: int,
    addr: Option<u64>,
    r: WaitProgress,
) -> bool {
    if exists|i: int| first_zombie(procs0, cur, i) {
        reaped(procs0, procs1, a0, a1, st0, st1, cur, choose|i: int| first_zombie(procs0, cur, i), addr, r)
    } else {
        &&& procs1 == procs0
        &&& a1 == a0
        &&& st1 == st0
        &&& r == if procs0[cur].killed || !exists|i: int| 0 <= i < NPROC && (#[trigger] procs0[i]).parent == Some(cur as usize) {
            WaitProgress::Failed
        } else {
            WaitProgress::Sleep
        }
    }
}

/// Goes on with waiting for a child of the process in slot `current`: the first one that has
/// ended is removed from the table, and everything that it had is released. Where `addr` is
/// given, its status is written there.
#[verifier::rlimit(80)]
pub fn wait(
    table: &mut ProcessTable,
    current: usize,
    addr: Option<u64>,
    a: &mut KernelAllocator,
    stacks: &mut KernelStackAllocator,
) -> (r: WaitProgress)
    requires
        old(table).wf(),
        old(a).wf(),
        old(stacks).wf(),
        contexts_wf(old(table).procs@, *old(a), *old(stacks)),
        current < NPROC,
        old(table).procs@[current as int].state is Running,
    ensures
        final(table).wf(),
        final(a).wf(),
        final(a).end() == old(a).end(),
        final(stacks).wf(),
        final(table).next_pid == old(table).next_pid,
        contexts_wf(final(table).procs@, *final(a), *final(stacks)),
        wait_came_to(old(table).procs@, final(table).procs@, *old(a), *final(a), *old(stacks), *final(stacks), current as int, addr, r),
{
    let ghost procs0 = table.procs@;
    let ghost a0 = *a;
    let ghost st0 = *stacks;
    let ghost cur = current as int;
    let mut havekids = false;
    let mut i: usize = 0;
    while i < NPROC
        invariant
            i <= NPROC,
            table.wf(),
            table.procs@ == procs0,
            procs0 == old(table).procs@,
            table.next_pid == old(table).next_pid,
            *a == a0,
            *stacks == st0,
            a0 == *old(a),
            st0 == *old(stacks),
            cur == current,
            current < NPROC,
            havekids == exists|k: int| 0 <= k < i && (#[trigger] procs0[k]).parent == Some(current),
            forall|k: int| 0 <= k < i ==> !#[trigger] is_zombie_child(procs0, cur, k),
            a.wf(),
            stacks.wf(),
            contexts_wf(procs0, a0, st0),
            procs0[cur].state is Running,
        decreases NPROC - i,
    {
        let is_child = match table.procs[i].parent {
            Some(p) => p == current,
            None => false,
        };
        if is_child {
            havekids = true;
            proof {
                assert(procs0[i as int].parent == Some(current));
            }
            if table.procs[i].state.is_zombie() {
                proof {
                    assert(is_zombie_child(procs0, cur, i as int));
                    assert(first_zombie(procs0, cur, i as int));
                    let z = choose|z: int| first_zombie(procs0, cur, z);
                    assert(z == i) by {
                        if z < i {
                            assert(!is_zombie_child(procs0, cur, z));
                        }
                        if z > i {
                            assert(!is_zombie_child(procs0, cur, i as int));
                        }
                    }
                }
                return reap(table, current, i, addr, a, stacks);
            }
        }
        proof {
            assert(!is_zombie_child(procs0, cur, i as int));
            if exists|k: int| 0 <= k < i + 1 && (#[trigger] procs0[k]).parent == Some(current) {
                let k = choose|k: int| 0 <= k < i + 1 && (#[trigger] procs0[k]).parent == Some(current);
                assert(k < i || is_child);
            }
        }
        i = i + 1;
    }
    proof {
        assert(!exists|z: int| first_zombie(procs0, cur, z)) by {
            if exists|z: int| first_zombie(procs0, cur, z) {
                let z = choose|z: int| first_zombie(procs0, cur, z);
                assert(!is_zombie_child(procs0, cur, z));
            }
        }
    }
    if !havekids || table.procs[current].killed {
        return WaitProgress::Failed;
    }
    WaitProgress::Sleep
}

/// The bytes of a zombie's status.
pub open spec fn status_of(p: Process) -> Seq<u8> {
    match p.state {
        ProcessState::Zombie(_, status) => choose|bytes: Seq<u8>| is_status(bytes, status),
        _ => Seq::empty(),
    }
}

/// Only one row of bytes is a given status.
proof fn lemma_status(x: Seq<u8>, y: Seq<u8>, status: i32)
    requires
        is_status(x, status),
        is_status(y, status),
    ensures
        x == y,
{
    assert(x[0] == y[0] && x[1] == y[1] && x[2] == y[2] && x[3] == y[3]);
    assert(x =~= y);
}

/// Every status can be written.
proof fn lemma_status_exists(status: i32)
    ensures
        exists|bytes: Seq<u8>| is_status(bytes, status),
{
    let w = if status >= 0 { status as int } else { status + 0x1_0000_0000 };
    let bytes = seq![(w % 256) as u8, (w / 256 % 256) as u8, (w / 65536 % 256) as u8, (w / 16777216) as u8];
    assert(is_status(bytes, status));
}

/// The status with which a process ends is the one that its parent gets: where the child in slot
/// `child` is a zombie with `status`, waiting for it gives its number, and what is at `va` then is
/// this status.
pub proof fn lemma_status_handed_over(
    procs0: Seq<Process>,
    procs1: Seq<Process>,
    a0: KernelAllocator,
    a1: KernelAllocator,
    st0: KernelStackAllocator,
    st1: KernelStackAllocator,
    parent: int,
    child: int,
    status: i32,
    va: u64,
    r: WaitProgress,
    bytes: Seq<u8>,
)
    requires
        first_zombie(procs0, parent, child),
        procs0[child].state matches ProcessState::Zombie(_, s) && s == status,
        wait_came_to(procs0, procs1, a0, a1, st0, st1, parent, Some(va), r),
        accessible(a0.frames(), context_at(procs0, parent)->0.pagetable.root(), va as int, 4),
        bytes.len() == 4,
        forall|x: int|
            va <= x < va + 4 ==> #[trigger] user_byte(a1.frames(), context_at(procs0, parent)->0.pagetable.root(), x) == Some(bytes[x - va]),
    ensures
        r == WaitProgress::Reaped(procs0[child].pid),
        is_status(bytes, status),
{
    let i = choose|i: int| first_zombie(procs0, parent, i);
    assert(first_zombie(procs0, parent, i));
    if i < child {
        assert(!is_zombie_child(procs0, parent, i));
    } else if child < i {
        assert(!is_zombie_child(procs0, parent, child));
    }
    let root = context_at(procs0, parent)->0.pagetable.root();
    lemma_status_exists(status);
    let s = status_of(procs0[child]);
    assert(is_status(s, status));
    assert forall|k: int| 0 <= k < 4 implies bytes[k] == s[k] by {
        assert(user_byte(a1.frames(), root, va + k) == Some(bytes[va + k - va]));
        assert(user_byte(a1.frames(), root, va + k) == Some(s[va + k - va]));
    }
    assert(bytes =~= s);
}

/// The memory of no other process changes when a child is removed.
proof fn lemma_others_reaped(
    s0: Seq<Frame>,
    s1: Seq<Frame>,
    s2: Seq<Frame>,
    root: int,
    gone: int,
    addr: Option<u64>,
    status: Seq<u8>,
    pa: int,
)
    requires
        crate::allocator::frames_wf(s0),
        addr matches Some(va) ==> written(s0, s1, root, va as int, status) && status.len() == 4,
        addr is None ==> s1 == s0,
        crate::process::process::released_safe(s1, s2, gone, pa),
    ensures
        forall|q: int, x: int|
            is_root(s0, q) && own_only(s0, q) && q != gone && !(q == root && addr is Some && addr->0 <= x < addr->0 + 4) ==> #[trigger] user_byte(
                s2,
                q,
                x,
            ) == user_byte(s0, q, x),
{
    if addr is Some {
        lemma_written_maps(s0, s1, root, addr->0 as int, status);
    }
    assert forall|q: int, x: int|
        is_root(s0, q) && own_only(s0, q) && q != gone && !(q == root && addr is Some && addr->0 <= x < addr->0 + 4) implies #[trigger] user_byte(
        s2,
        q,
        x,
    ) == user_byte(s0, q, x) by {
        assert(is_root(s1, q));
        assert(own_only(s1, q));
        assert(user_byte(s1, q, x) == user_byte(s0, q, x));
    }
}

/// Removes the child in slot `i`, which has ended.
#[verifier::rlimit(60)]
fn reap(
    table: &mut ProcessTable,
    current: usize,
    i: usize,
    addr: Option<u64>,
    a: &mut KernelAllocator,
    stacks: &mut KernelStackAllocator,
) -> (r: WaitProgress)
    requires
        old(table).wf(),
        old(a).wf(),
        old(stacks).wf(),
        contexts_wf(old(table).procs@, *old(a), *old(stacks)),
        current < NPROC,
        i < NPROC,
        old(table).procs@[current as int].state is Running,
        old(table).procs@[i as int].state is Zombie,
    ensures
        final(table).wf(),
        final(a).wf(),
        final(a).end() == old(a).end(),
        final(stacks).wf(),
        final(table).next_pid == old(table).next_pid,
        contexts_wf(final(table).procs@, *final(a), *final(stacks)),
        reaped(
            old(table).procs@,
            final(table).procs@,
            *old(a),
            *final(a),
            *old(stacks),
            *final(stacks),
            current as int,
            i as int,
            addr,
            r,
        ),
{
    let ghost procs0 = table.procs@;
    let ghost a0 = *a;
    let ghost st0 = *stacks;
    let ghost cur = current as int;
    let ghost cc = context_at(procs0, cur)->0;
    let ghost cz = context_at(procs0, i as int)->0;
    let ghost root = cc.pagetable.root();
    proof {
        assert(context_at(procs0, cur) is Some);
        assert(context_at(procs0, i as int) is Some);
        assert(apart(cc, cz));
        assert(cc.wf(&a0));
        assert(cz.wf(&a0));
    }
    let pid = table.procs[i].pid;
    if let Some(va) = addr {
        let status = match &table.procs[i].state {
            ProcessState::Zombie(_, status) => *status,
            _ => 0,
        };
        let bytes = status_bytes(status);
        proof {
            lemma_status(bytes@, status_of(procs0[i as int]), status);
        }
        let ok = match table.procs[current].context_ref() {
            Some(context) => write_memory(context, a, va, &bytes),
            None => false,
        };
        proof {
            lemma_contexts_written(procs0, a0, *a, st0, cur);
        }
        if !ok {
            proof {
                let n = choose|n: int| 0 <= n < 4 && #[trigger] written(a0.frames(), a.frames(), root, va as int, bytes@.take(n));
                assert(bytes@ == status_of(procs0[i as int]));
                assert(written(a0.frames(), a.frames(), root, va as int, status_of(procs0[i as int]).take(n)));
            }
            return WaitProgress::Failed;
        }
    }
    let ghost a1 = *a;
    proof {
        if addr is None {
            lemma_safe_same(a0.frames(), root);
        }
        assert(contexts_wf(procs0, a1, st0));
        assert(cz.wf(&a1));
        assert(stack_used(st0, cz.kstack));
    }
    if let Some(context) = table.procs[i].deallocate() {
        proof {
            let m = choose|m: int| 0 <= m < NPROC && cz.kstack == #[trigger] kstack_spec(m) && st0.used()[m];
            assert(cz.kstack == kstack_spec(m) && stacks.used()[m]);
        }
        context.release(a, stacks);
    }
    proof {
        let procs1 = table.procs@;
        assert(procs1 =~= procs0.update(i as int, procs1[i as int]));
        assert forall|k: int| 0 <= k < NPROC implies (#[trigger] procs1[k]).name@.len() == 16 by {
            assert(procs0[k].name@.len() == 16);
        }
        lemma_contexts_released(procs0, procs1, a1, *a, st0, *stacks, i as int);
        if addr is Some {
            let va = addr->0;
            assert forall|x: int| va <= x < va + 4 implies #[trigger] user_byte(a.frames(), root, x) == Some(
                status_of(procs0[i as int])[x - va],
            ) by {
                assert(user_byte(a1.frames(), root, x) == Some(status_of(procs0[i as int])[x - va]));
                assert(is_root(a1.frames(), root));
            }
        }
        lemma_others_reaped(
            a0.frames(),
            a1.frames(),
            a.frames(),
            root,
            cz.pagetable.root(),
            addr,
            status_of(procs0[i as int]),
            cz.trapframe_addr as int,
        );
    }
    WaitProgress::Reaped(pid)
}

/// Writing to the memory of one process keeps all contexts in order.
proof fn lemma_contexts_written(procs: Seq<Process>, a0: KernelAllocator, a1: KernelAllocator, st: KernelStackAllocator, cur: int)
    requires
        contexts_wf(procs, a0, st),
        0 <= cur < procs.len(),
        context_at(procs, cur) is Some,
        others_safe(a0.frames(), a1.frames(), context_at(procs, cur)->0.pagetable.root()),
        a1.end() == a0.end(),
        context_at(procs, cur)->0.wf(&a1),
    ensures
        contexts_wf(procs, a1, st),
{
    assert forall|i: int| 0 <= i < procs.len() && (#[trigger] context_at(procs, i)) is Some implies context_at(procs, i)->0.wf(&a1) && stack_used(
        st,
        context_at(procs, i)->0.kstack,
    ) by {
        if i != cur {
            let c = context_at(procs, i)->0;
            assert(apart(c, context_at(procs, cur)->0));
            c.lemma_safe(a0, a1, context_at(procs, cur)->0.pagetable.root());
        }
    }
}

/// Releasing the context of one process keeps those of the others in order.
proof fn lemma_contexts_released(
    procs0: Seq<Process>,
    procs1: Seq<Process>,
    a0: KernelAllocator,
    a1: KernelAllocator,
    st0: KernelStackAllocator,
    st1: KernelStackAllocator,
    i: int,
)
    requires
        contexts_wf(procs0, a0, st0),
        procs0.len() == NPROC,
        0 <= i < NPROC,
        context_at(procs0, i) is Some,
        procs1 == procs0.update(i, procs1[i]),
        context_at(procs1, i) is None,
        ({
            let c = context_at(procs0, i)->0;
            &&& released_safe(a0.frames(), a1.frames(), c.pagetable.root(), c.trapframe_addr as int)
            &&& exists|m: int| 0 <= m < NPROC && c.kstack == #[trigger] kstack_spec(m) && st1.used() == st0.used().update(m, false)
        }),
        a1.end() == a0.end(),
        st0.wf(),
    ensures
        contexts_wf(procs1, a1, st1),
{
    let c = context_at(procs0, i)->0;
    let m = choose|m: int| 0 <= m < NPROC && c.kstack == #[trigger] kstack_spec(m) && st1.used() == st0.used().update(m, false);
    assert forall|k: int| 0 <= k < procs1.len() && (#[trigger] context_at(procs1, k)) is Some implies context_at(procs1, k)->0.wf(&a1) && stack_used(
        st1,
        context_at(procs1, k)->0.kstack,
    ) by {
        let d = context_at(procs1, k)->0;
        assert(k != i);
        assert(context_at(procs0, k) == context_at(procs1, k));
        assert(apart(d, c));
        assert(d.wf(&a0));
        let dr = d.pagetable.root();
        lemma_memory_same(a0.frames(), a1.frames(), dr, d.sz as int);
        assert(a0.frames()[frame_at(d.trapframe_addr as int)] is Data);
        let q = choose|q: int| 0 <= q < NPROC && d.kstack == #[trigger] kstack_spec(q) && st0.used()[q];
        assert(q != m);
        assert(d.kstack == kstack_spec(q) && st1.used()[q]);
    }
    assert forall|x: int, y: int|
        0 <= x < procs1.len() && 0 <= y < procs1.len() && x != y && (#[trigger] context_at(procs1, x)) is Some && (#[trigger] context_at(
            procs1,
            y,
        )) is Some implies apart(context_at(procs1, x)->0, context_at(procs1, y)->0) by {
        assert(context_at(procs0, x) == context_at(procs1, x));
        assert(context_at(procs0, y) == context_at(procs1, y));
    }
}

/// Loads the first program into page 0 of a process without memory. It must be smaller than a
/// page, and there must be enough free pages.
fn uvminit(a: &mut KernelAllocator, pagetable: &PageTable, src: &Vec<u8>)
    requires
        old(a).wf(),
        memory_wf(old(a).frames(), pagetable.root(), 0),
        src@.len() < 4096,
        old(a).free().len() >= 3,
    ensures
        final(a).wf(),
        final(a).end() == old(a).end(),
        memory_wf(final(a).frames(), pagetable.root(), 4096),
        others_safe(old(a).frames(), final(a).frames(), pagetable.root()),
        forall|va: int| 0 <= va < 4096 ==> #[trigger] user_byte(final(a).frames(), pagetable.root(), va) == Some(
            if va < src@.len() { src@[va] } else { 0u8 },
        ),
        lookup(final(a).frames(), pagetable.root(), 0) is Some,
        lookup(final(a).frames(), pagetable.root(), 0)->0.flags() == 0x1f,
{
    let ghost s0 = a.frames();
    let ghost root = pagetable.root();
    let n = src.len();
    let mut contents = zeros(4096);
    copy_into(&mut contents, 0, src, 0, n);
    let flags = PTE::W | PTE::R | PTE::X | PTE::U;
    proof {
        assert((4u64 | 2 | 8 | 16) & 0x3ff == (4u64 | 2 | 8 | 16) && (4u64 | 2 | 8 | 16) | 1 == 0x1f) by (bit_vector);
        assert(src@.subrange(0, n as int) =~= src@);
        assert(page_count(0) == 0);
        assert(page_count(4096) == 1);
        lemma_tables_some(s0, root, 0, 1);
    }
    let r = pagetable.map_fresh(a, 0, contents, flags);
    proof {
        assert(r is Ok);
        let s1 = a.frames();
        lemma_safe_kept(s0, s1, root, 0, 1);
        let e = (lookup(s1, root, 0)->0).0;
        assert(e & 16 != 0 && e & 0x3ff != 1) by (bit_vector)
            requires
                e & 0x3ff == (4u64 | 2 | 8 | 16) | 1,
        ;
        assert forall|vp: int| 0 <= vp < page_count(4096) implies #[trigger] own_page(s1, root, vp) by {
            assert(has_page(s1, root, 0, flags));
        }
        assert forall|vp: int| page_count(4096) <= vp < trapframe_page() implies (#[trigger] lookup(s1, root, vp)) is None by {
            assert(lookup(s0, root, vp) is None);
        }
        assert(lookup(s1, root, trapframe_page()) == lookup(s0, root, trapframe_page()));
        assert(lookup(s1, root, trampoline_page()) == lookup(s0, root, trampoline_page()));
        assert forall|va: int| 0 <= va < 4096 implies #[trigger] user_byte(s1, root, va) == Some(
            if va < src@.len() { src@[va] } else { 0u8 },
        ) by {
            assert(va / 4096 == 0);
        }
    }
}

/// Makes the first process, which runs `initcode` in the directory `cwd`. The table must be
/// empty, and there must be enough free pages.
#[verifier::rlimit(40)]
pub fn setup_init_process(
    table: &mut ProcessTable,
    a: &mut KernelAllocator,
    stacks: &mut KernelStackAllocator,
    trampoline: u64,
    jump: u64,
    initcode: &Vec<u8>,
    cwd: Option<usize>,
)
    requires
        old(table).wf(),
        forall|i: int| 0 <= i < NPROC ==> (#[trigger] old(table).procs@[i]).is_blank(),
        old(table).next_pid == 1,
        old(a).wf(),
        old(a).free().len() >= 9,
        old(stacks).wf(),
        !old(stacks).used()[0],
        trampoline <= 0xff_ffff_ffff_0000,
        initcode@.len() < 4096,
    ensures
        final(table).wf(),
        final(a).wf(),
        final(stacks).wf(),
        contexts_wf(final(table).procs@, *final(a), *final(stacks)),
        final(table).next_pid == 2,
        forall|i: int| 1 <= i < NPROC ==> #[trigger] final(table).procs@[i] == old(table).procs@[i],
        ({
            let p = final(table).procs@[0];
            &&& p.pid == 1
            &&& !p.killed
            &&& p.parent is None
            &&& p.state matches ProcessState::Runnable(c) && {
                &&& c.sz == PGSIZE
                &&& c.trapframe == (TrapFrame { epc: 0, sp: PGSIZE, ..TrapFrame::zero() })
                &&& c.context == (CPUContext { ra: jump, sp: (c.kstack + PGSIZE) as u64, ..CPUContext::zero() })
                &&& c.cwd == cwd
                &&& stack_taken(*old(stacks), *final(stacks), c.kstack)
                &&& c.ofile@ == Seq::new(NOFILE as nat, |i: int| None::<usize>)
                &&& forall|va: int| 0 <= va < 4096 ==> #[trigger] user_byte(final(a).frames(), c.pagetable.root(), va) == Some(
                    if va < initcode@.len() { initcode@[va] } else { 0u8 },
                )
                &&& lookup(final(a).frames(), c.pagetable.root(), 0) is Some
                &&& lookup(final(a).frames(), c.pagetable.root(), 0)->0.flags() == 0x1f
            }
        }),
{
    let ghost procs0 = table.procs@;
    let ghost st0 = *stacks;
    let mut context = match ProcessContext::allocate(a, stacks, trampoline, jump) {
        Ok(context) => context,
        Err(_) => {
            proof {
                assert(st0.used()[0]);
                assert(false);
            }
            return ;
        },
    };
    let ghost a1 = *a;
    let ghost c1 = context;
    uvminit(a, &context.pagetable, initcode);
    context.sz = PGSIZE;
    context.trapframe.epc = 0;
    context.trapframe.sp = PGSIZE;
    context.cwd = cwd;
    proof {
        c1.lemma_kernel_page(a1.frames(), *a);
        let k = choose|k: int| 0 <= k < NPROC && c1.kstack == #[trigger] kstack_spec(k) && !st0.used()[k] && stacks.used() == st0.used().update(
            k,
            true,
        );
        assert(context.kstack == kstack_spec(k) && stacks.used()[k]);
        assert(procs0[0].is_blank());
    }
    let ghost c2 = context;
    if let Some(n) = table.allocate_process() {
        proof {
            assert(n == 0) by {
                if n > 0 {
                    assert(!(procs0[0].state is Unused));
                }
            }
        }
        let ghost procs1 = table.procs@;
        let _ = table.procs[n].state.setup(context);
        proof {
            let procs2 = table.procs@;
            assert(procs2 =~= procs1.update(0, procs2[0]));
            assert forall|i: int| 1 <= i < NPROC implies #[trigger] procs2[i] == procs0[i] by {
                assert(procs1[i] == procs0[i]);
            }
            assert forall|i: int| 0 <= i < NPROC && (#[trigger] context_at(procs2, i)) is Some implies i == 0 by {
                if i != 0 {
                    assert(procs2[i] == procs0[i]);
                    assert(procs0[i].is_blank());
                }
            }
            assert(context_at(procs2, 0) == Some(c2));
            assert forall|k: int| 0 <= k < NPROC implies (#[trigger] procs2[k]).name@.len() == 16 by {
                assert(procs1[k].name@.len() == 16);
            }
        }
    }
}

/// No two processes share memory: their page tables map different frames.
pub proof fn lemma_processes_isolated(procs: Seq<Process>, a: KernelAllocator, stacks: KernelStackAllocator, i: int, j: int, v1: int, v2: int)
    requires
        a.wf(),
        contexts_wf(procs, a, stacks),
        0 <= i < procs.len(),
        0 <= j < procs.len(),
        i != j,
        context_at(procs, i) is Some,
        context_at(procs, j) is Some,
        translate(a.frames(), context_at(procs, i)->0.pagetable.root(), v1) is Some,
    ensures
        translate(a.frames(), context_at(procs, i)->0.pagetable.root(), v1) != translate(
            a.frames(),
            context_at(procs, j)->0.pagetable.root(),
            v2,
        ),
{
    let r1 = context_at(procs, i)->0.pagetable.root();
    let r2 = context_at(procs, j)->0.pagetable.root();
    assert(apart(context_at(procs, i)->0, context_at(procs, j)->0));
    if translate(a.frames(), r1, v1) == translate(a.frames(), r2, v2) {
        crate::riscv::paging::lemma_translate_injective(a.frames(), r1, v1, r2, v2);
    }
}


/// Whatever a process does to its registers, its files and its directory keeps all contexts in
/// order; so do its end, a change of its state and a change of somebody else's.
pub proof fn lemma_contexts_kept(procs0: Seq<Process>, procs1: Seq<Process>, a: KernelAllocator, stacks: KernelStackAllocator)
    requires
        contexts_wf(procs0, a, stacks),
        procs1.len() == procs0.len(),
        forall|i: int| 0 <= i < procs0.len() && (#[trigger] context_at(procs1, i)) is Some ==> {
            let c = context_at(procs0, i);
            let d = context_at(procs1, i)->0;
            &&& c is Some
            &&& d.kstack == c->0.kstack
            &&& d.sz == c->0.sz
            &&& d.pagetable == c->0.pagetable
            &&& d.trapframe_addr == c->0.trapframe_addr
            &&& d.ofile@.len() == c->0.ofile@.len()
        },
    ensures
        contexts_wf(procs1, a, stacks),
{
    assert forall|i: int| 0 <= i < procs1.len() && (#[trigger] context_at(procs1, i)) is Some implies context_at(procs1, i)->0.wf(&a) && stack_used(
        stacks,
        context_at(procs1, i)->0.kstack,
    ) by {
        assert(context_at(procs0, i)->0.wf(&a));
    }
    assert forall|i: int, j: int|
        0 <= i < procs1.len() && 0 <= j < procs1.len() && i != j && (#[trigger] context_at(procs1, i)) is Some && (#[trigger] context_at(
            procs1,
            j,
        )) is Some implies apart(context_at(procs1, i)->0, context_at(procs1, j)->0) by {
        assert(context_at(procs0, i) is Some && context_at(procs0, j) is Some);
    }
}

} // verus!
