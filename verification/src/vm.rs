//! The kernel's page table.
use vstd::prelude::*;
use crate::allocator::{is_frame, Frame, KernelAllocator};
use crate::config::NPROC;
use crate::memory_layout::{kstack_spec, KERNBASE, PHYSTOP, PLIC, TRAMPOLINE, UART0, VIRTIO0};
use crate::process::memory::{lemma_safe_trans, others_safe};
use crate::process::process::is_kernel_page;
use crate::process::{initialize_kstack, lemma_safe_grown, lemma_safe_mapped};
use crate::riscv::make_satp;
use crate::riscv::paging::{is_page, is_root, lookup, page_count, lemma_missing, missing, lemma_tables_some, tables_due, tables_for, PageTable, PGSIZE, PTE};

verus! {

/// No page of the table but those in `pages` is mapped.
pub open spec fn only_mapped(ram: Seq<Frame>, root: int, pages: Set<int>) -> bool {
    forall|vp: int| is_page(vp) && !pages.contains(vp) ==> (#[trigger] lookup(ram, root, vp)) is None
}

/// The pages from `va` on that `size` bytes take.
pub open spec fn page_range(va: int, size: int) -> Set<int> {
    Set::new(|vp: int| va / 4096 <= vp < va / 4096 + page_count(size))
}

/// The pages from `va` on are mapped to the memory from `pa` on.
pub open spec fn range_mapped(ram: Seq<Frame>, root: int, va: int, pa: int, size: int, flags: u64) -> bool {
    forall|k: int| 0 <= k < page_count(size) ==> #[trigger] lookup(ram, root, va / 4096 + k) == Some(PTE::leaf((pa + k * 4096) as u64, flags))
}

/// Mappings of `pages` are the same.
pub open spec fn pages_same(old: Seq<Frame>, new: Seq<Frame>, root: int, pages: Set<int>) -> bool {
    forall|vp: int| is_page(vp) && pages.contains(vp) ==> #[trigger] lookup(new, root, vp) == lookup(old, root, vp)
}

/// Adds a mapping for the supervisor to a table in which `pages` are mapped. There must be
/// enough free pages for new tables.
pub(crate) fn map_kernel(a: &mut KernelAllocator, pagetable: &PageTable, va: u64, pa: u64, size: u64, flags: u64, Ghost(pages): Ghost<Set<int>>)
    requires
        old(a).wf(),
        pagetable.wf(old(a)),
        size > 0,
        va as int % 4096 == 0,
        va + size <= 0x40_0000_0000,
        pa + size + 4096 <= 0x100_0000_0000_0000,
        flags == PTE::R | PTE::X || flags == PTE::R | PTE::W,
        only_mapped(old(a).frames(), pagetable.root(), pages),
        forall|vp: int| #[trigger] page_range(va as int, size as int).contains(vp) ==> !pages.contains(vp),
        old(a).free().len() >= tables_due(old(a).frames(), pagetable.root(), va as int / 4096, page_count(size as int)),
    ensures
        final(a).wf(),
        final(a).end() == old(a).end(),
        pagetable.wf(final(a)),
        only_mapped(final(a).frames(), pagetable.root(), pages.union(page_range(va as int, size as int))),
        range_mapped(final(a).frames(), pagetable.root(), va as int, pa as int, size as int, flags),
        pages_same(old(a).frames(), final(a).frames(), pagetable.root(), pages),
        others_safe(old(a).frames(), final(a).frames(), pagetable.root()),
        final(a).free().len() + tables_due(old(a).frames(), pagetable.root(), va as int / 4096, page_count(size as int)) >= old(a).free().len(),
{
    let ghost s0 = a.frames();
    let ghost root = pagetable.root();
    let ghost vp0 = va as int / 4096;
    proof {
        assert((2u64 | 8) & 0x3ff == (2 | 8) && (2u64 | 4) & 0x3ff == (2 | 4) && (2u64 | 8) & 16 == 0 && (2u64 | 4) & 16 == 0) by (bit_vector);
        assert forall|k: int| 0 <= k < page_count(size as int) implies (#[trigger] lookup(s0, root, vp0 + k)) is None by {
            assert(page_range(va as int, size as int).contains(vp0 + k));
            assert(is_page(vp0 + k));
        }
    }
    let r = pagetable.map(a, va, pa, size, flags);
    proof {
        assert(r is Ok);
        let s1 = a.frames();
        lemma_safe_mapped(s0, s1, root, vp0, pa as int, flags, page_count(size as int));
        assert forall|vp: int| is_page(vp) && !pages.union(page_range(va as int, size as int)).contains(vp) implies (#[trigger] lookup(
            s1,
            root,
            vp,
        )) is None by {
            assert(!page_range(va as int, size as int).contains(vp));
            assert(lookup(s1, root, vp) == lookup(s0, root, vp));
        }
        assert forall|vp: int| is_page(vp) && pages.contains(vp) implies #[trigger] lookup(s1, root, vp) == lookup(s0, root, vp) by {
            assert(!page_range(va as int, size as int).contains(vp));
        }
    }
}

/// Mappings that were there stay.
proof fn lemma_range_same(s0: Seq<Frame>, s1: Seq<Frame>, root: int, va: int, pa: int, size: int, flags: u64, pages: Set<int>)
    requires
        range_mapped(s0, root, va, pa, size, flags),
        pages_same(s0, s1, root, pages),
        page_range(va, size).subset_of(pages),
        0 <= va,
        va + size <= 0x40_0000_0000,
        va % 4096 == 0,
    ensures
        range_mapped(s1, root, va, pa, size, flags),
{
    assert forall|k: int| 0 <= k < page_count(size) implies #[trigger] lookup(s1, root, va / 4096 + k) == Some(
        PTE::leaf((pa + k * 4096) as u64, flags),
    ) by {
        assert(page_range(va, size).contains(va / 4096 + k));
        assert(lookup(s0, root, va / 4096 + k) == Some(PTE::leaf((pa + k * 4096) as u64, flags)));
        assert(is_page(va / 4096 + k));
    }
}

/// Near page `k` of a range that is mapped, tables are there.
proof fn lemma_near(ram: Seq<Frame>, root: int, va: int, pa: int, size: int, flags: u64, k: int, v: int)
    requires
        range_mapped(ram, root, va, pa, size, flags),
        0 <= k < page_count(size),
        0 <= va,
        0 <= v,
    ensures
        (va / 4096 + k) / 512 == v / 512 ==> missing(ram, root, v) == 0,
        (va / 4096 + k) / 262144 == v / 262144 ==> missing(ram, root, v) <= 1,
        0 <= missing(ram, root, v) <= 2,
{
    assert(lookup(ram, root, va / 4096 + k) is Some);
    lemma_missing(ram, root, va / 4096 + k, v);
}

/// The pages that the kernel maps, apart from its stacks.
pub open spec fn kernel_pages(etext: int) -> Set<int> {
    page_range(UART0 as int, 4096).union(page_range(VIRTIO0 as int, 4096)).union(page_range(PLIC as int, 0x40_0000)).union(
        page_range(KERNBASE as int, etext - KERNBASE),
    ).union(page_range(etext, PHYSTOP - etext)).union(page_range(TRAMPOLINE as int, 4096))
}

/// The mappings of the kernel, apart from its stacks: devices and memory at their physical
/// addresses, and the trampoline at the highest virtual address.
pub open spec fn kernel_mapped(ram: Seq<Frame>, root: int, etext: int, trampoline: int) -> bool {
    let rw = PTE::R | PTE::W;
    let rx = PTE::R | PTE::X;
    &&& range_mapped(ram, root, UART0 as int, UART0 as int, 4096, rw)
    &&& range_mapped(ram, root, VIRTIO0 as int, VIRTIO0 as int, 4096, rw)
    &&& range_mapped(ram, root, PLIC as int, PLIC as int, 0x40_0000, rw)
    &&& range_mapped(ram, root, KERNBASE as int, KERNBASE as int, etext - KERNBASE, rx)
    &&& range_mapped(ram, root, etext, etext, PHYSTOP - etext, rw)
    &&& range_mapped(ram, root, TRAMPOLINE as int, trampoline, 4096, rx)
}

/// The virtual pages of the first `n` kernel stacks.
pub open spec fn stack_pages(n: int) -> Set<int> {
    Set::new(|vp: int| exists|i: int| 0 <= i < n && vp == #[trigger] kstack_spec(i) / 4096)
}

/// The first `n` kernel stacks are mapped, each to a page of its own.
pub open spec fn stacks_mapped(ram: Seq<Frame>, root: int, pas: Seq<u64>, n: int) -> bool {
    &&& pas.len() == n
    &&& pas.no_duplicates()
    &&& forall|i: int| 0 <= i < n ==> is_kernel_page(ram, #[trigger] pas[i] as int)
    &&& forall|i: int| 0 <= i < n ==> lookup(ram, root, #[trigger] kstack_spec(i) / 4096) == Some(PTE::leaf(pas[i], PTE::R | PTE::W))
}

/// Makes the part of the kernel's page table that does not concern kernel stacks.
#[verifier::rlimit(60)]
fn map_fixed(a: &mut KernelAllocator, etext: u64, trampoline: u64) -> (r: PageTable)
    requires
        old(a).wf(),
        old(a).free().len() >= 72,
        KERNBASE < etext < PHYSTOP,
        etext as int % 4096 == 0,
        trampoline <= 0xff_ffff_ffff_0000,
    ensures
        final(a).wf(),
        final(a).end() == old(a).end(),
        r.wf(final(a)),
        !is_root(old(a).frames(), r.root()),
        kernel_mapped(final(a).frames(), r.root(), etext as int, trampoline as int),
        only_mapped(final(a).frames(), r.root(), kernel_pages(etext as int)),
        others_safe(old(a).frames(), final(a).frames(), r.root()),
        final(a).free().len() + 72 >= old(a).free().len(),
{
    let ghost s0 = a.frames();
    proof {
        crate::memory_layout::layout_facts();
        a.lemma_first_free();
        reveal(tables_for);
        reveal(tables_due);
    }
    let pagetable = match PageTable::allocate(a) {
        Ok(pagetable) => pagetable,
        Err(_) => PageTable { table: 0 },
    };
    let ghost root = pagetable.root();
    let ghost s1 = a.frames();
    let ghost e = etext as int;
    let ghost p1 = page_range(UART0 as int, 4096);
    let ghost p2 = p1.union(page_range(VIRTIO0 as int, 4096));
    let ghost p3 = p2.union(page_range(PLIC as int, 0x40_0000));
    let ghost p4 = p3.union(page_range(KERNBASE as int, e - KERNBASE));
    let ghost p5 = p4.union(page_range(e, PHYSTOP - e));
    proof {
        lemma_safe_grown(s0, s1, root);
        assert(only_mapped(s1, root, Set::empty()));
        assert(Set::<int>::empty().union(p1) =~= p1);
    }
    proof {
        lemma_tables_some(s1, root, UART0 as int / 4096, 1);
    }
    map_kernel(a, &pagetable, UART0, UART0, PGSIZE, PTE::R | PTE::W, Ghost(Set::empty()));
    let ghost s2 = a.frames();
    proof {
        lemma_near(s2, root, UART0 as int, UART0 as int, 4096, PTE::R | PTE::W, 0, VIRTIO0 as int / 4096);
    }
    map_kernel(a, &pagetable, VIRTIO0, VIRTIO0, PGSIZE, PTE::R | PTE::W, Ghost(p1));
    let ghost s3 = a.frames();
    proof {
        lemma_safe_trans(s0, s1, s2, root);
        lemma_safe_trans(s0, s2, s3, root);
        lemma_range_same(s2, s3, root, UART0 as int, UART0 as int, 4096, PTE::R | PTE::W, p1);
        lemma_near(s3, root, UART0 as int, UART0 as int, 4096, PTE::R | PTE::W, 0, PLIC as int / 4096);
    }
    map_kernel(a, &pagetable, PLIC, PLIC, 0x40_0000, PTE::R | PTE::W, Ghost(p2));
    let ghost s4 = a.frames();
    proof {
        lemma_safe_trans(s0, s3, s4, root);
        lemma_range_same(s3, s4, root, UART0 as int, UART0 as int, 4096, PTE::R | PTE::W, p2);
        lemma_range_same(s3, s4, root, VIRTIO0 as int, VIRTIO0 as int, 4096, PTE::R | PTE::W, p2);
        lemma_tables_some(s4, root, KERNBASE as int / 4096, 1);
    }
    map_kernel(a, &pagetable, KERNBASE, KERNBASE, etext - KERNBASE, PTE::R | PTE::X, Ghost(p3));
    let ghost s5 = a.frames();
    proof {
        lemma_safe_trans(s0, s4, s5, root);
        lemma_range_same(s4, s5, root, UART0 as int, UART0 as int, 4096, PTE::R | PTE::W, p3);
        lemma_range_same(s4, s5, root, VIRTIO0 as int, VIRTIO0 as int, 4096, PTE::R | PTE::W, p3);
        lemma_range_same(s4, s5, root, PLIC as int, PLIC as int, 0x40_0000, PTE::R | PTE::W, p3);
        lemma_near(s5, root, KERNBASE as int, KERNBASE as int, e - KERNBASE, PTE::R | PTE::X, page_count(e - KERNBASE) - 1, e / 4096);
    }
    map_kernel(a, &pagetable, etext, etext, PHYSTOP - etext, PTE::R | PTE::W, Ghost(p4));
    let ghost s6 = a.frames();
    proof {
        lemma_safe_trans(s0, s5, s6, root);
        lemma_range_same(s5, s6, root, UART0 as int, UART0 as int, 4096, PTE::R | PTE::W, p4);
        lemma_range_same(s5, s6, root, VIRTIO0 as int, VIRTIO0 as int, 4096, PTE::R | PTE::W, p4);
        lemma_range_same(s5, s6, root, PLIC as int, PLIC as int, 0x40_0000, PTE::R | PTE::W, p4);
        lemma_range_same(s5, s6, root, KERNBASE as int, KERNBASE as int, e - KERNBASE, PTE::R | PTE::X, p4);
        lemma_tables_some(s6, root, TRAMPOLINE as int / 4096, 1);
    }
    map_kernel(a, &pagetable, TRAMPOLINE, trampoline, PGSIZE, PTE::R | PTE::X, Ghost(p5));
    proof {
        let s7 = a.frames();
        lemma_safe_trans(s0, s6, s7, root);
        lemma_range_same(s6, s7, root, UART0 as int, UART0 as int, 4096, PTE::R | PTE::W, p5);
        lemma_range_same(s6, s7, root, VIRTIO0 as int, VIRTIO0 as int, 4096, PTE::R | PTE::W, p5);
        lemma_range_same(s6, s7, root, PLIC as int, PLIC as int, 0x40_0000, PTE::R | PTE::W, p5);
        lemma_range_same(s6, s7, root, KERNBASE as int, KERNBASE as int, e - KERNBASE, PTE::R | PTE::X, p5);
        lemma_range_same(s6, s7, root, e, e, PHYSTOP - e, PTE::R | PTE::W, p5);
    }
    pagetable
}

/// Makes the kernel's page table. `etext` is the end of the kernel's code and `trampoline` the
/// physical address of the trampoline.
#[verifier::rlimit(40)]
fn make_pagetable_for_kernel(a: &mut KernelAllocator, etext: u64, trampoline: u64) -> (r: PageTable)
    requires
        old(a).wf(),
        old(a).free().len() >= 72 + NPROC,
        KERNBASE < etext < PHYSTOP,
        etext as int % 4096 == 0,
        trampoline <= 0xff_ffff_ffff_0000,
    ensures
        final(a).wf(),
        final(a).end() == old(a).end(),
        r.wf(final(a)),
        !is_root(old(a).frames(), r.root()),
        kernel_mapped(final(a).frames(), r.root(), etext as int, trampoline as int),
        exists|pas: Seq<u64>| #[trigger] stacks_mapped(final(a).frames(), r.root(), pas, NPROC as int),
        only_mapped(final(a).frames(), r.root(), kernel_pages(etext as int).union(stack_pages(NPROC as int))),
        others_safe(old(a).frames(), final(a).frames(), r.root()),
{
    let ghost s0 = a.frames();
    let pagetable = map_fixed(a, etext, trampoline);
    let ghost s1 = a.frames();
    let ghost root = pagetable.root();
    let ghost p = kernel_pages(etext as int);
    proof {
        assert forall|i: int| 0 <= i < NPROC implies lookup(s1, root, #[trigger] kstack_spec(i) / 4096) is None by {
            assert(!p.contains(kstack_spec(i) / 4096));
            assert(is_page(kstack_spec(i) / 4096));
        }
    }
    proof {
        assert(kstack_spec(0) / 4096 == 0x3ff_fffd);
        lemma_near(s1, root, TRAMPOLINE as int, trampoline as int, 4096, PTE::R | PTE::X, 0, kstack_spec(0) / 4096);
    }
    initialize_kstack(a, &pagetable);
    proof {
        let s2 = a.frames();
        let e = etext as int;
        assert forall|vp: int| is_page(vp) && p.contains(vp) implies #[trigger] lookup(s2, root, vp) == lookup(s1, root, vp) by {
            if stack_pages(NPROC as int).contains(vp) {
                let k = choose|k: int| 0 <= k < NPROC && vp == #[trigger] kstack_spec(k) / 4096;
                assert(!p.contains(kstack_spec(k) / 4096));
            }
        }
        assert forall|vp: int| is_page(vp) && !p.union(stack_pages(NPROC as int)).contains(vp) implies (#[trigger] lookup(s2, root, vp)) is None by {
            assert(lookup(s1, root, vp) is None);
            assert(stack_pages(NPROC as int).complement().contains(vp));
        }
        lemma_safe_trans(s0, s1, s2, root);
        lemma_range_same(s1, s2, root, UART0 as int, UART0 as int, 4096, PTE::R | PTE::W, p);
        lemma_range_same(s1, s2, root, VIRTIO0 as int, VIRTIO0 as int, 4096, PTE::R | PTE::W, p);
        lemma_range_same(s1, s2, root, PLIC as int, PLIC as int, 0x40_0000, PTE::R | PTE::W, p);
        lemma_range_same(s1, s2, root, KERNBASE as int, KERNBASE as int, e - KERNBASE, PTE::R | PTE::X, p);
        lemma_range_same(s1, s2, root, e, e, PHYSTOP - e, PTE::R | PTE::W, p);
        lemma_range_same(s1, s2, root, TRAMPOLINE as int, trampoline as int, 4096, PTE::R | PTE::X, p);
    }
    pagetable
}

/// Makes the kernel's page table when the kernel starts.
pub fn initialize(a: &mut KernelAllocator, etext: u64, trampoline: u64) -> (r: PageTable)
    requires
        old(a).wf(),
        old(a).free().len() >= 72 + NPROC,
        KERNBASE < etext < PHYSTOP,
        etext as int % 4096 == 0,
        trampoline <= 0xff_ffff_ffff_0000,
    ensures
        final(a).wf(),
        final(a).end() == old(a).end(),
        r.wf(final(a)),
        !is_root(old(a).frames(), r.root()),
        kernel_mapped(final(a).frames(), r.root(), etext as int, trampoline as int),
        exists|pas: Seq<u64>| #[trigger] stacks_mapped(final(a).frames(), r.root(), pas, NPROC as int),
        only_mapped(final(a).frames(), r.root(), kernel_pages(etext as int).union(stack_pages(NPROC as int))),
        others_safe(old(a).frames(), final(a).frames(), r.root()),
{
    make_pagetable_for_kernel(a, etext, trampoline)
}

/// The value of the page table register that makes a hart use the kernel's page table.
pub fn initialize_for_core(pagetable: &PageTable) -> (satp: u64)
    requires
        is_frame(pagetable.root()),
    ensures
        satp == 0x8000_0000_0000_0000 + (KERNBASE + pagetable.root() * 4096) / 4096,
{
    make_satp(pagetable.as_u64())
}

/// In the kernel's page table the guard pages below the kernel stacks are not mapped.
pub proof fn lemma_stack_guards(ram: Seq<Frame>, root: int, etext: int, i: int)
    requires
        only_mapped(ram, root, kernel_pages(etext).union(stack_pages(NPROC as int))),
        KERNBASE < etext < PHYSTOP,
        0 <= i < NPROC,
    ensures
        lookup(ram, root, kstack_spec(i) / 4096 - 1) is None,
{
    let vp = kstack_spec(i) / 4096 - 1;
    assert(is_page(vp));
    if stack_pages(NPROC as int).contains(vp) {
        let k = choose|k: int| 0 <= k < NPROC && vp == #[trigger] kstack_spec(k) / 4096;
        assert(kstack_spec(k) / 4096 == 0x3ff_ffff - 2 * (k + 1));
        assert(kstack_spec(i) / 4096 == 0x3ff_ffff - 2 * (i + 1));
    }
    assert(!kernel_pages(etext).contains(vp));
}

} // verus!
