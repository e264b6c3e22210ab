//! Physical memory and its page allocator.
//!
//! RAM is a row of 4096-byte frames. A free frame holds the link to the next free one, so
//! the free list lives in the memory that it hands out.
use vstd::prelude::*;
use crate::memory_layout::{KERNBASE, PHYSTOP};
use crate::riscv::paging::{pg_roundup, PGSIZE, PTE};

verus! {

/// Frames of physical RAM.
pub const NFRAMES: usize = 32768;

/// What one frame of physical memory holds.
pub enum Frame {
    /// Never handed to the allocator (the kernel image).
    Reserved,
    /// On the free list; `next` is the following free frame.
    Free { next: Option<usize> },
    /// A page-table page. `level` is 2 for a root and `parent` names the entry that refers to
    /// this table.
    Table { entries: Vec<PTE>, level: Ghost<int>, parent: Ghost<Option<(int, int)>> },
    /// Ordinary memory. `owner` names the leaf entry through which user code reaches it.
    Data { bytes: Vec<u8>, owner: Ghost<Option<(int, int)>> },
}

/// The kernel's memory allocator: RAM and the list of its unused pages.
pub struct KernelAllocator {
    pub head: Option<usize>,
    pub ram: Vec<Frame>,
    pub kernel_end: u64,
    pub unused: Ghost<Seq<int>>,
}

/// Whether `pa` is the address of a frame of RAM.
pub open spec fn is_frame_addr(pa: int) -> bool {
    KERNBASE <= pa < PHYSTOP && pa % 4096 == 0
}

/// Number of the frame at address `pa`.
pub open spec fn frame_at(pa: int) -> int {
    (pa - KERNBASE) / 4096
}

/// Address of frame `n`.
pub open spec fn frame_addr(n: int) -> int {
    KERNBASE + n * 4096
}

pub open spec fn is_frame(n: int) -> bool {
    0 <= n < NFRAMES
}

/// The frames listed in `unused` are exactly the free ones, and each links to the next.
pub open spec fn list_wf(ram: Seq<Frame>, head: Option<usize>, unused: Seq<int>) -> bool {
    &&& unused.no_duplicates()
    &&& forall|k: int| 0 <= k < unused.len() ==> is_frame(#[trigger] unused[k])
    &&& forall|k: int|
        0 <= k < unused.len() ==> #[trigger] ram[unused[k]] == (Frame::Free {
            next: link_to(unused, k + 1),
        })
    &&& forall|p: int| is_frame(p) && #[trigger] ram[p] is Free ==> unused.contains(p)
    &&& head == link_to(unused, 0)
}

/// The link that refers to element `k` of a free list.
pub open spec fn link_to(unused: Seq<int>, k: int) -> Option<usize> {
    if k < unused.len() {
        Some(unused[k] as usize)
    } else {
        None
    }
}

/// Entry `i` of the table in frame `t`.
pub open spec fn entry_at(ram: Seq<Frame>, t: int, i: int) -> PTE {
    ram[t]->entries@[i]
}

/// Entry `i` of table `t` is consistent with the frame it refers to.
pub open spec fn entry_wf(ram: Seq<Frame>, t: int, i: int) -> bool {
    let e = entry_at(ram, t, i);
    e.valid() && ram[t]->level@ > 0 ==> {
        &&& is_frame_addr(e.pa() as int)
        &&& ram[frame_at(e.pa() as int)] is Table
        &&& ram[frame_at(e.pa() as int)]->level@ == ram[t]->level@ - 1
        &&& ram[frame_at(e.pa() as int)]->parent@ == Some((t, i))
        &&& e.flags() == PTE::V
        &&& ram[t]->level@ == 2 ==> i < 256
    }
}

/// Every frame is well-formed: page tables form trees of three levels.
pub open spec fn frames_wf(ram: Seq<Frame>) -> bool {
    &&& ram.len() == NFRAMES
    &&& forall|p: int|
        is_frame(p) && #[trigger] ram[p] is Data ==> ram[p]->bytes@.len() == 4096
    &&& forall|t: int|
        is_frame(t) && #[trigger] ram[t] is Table ==> ram[t]->entries@.len() == 512 && 0
            <= ram[t]->level@ <= 2
    &&& forall|t: int, i: int|
        is_frame(t) && ram[t] is Table && 0 <= i < 512 ==> #[trigger] entry_wf(ram, t, i)
}

/// All ordinary frames keep their contents.
pub open spec fn data_kept(old: Seq<Frame>, new: Seq<Frame>) -> bool {
    forall|p: int|
        is_frame(p) && #[trigger] old[p] is Data ==> new[p] is Data && new[p]->bytes@
            == old[p]->bytes@
}

/// What handing out a page comes to.
pub open spec fn handed_out(a0: KernelAllocator, a1: KernelAllocator, page: Option<u64>) -> bool {
    match page {
        None => a0.free().len() == 0 && a1 == a0,
        Some(pa) => {
            let p = frame_at(pa as int);
            &&& a0.free().len() > 0
            &&& p == a0.free()[0]
            &&& is_frame_addr(pa as int)
            &&& pa >= a0.end()
            &&& a0.frames()[p] is Free
            &&& a1.free() == a0.free().skip(1)
            &&& a1.frames()[p] is Data
            &&& a1.frames()[p]->owner@ == None::<(int, int)>
            &&& forall|q: int| is_frame(q) && q != p ==> #[trigger] a1.frames()[q] == a0.frames()[q]
        },
    }
}

/// What taking back a page comes to.
pub open spec fn given_back(a0: KernelAllocator, a1: KernelAllocator, page: u64) -> bool {
    &&& a1.free() == seq![frame_at(page as int)] + a0.free()
    &&& a1.frames()[frame_at(page as int)] is Free
    &&& forall|q: int| is_frame(q) && q != frame_at(page as int) ==> #[trigger] a1.frames()[q] == a0.frames()[q]
}

/// Pages that are handed out one after the other are different ones, whole, and after the kernel. A page
/// was free and is not any more, and nothing changes in any other.
pub proof fn lemma_pages_differ(a0: KernelAllocator, a1: KernelAllocator, a2: KernelAllocator, x: u64, y: u64, q: int)
    requires
        a0.wf(),
        a1.wf(),
        a1.end() == a0.end(),
        handed_out(a0, a1, Some(x)),
        handed_out(a1, a2, Some(y)),
    ensures
        x != y,
        x + 4096 <= y || y + 4096 <= x,
        x % 4096 == 0,
        a0.end() <= x,
        x + 4096 <= 0x8800_0000,
        0x8000_0000 <= x,
        a0.frames()[(x - 0x8000_0000) / 4096] is Free,
        !(a1.frames()[(x - 0x8000_0000) / 4096] is Free),
        is_frame(q) && q != (x - 0x8000_0000) / 4096 ==> a1.frames()[q] == a0.frames()[q],
        a1.free().len() == a0.free().len() - 1,
{
    assert(a1.free()[0] == a0.free()[1]);
}

/// A page that is given back is the next one to be handed out.
pub proof fn lemma_page_comes_back(a0: KernelAllocator, a1: KernelAllocator, a2: KernelAllocator, x: u64, r: Option<u64>)
    requires
        is_frame_addr(x as int),
        given_back(a0, a1, x),
        handed_out(a1, a2, r),
    ensures
        r == Some(x),
        a2.free() == a0.free(),
{
    assert(a2.free() =~= a0.free());
}

impl KernelAllocator {
    /// The free list, first page to be handed out first.
    pub open spec fn free(&self) -> Seq<int> {
        self.unused@
    }

    /// The frames of RAM.
    pub open spec fn frames(&self) -> Seq<Frame> {
        self.ram@
    }

    /// First address after the kernel image.
    pub open spec fn end(&self) -> u64 {
        self.kernel_end
    }

    pub open spec fn wf(&self) -> bool {
        &&& frames_wf(self.ram@)
        &&& list_wf(self.ram@, self.head, self.unused@)
        &&& KERNBASE <= self.kernel_end <= PHYSTOP
        &&& forall|p: int|
            is_frame(p) && !(#[trigger] self.ram@[p] is Reserved) ==> frame_addr(p)
                >= self.kernel_end
    }

    /// There are at most as many free pages as frames.
    pub proof fn lemma_free_bounded(&self)
        requires
            self.wf(),
        ensures
            self.free().len() <= NFRAMES,
    {
        lemma_frames_bounded(self.free());
    }

    /// The first page of the free list is free.
    pub proof fn lemma_first_free(&self)
        requires
            self.wf(),
        ensures
            self.free().len() > 0 ==> is_frame(self.free()[0]) && self.frames()[self.free()[0]] is Free,
    {
        if self.free().len() > 0 {
            assert(self.frames()[self.free()[0]] is Free);
        }
    }

    /// Makes an allocator that has no page yet. `kernel_end` is the first address after the
    /// kernel.
    pub fn empty(kernel_end: u64) -> (this: Self)
        requires
            KERNBASE <= kernel_end <= PHYSTOP,
        ensures
            this.wf(),
            this.free() == Seq::<int>::empty(),
            this.end() == kernel_end,
            forall|p: int| is_frame(p) ==> #[trigger] this.frames()[p] is Reserved,
    {
        let mut ram: Vec<Frame> = Vec::new();
        let mut i: usize = 0;
        while i < NFRAMES
            invariant
                i <= NFRAMES,
                ram@.len() == i,
                forall|p: int| 0 <= p < i ==> #[trigger] ram@[p] is Reserved,
            decreases NFRAMES - i,
        {
            ram.push(Frame::Reserved);
            i = i + 1;
        }
        KernelAllocator { head: None, ram, kernel_end, unused: Ghost(Seq::empty()) }
    }

    /// Splits the memory from `addr_start` to `addr_end` into pages and frees each of them.
    #[verifier::rlimit(60)]
    #[verifier::spinoff_prover]
    pub(crate) fn register_pages(&mut self, addr_start: u64, addr_end: u64)
        requires
            old(self).wf(),
            old(self).end() <= addr_start <= PHYSTOP,
            PGSIZE <= addr_end <= PHYSTOP,
            forall|p: int| is_frame(p) ==> #[trigger] old(self).frames()[p] is Reserved,
        ensures
            final(self).wf(),
            final(self).end() == old(self).end(),
            forall|p: int| is_frame(p) ==>
                (#[trigger] final(self).frames()[p] is Free <==> addr_start <= frame_addr(p)
                    && frame_addr(p) + PGSIZE <= addr_end),
            forall|p: int| is_frame(p) && !(final(self).frames()[p] is Free) ==>
                #[trigger] final(self).frames()[p] is Reserved,
            forall|j: int, k: int| 0 <= j < k < final(self).free().len() ==>
                #[trigger] final(self).free()[j] > #[trigger] final(self).free()[k],
    {
        proof {
            if self.free().len() > 0 {
                assert(self.frames()[self.free()[0]] is Free);
            }
        }
        let start = pg_roundup(addr_start);
        let last = addr_end - PGSIZE;
        let mut page = start;
        while page <= last
            invariant
                self.wf(),
                self.end() == old(self).end(),
                old(self).end() <= addr_start <= start <= page,
                start < addr_start + PGSIZE,
                page as int % 4096 == 0,
                start as int % 4096 == 0,
                page <= PHYSTOP + PGSIZE,
                last <= PHYSTOP - PGSIZE,
                last == addr_end - PGSIZE,
                page <= last + PGSIZE || page == start,
                forall|p: int| is_frame(p) ==>
                    (#[trigger] self.frames()[p] is Free <==> start <= frame_addr(p) < page),
                forall|p: int| is_frame(p) && !(self.frames()[p] is Free) ==>
                    #[trigger] self.frames()[p] is Reserved,
                forall|j: int| 0 <= j < self.free().len() ==> frame_addr(#[trigger] self.free()[j]) < page,
                forall|j: int, k: int| 0 <= j < k < self.free().len() ==>
                    #[trigger] self.free()[j] > #[trigger] self.free()[k],
            decreases PHYSTOP + PGSIZE - page,
        {
            let ghost before = *self;
            self.deallocate_page(page);
            proof {
                assert forall|j: int| 0 <= j < self.free().len() implies frame_addr(
                    #[trigger] self.free()[j],
                ) < page + PGSIZE by {
                    if j > 0 {
                        assert(self.free()[j] == before.free()[j - 1]);
                    }
                }
                assert forall|j: int, k: int| 0 <= j < k < self.free().len() implies
                    #[trigger] self.free()[j] > #[trigger] self.free()[k] by {
                    assert(self.free()[k] == before.free()[k - 1]);
                    if j > 0 {
                        assert(self.free()[j] == before.free()[j - 1]);
                    }
                }
            }
            page = page + PGSIZE;
        }
    }

    /// Hands out a free page, the one freed last. Its contents are unspecified.
    pub fn allocate_page(&mut self) -> (page: Option<u64>)
        requires
            old(self).wf(),
        ensures
            final(self).wf(),
            final(self).end() == old(self).end(),
            handed_out(*old(self), *final(self), page),
    {
        match self.head {
            None => None,
            Some(page) => {
                let ghost ram0 = self.ram@;
                let ghost unused0 = self.unused@;
                proof {
                    assert(page == unused0[0] as usize);
                    assert(is_frame(unused0[0]));
                    assert(ram0[unused0[0]] == (Frame::Free { next: link_to(unused0, 1) }));
                }
                let next = match &self.ram[page] {
                    Frame::Free { next } => *next,
                    _ => None,
                };
                self.head = next;
                let bytes = zeroed_page();
                self.ram.set(page, Frame::Data { bytes, owner: Ghost(None) });
                proof {
                    self.unused = Ghost(unused0.skip(1));
                    let unused1 = self.unused@;
                    assert(forall|k: int| 0 <= k < unused1.len() ==> #[trigger] unused1[k] == unused0[k + 1]);
                    assert forall|k: int| 0 <= k < unused1.len() implies #[trigger] self.ram@[unused1[k]]
                        == (Frame::Free { next: link_to(unused1, k + 1) }) by {
                        assert(self.ram@[unused0[k + 1]] == ram0[unused0[k + 1]]);
                    }
                    assert forall|p: int| is_frame(p) && #[trigger] self.ram@[p] is Free implies unused1.contains(p) by {
                        assert(unused0.contains(p));
                        let k = choose|k: int| 0 <= k < unused0.len() && unused0[k] == p;
                        assert(unused1[k - 1] == p);
                    }
                    lemma_frames_wf_change(ram0, self.ram@, page as int);
                }
                Some(KERNBASE + page as u64 * PGSIZE)
            },
        }
    }

    /// Takes back a page that nothing uses any more.
    pub fn deallocate_page(&mut self, page: u64)
        requires
            old(self).wf(),
            is_frame_addr(page as int),
            page >= old(self).end(),
            ({
                let f = old(self).frames()[frame_at(page as int)];
                f is Reserved || (f is Data && f->owner@ == None::<(int, int)>)
            }),
        ensures
            final(self).wf(),
            final(self).end() == old(self).end(),
            final(self).free() == seq![frame_at(page as int)] + old(self).free(),
            final(self).frames()[frame_at(page as int)] is Free,
            forall|q: int| is_frame(q) && q != frame_at(page as int) ==>
                #[trigger] final(self).frames()[q] == old(self).frames()[q],
            given_back(*old(self), *final(self), page),
    {
        let p: usize = ((page - KERNBASE) / PGSIZE) as usize;
        let ghost ram0 = self.ram@;
        let ghost unused0 = self.unused@;
        self.ram.set(p, Frame::Free { next: self.head });
        self.head = Some(p);
        proof {
            self.unused = Ghost(seq![p as int] + unused0);
            let unused1 = self.unused@;
            assert(!unused0.contains(p as int)) by {
                if unused0.contains(p as int) {
                    let k = choose|k: int| 0 <= k < unused0.len() && unused0[k] == p;
                    assert(ram0[unused0[k]] is Free);
                }
            }
            assert forall|k: int| 0 <= k < unused1.len() implies #[trigger] self.ram@[unused1[k]]
                == (Frame::Free { next: link_to(unused1, k + 1) }) by {
                if k > 0 {
                    assert(unused1[k] == unused0[k - 1]);
                    assert(ram0[unused0[k - 1]] == (Frame::Free { next: link_to(unused0, k) }));
                    assert(unused0.contains(unused0[k - 1]));
                }
            }
            assert forall|p2: int| is_frame(p2) && #[trigger] self.ram@[p2] is Free implies unused1.contains(p2) by {
                if p2 == p {
                    assert(unused1[0] == p2);
                } else {
                    assert(ram0[p2] is Free);
                    let k = choose|k: int| 0 <= k < unused0.len() && unused0[k] == p2;
                    assert(unused1[k + 1] == p2);
                }
            }
            assert(unused1.no_duplicates()) by {
                assert forall|j: int, k: int| 0 <= j < k < unused1.len() implies unused1[j] != unused1[k] by {
                    assert(unused1[k] == unused0[k - 1]);
                    assert(unused0.contains(unused0[k - 1]));
                }
            }
            lemma_frames_wf_change(ram0, self.ram@, p as int);
        }
    }
}

/// There are no more different frames than RAM has.
pub proof fn lemma_frames_bounded(s: Seq<int>)
    requires
        s.no_duplicates(),
        forall|k: int| 0 <= k < s.len() ==> is_frame(#[trigger] s[k]),
    ensures
        s.len() <= NFRAMES,
{
    s.unique_seq_to_set();
    let all = vstd::set_lib::set_int_range(0, NFRAMES as int);
    vstd::set_lib::lemma_int_range(0, NFRAMES as int);
    assert(s.to_set().subset_of(all)) by {
        assert forall|x: int| s.to_set().contains(x) implies all.contains(x) by {
            let k = choose|k: int| 0 <= k < s.len() && s[k] == x;
            assert(is_frame(s[k]));
        }
    }
    vstd::set_lib::lemma_len_subset(s.to_set(), all);
}

/// A page of zeros.
pub fn zeroed_page() -> (bytes: Vec<u8>)
    ensures
        bytes@ == Seq::new(4096, |i: int| 0u8),
{
    let bytes = vec![0u8; 4096];
    assert(bytes@ =~= Seq::new(4096, |i: int| 0u8));
    bytes
}

/// A frame that no entry refers to may change between the kinds that hold no entries.
pub proof fn lemma_frames_wf_change(old: Seq<Frame>, new: Seq<Frame>, p: int)
    requires
        frames_wf(old),
        new.len() == old.len(),
        is_frame(p),
        forall|q: int| is_frame(q) && q != p ==> #[trigger] new[q] == old[q],
        !(old[p] is Table),
        old[p] is Data ==> old[p]->owner@ == None::<(int, int)>,
        !(new[p] is Table),
        new[p] is Data ==> new[p]->bytes@.len() == 4096,
    ensures
        frames_wf(new),
{
    assert forall|t: int, i: int| is_frame(t) && new[t] is Table && 0 <= i < 512 implies
        #[trigger] entry_wf(new, t, i) by {
        assert(new[t] == old[t]);
        assert(entry_wf(old, t, i));
    }
}

/// Frees every page between the end of the kernel and the end of RAM.
pub fn initialize(allocator: &mut KernelAllocator)
    requires
        old(allocator).wf(),
        forall|p: int| is_frame(p) ==> #[trigger] old(allocator).frames()[p] is Reserved,
    ensures
        final(allocator).wf(),
        final(allocator).end() == old(allocator).end(),
        forall|p: int| is_frame(p) ==> (#[trigger] final(allocator).frames()[p] is Free
            <==> final(allocator).end() <= frame_addr(p)),
{
    let start = allocator.kernel_end;
    allocator.register_pages(start, PHYSTOP);
}


/// Memory for `size` bytes that begins at a multiple of `align`: a page, where that is enough.
pub fn allocate(allocator: &mut KernelAllocator, size: u64, align: u64) -> (r: Result<u64, ()>)
    requires
        old(allocator).wf(),
        align > 0,
    ensures
        final(allocator).wf(),
        final(allocator).end() == old(allocator).end(),
        match r {
            Ok(pa) => {
                let p = frame_at(pa as int);
                &&& size <= PGSIZE
                &&& PGSIZE as int % align as int == 0
                &&& old(allocator).free().len() > 0
                &&& is_frame_addr(pa as int)
                &&& p == old(allocator).free()[0]
                &&& final(allocator).free() == old(allocator).free().skip(1)
                &&& final(allocator).frames()[p] is Data
                &&& forall|q: int| is_frame(q) && q != p ==> #[trigger] final(allocator).frames()[q] == old(allocator).frames()[q]
            },
            Err(_) => {
                &&& *final(allocator) == *old(allocator)
                &&& size > PGSIZE || PGSIZE as int % align as int != 0 || old(allocator).free().len() == 0
            },
        },
{
    if PGSIZE < size {
        return Err(());
    }
    if PGSIZE % align != 0 {
        return Err(());
    }
    match allocator.allocate_page() {
        Some(pa) => Ok(pa),
        None => Err(()),
    }
}

/// A page serves every alignment that divides its size: its address is a multiple of it.
pub proof fn lemma_page_aligned(pa: int, align: int)
    requires
        is_frame_addr(pa),
        align > 0,
        4096int % align == 0,
    ensures
        pa % align == 0,
{
    let k = 4096int / align;
    let m = pa / 4096;
    assert(pa == m * 4096);
    vstd::arithmetic::div_mod::lemma_fundamental_div_mod(4096, align);
    assert(pa == align * (k * m)) by (nonlinear_arith)
        requires
            pa == m * 4096,
            4096 == align * k + 0,
    ;
    vstd::arithmetic::div_mod::lemma_mod_multiples_basic(k * m, align);
    assert(align * (k * m) == (k * m) * align) by (nonlinear_arith);
}


/// A page that was given back is the next one to be handed out, and then the pages that were free
/// before are free.
pub proof fn lemma_page_handed_out_again(a0: KernelAllocator, a1: KernelAllocator, page: u64)
    requires
        a1.free() == seq![frame_at(page as int)] + a0.free(),
    ensures
        a1.free().len() > 0,
        a1.free()[0] == frame_at(page as int),
        a1.free().skip(1) == a0.free(),
{
    assert(a1.free().skip(1) =~= a0.free());
}


} // verus!
