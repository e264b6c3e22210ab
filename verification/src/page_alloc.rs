//! Physical memory allocator, for user processes, kernel stacks, page-table pages, and pipe
//! buffers. Allocates whole 4096-byte pages, and fills them with junk to catch dangling
//! references.
use vstd::prelude::*;
use crate::allocator::{frame_addr, frame_at, is_frame, is_frame_addr, link_to, NFRAMES};
use crate::memory_layout::{KERNBASE, PHYSTOP};
use crate::riscv::paging::{pg_roundup, PGSIZE};

verus! {

/// What a page was last filled with when it was freed.
pub const FREE_JUNK: u8 = 1;

/// What a page was last filled with when it was handed out.
pub const USED_JUNK: u8 = 5;

/// The head of a free page: the link to the next free one.
pub struct Block {
    pub next: Option<usize>,
}

/// The allocator: a list of free pages.
pub struct Allocator {
    pub head: Option<usize>,
    pub blocks: Vec<Block>,
    /// The byte that fills each page, where the allocator has filled it.
    pub junk: Vec<Option<u8>>,
    pub end: u64,
    pub unused: Ghost<Seq<int>>,
}

/// What taking a page comes to.
pub open spec fn page_taken(a0: Allocator, a1: Allocator, r: Option<u64>) -> bool {
    match r {
        Some(pa) => {
            &&& a0.free_pages().len() > 0
            &&& is_frame_addr(pa as int)
            &&& frame_at(pa as int) == a0.free_pages()[0]
            &&& a1.free_pages() == a0.free_pages().skip(1)
            &&& a1.junk@ == a0.junk@.update(frame_at(pa as int), Some(USED_JUNK))
        },
        None => a0.free_pages().len() == 0 && a1 == a0,
    }
}

/// What giving a page back comes to.
pub open spec fn taken_back(a0: Allocator, a1: Allocator, pa: u64) -> bool {
    &&& a1.free_pages() == seq![frame_at(pa as int)] + a0.free_pages()
    &&& a1.junk@ == a0.junk@.update(frame_at(pa as int), Some(FREE_JUNK))
}

/// Pages that are taken one after the other are different ones, and hold neither what they held before nor
/// what a free page holds. One that is given back is free.
pub proof fn lemma_pages_taken(a0: Allocator, a1: Allocator, a2: Allocator, a3: Allocator, x: u64, y: u64)
    requires
        a0.wf(),
        page_taken(a0, a1, Some(x)),
        page_taken(a1, a2, Some(y)),
        taken_back(a2, a3, x),
    ensures
        x + 4096 <= y || y + 4096 <= x,
        x % 4096 == 0,
        0x8000_0000 <= x < 0x8800_0000,
        a0.is_free((x - 0x8000_0000) / 4096),
        !a1.is_free((x - 0x8000_0000) / 4096),
        !a2.is_free((x - 0x8000_0000) / 4096),
        a3.is_free((x - 0x8000_0000) / 4096),
        a1.junk@[(x - 0x8000_0000) / 4096] == Some(5u8),
        a3.junk@[(x - 0x8000_0000) / 4096] == Some(1u8),
{
    let p = (x - 0x8000_0000) / 4096;
    let free = a0.free_pages();
    assert(a1.free_pages()[0] == free[1]);
    assert(free.contains(free[0]));
    if a1.is_free(p) {
        let k = choose|k: int| 0 <= k < a1.free_pages().len() && a1.free_pages()[k] == p;
        assert(free[k + 1] == p);
    }
    if a2.is_free(p) {
        let k = choose|k: int| 0 <= k < a2.free_pages().len() && a2.free_pages()[k] == p;
        assert(free[k + 2] == p);
    }
    assert(a3.free_pages()[0] == p);
}

impl Allocator {
    /// The free pages by frame number, the one that is handed out next first.
    pub open spec fn free_pages(&self) -> Seq<int> {
        self.unused@
    }

    /// The page in frame `p` is free.
    pub open spec fn is_free(&self, p: int) -> bool {
        self.unused@.contains(p)
    }

    pub open spec fn wf(&self) -> bool {
        let unused = self.unused@;
        &&& KERNBASE <= self.end <= PHYSTOP
        &&& self.blocks@.len() == NFRAMES
        &&& self.junk@.len() == NFRAMES
        &&& unused.no_duplicates()
        &&& forall|k: int| 0 <= k < unused.len() ==> is_frame(#[trigger] unused[k])
        &&& forall|k: int| 0 <= k < unused.len() ==> (#[trigger] self.blocks@[unused[k]]).next == link_to(unused, k + 1)
        &&& self.head == link_to(unused, 0)
    }

    /// Makes an allocator of all pages after the kernel, which ends at `end`.
    pub fn init(end: u64) -> (this: Self)
        requires
            KERNBASE <= end <= PHYSTOP,
        ensures
            this.wf(),
            this.end == end,
            forall|p: int| is_frame(p) ==> (#[trigger] this.is_free(p) <==> end <= frame_addr(p)),
            forall|p: int| is_frame(p) && end <= frame_addr(p) ==> #[trigger] this.junk@[p] == Some(FREE_JUNK),
            forall|j: int, k: int| 0 <= j < k < this.free_pages().len() ==> #[trigger] this.free_pages()[j] > #[trigger] this.free_pages()[k],
    {
        let mut blocks: Vec<Block> = Vec::new();
        let mut junk: Vec<Option<u8>> = Vec::new();
        let mut i: usize = 0;
        while i < NFRAMES
            invariant
                i <= NFRAMES,
                blocks@.len() == i,
                junk@.len() == i,
            decreases NFRAMES - i,
        {
            blocks.push(Block { next: None });
            junk.push(None);
            i = i + 1;
        }
        let mut this = Allocator { head: None, blocks, junk, end, unused: Ghost(Seq::empty()) };
        this.free_range(end, PHYSTOP);
        this
    }

    fn free_range(&mut self, pa_start: u64, pa_end: u64)
        requires
            old(self).wf(),
            old(self).free_pages().len() == 0,
            old(self).end == pa_start,
            pa_end == PHYSTOP,
        ensures
            final(self).wf(),
            final(self).end == old(self).end,
            forall|p: int| is_frame(p) ==> (#[trigger] final(self).is_free(p) <==> pa_start <= frame_addr(p)),
            forall|p: int| is_frame(p) && pa_start <= frame_addr(p) ==> #[trigger] final(self).junk@[p] == Some(FREE_JUNK),
            forall|j: int, k: int|
                0 <= j < k < final(self).free_pages().len() ==> #[trigger] final(self).free_pages()[j] > #[trigger] final(self).free_pages()[k],
    {
        let start = pg_roundup(pa_start);
        let last = pa_end - PGSIZE;
        let mut p = start;
        while p <= last
            invariant
                self.wf(),
                self.end == old(self).end,
                self.end == pa_start,
                KERNBASE <= pa_start <= start <= p <= PHYSTOP,
                start < pa_start + PGSIZE,
                p as int % 4096 == 0,
                start as int % 4096 == 0,
                last == PHYSTOP - PGSIZE,
                forall|q: int| is_frame(q) ==> (#[trigger] self.is_free(q) <==> start <= frame_addr(q) < p),
                forall|q: int| is_frame(q) && start <= frame_addr(q) < p ==> #[trigger] self.junk@[q] == Some(FREE_JUNK),
                forall|j: int, k: int| 0 <= j < k < self.free_pages().len() ==> #[trigger] self.free_pages()[j] > #[trigger] self.free_pages()[k],
            decreases PHYSTOP + PGSIZE - p,
        {
            let ghost before = *self;
            let ghost n = frame_at(p as int);
            proof {
                assert(frame_addr(n) == p);
                assert(!self.is_free(n));
            }
            self.free(p);
            proof {
                assert(self.unused@[0] == n);
                assert forall|q: int| is_frame(q) implies (#[trigger] self.is_free(q) <==> start <= frame_addr(q) < p + PGSIZE) by {
                    lemma_in_front(before.unused@, n, q);
                    assert(before.is_free(q) <==> start <= frame_addr(q) < p);
                }
                assert forall|j: int, k: int| 0 <= j < k < self.free_pages().len() implies #[trigger] self.free_pages()[j]
                    > #[trigger] self.free_pages()[k] by {
                    assert(self.unused@[k] == before.unused@[k - 1]);
                    if j > 0 {
                        assert(self.unused@[j] == before.unused@[j - 1]);
                    } else {
                        assert(before.is_free(before.unused@[k - 1]));
                    }
                }
            }
            p = p + PGSIZE;
        }
    }

    /// Takes back a page that nothing uses any more.
    pub fn free(&mut self, pa: u64)
        requires
            old(self).wf(),
            is_frame_addr(pa as int),
            pa >= old(self).end,
            !old(self).is_free(frame_at(pa as int)),
        ensures
            final(self).wf(),
            final(self).end == old(self).end,
            taken_back(*old(self), *final(self), pa),
    {
        let p: usize = ((pa - KERNBASE) / PGSIZE) as usize;
        let ghost unused0 = self.unused@;
        let ghost blocks0 = self.blocks@;
        self.junk.set(p, Some(FREE_JUNK));
        self.blocks.set(p, Block { next: self.head });
        self.head = Some(p);
        proof {
            self.unused = Ghost(seq![p as int] + unused0);
            let unused1 = self.unused@;
            assert forall|k: int| 0 <= k < unused1.len() implies (#[trigger] self.blocks@[unused1[k]]).next == link_to(unused1, k + 1) by {
                if k > 0 {
                    assert(unused1[k] == unused0[k - 1]);
                    assert(blocks0[unused0[k - 1]].next == link_to(unused0, k));
                    assert(unused0.contains(unused0[k - 1]));
                }
            }
            assert forall|j: int, k: int| 0 <= j < k < unused1.len() implies unused1[j] != unused1[k] by {
                assert(unused1[k] == unused0[k - 1]);
                assert(unused0.contains(unused0[k - 1]));
            }
            assert(unused1.no_duplicates());
        }
    }

    /// Hands out a page, the one that was freed last. `None` means that no page is left.
    pub fn allocate_page(&mut self) -> (r: Option<u64>)
        requires
            old(self).wf(),
        ensures
            final(self).wf(),
            final(self).end == old(self).end,
            page_taken(*old(self), *final(self), r),
    {
        match self.head {
            None => None,
            Some(page) => {
                let ghost unused0 = self.unused@;
                proof {
                    assert(is_frame(unused0[0]));
                    assert(self.blocks@[unused0[0]].next == link_to(unused0, 1));
                }
                self.head = self.blocks[page].next;
                self.junk.set(page, Some(USED_JUNK));
                proof {
                    self.unused = Ghost(unused0.skip(1));
                    let unused1 = self.unused@;
                    assert forall|k: int| 0 <= k < unused1.len() implies (#[trigger] self.blocks@[unused1[k]]).next == link_to(unused1, k + 1) by {
                        assert(unused1[k] == unused0[k + 1]);
                        assert(self.blocks@[unused0[k + 1]].next == link_to(unused0, k + 2));
                    }
                    assert forall|k: int| 0 <= k < unused1.len() implies is_frame(#[trigger] unused1[k]) by {
                        assert(unused1[k] == unused0[k + 1]);
                    }
                }
                Some(KERNBASE + page as u64 * PGSIZE)
            },
        }
    }
}

proof fn lemma_in_front(s: Seq<int>, n: int, q: int)
    ensures
        (seq![n] + s).contains(q) <==> q == n || s.contains(q),
{
    let t = seq![n] + s;
    if t.contains(q) {
        let k = choose|k: int| 0 <= k < t.len() && t[k] == q;
        if k > 0 {
            assert(s[k - 1] == q);
        }
    }
    if q == n {
        assert(t[0] == q);
    }
    if s.contains(q) {
        let k = choose|k: int| 0 <= k < s.len() && s[k] == q;
        assert(t[k + 1] == q);
    }
}

/// A page that is freed is the next one that is handed out.
pub proof fn lemma_freed_page_returns(free0: Seq<int>, p: int)
    ensures
        (seq![p] + free0)[0] == p,
        (seq![p] + free0).skip(1) == free0,
{
    assert((seq![p] + free0).skip(1) =~= free0);
}

} // verus!
