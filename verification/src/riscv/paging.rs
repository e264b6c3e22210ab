//! Sv39 page tables.
use vstd::prelude::*;
use crate::allocator::{
    data_kept, entry_at, entry_wf, frame_addr, frame_at, frames_wf, is_frame, is_frame_addr, list_wf, Frame,
    KernelAllocator,
};
use crate::memory_layout::{KERNBASE, PHYSTOP};

verus! {

/// Bytes per page.
pub const PGSIZE: u64 = 4096;

/// Bits of offset within a page.
pub const PGSHIFT: u64 = 12;

/// One beyond the highest possible virtual address. It is one bit less than the maximum that
/// Sv39 allows, so that no virtual address needs sign extension.
pub const MAXVA: u64 = 0x40_0000_0000;

/// Rounding down to a multiple of the page size.
pub open spec fn rounddown(a: int) -> int {
    a - a % 4096
}

/// Rounding up to a multiple of the page size.
pub open spec fn roundup(a: int) -> int {
    rounddown(a + 4095)
}

/// Clearing the low twelve bits rounds down.
proof fn lemma_page_mask(a: u64)
    ensures
        a & !0xfffu64 == a - a % 4096,
{
    assert(a & !0xfffu64 == a - a % 4096) by (bit_vector);
}

pub fn pg_roundup(sz: u64) -> (r: u64)
    requires
        sz <= u64::MAX - 4095,
    ensures
        r == roundup(sz as int),
        r as int % 4096 == 0,
        sz <= r < sz + 4096,
{
    proof {
        lemma_page_mask((sz + PGSIZE - 1) as u64);
    }
    (sz + (PGSIZE - 1)) & !(PGSIZE - 1)
}

pub fn pg_rounddown(a: u64) -> (r: u64)
    ensures
        r == rounddown(a as int),
        r as int % 4096 == 0,
        r <= a < r + 4096,
{
    proof {
        lemma_page_mask(a);
    }
    a & !(PGSIZE - 1)
}

/// A page-table entry.
#[derive(Clone, Copy, Debug, PartialEq, Eq, Structural)]
pub struct PTE(pub u64);

impl PTE {
    /// Valid.
    pub const V: u64 = 1;

    pub const R: u64 = 2;

    pub const W: u64 = 4;

    pub const X: u64 = 8;

    /// User code can access the page.
    pub const U: u64 = 16;

    pub open spec fn valid(self) -> bool {
        self.0 & 1 != 0
    }

    pub open spec fn readable(self) -> bool {
        self.0 & 2 != 0
    }

    pub open spec fn writable(self) -> bool {
        self.0 & 4 != 0
    }

    pub open spec fn executable(self) -> bool {
        self.0 & 8 != 0
    }

    pub open spec fn user(self) -> bool {
        self.0 & 16 != 0
    }

    /// The physical address that the entry refers to.
    pub open spec fn pa(self) -> u64 {
        self.0 >> 10 << 12
    }

    /// The low ten bits.
    pub open spec fn flags(self) -> u64 {
        self.0 & 0x3ff
    }

    /// The valid entry for the page at `pa` with the given permission bits.
    pub open spec fn leaf(pa: u64, flags: u64) -> PTE {
        PTE((pa >> 12 << 10) | flags | 1)
    }

    fn set_bit(&mut self, b: bool, mask: u64)
        ensures
            final(self).0 == if b {
                old(self).0 | mask
            } else {
                old(self).0 & !mask
            },
    {
        if b {
            self.0 = self.0 | mask;
        } else {
            self.0 = self.0 & !mask;
        }
    }

    /// The nine bits of a virtual address that select an entry at `level`.
    fn index(level: usize, va: u64) -> (r: usize)
        requires
            level <= 2,
        ensures
            r == index_of(level as int, va as int / 4096),
            r < 512,
    {
        let mask: u64 = 0x1ff;
        let shift: u64 = PGSHIFT + 9 * level as u64;
        proof {
            assert(((va >> 12) & 0x1ff) == (va / 4096) % 512 && ((va >> 21) & 0x1ff) == (va / 4096
                / 512) % 512 && ((va >> 30) & 0x1ff) == (va / 4096 / 262144) % 512) by (bit_vector);
        }
        ((va >> shift) & mask) as usize
    }

    pub fn invalid() -> (e: Self)
        ensures
            e.0 == 0,
            !e.valid(),
    {
        proof {
            lemma_zero_entry();
        }
        PTE(0)
    }

    pub fn clear(&mut self)
        ensures
            final(self).0 == 0,
            !final(self).valid(),
    {
        *self = Self::invalid();
    }

    pub fn set_valid(&mut self, b: bool)
        ensures
            final(self).valid() == b,
            final(self).0 & !Self::V == old(self).0 & !Self::V,
    {
        proof {
            lemma_set_bit(self.0, 1);
        }
        self.set_bit(b, Self::V);
    }

    pub fn set_readable(&mut self, b: bool)
        ensures
            final(self).readable() == b,
            final(self).0 & !Self::R == old(self).0 & !Self::R,
    {
        proof {
            lemma_set_bit(self.0, 2);
        }
        self.set_bit(b, Self::R);
    }

    pub fn set_writable(&mut self, b: bool)
        ensures
            final(self).writable() == b,
            final(self).0 & !Self::W == old(self).0 & !Self::W,
    {
        proof {
            lemma_set_bit(self.0, 4);
        }
        self.set_bit(b, Self::W);
    }

    pub fn set_executable(&mut self, b: bool)
        ensures
            final(self).executable() == b,
            final(self).0 & !Self::X == old(self).0 & !Self::X,
    {
        proof {
            lemma_set_bit(self.0, 8);
        }
        self.set_bit(b, Self::X);
    }

    pub fn set_user_access(&mut self, b: bool)
        ensures
            final(self).user() == b,
            final(self).0 & !Self::U == old(self).0 & !Self::U,
    {
        proof {
            lemma_set_bit(self.0, 16);
        }
        self.set_bit(b, Self::U);
    }

    pub fn is_valid(&self) -> (b: bool)
        ensures
            b == self.valid(),
    {
        self.0 & Self::V != 0
    }

    pub fn is_readable(&self) -> (b: bool)
        ensures
            b == self.readable(),
    {
        self.0 & Self::R != 0
    }

    pub fn is_writable(&self) -> (b: bool)
        ensures
            b == self.writable(),
    {
        self.0 & Self::W != 0
    }

    pub fn is_executable(&self) -> (b: bool)
        ensures
            b == self.executable(),
    {
        self.0 & Self::X != 0
    }

    pub fn can_user_access(&self) -> (b: bool)
        ensures
            b == self.user(),
    {
        self.0 & Self::U != 0
    }

    /// Replaces the physical page number (bits 10 to 53) by that of `pa`.
    pub fn set_physical_addr(&mut self, pa: u64)
        ensures
            final(self).0 == (old(self).0 & !0x3f_ffff_ffff_fc00) | (pa >> 12 << 10),
            final(self).flags() == old(self).flags(),
            pa % 4096 == 0 && pa < 0x100_0000_0000_0000 && old(self).0 < 0x40_0000_0000_0000
                ==> final(self).pa() == pa,
    {
        proof {
            lemma_set_physical_addr(self.0, pa);
        }
        self.0 = self.0 & !0x3f_ffff_ffff_fc00;
        self.0 = self.0 | (pa >> 12 << 10);
    }

    pub fn get_physical_addr(&self) -> (pa: u64)
        ensures
            pa == self.pa(),
    {
        self.0 >> 10 << 12
    }

    pub fn set_flags(&mut self, flags: u64)
        requires
            flags & 0x3ff == flags,
        ensures
            final(self).flags() == flags,
            final(self).pa() == old(self).pa(),
            final(self).0 == (old(self).0 & !0x3ff) | flags,
    {
        proof {
            lemma_set_flags(self.0, flags);
        }
        self.0 = self.0 & !0x3ff;
        self.0 = self.0 | flags;
    }

    pub fn get_flags(&self) -> (flags: u64)
        ensures
            flags == self.flags(),
    {
        self.0 & 0x3ff
    }

    /// Makes the valid entry for the page at `pa`.
    fn new_leaf(pa: u64, flags: u64) -> (e: Self)
        requires
            flags & 0x3ff == flags,
        ensures
            e == Self::leaf(pa, flags),
    {
        let mut pte = Self::invalid();
        pte.set_physical_addr(pa);
        pte.set_flags(flags);
        let ghost before = pte.0;
        pte.set_valid(true);
        proof {
            let after = pte.0;
            assert(after == (pa >> 12 << 10) | flags | 1) by (bit_vector)
                requires
                    before == ((((0u64 & !0x3f_ffff_ffff_fc00) | (pa >> 12 << 10)) & !0x3ff) | flags),
                    after & !1u64 == before & !1u64,
                    after & 1 != 0,
            ;
        }
        pte
    }
}

proof fn lemma_zero_entry()
    ensures
        !PTE(0).valid(),
{
    assert(0u64 & 1 == 0) by (bit_vector);
}

/// Setting or clearing one bit leaves all others alone.
proof fn lemma_set_bit(x: u64, m: u64)
    by (bit_vector)
    requires
        m == 1 || m == 2 || m == 4 || m == 8 || m == 16,
    ensures
        (x | m) & m != 0,
        (x & !m) & m == 0,
        (x | m) & !m == x & !m,
        (x & !m) & !m == x & !m,
{
}

proof fn lemma_set_physical_addr(x: u64, pa: u64)
    by (bit_vector)
    ensures
        ((x & !0x3f_ffff_ffff_fc00) | (pa >> 12 << 10)) & 0x3ff == x & 0x3ff,
        pa % 4096 == 0 && pa < 0x100_0000_0000_0000 && x < 0x40_0000_0000_0000 ==> ((x
            & !0x3f_ffff_ffff_fc00) | (pa >> 12 << 10)) >> 10 << 12 == pa,
{
}

proof fn lemma_set_flags(x: u64, flags: u64)
    by (bit_vector)
    requires
        flags & 0x3ff == flags,
    ensures
        ((x & !0x3ff) | flags) & 0x3ff == flags,
        ((x & !0x3ff) | flags) >> 10 << 12 == x >> 10 << 12,
{
}

/// A leaf entry holds the address and the bits it was made from.
pub proof fn lemma_leaf_entry(pa: u64, flags: u64)
    requires
        pa < 0x100_0000_0000_0000,
        flags & 0x3ff == flags,
    ensures
        PTE::leaf(pa, flags).valid(),
        PTE::leaf(pa, flags).pa() == rounddown(pa as int),
        PTE::leaf(pa, flags).flags() == flags | 1,
        PTE::leaf(pa, flags).user() == (flags & 16 != 0),
        PTE::leaf(pa, flags).readable() == (flags & 2 != 0),
        PTE::leaf(pa, flags).writable() == (flags & 4 != 0),
        PTE::leaf(pa, flags).executable() == (flags & 8 != 0),
{
    assert(({
        let x = (pa >> 12 << 10) | flags | 1;
        x & 1 != 0 && x >> 10 << 12 == pa - pa % 4096 && x & 0x3ff == flags | 1 && x & 16 == flags & 16 && x & 2
            == flags & 2 && x & 4 == flags & 4 && x & 8 == flags & 8
    })) by (bit_vector)
        requires
            pa < 0x100_0000_0000_0000,
            flags & 0x3ff == flags,
    ;
}

/// Index at `level` of virtual page number `vp`.
pub open spec fn index_of(level: int, vp: int) -> int {
    if level == 0 {
        vp % 512
    } else if level == 1 {
        vp / 512 % 512
    } else {
        vp / 262144 % 512
    }
}

/// Virtual pages below `MAXVA`.
pub open spec fn is_page(vp: int) -> bool {
    0 <= vp < 0x400_0000
}

/// Frame `r` is the root of a page table.
pub open spec fn is_root(ram: Seq<Frame>, r: int) -> bool {
    is_frame(r) && ram[r] is Table && ram[r]->level@ == 2
}

/// The table that entry `i` of table `t` refers to.
pub open spec fn child(ram: Seq<Frame>, t: int, i: int) -> Option<int> {
    if entry_at(ram, t, i).valid() {
        Some(frame_at(entry_at(ram, t, i).pa() as int))
    } else {
        None
    }
}

/// The last-level table for a virtual page.
pub open spec fn leaf_of(ram: Seq<Frame>, root: int, vp: int) -> Option<int> {
    match child(ram, root, index_of(2, vp)) {
        None => None,
        Some(mid) => child(ram, mid, index_of(1, vp)),
    }
}

/// The valid entry for a virtual page, if it is mapped.
pub open spec fn lookup(ram: Seq<Frame>, root: int, vp: int) -> Option<PTE> {
    match leaf_of(ram, root, vp) {
        None => None,
        Some(l) => if entry_at(ram, l, index_of(0, vp)).valid() {
            Some(entry_at(ram, l, index_of(0, vp)))
        } else {
            None
        },
    }
}

/// The frame behind a virtual page that user code may access.
pub open spec fn translate(ram: Seq<Frame>, root: int, vp: int) -> Option<int> {
    if !is_page(vp) {
        None
    } else {
        match lookup(ram, root, vp) {
            Some(e) => if e.user() {
                Some(frame_at(e.pa() as int))
            } else {
                None
            },
            None => None,
        }
    }
}

/// The byte of user memory at `va`.
pub open spec fn user_byte(ram: Seq<Frame>, root: int, va: int) -> Option<u8> {
    match translate(ram, root, va / 4096) {
        Some(p) => Some(ram[p]->bytes@[va % 4096]),
        None => None,
    }
}

/// Every page table keeps its mappings.
pub open spec fn mappings_kept(old: Seq<Frame>, new: Seq<Frame>) -> bool {
    &&& forall|r: int| #[trigger] is_root(old, r) ==> is_root(new, r)
    &&& forall|r: int, vp: int|
        is_root(old, r) && is_page(vp) ==> #[trigger] lookup(new, r, vp) == lookup(old, r, vp) && (
        leaf_of(old, r, vp) is Some ==> leaf_of(new, r, vp) == leaf_of(old, r, vp))
}

/// The tables on the way to a virtual page.
proof fn lemma_leaf(ram: Seq<Frame>, root: int, vp: int)
    requires
        frames_wf(ram),
        is_root(ram, root),
        leaf_of(ram, root, vp) is Some,
    ensures
        ({
            let l = leaf_of(ram, root, vp)->0;
            let m = child(ram, root, index_of(2, vp))->0;
            &&& is_frame(l)
            &&& ram[l] is Table
            &&& ram[l]->level@ == 0
            &&& ram[l]->parent@ == Some((m, index_of(1, vp)))
            &&& is_frame(m)
            &&& ram[m] is Table
            &&& ram[m]->level@ == 1
            &&& ram[m]->parent@ == Some((root, index_of(2, vp)))
        }),
{
    let m = child(ram, root, index_of(2, vp))->0;
    assert(entry_wf(ram, root, index_of(2, vp)));
    assert(entry_wf(ram, m, index_of(1, vp)));
}

/// No two pages share an entry.
proof fn lemma_leaf_injective(ram: Seq<Frame>, r1: int, v1: int, r2: int, v2: int)
    requires
        frames_wf(ram),
        is_root(ram, r1),
        is_root(ram, r2),
        is_page(v1),
        is_page(v2),
        leaf_of(ram, r1, v1) is Some,
        leaf_of(ram, r1, v1) == leaf_of(ram, r2, v2),
        index_of(0, v1) == index_of(0, v2),
    ensures
        r1 == r2,
        v1 == v2,
{
    lemma_leaf(ram, r1, v1);
    lemma_leaf(ram, r2, v2);
}

/// Every page of a table that user code may access is mapped to a frame of its own.
pub open spec fn own_only(ram: Seq<Frame>, root: int) -> bool {
    forall|vp: int| is_page(vp) && (#[trigger] lookup(ram, root, vp)) is Some && lookup(ram, root, vp)->0.user() ==> is_owned(ram, root, vp)
}

/// Tables whose pages stay are still without pages that are not their own.
pub proof fn lemma_own_kept(s0: Seq<Frame>, s1: Seq<Frame>, root: int)
    requires
        own_only(s0, root),
        forall|vp: int| is_page(vp) ==> #[trigger] lookup(s1, root, vp) == lookup(s0, root, vp),
        forall|vp: int| is_page(vp) && #[trigger] is_owned(s0, root, vp) ==> is_owned(s1, root, vp),
    ensures
        own_only(s1, root),
{
    assert forall|vp: int| is_page(vp) && (#[trigger] lookup(s1, root, vp)) is Some && lookup(s1, root, vp)->0.user() implies is_owned(s1, root, vp) by {
        assert(lookup(s0, root, vp) is Some);
        assert(is_owned(s0, root, vp));
    }
}

/// What a user page's entry says about its frame.
pub proof fn lemma_translate(ram: Seq<Frame>, root: int, vp: int)
    requires
        frames_wf(ram),
        is_root(ram, root),
        own_only(ram, root),
        translate(ram, root, vp) is Some,
    ensures
        ({
            let p = translate(ram, root, vp)->0;
            &&& is_frame(p)
            &&& ram[p] is Data
            &&& ram[p]->bytes@.len() == 4096
            &&& ram[p]->owner@ == Some((leaf_of(ram, root, vp)->0, index_of(0, vp)))
            &&& is_frame_addr(lookup(ram, root, vp)->0.pa() as int)
        }),
{
    assert(lookup(ram, root, vp) is Some);
    assert(is_owned(ram, root, vp));
}

/// No frame is user memory at two places.
pub proof fn lemma_translate_injective(ram: Seq<Frame>, r1: int, v1: int, r2: int, v2: int)
    requires
        frames_wf(ram),
        is_root(ram, r1),
        is_root(ram, r2),
        own_only(ram, r1),
        own_only(ram, r2),
        translate(ram, r1, v1) is Some,
        translate(ram, r1, v1) == translate(ram, r2, v2),
    ensures
        r1 == r2,
        v1 == v2,
{
    lemma_translate(ram, r1, v1);
    lemma_translate(ram, r2, v2);
    lemma_leaf_injective(ram, r1, v1, r2, v2);
}

/// Making room for new mappings: frames are taken from the free list and become empty
/// tables; nothing else changes.
pub open spec fn tables_grown(old: Seq<Frame>, new: Seq<Frame>) -> bool {
    &&& forall|p: int|
        is_frame(p) && (#[trigger] old[p] is Data || old[p] is Reserved) ==> new[p] == old[p]
    &&& tables_stay(old, new)
    &&& forall|p: int|
        is_frame(p) && #[trigger] old[p] is Free ==> new[p] == old[p] || new[p] is Table
    &&& mappings_kept(old, new)
}

/// No frame becomes the root of a page table.
pub open spec fn no_root_made(old: Seq<Frame>, new: Seq<Frame>) -> bool {
    forall|r: int| #[trigger] is_root(new, r) ==> is_root(old, r)
}

/// Page tables stay what they are, whatever becomes of their entries.
pub open spec fn tables_stay(old: Seq<Frame>, new: Seq<Frame>) -> bool {
    forall|p: int|
        is_frame(p) && #[trigger] old[p] is Table ==> {
            &&& new[p] is Table
            &&& new[p]->level@ == old[p]->level@
            &&& new[p]->parent@ == old[p]->parent@
        }
}

/// Frame `p` is a page table that another one refers to.
pub open spec fn is_inner_table(ram: Seq<Frame>, p: int) -> bool {
    ram[p] is Table && ram[p]->level@ != 2
}

/// What became of the free frames: each is still free, or has become a page table below the
/// root of one, or holds one of the `n` pages from `vp` on. No other frame was taken.
#[verifier::opaque]
pub open spec fn frames_taken(old: Seq<Frame>, new: Seq<Frame>, root: int, vp: int, n: int) -> bool {
    &&& tables_stay(old, new)
    &&& forall|p: int| is_frame(p) && #[trigger] old[p] is Free ==> new[p] is Free || is_inner_table(new, p) || holds_page(new, root, vp, n, p)
}

/// Frame `p` holds one of the `n` pages from `vp` on.
pub open spec fn holds_page(ram: Seq<Frame>, root: int, vp: int, n: int, p: int) -> bool {
    exists|v: int| vp <= v < vp + n && #[trigger] is_owned(ram, root, v) && frame_of(ram, root, v) == p
}

/// What became of frames over several steps: each free one is still free, or has become a page
/// table below the root of one, or is in `others`; and so is each page table below a root.
#[verifier::opaque]
pub open spec fn taken_but(old: Seq<Frame>, new: Seq<Frame>, others: Set<int>) -> bool {
    forall|p: int|
        #![trigger old[p]]
        is_frame(p) && (old[p] is Free || is_inner_table(old, p)) ==> new[p] is Free || is_inner_table(new, p) || others.contains(p)
}

/// The frames of `n` pages from `vp` on.
pub open spec fn page_frames(ram: Seq<Frame>, root: int, vp: int, n: int) -> Set<int> {
    Set::new(|p: int| holds_page(ram, root, vp, n, p))
}

pub proof fn lemma_taken_none(s0: Seq<Frame>, s1: Seq<Frame>)
    requires
        tables_stay(s0, s1),
        forall|p: int| is_frame(p) && #[trigger] s0[p] is Free ==> s1[p] is Free,
    ensures
        taken_but(s0, s1, Set::empty()),
{
    reveal(taken_but);
}

pub proof fn lemma_taken_trans(s0: Seq<Frame>, s1: Seq<Frame>, s2: Seq<Frame>, x: Set<int>, y: Set<int>)
    requires
        taken_but(s0, s1, x),
        taken_but(s1, s2, y),
    ensures
        taken_but(s0, s2, x.union(y)),
{
    reveal(taken_but);
    assert forall|p: int|
        #![trigger s0[p]]
        is_frame(p) && (s0[p] is Free || is_inner_table(s0, p)) implies s2[p] is Free || is_inner_table(s2, p) || x.union(y).contains(p) by {
        assert(s1[p] is Free || is_inner_table(s1, p) || x.contains(p));
    }
}

pub proof fn lemma_taken_pages(s0: Seq<Frame>, s1: Seq<Frame>, root: int, vp: int, n: int)
    requires
        frames_taken(s0, s1, root, vp, n),
    ensures
        taken_but(s0, s1, page_frames(s1, root, vp, n)),
        n <= 0 ==> taken_but(s0, s1, Set::empty()),
{
    reveal(frames_taken);
    reveal(taken_but);
}

/// Nothing but the bytes of ordinary memory changed.
#[verifier::opaque]
pub open spec fn only_bytes(old: Seq<Frame>, new: Seq<Frame>) -> bool {
    forall|p: int| #![trigger old[p]] is_frame(p) ==> if old[p] is Data { new[p] is Data } else { new[p] == old[p] }
}

pub proof fn lemma_only_bytes(s0: Seq<Frame>, s1: Seq<Frame>, s2: Seq<Frame>, root: int, va: int, bytes: Seq<u8>)
    requires
        only_bytes(s0, s1),
        written(s1, s2, root, va, bytes),
    ensures
        only_bytes(s0, s2),
{
    reveal(only_bytes);
    assert forall|p: int| #![trigger s0[p]] is_frame(p) implies if s0[p] is Data { s2[p] is Data } else { s2[p] == s0[p] } by {
        assert(if s0[p] is Data { s1[p] is Data } else { s1[p] == s0[p] });
    }
}

pub proof fn lemma_no_bytes(s: Seq<Frame>)
    ensures
        only_bytes(s, s),
{
    reveal(only_bytes);
}

/// Where only bytes change, no frame is taken.
pub proof fn lemma_bytes_taken(s0: Seq<Frame>, s1: Seq<Frame>)
    requires
        only_bytes(s0, s1),
    ensures
        taken_but(s0, s1, Set::empty()),
{
    reveal(only_bytes);
    reveal(taken_but);
}

/// Frames that ended up free were not taken.
pub proof fn lemma_taken_less(s0: Seq<Frame>, s1: Seq<Frame>, x: Set<int>, y: Set<int>)
    requires
        taken_but(s0, s1, x),
        forall|p: int| is_frame(p) && #[trigger] x.contains(p) ==> s1[p] is Free || y.contains(p),
    ensures
        taken_but(s0, s1, y),
{
    reveal(taken_but);
    assert forall|p: int|
        #![trigger s0[p]]
        is_frame(p) && (s0[p] is Free || is_inner_table(s0, p)) implies s1[p] is Free || is_inner_table(s1, p) || y.contains(p) by {
        if x.contains(p) {
        }
    }
}

pub proof fn lemma_none_taken(s: Seq<Frame>, root: int, vp: int)
    ensures
        frames_taken(s, s, root, vp, 0),
{
    reveal(frames_taken);
}

/// Where only tables were taken, it does not matter whose pages are looked at.
pub proof fn lemma_tables_taken(s0: Seq<Frame>, s1: Seq<Frame>, root: int, vp: int, root2: int, vp2: int)
    requires
        frames_taken(s0, s1, root, vp, 0),
    ensures
        frames_taken(s0, s1, root2, vp2, 0),
{
    reveal(frames_taken);
}

pub proof fn lemma_frames_taken(s0: Seq<Frame>, s1: Seq<Frame>, s2: Seq<Frame>, root: int, vp: int, i: int, j: int)
    requires
        0 <= i,
        0 <= j,
        0 <= vp,
        is_page(vp + i) || i == 0,
        is_root(s1, root),
        frames_taken(s0, s1, root, vp, i),
        frames_taken(s1, s2, root, vp + i, j),
        forall|v: int| vp <= v < vp + i && #[trigger] is_owned(s1, root, v) ==> is_owned(s2, root, v) && lookup(s2, root, v) == lookup(s1, root, v),
    ensures
        frames_taken(s0, s2, root, vp, i + j),
{
    reveal(frames_taken);
    assert forall|p: int| is_frame(p) && #[trigger] s0[p] is Free implies s2[p] is Free || is_inner_table(s2, p) || holds_page(s2, root, vp, i + j, p) by {
        if s1[p] is Free {
            if holds_page(s2, root, vp + i, j, p) {
                let v = choose|v: int| vp + i <= v < vp + i + j && #[trigger] is_owned(s2, root, v) && frame_of(s2, root, v) == p;
                assert(vp <= v < vp + (i + j) && is_owned(s2, root, v) && frame_of(s2, root, v) == p);
            }
        } else if !is_inner_table(s1, p) {
            let v = choose|v: int| vp <= v < vp + i && #[trigger] is_owned(s1, root, v) && frame_of(s1, root, v) == p;
            assert(is_owned(s2, root, v));
            assert(vp <= v < vp + (i + j) && is_owned(s2, root, v) && frame_of(s2, root, v) == p);
        } else {
            assert(s1[p] is Table);
        }
    }
    assert forall|p: int| is_frame(p) && #[trigger] s0[p] is Table implies s2[p] is Table && s2[p]->level@ == s0[p]->level@
        && s2[p]->parent@ == s0[p]->parent@ by {
        assert(s1[p] is Table);
    }
}

/// Table `p` is new and empty, and entry `i` of `t`, which was not in use, refers to it.
spec fn linked(old: Seq<Frame>, new: Seq<Frame>, t: int, i: int, p: int) -> bool {
    &&& is_frame(t)
    &&& is_frame(p)
    &&& old[t] is Table
    &&& old[t]->level@ > 0
    &&& 0 <= i < 512
    &&& old[t]->level@ == 2 ==> i < 256
    &&& !entry_at(old, t, i).valid()
    &&& old[p] is Free
    &&& new.len() == old.len()
    &&& new[t] is Table
    &&& new[t]->level@ == old[t]->level@
    &&& new[t]->parent@ == old[t]->parent@
    &&& new[t]->entries@ == old[t]->entries@.update(i, PTE::leaf(frame_addr(p) as u64, 0))
    &&& new[p] is Table
    &&& new[p]->level@ == old[t]->level@ - 1
    &&& new[p]->parent@ == Some((t, i))
    &&& new[p]->entries@ == Seq::new(512, |k: int| PTE(0))
    &&& forall|q: int| is_frame(q) && q != t && q != p ==> #[trigger] new[q] == old[q]
}

proof fn lemma_linked(old: Seq<Frame>, new: Seq<Frame>, t: int, i: int, p: int)
    requires
        frames_wf(old),
        linked(old, new, t, i, p),
    ensures
        frames_wf(new),
        tables_grown(old, new),
        child(new, t, i) == Some(p),
{
    let e = PTE::leaf(frame_addr(p) as u64, 0);
    assert(0u64 & 0x3ff == 0 && 0u64 & 16 == 0 && 0u64 | 1 == 1) by (bit_vector);
    lemma_leaf_entry(frame_addr(p) as u64, 0);
    lemma_zero_entry();
    assert(e.pa() == frame_addr(p));
    assert(frame_at(frame_addr(p)) == p);
    assert(t != p);
    assert forall|t2: int, i2: int| is_frame(t2) && new[t2] is Table && 0 <= i2 < 512 implies
        #[trigger] entry_wf(new, t2, i2) by {
        if t2 == p {
            assert(entry_at(new, t2, i2) == PTE(0));
        } else {
            assert(entry_wf(old, t2, i2));
            if t2 == t && i2 == i {
                assert(entry_at(new, t2, i2) == e);
            } else {
                assert(entry_at(new, t2, i2) == entry_at(old, t2, i2));
            }
        }
    }
    assert forall|r: int, vp: int| is_root(old, r) && is_page(vp) implies #[trigger] lookup(
        new,
        r,
        vp,
    ) == lookup(old, r, vp) && (leaf_of(old, r, vp) is Some ==> leaf_of(new, r, vp) == leaf_of(
        old,
        r,
        vp,
    )) by {
        let i2 = index_of(2, vp);
        let i1 = index_of(1, vp);
        let i0 = index_of(0, vp);
        assert(entry_wf(old, r, i2));
        if t == r && i == i2 {
            assert(child(new, r, i2) == Some(p));
            assert(entry_at(new, p, i1) == PTE(0));
        } else {
            assert(entry_at(new, r, i2) == entry_at(old, r, i2));
            if child(old, r, i2) is Some {
                let m = child(old, r, i2)->0;
                assert(entry_wf(old, m, i1));
                if t == m && i == i1 {
                    assert(child(new, m, i1) == Some(p));
                    assert(entry_at(new, p, i0) == PTE(0));
                } else {
                    assert(entry_at(new, m, i1) == entry_at(old, m, i1));
                    if child(old, m, i1) is Some {
                        let l = child(old, m, i1)->0;
                        assert(entry_at(new, l, i0) == entry_at(old, l, i0));
                    }
                }
            }
        }
    }
}

/// The free list stays intact where free frames do.
proof fn lemma_list_kept(old: Seq<Frame>, new: Seq<Frame>, head: Option<usize>, unused: Seq<int>)
    requires
        list_wf(old, head, unused),
        forall|p: int|
            is_frame(p) && (#[trigger] old[p] is Free || new[p] is Free) ==> new[p] == old[p],
    ensures
        list_wf(new, head, unused),
{
    assert forall|p: int| is_frame(p) && #[trigger] new[p] is Free implies unused.contains(p) by {
        assert(old[p] is Free);
    }
    assert forall|k: int| 0 <= k < unused.len() implies #[trigger] new[unused[k]] == (Frame::Free {
        next: crate::allocator::link_to(unused, k + 1),
    }) by {
        assert(old[unused[k]] is Free);
    }
}

/// Reads an entry of a table.
fn get_entry(a: &KernelAllocator, t: usize, i: usize) -> (e: PTE)
    requires
        a.wf(),
        is_frame(t as int),
        a.frames()[t as int] is Table,
        i < 512,
    ensures
        e == entry_at(a.frames(), t as int, i as int),
{
    match &a.ram[t] {
        Frame::Table { entries, .. } => entries[i],
        _ => PTE::invalid(),
    }
}

/// Overwrites an entry of a table.
fn set_entry(a: &mut KernelAllocator, t: usize, i: usize, e: PTE)
    requires
        old(a).ram@.len() == crate::allocator::NFRAMES,
        is_frame(t as int),
        old(a).ram@[t as int] is Table,
        old(a).ram@[t as int]->entries@.len() == 512,
        i < 512,
    ensures
        final(a).head == old(a).head,
        final(a).unused == old(a).unused,
        final(a).kernel_end == old(a).kernel_end,
        final(a).ram@.len() == old(a).ram@.len(),
        final(a).ram@[t as int] is Table,
        final(a).ram@[t as int]->level == old(a).ram@[t as int]->level,
        final(a).ram@[t as int]->parent == old(a).ram@[t as int]->parent,
        final(a).ram@[t as int]->entries@ == old(a).ram@[t as int]->entries@.update(i as int, e),
        forall|q: int| is_frame(q) && q != t ==> #[trigger] final(a).ram@[q] == old(a).ram@[q],
{
    match &mut a.ram[t] {
        Frame::Table { entries, .. } => {
            entries[i] = e;
        },
        _ => {},
    }
}

/// The entries of an empty table.
fn empty_entries() -> (entries: Vec<PTE>)
    ensures
        entries@ == Seq::new(512, |k: int| PTE(0)),
{
    let mut entries: Vec<PTE> = Vec::new();
    let mut i: usize = 0;
    while i < 512
        invariant
            i <= 512,
            entries@ =~= Seq::new(i as nat, |k: int| PTE(0)),
        decreases 512 - i,
    {
        entries.push(PTE::invalid());
        i = i + 1;
    }
    entries
}

/// Follows entry `i` of table `t`. Where it refers to no table yet and `alloc` is set, an
/// empty one is made.
fn step(a: &mut KernelAllocator, t: usize, i: usize, alloc: bool) -> (r: Result<usize, ()>)
    requires
        old(a).wf(),
        is_frame(t as int),
        old(a).frames()[t as int] is Table,
        old(a).frames()[t as int]->level@ > 0,
        i < 512,
        old(a).frames()[t as int]->level@ == 2 ==> i < 256,
    ensures
        final(a).wf(),
        final(a).end() == old(a).end(),
        tables_grown(old(a).frames(), final(a).frames()),
        no_root_made(old(a).frames(), final(a).frames()),
        match r {
            Ok(c) => {
                &&& child(final(a).frames(), t as int, i as int) == Some(c as int)
                &&& is_frame(c as int)
                &&& final(a).frames()[c as int] is Table
                &&& final(a).frames()[c as int]->level@ == old(a).frames()[t as int]->level@ - 1
                &&& final(a).frames()[t as int]->entries@.len() == 512
                &&& if child(old(a).frames(), t as int, i as int) is Some {
                    *final(a) == *old(a)
                } else {
                    alloc && old(a).free().len() > 0 && final(a).free() == old(a).free().skip(1)
                }
                &&& forall|k: int| 0 <= k < 512 && k != i ==> #[trigger] entry_at(final(a).frames(), t as int, k)
                    == entry_at(old(a).frames(), t as int, k)
                &&& forall|q: int| is_frame(q) && old(a).frames()[q] is Table && q != t ==>
                    #[trigger] final(a).frames()[q] == old(a).frames()[q]
            },
            Err(_) => {
                &&& child(old(a).frames(), t as int, i as int) is None
                &&& alloc ==> old(a).free().len() == 0
                &&& *final(a) == *old(a)
            },
        },
{
    let pte = get_entry(a, t, i);
    proof {
        assert(entry_wf(a.frames(), t as int, i as int));
    }
    if pte.is_valid() {
        Ok(((pte.get_physical_addr() - KERNBASE) / PGSIZE) as usize)
    } else {
        if !alloc {
            return Err(());
        }
        let ghost a0 = *a;
        match a.allocate_page() {
            None => Err(()),
            Some(pa) => {
                let ghost a1 = *a;
                let p: usize = ((pa - KERNBASE) / PGSIZE) as usize;
                let entries = empty_entries();
                let ghost level = a.ram@[t as int]->level@ - 1;
                a.ram.set(p, Frame::Table { entries, level: Ghost(level), parent: Ghost(Some((t as int, i as int))) });
                proof {
                    assert(0u64 & 0x3ff == 0) by (bit_vector);
                }
                let e = PTE::new_leaf(pa, 0);
                set_entry(a, t, i, e);
                proof {
                    assert(frame_addr(p as int) == pa);
                    lemma_linked(a0.frames(), a.frames(), t as int, i as int, p as int);
                    lemma_list_kept(a1.frames(), a.frames(), a.head, a.unused@);
                }
                Ok(p)
            },
        }
    }
}

/// A user page table, named by the frame of its root.
pub struct PageTable {
    pub table: usize,
}

/// The place of an entry: the frame of its table and the index in it.
#[derive(Clone, Copy)]
pub struct EntryPlace {
    pub table: usize,
    pub index: usize,
}

impl PageTable {
    pub open spec fn root(&self) -> int {
        self.table as int
    }

    pub open spec fn wf(&self, a: &KernelAllocator) -> bool {
        is_root(a.frames(), self.root())
    }

    /// Makes an empty page table. It fails only when no page is left.
    pub fn allocate(a: &mut KernelAllocator) -> (r: Result<Self, ()>)
        requires
            old(a).wf(),
        ensures
            final(a).wf(),
            final(a).end() == old(a).end(),
            match r {
                Ok(this) => {
                    &&& old(a).free().len() > 0
                    &&& this.root() == old(a).free()[0]
                    &&& this.wf(final(a))
                    &&& final(a).free() == old(a).free().skip(1)
                    &&& forall|vp: int| #[trigger] lookup(final(a).frames(), this.root(), vp) is None
                    &&& tables_grown(old(a).frames(), final(a).frames())
                    &&& forall|p: int| is_frame(p) && p != this.root() ==> #[trigger] final(a).frames()[p] == old(a).frames()[p]
                },
                Err(_) => old(a).free().len() == 0 && *final(a) == *old(a),
            },
    {
        let ghost a0 = *a;
        match a.allocate_page() {
            None => Err(()),
            Some(pa) => {
                let ghost a1 = *a;
                let p: usize = ((pa - KERNBASE) / PGSIZE) as usize;
                let entries = empty_entries();
                a.ram.set(p, Frame::Table { entries, level: Ghost(2), parent: Ghost(None) });
                proof {
                    lemma_zero_entry();
                    let old = a0.frames();
                    let new = a.frames();
                    assert forall|t2: int, i2: int| is_frame(t2) && new[t2] is Table && 0 <= i2 < 512 implies
                        #[trigger] entry_wf(new, t2, i2) by {
                        if t2 == p {
                            assert(entry_at(new, t2, i2) == PTE(0));
                        } else {
                            assert(entry_wf(old, t2, i2));
                        }
                    }
                    assert forall|r: int, vp: int| is_root(old, r) && is_page(vp) implies #[trigger] lookup(new, r, vp)
                        == lookup(old, r, vp) && (leaf_of(old, r, vp) is Some ==> leaf_of(new, r, vp) == leaf_of(old, r, vp)) by {
                        assert(entry_wf(old, r, index_of(2, vp)));
                        if child(old, r, index_of(2, vp)) is Some {
                            let m = child(old, r, index_of(2, vp))->0;
                            assert(entry_wf(old, m, index_of(1, vp)));
                        }
                    }
                    assert forall|vp: int| #[trigger] lookup(new, p as int, vp) is None by {
                        assert(entry_at(new, p as int, index_of(2, vp)) == PTE(0));
                    }
                    lemma_list_kept(a1.frames(), a.frames(), a.head, a.unused@);
                }
                Ok(PageTable { table: p })
            },
        }
    }

    /// Gives up the page table without freeing it: the frame of its root.
    pub fn leak(self) -> (p: usize)
        ensures
            p == self.root(),
    {
        self.table
    }

    /// Physical address of the root.
    pub fn as_u64(&self) -> (pa: u64)
        requires
            is_frame(self.root()),
        ensures
            pa == frame_addr(self.root()),
    {
        KERNBASE + self.table as u64 * PGSIZE
    }

    /// The place of the entry for virtual address `va`. With `alloc`, tables that are
    /// missing on the way are made; otherwise nothing changes.
    pub fn search_entry(&self, a: &mut KernelAllocator, va: u64, alloc: bool) -> (r: Result<EntryPlace, ()>)
        requires
            old(a).wf(),
            self.wf(old(a)),
            va < MAXVA,
        ensures
            final(a).wf(),
            final(a).end() == old(a).end(),
            tables_grown(old(a).frames(), final(a).frames()),
            no_root_made(old(a).frames(), final(a).frames()),
            !alloc ==> *final(a) == *old(a),
            match r {
                Ok(place) => {
                    &&& leaf_of(final(a).frames(), self.root(), va as int / 4096) == Some(place.table as int)
                    &&& place.index == index_of(0, va as int / 4096)
                    &&& is_frame(place.table as int)
                    &&& final(a).frames()[place.table as int] is Table
                    &&& final(a).frames()[place.table as int]->level@ == 0
                    &&& leaf_of(old(a).frames(), self.root(), va as int / 4096) is Some ==> *final(a) == *old(a)
                },
                Err(_) => {
                    &&& leaf_of(old(a).frames(), self.root(), va as int / 4096) is None
                    &&& alloc ==> old(a).free().len() < missing(old(a).frames(), self.root(), va as int / 4096) && final(a).free().len() == 0
                },
            },
            exists|k: int| 0 <= k <= missing(old(a).frames(), self.root(), va as int / 4096) && k <= old(a).free().len()
                && #[trigger] old(a).free().skip(k) == final(a).free(),
    {
        let ghost vp = va as int / 4096;
        let ghost a0 = *a;
        proof {
            reveal(missing);
            assert(entry_wf(a0.frames(), self.root(), index_of(2, vp)));
            assert(a0.free().skip(0) =~= a0.free());
        }
        let mid = match step(a, self.table, PTE::index(2, va), alloc) {
            Ok(mid) => mid,
            Err(_) => {
                return Err(());
            },
        };
        let ghost a1 = *a;
        proof {
            assert(entry_wf(a1.frames(), self.root(), index_of(2, vp)));
            assert(entry_wf(a1.frames(), mid as int, index_of(1, vp)));
        }
        match step(a, mid, PTE::index(1, va), alloc) {
            Ok(leaf) => {
                proof {
                    assert(child(a.frames(), self.root(), index_of(2, vp)) == Some(mid as int));
                    assert(a0.free().skip(1).skip(1) =~= a0.free().skip(2) || a0.free().len() < 2);
                    assert(a.free() == a0.free() || a.free() == a0.free().skip(1) || a.free() == a0.free().skip(2));
                }
                Ok(EntryPlace { table: leaf, index: PTE::index(0, va) })
            },
            Err(_) => {
                Err(())
            },
        }
    }

    #[verifier::rlimit(100)]
    #[verifier::spinoff_prover]
    /// Maps one page. With `own` an ordinary frame at `pa` that belongs to no other page becomes memory
    /// of this one.
    fn map_page(&self, a: &mut KernelAllocator, va: u64, pa: u64, flags: u64, own: bool) -> (r: Result<(), ()>)
        requires
            old(a).wf(),
            self.wf(old(a)),
            va < MAXVA,
            pa < 0x100_0000_0000_0000,
            flags & 0x3ff == flags,
            lookup(old(a).frames(), self.root(), va as int / 4096) is None,
        ensures
            final(a).wf(),
            final(a).end() == old(a).end(),
            roots_kept(old(a).frames(), final(a).frames()),
            match r {
                Ok(_) => {
                    &&& mapped(old(a).frames(), final(a).frames(), self.root(), va as int / 4096, pa as int, flags, 1)
                    &&& own && is_free_data(old(a).frames(), rounddown(pa as int)) ==> is_owned(final(a).frames(), self.root(), va as int / 4096)
                },
                Err(_) => {
                    &&& mapped(old(a).frames(), final(a).frames(), self.root(), va as int / 4096, pa as int, flags, 0)
                    &&& old(a).free().len() < missing(old(a).frames(), self.root(), va as int / 4096)
                    &&& final(a).free().len() == 0
                    &&& tables_grown(old(a).frames(), final(a).frames())
                },
            },
            frames_taken(old(a).frames(), final(a).frames(), self.root(), va as int / 4096, 0),
            others_kept(old(a).frames(), final(a).frames(), pa as int, if own { 1 } else { 0 }),
            data_kept(old(a).frames(), final(a).frames()),
            owned_kept(old(a).frames(), final(a).frames()),
            exists|k: int| 0 <= k <= missing(old(a).frames(), self.root(), va as int / 4096) && k <= old(a).free().len()
                && #[trigger] old(a).free().skip(k) == final(a).free(),
            leaf_of(old(a).frames(), self.root(), va as int / 4096) is Some ==> r is Ok && final(a).free() == old(a).free(),
    {
        let ghost a0 = *a;
        let ghost vp = va as int / 4096;
        let place = match self.search_entry(a, va, true) {
            Ok(place) => place,
            Err(_) => {
                proof {
                    reveal(frames_taken);
                    lemma_owned_grown(a0.frames(), a.frames());
                    assert forall|p: int| is_frame(p) && #[trigger] a0.frames()[p] is Free implies a.frames()[p] is Free || is_inner_table(a.frames(), p) by {
                        if a.frames()[p] is Table {
                            assert(!is_root(a0.frames(), p));
                            assert(!is_root(a.frames(), p));
                        }
                    }
                }
                return Err(());
            },
        };
        let ghost a1 = *a;
        proof {
            reveal(frames_taken);
            assert forall|p: int| is_frame(p) && #[trigger] a0.frames()[p] is Free implies a1.frames()[p] is Free || is_inner_table(a1.frames(), p) by {
                if a1.frames()[p] is Table {
                    assert(!is_root(a0.frames(), p));
                    assert(!is_root(a1.frames(), p));
                }
            }
        }
        let e = PTE::new_leaf(pa, flags);
        set_entry(a, place.table, place.index, e);
        if own && KERNBASE <= pa && pa < PHYSTOP {
            let p: usize = ((pa - KERNBASE) / PGSIZE) as usize;
            proof {
                assert(p == frame_at(rounddown(pa as int)));
            }
            match &mut a.ram[p] {
                Frame::Data { owner, .. } => {
                    *owner = Ghost(if owner@ is None { Some((place.table as int, place.index as int)) } else { owner@ });
                },
                _ => {},
            }
        }
        proof {
            lemma_leaf_entry(pa, flags);
            lemma_owned_grown(a0.frames(), a1.frames());
            lemma_set_leaf(a1.frames(), a.frames(), self.root(), vp, e);
            lemma_list_kept(a1.frames(), a.frames(), a.head, a.unused@);
            assert(lookup(a.frames(), self.root(), vp) == Some(e));
            assert(mapped(a0.frames(), a.frames(), self.root(), vp, pa as int, flags, 1)) by {
                assert forall|r: int, v: int| is_root(a0.frames(), r) && is_page(v) && !(r == self.root() && vp <= v < vp + 1)
                    implies #[trigger] lookup(a.frames(), r, v) == lookup(a0.frames(), r, v) by {
                    assert(lookup(a1.frames(), r, v) == lookup(a0.frames(), r, v));
                }
            }
            assert(owned_kept(a0.frames(), a.frames())) by {
                assert forall|r: int, v: int| is_root(a0.frames(), r) && is_page(v) && #[trigger] is_owned(a0.frames(), r, v)
                    implies is_owned(a.frames(), r, v) by {
                    assert(is_owned(a1.frames(), r, v));
                }
            }
        }
        Ok(())
    }

    /// Creates entries for the `size` bytes of virtual addresses from `va` on that refer to the
    /// physical addresses from `pa` on. Neither `va` nor `size` needs to be page-aligned. It
    /// fails only where no page is left for a table; the pages before the failing one stay
    /// mapped.
    #[verifier::rlimit(100)]
    #[verifier::spinoff_prover]
    pub fn map(&self, a: &mut KernelAllocator, va: u64, pa: u64, size: u64, flags: u64) -> (r: Result<(), ()>)
        requires
            old(a).wf(),
            self.wf(old(a)),
            size > 0,
            va + size <= MAXVA,
            pa + (pages_touched(va as int, size as int) - 1) * 4096 < 0x100_0000_0000_0000,
            flags & 0x3ff == flags,
            forall|k: int| 0 <= k < pages_touched(va as int, size as int) ==> (#[trigger] lookup(
                old(a).frames(),
                self.root(),
                va as int / 4096 + k,
            )) is None,
        ensures
            final(a).wf(),
            final(a).end() == old(a).end(),
            roots_kept(old(a).frames(), final(a).frames()),
            data_kept(old(a).frames(), final(a).frames()),
            owned_kept(old(a).frames(), final(a).frames()),
            frames_taken(old(a).frames(), final(a).frames(), self.root(), va as int / 4096, 0),
            others_kept(old(a).frames(), final(a).frames(), pa as int, if flags & PTE::U != 0 { pages_touched(va as int, size as int) } else { 0 }),
            match r {
                Ok(_) => {
                    &&& mapped(
                        old(a).frames(),
                        final(a).frames(),
                        self.root(),
                        va as int / 4096,
                        pa as int,
                        flags,
                        pages_touched(va as int, size as int),
                    )
                    &&& flags & PTE::U != 0 ==> forall|k: int|
                        0 <= k < pages_touched(va as int, size as int) && is_free_data(old(a).frames(), rounddown(pa as int) + k * 4096)
                            ==> #[trigger] is_owned(final(a).frames(), self.root(), va as int / 4096 + k)
                },
                Err(_) => {
                    &&& final(a).free().len() == 0
                    &&& old(a).free().len() < tables_due(old(a).frames(), self.root(), va as int / 4096, pages_touched(va as int, size as int))
                    &&& exists|n: int| 0 <= n < pages_touched(va as int, size as int) && #[trigger] mapped(
                        old(a).frames(),
                        final(a).frames(),
                        self.root(),
                        va as int / 4096,
                        pa as int,
                        flags,
                        n,
                    )
                },
            },
            exists|k: int| 0 <= k <= tables_due(old(a).frames(), self.root(), va as int / 4096, pages_touched(va as int, size as int)) && k <= old(a).free().len()
                && #[trigger] old(a).free().skip(k) == final(a).free(),
    {
        let mut pa1 = pa;
        let mut va1 = pg_rounddown(va);
        let last = pg_rounddown(va + size - 1);
        let own = flags & PTE::U != 0;
        let ghost a0 = *a;
        let ghost vp = va as int / 4096;
        let ghost total = pages_touched(va as int, size as int);
        let ghost mut n: int = 0;
        let ghost mut used: int = 0;
        proof {
            lemma_none_taken(a0.frames(), self.root(), vp);
            lemma_tables_some(a0.frames(), self.root(), vp, 1);
            assert(va1 as int / 4096 == vp);
            assert(last == va1 + (total - 1) * 4096);
            assert(a0.free().skip(0) =~= a0.free());
        }
        loop
            invariant_except_break
                0 <= n < total,
                va1 == vp * 4096 + n * 4096,
                pa1 == pa + n * 4096,
            invariant
                a0 == *old(a),
                a.wf(),
                self.wf(a),
                a.end() == a0.end(),
                0 <= n <= total,
                total == pages_touched(va as int, size as int),
                vp == va as int / 4096,
                last == vp * 4096 + (total - 1) * 4096,
                pa + (total - 1) * 4096 < 0x100_0000_0000_0000,
                va + size <= MAXVA,
                size > 0,
                flags & 0x3ff == flags,
                own == (flags & PTE::U != 0),
                roots_kept(a0.frames(), a.frames()),
                mapped(a0.frames(), a.frames(), self.root(), vp, pa as int, flags, n),
                data_kept(a0.frames(), a.frames()),
                owned_kept(a0.frames(), a.frames()),
                frames_taken(a0.frames(), a.frames(), self.root(), vp, 0),
                others_kept(a0.frames(), a.frames(), pa as int, if own { n } else { 0 }),
                own ==> forall|k: int| 0 <= k < n && is_free_data(a0.frames(), rounddown(pa as int) + k * 4096) ==> #[trigger] is_owned(a.frames(), self.root(), vp + k),
                forall|k: int| 0 <= k < total ==> (#[trigger] lookup(a0.frames(), self.root(), vp + k)) is None,
                self.wf(&a0),
                0 <= used <= tables_due(a0.frames(), self.root(), vp, n),
                n == 0 ==> a.frames() == a0.frames(),
                used <= a0.free().len(),
                a0.free().skip(used) == a.free(),
            ensures
                n == total,
            decreases total - n,
        {
            let ghost a1 = *a;
            proof {
                assert(va1 as int / 4096 == vp + n);
                if n > 0 {
                    assert(lookup(a1.frames(), self.root(), vp + (n - 1)) is Some);
                }
                lemma_due_step(a0.frames(), a1.frames(), self.root(), vp, n, total);
                assert(lookup(a0.frames(), self.root(), vp + n) is None);
                assert(rounddown(pa1 as int) == rounddown(pa as int) + n * 4096);
                if is_free_data(a0.frames(), rounddown(pa1 as int)) {
                    assert(a1.frames()[frame_at(rounddown(pa1 as int))] == a0.frames()[frame_at(rounddown(pa1 as int))]);
                }
            }
            match self.map_page(a, va1, pa1, flags, own) {
                Ok(_) => {},
                Err(_) => {
                    proof {
                        let k = choose|k: int| 0 <= k <= missing(a1.frames(), self.root(), vp + n) && k <= a1.free().len() && #[trigger] a1.free().skip(k) == a.free();
                        assert(a0.free().skip(used).skip(k) =~= a0.free().skip(used + k));
                        lemma_tables_taken(a1.frames(), a.frames(), self.root(), vp + n, self.root(), vp);
                        lemma_frames_taken(a0.frames(), a1.frames(), a.frames(), self.root(), vp, 0, 0);
                        assert(mapped(a0.frames(), a.frames(), self.root(), vp, pa as int, flags, n));
                    }
                    return Err(());
                },
            }
            proof {
                let k = choose|k: int| 0 <= k <= missing(a1.frames(), self.root(), vp + n) && k <= a1.free().len() && #[trigger] a1.free().skip(k) == a.free();
                assert(a0.free().skip(used).skip(k) =~= a0.free().skip(used + k));
                used = used + k;
                lemma_tables_taken(a1.frames(), a.frames(), self.root(), vp + n, self.root(), vp);
                lemma_frames_taken(a0.frames(), a1.frames(), a.frames(), self.root(), vp, 0, 0);
                lemma_mapped_extend(a0.frames(), a1.frames(), a.frames(), self.root(), vp, pa as int, flags, n);
                n = n + 1;
                if own {
                    assert forall|k2: int| 0 <= k2 < n && is_free_data(a0.frames(), rounddown(pa as int) + k2 * 4096) implies #[trigger] is_owned(
                        a.frames(),
                        self.root(),
                        vp + k2,
                    ) by {
                        if k2 < n - 1 {
                            assert(is_owned(a1.frames(), self.root(), vp + k2));
                        }
                    }
                }
            }
            if va1 == last {
                break;
            }
            va1 = va1 + PGSIZE;
            pa1 = pa1 + PGSIZE;
        }
        Ok(())
    }
}

/// Number of tables that are missing on the way to virtual page `vp`.
#[verifier::opaque]
pub open spec fn missing(ram: Seq<Frame>, root: int, vp: int) -> int {
    if child(ram, root, index_of(2, vp)) is None {
        2
    } else if leaf_of(ram, root, vp) is None {
        1
    } else {
        0
    }
}

/// Near a page that is mapped, tables are there.
pub proof fn lemma_missing(ram: Seq<Frame>, root: int, u: int, v: int)
    requires
        0 <= u,
        0 <= v,
        lookup(ram, root, u) is Some,
    ensures
        u / 512 == v / 512 ==> missing(ram, root, v) == 0,
        u / 262144 == v / 262144 ==> missing(ram, root, v) <= 1,
        0 <= missing(ram, root, v) <= 2,
{
    reveal(missing);
    assert(u / 262144 == u / 512 / 512);
    assert(v / 262144 == v / 512 / 512);
    if u / 262144 == v / 262144 {
        assert(index_of(2, v) == index_of(2, u));
        if u / 512 == v / 512 {
            assert(index_of(1, v) == index_of(1, u));
        }
    }
}

/// Number of tables that `n` pages from `vp` on have in a tree.
#[verifier::opaque]
pub open spec fn tables_for(vp: int, n: int) -> int {
    if n <= 0 {
        0
    } else {
        ((vp + n - 1) / 512 - vp / 512 + 1) + ((vp + n - 1) / 262144 - vp / 262144 + 1)
    }
}

/// Number of tables that mapping `n` pages from `vp` on takes at most.
#[verifier::opaque]
pub open spec fn tables_due(ram: Seq<Frame>, root: int, vp: int, n: int) -> int {
    if n <= 0 {
        0
    } else {
        tables_for(vp, n) - 2 + missing(ram, root, vp)
    }
}

/// One page more takes tables where it is the first in them.
proof fn lemma_tables_more(vp: int, i: int, n: int)
    requires
        0 <= i < n,
    ensures
        tables_for(vp, 1) == 2,
        i > 0 ==> tables_for(vp, i + 1) == tables_for(vp, i) + (if (vp + i) / 512 == (vp + i - 1) / 512 { 0int } else { 1int }) + (if (vp + i)
            / 262144 == (vp + i - 1) / 262144 { 0int } else { 1int }),
        i > 0 ==> ((vp + i) / 512 == (vp + i - 1) / 512 ==> (vp + i) / 262144 == (vp + i - 1) / 262144),
        2 <= tables_for(vp, i + 1) <= tables_for(vp, n),
{
    reveal(tables_for);
    assert((vp + i) / 262144 == (vp + i) / 512 / 512);
    assert((vp + i - 1) / 262144 == (vp + i - 1) / 512 / 512);
}

/// One page more takes the tables that are missing on the way to it.
proof fn lemma_due_step(ram0: Seq<Frame>, ram: Seq<Frame>, root: int, vp: int, i: int, n: int)
    requires
        0 <= vp,
        0 <= i < n,
        i == 0 ==> ram == ram0,
        i > 0 ==> lookup(ram, root, vp + i - 1) is Some,
    ensures
        0 <= missing(ram, root, vp + i) <= 2,
        0 <= tables_due(ram0, root, vp, i),
        tables_due(ram0, root, vp, i) + missing(ram, root, vp + i) <= tables_due(ram0, root, vp, i + 1) <= tables_due(ram0, root, vp, n),
{
    reveal(tables_due);
    lemma_tables_more(vp, i, n);
    if i > 0 {
        lemma_tables_more(vp, i - 1, n);
        lemma_missing(ram, root, vp + i - 1, vp + i);
    }
    assert(0 <= missing(ram0, root, vp) <= 2) by {
        reveal(missing);
    }
}

/// A tree has tables for pages.
pub proof fn lemma_tables_some(ram: Seq<Frame>, root: int, vp: int, n: int)
    requires
        0 < n,
    ensures
        2 <= tables_for(vp, n),
        0 <= missing(ram, root, vp) <= 2,
        tables_due(ram, root, vp, n) == tables_for(vp, n) - 2 + missing(ram, root, vp),
        n == 1 ==> tables_due(ram, root, vp, n) == missing(ram, root, vp),
        tables_due(ram, root, vp, 0) == 0,
{
    reveal(tables_for);
    reveal(tables_due);
    reveal(missing);
}

/// Pages that follow on mapped ones take the tables that the whole has more.
pub proof fn lemma_tables_joined(ram: Seq<Frame>, root: int, vp: int, n: int)
    requires
        0 <= vp,
        0 <= n,
        vp == 0 || lookup(ram, root, vp - 1) is Some,
    ensures
        0 <= tables_due(ram, root, vp, n) <= tables_for(0, vp + n) - tables_for(0, vp),
{
    reveal(tables_for);
    reveal(tables_due);
    if n > 0 {
        lemma_tables_some(ram, root, vp, n);
        if vp > 0 {
            lemma_missing(ram, root, vp - 1, vp);
            assert(vp / 262144 == vp / 512 / 512);
            assert((vp - 1) / 262144 == (vp - 1) / 512 / 512);
        }
    }
}

/// Number of pages that `size` bytes from a page boundary on touch.
pub open spec fn page_count(size: int) -> int {
    (size + 4095) / 4096
}

/// Number of pages that `size` bytes from `va` on touch.
pub open spec fn pages_touched(va: int, size: int) -> int {
    page_count(va % 4096 + size)
}

/// `pa` is an ordinary frame that no user mapping reaches.
pub open spec fn is_free_data(ram: Seq<Frame>, pa: int) -> bool {
    &&& is_frame_addr(pa)
    &&& ram[frame_at(pa)] is Data
    &&& ram[frame_at(pa)]->owner@ == None::<(int, int)>
}

/// Virtual page `vp` is mapped to a frame that belongs to it.
pub open spec fn is_owned(ram: Seq<Frame>, root: int, vp: int) -> bool {
    &&& lookup(ram, root, vp) is Some
    &&& is_frame_addr(lookup(ram, root, vp)->0.pa() as int)
    &&& ({
        let f = ram[frame_at(lookup(ram, root, vp)->0.pa() as int)];
        f is Data && f->owner@ == Some((leaf_of(ram, root, vp)->0, index_of(0, vp)))
    })
}

/// Roots stay roots.
pub open spec fn roots_kept(old: Seq<Frame>, new: Seq<Frame>) -> bool {
    forall|r: int| #[trigger] is_root(old, r) ==> is_root(new, r)
}

/// Ordinary frames outside the `n` pages from `pa` on, and reserved frames, are the same.
pub open spec fn others_kept(old: Seq<Frame>, new: Seq<Frame>, pa: int, n: int) -> bool {
    forall|p: int|
        is_frame(p) && (#[trigger] old[p] is Data || old[p] is Reserved) && !(rounddown(pa)
            <= frame_addr(p) < rounddown(pa) + n * 4096) ==> new[p] == old[p]
}

/// Pages that belong to a mapping keep doing so.
pub open spec fn owned_kept(old: Seq<Frame>, new: Seq<Frame>) -> bool {
    forall|r: int, vp: int|
        is_root(old, r) && is_page(vp) && #[trigger] is_owned(old, r, vp) ==> is_owned(new, r, vp)
}

/// The difference between two states: `n` pages from `vp` on became mapped to the memory
/// from `pa` on.
pub open spec fn mapped(
    old: Seq<Frame>,
    new: Seq<Frame>,
    root: int,
    vp: int,
    pa: int,
    flags: u64,
    n: int,
) -> bool {
    &&& forall|k: int|
        0 <= k < n ==> #[trigger] lookup(new, root, vp + k) == Some(
            PTE::leaf((pa + k * 4096) as u64, flags),
        )
    &&& forall|r: int, v: int|
        is_root(old, r) && is_page(v) && !(r == root && vp <= v < vp + n) ==> #[trigger] lookup(
            new,
            r,
            v,
        ) == lookup(old, r, v)
}

proof fn lemma_mapped_extend(
    s0: Seq<Frame>,
    s1: Seq<Frame>,
    s2: Seq<Frame>,
    root: int,
    vp: int,
    pa: int,
    flags: u64,
    n: int,
)
    requires
        0 <= n,
        is_root(s0, root),
        is_root(s1, root),
        roots_kept(s0, s1),
        0 <= vp,
        is_page(vp + n),
        mapped(s0, s1, root, vp, pa, flags, n),
        mapped(s1, s2, root, vp + n, pa + n * 4096, flags, 1),
    ensures
        mapped(s0, s2, root, vp, pa, flags, n + 1),
{
    assert forall|k: int| 0 <= k < n + 1 implies #[trigger] lookup(s2, root, vp + k) == Some(
        PTE::leaf((pa + k * 4096) as u64, flags),
    ) by {
        if k < n {
            assert(lookup(s1, root, vp + k) == Some(PTE::leaf((pa + k * 4096) as u64, flags)));
        } else {
            assert(lookup(s2, root, vp + n + 0) == Some(PTE::leaf((pa + n * 4096 + 0 * 4096) as u64, flags)));
        }
    }
    assert forall|r: int, v: int| is_root(s0, r) && is_page(v) && !(r == root && vp <= v < vp + n
        + 1) implies #[trigger] lookup(s2, r, v) == lookup(s0, r, v) by {
        assert(lookup(s1, r, v) == lookup(s0, r, v));
    }
}

/// Growing the tables takes no page from its mapping.
proof fn lemma_owned_grown(old: Seq<Frame>, new: Seq<Frame>)
    requires
        frames_wf(old),
        frames_wf(new),
        tables_grown(old, new),
    ensures
        owned_kept(old, new),
{
    assert forall|r: int, vp: int| is_root(old, r) && is_page(vp) && #[trigger] is_owned(
        old,
        r,
        vp,
    ) implies is_owned(new, r, vp) by {
        assert(lookup(new, r, vp) == lookup(old, r, vp));
    }
}

/// Overwriting the entry of one page changes that page's mapping and no other.
proof fn lemma_set_leaf(old: Seq<Frame>, new: Seq<Frame>, root: int, vp: int, e: PTE)
    requires
        frames_wf(old),
        is_root(old, root),
        is_page(vp),
        leaf_of(old, root, vp) is Some,
        new.len() == old.len(),
        ({
            let l = leaf_of(old, root, vp)->0;
            let i = index_of(0, vp);
            &&& new[l] is Table
            &&& new[l]->level@ == 0
            &&& new[l]->parent@ == old[l]->parent@
            &&& new[l]->entries@ == old[l]->entries@.update(i, e)
            &&& forall|q: int| is_frame(q) && q != l && !(old[q] is Data) ==> #[trigger] new[q] == old[q]
            &&& forall|q: int| is_frame(q) && #[trigger] old[q] is Data ==> new[q] is Data && new[q]->bytes@ == old[q]->bytes@
            &&& forall|q: int| is_frame(q) && #[trigger] old[q] is Data && new[q]->owner@ != old[q]->owner@ ==>
                    old[q]->owner@ == None::<(int, int)> && q == frame_at(e.pa() as int)
        }),
    ensures
        frames_wf(new),
        roots_kept(old, new),
        leaf_of(new, root, vp) == leaf_of(old, root, vp),
        lookup(new, root, vp) == if e.valid() { Some(e) } else { None },
        entry_at(new, leaf_of(old, root, vp)->0, index_of(0, vp)) == e,
        forall|r: int, v: int| is_root(old, r) && is_page(v) ==> #[trigger] leaf_of(new, r, v) == leaf_of(old, r, v),
        forall|r: int, v: int| is_root(old, r) && is_page(v) && !(r == root && v == vp) && #[trigger] cleared(old, r, v) ==> cleared(new, r, v),
        forall|r: int, v: int| is_root(old, r) && is_page(v) && !(r == root && v == vp) ==>
            #[trigger] lookup(new, r, v) == lookup(old, r, v) && leaf_of(new, r, v) == leaf_of(old, r, v),
        forall|r: int, v: int| is_root(old, r) && is_page(v) && !(r == root && v == vp) && #[trigger] is_owned(old, r, v)
            ==> is_owned(new, r, v),
{
    let l = leaf_of(old, root, vp)->0;
    let i = index_of(0, vp);
    lemma_leaf(old, root, vp);
    assert forall|t2: int, i2: int| is_frame(t2) && new[t2] is Table && 0 <= i2 < 512 implies
        #[trigger] entry_wf(new, t2, i2) by {
        assert(entry_wf(old, t2, i2));
        if t2 == l && i2 == i {
            assert(entry_at(new, t2, i2) == e);
        } else {
            assert(entry_at(new, t2, i2) == entry_at(old, t2, i2));
        }
    }
    assert(forall|t2: int, i2: int| is_frame(t2) && old[t2] is Table && 0 <= i2 < 512 && !(t2 == l && i2 == i) ==>
        #[trigger] entry_at(new, t2, i2) == entry_at(old, t2, i2));
    assert forall|r: int, v: int| is_root(old, r) && is_page(v) implies #[trigger] leaf_of(new, r, v) == leaf_of(old, r, v) by {
        assert(entry_wf(old, r, index_of(2, v)));
        assert(entry_at(new, r, index_of(2, v)) == entry_at(old, r, index_of(2, v)));
        if child(old, r, index_of(2, v)) is Some {
            let m = child(old, r, index_of(2, v))->0;
            assert(entry_wf(old, m, index_of(1, v)));
            assert(entry_at(new, m, index_of(1, v)) == entry_at(old, m, index_of(1, v)));
        }
    }
    assert forall|r: int, v: int| is_root(old, r) && is_page(v) && !(r == root && v == vp) implies
        #[trigger] lookup(new, r, v) == lookup(old, r, v) && leaf_of(new, r, v) == leaf_of(old, r, v) by {
        assert(leaf_of(new, r, v) == leaf_of(old, r, v));
        if leaf_of(old, r, v) is Some {
            lemma_leaf(old, r, v);
            if leaf_of(old, r, v) == leaf_of(old, root, vp) && index_of(0, v) == i {
                lemma_leaf_injective(old, r, v, root, vp);
            }
        }
    }
    assert forall|r: int, v: int| is_root(old, r) && is_page(v) && !(r == root && v == vp) && #[trigger] cleared(old, r, v)
        implies cleared(new, r, v) by {
        assert(leaf_of(new, r, v) == leaf_of(old, r, v));
        lemma_leaf(old, r, v);
        if leaf_of(old, r, v) == leaf_of(old, root, vp) && index_of(0, v) == i {
            lemma_leaf_injective(old, r, v, root, vp);
        }
    }
    assert forall|r: int, v: int| is_root(old, r) && is_page(v) && !(r == root && v == vp) && #[trigger] is_owned(old, r, v)
        implies is_owned(new, r, v) by {
        assert(lookup(new, r, v) == lookup(old, r, v));
    }
}

/// The frame that a mapped page refers to.
pub open spec fn frame_of(ram: Seq<Frame>, root: int, vp: int) -> int {
    frame_at(lookup(ram, root, vp)->0.pa() as int)
}

/// The entry of virtual page `vp` is the invalid entry.
pub open spec fn cleared(ram: Seq<Frame>, root: int, vp: int) -> bool {
    leaf_of(ram, root, vp) is Some && entry_at(ram, leaf_of(ram, root, vp)->0, index_of(0, vp)) == PTE(0)
}

/// The difference between two states: `n` pages from `vp` on are no longer mapped, and their
/// entries are the invalid entry.
pub open spec fn unmapped(old: Seq<Frame>, new: Seq<Frame>, root: int, vp: int, n: int) -> bool {
    &&& roots_kept(old, new)
    &&& tables_stay(old, new)
    &&& forall|v: int| vp <= v < vp + n ==> (#[trigger] lookup(new, root, v)) is None
    &&& forall|v: int| vp <= v < vp + n && lookup(old, root, v) is Some ==> #[trigger] cleared(new, root, v)
    &&& forall|r: int, v: int|
        is_root(old, r) && is_page(v) && leaf_of(old, r, v) is Some ==> #[trigger] leaf_of(new, r, v) == leaf_of(old, r, v)
    &&& forall|r: int, v: int|
        is_root(old, r) && is_page(v) && !(r == root && vp <= v < vp + n) && #[trigger] cleared(old, r, v) ==> cleared(new, r, v)
    &&& forall|r: int, v: int|
        is_root(old, r) && is_page(v) && !(r == root && vp <= v < vp + n) ==> #[trigger] lookup(
            new,
            r,
            v,
        ) == lookup(old, r, v)
    &&& forall|r: int, v: int|
        is_root(old, r) && is_page(v) && !(r == root && vp <= v < vp + n) && #[trigger] is_owned(
            old,
            r,
            v,
        ) ==> is_owned(new, r, v)
}

/// Virtual page `vp` is mapped to an ordinary frame that belongs to no page.
pub open spec fn loose(ram: Seq<Frame>, root: int, vp: int) -> bool {
    &&& !is_owned(ram, root, vp)
    &&& lookup(ram, root, vp) is Some
    &&& is_free_data(ram, lookup(ram, root, vp)->0.pa() as int)
}

/// The frames of those of `n` pages from `vp` on that are mapped can be freed: each belongs to its
/// page, or is an ordinary frame that belongs to none and that no other of these pages is mapped to.
pub open spec fn can_free(ram: Seq<Frame>, root: int, vp: int, n: int) -> bool {
    &&& forall|v: int| vp <= v < vp + n && (#[trigger] lookup(ram, root, v)) is Some ==> is_owned(ram, root, v) || loose(ram, root, v)
    &&& forall|u: int, v: int|
        vp <= u < vp + n && vp <= v < vp + n && u != v && #[trigger] loose(ram, root, u) && #[trigger] loose(ram, root, v) ==> frame_of(ram, root, u)
            != frame_of(ram, root, v)
}

/// What was freed was the frame of a page.
proof fn lemma_mapped_back(ram: Seq<Frame>, root: int, vp: int, n: int, q: int)
    requires
        mapped_back(ram, root, vp, n).contains(q),
    ensures
        exists|u: int| vp <= u < vp + n && (#[trigger] lookup(ram, root, u)) is Some && frame_of(ram, root, u) == q,
    decreases n,
{
    let back = mapped_back(ram, root, vp, n);
    let k = choose|k: int| 0 <= k < back.len() && back[k] == q;
    if n > 0 {
        let rest = mapped_back(ram, root, vp, n - 1);
        if lookup(ram, root, vp + n - 1) is Some {
            if k == 0 {
                assert(frame_of(ram, root, vp + n - 1) == q);
            } else {
                assert(rest[k - 1] == q);
                lemma_mapped_back(ram, root, vp, n - 1, q);
            }
        } else {
            lemma_mapped_back(ram, root, vp, n - 1, q);
        }
    }
}

/// After some pages were freed, the next one can be.
proof fn lemma_next_free(a0: KernelAllocator, a1: KernelAllocator, root: int, vp0: int, i: int, n: int)
    requires
        a0.wf(),
        is_root(a0.frames(), root),
        0 <= i < n,
        0 <= vp0,
        is_page(vp0 + i),
        lookup(a0.frames(), root, vp0 + i) is Some,
        can_free(a0.frames(), root, vp0, n),
        unmapped(a0.frames(), a1.frames(), root, vp0, i),
        a1.free() == mapped_back(a0.frames(), root, vp0, i) + a0.free(),
        forall|q: int| is_frame(q) && (#[trigger] a0.frames()[q] is Data || a0.frames()[q] is Reserved) && !a1.free().contains(q) ==> a1.frames()[q]
            == a0.frames()[q],
    ensures
        is_owned(a1.frames(), root, vp0 + i) || loose(a1.frames(), root, vp0 + i),
{
    let s0 = a0.frames();
    let v = vp0 + i;
    assert(lookup(a1.frames(), root, v) == lookup(s0, root, v));
    if is_owned(s0, root, v) {
        assert(is_owned(a1.frames(), root, v));
    } else {
        let q = frame_of(s0, root, v);
        assert(loose(s0, root, v));
        if a1.free().contains(q) {
            let k = choose|k: int| 0 <= k < a1.free().len() && a1.free()[k] == q;
            let back = mapped_back(s0, root, vp0, i);
            if k < back.len() {
                assert(back[k] == q);
                lemma_mapped_back(s0, root, vp0, i, q);
                let u = choose|u: int| vp0 <= u < vp0 + i && (#[trigger] lookup(s0, root, u)) is Some && frame_of(s0, root, u) == q;
                assert(is_owned(s0, root, u) || loose(s0, root, u));
            } else {
                assert(a0.free()[k - back.len()] == q);
                assert(s0[q] is Free);
            }
        }
        assert(a1.frames()[q] == s0[q]);
    }
}

/// The frames of `n` pages from `vp` on, last page first.
pub open spec fn frames_back(ram: Seq<Frame>, root: int, vp: int, n: int) -> Seq<int> {
    Seq::new(n as nat, |k: int| frame_of(ram, root, vp + n - 1 - k))
}

/// Page tables depend on the frames of tables only.
pub proof fn lemma_same_tables(old: Seq<Frame>, new: Seq<Frame>)
    requires
        frames_wf(old),
        forall|p: int| is_frame(p) && #[trigger] old[p] is Table ==> new[p] == old[p],
    ensures
        mappings_kept(old, new),
        forall|r: int, vp: int| is_root(old, r) && is_page(vp) ==> #[trigger] leaf_of(new, r, vp) == leaf_of(old, r, vp),
        forall|r: int, vp: int| is_root(old, r) && is_page(vp) ==> #[trigger] cleared(new, r, vp) == cleared(old, r, vp),
{
    assert forall|r: int, vp: int| is_root(old, r) && is_page(vp) implies #[trigger] leaf_of(new, r, vp)
        == leaf_of(old, r, vp) by {
        assert(entry_wf(old, r, index_of(2, vp)));
        if child(old, r, index_of(2, vp)) is Some {
            let m = child(old, r, index_of(2, vp))->0;
            assert(entry_wf(old, m, index_of(1, vp)));
        }
    }
    assert forall|r: int, vp: int| is_root(old, r) && is_page(vp) implies #[trigger] lookup(new, r, vp)
        == lookup(old, r, vp) && (leaf_of(old, r, vp) is Some ==> leaf_of(new, r, vp) == leaf_of(old, r, vp)) by {
        assert(leaf_of(new, r, vp) == leaf_of(old, r, vp));
        if leaf_of(old, r, vp) is Some {
            lemma_leaf(old, r, vp);
        }
    }
    assert forall|r: int, vp: int| is_root(old, r) && is_page(vp) implies #[trigger] cleared(new, r, vp) == cleared(old, r, vp) by {
        assert(leaf_of(new, r, vp) == leaf_of(old, r, vp));
        if leaf_of(old, r, vp) is Some {
            lemma_leaf(old, r, vp);
        }
    }
}

impl PageTable {
    /// Removes one mapping, and frees its frame where `free` is set.
    #[verifier::rlimit(60)]
    fn unmap_page(&self, a: &mut KernelAllocator, va: u64, free: bool)
        requires
            old(a).wf(),
            self.wf(old(a)),
            va < MAXVA,
            lookup(old(a).frames(), self.root(), va as int / 4096) is Some,
            free ==> is_owned(old(a).frames(), self.root(), va as int / 4096) || loose(old(a).frames(), self.root(), va as int / 4096),
        ensures
            final(a).wf(),
            final(a).end() == old(a).end(),
            unmapped(old(a).frames(), final(a).frames(), self.root(), va as int / 4096, 1),
            ({
                let p = frame_of(old(a).frames(), self.root(), va as int / 4096);
                if free {
                    &&& final(a).free() == seq![p] + old(a).free()
                    &&& final(a).frames()[p] is Free
                    &&& forall|q: int| is_frame(q) && q != p && (#[trigger] old(a).frames()[q] is Data || old(a).frames()[q] is Reserved)
                        ==> final(a).frames()[q] == old(a).frames()[q]
                } else {
                    &&& final(a).free() == old(a).free()
                    &&& forall|q: int| is_frame(q) && !(#[trigger] old(a).frames()[q] is Table)
                        ==> final(a).frames()[q] == old(a).frames()[q]
                }
            }),
    {
        let ghost a0 = *a;
        let ghost vp = va as int / 4096;
        let place = match self.search_entry(a, va, false) {
            Ok(place) => place,
            Err(_) => {
                return ;
            },
        };
        let pte = get_entry(a, place.table, place.index);
        proof {
            lemma_zero_entry();
        }
        set_entry(a, place.table, place.index, PTE::invalid());
        let ghost a1 = *a;
        proof {
            lemma_set_leaf(a0.frames(), a1.frames(), self.root(), vp, PTE(0));
            lemma_list_kept(a0.frames(), a1.frames(), a1.head, a1.unused@);
            assert(leaf_of(a1.frames(), self.root(), vp) == leaf_of(a0.frames(), self.root(), vp));
            assert(cleared(a1.frames(), self.root(), vp));
            assert(is_root(a1.frames(), self.root()));
        }
        if free {
            let pa = pte.get_physical_addr();
            let p: usize = ((pa - KERNBASE) / PGSIZE) as usize;
            match &mut a.ram[p] {
                Frame::Data { owner, .. } => {
                    *owner = Ghost(None);
                },
                _ => {},
            }
            let ghost a2 = *a;
            proof {
                let old = a1.frames();
                let new = a2.frames();
                assert forall|t2: int, i2: int| is_frame(t2) && new[t2] is Table && 0 <= i2 < 512 implies
                    #[trigger] entry_wf(new, t2, i2) by {
                    assert(entry_wf(old, t2, i2));
                    assert(new[t2] == old[t2]);
                }
                lemma_list_kept(a1.frames(), a2.frames(), a2.head, a2.unused@);
                assert(frame_addr(p as int) >= a2.end());
            }
            a.deallocate_page(pa);
            proof {
                lemma_same_tables(a1.frames(), a.frames());
                assert forall|r: int, v: int| is_root(a0.frames(), r) && is_page(v) && !(r == self.root() && vp <= v < vp + 1)
                    && #[trigger] is_owned(a0.frames(), r, v) implies is_owned(a.frames(), r, v) by {
                    assert(is_owned(a1.frames(), r, v));
                    assert(lookup(a.frames(), r, v) == lookup(a1.frames(), r, v));
                    assert(lookup(a1.frames(), r, v) == lookup(a0.frames(), r, v));
                    if frame_of(a0.frames(), r, v) == p {
                        assert(is_owned(a0.frames(), self.root(), vp));
                        lemma_leaf_injective(a0.frames(), r, v, self.root(), vp);
                    }
                }
                assert forall|r: int, v: int| is_root(a0.frames(), r) && is_page(v) && !(r == self.root() && vp <= v < vp + 1)
                    implies #[trigger] lookup(a.frames(), r, v) == lookup(a0.frames(), r, v) by {
                    assert(lookup(a1.frames(), r, v) == lookup(a0.frames(), r, v));
                }
                assert(lookup(a.frames(), self.root(), vp) == lookup(a1.frames(), self.root(), vp));
                assert(cleared(a.frames(), self.root(), vp));
                assert forall|r: int, v: int| is_root(a0.frames(), r) && is_page(v) && leaf_of(a0.frames(), r, v) is Some
                    implies #[trigger] leaf_of(a.frames(), r, v) == leaf_of(a0.frames(), r, v) by {
                    assert(leaf_of(a1.frames(), r, v) == leaf_of(a0.frames(), r, v));
                }
                assert forall|r: int, v: int| is_root(a0.frames(), r) && is_page(v) && !(r == self.root() && vp <= v < vp + 1)
                    && #[trigger] cleared(a0.frames(), r, v) implies cleared(a.frames(), r, v) by {
                    assert(cleared(a1.frames(), r, v));
                }
            }
        }
    }

    /// Removes `npages` mappings from `va` on. They must exist. Where `free` is set, their
    /// frames go back to the allocator.
    #[verifier::rlimit(60)]
    pub fn unmap(&self, a: &mut KernelAllocator, va: u64, npages: u64, free: bool)
        requires
            old(a).wf(),
            self.wf(old(a)),
            va as int % 4096 == 0,
            va + npages * 4096 <= MAXVA,
            forall|vp: int| va as int / 4096 <= vp < va as int / 4096 + npages ==> {
                &&& (#[trigger] lookup(old(a).frames(), self.root(), vp)) is Some
                &&& lookup(old(a).frames(), self.root(), vp)->0.flags() != PTE::V
            },
            free ==> can_free(old(a).frames(), self.root(), va as int / 4096, npages as int),
        ensures
            final(a).wf(),
            final(a).end() == old(a).end(),
            unmapped(old(a).frames(), final(a).frames(), self.root(), va as int / 4096, npages as int),
            if free {
                &&& final(a).free() == frames_back(old(a).frames(), self.root(), va as int / 4096, npages as int) + old(a).free()
                &&& forall|q: int| is_frame(q) && (#[trigger] old(a).frames()[q] is Data || old(a).frames()[q] is Reserved)
                    && !final(a).free().contains(q) ==> final(a).frames()[q] == old(a).frames()[q]
            } else {
                &&& final(a).free() == old(a).free()
                &&& forall|q: int| is_frame(q) && !(#[trigger] old(a).frames()[q] is Table)
                    ==> final(a).frames()[q] == old(a).frames()[q]
            },
    {
        let ghost a0 = *a;
        let ghost vp0 = va as int / 4096;
        let mut i: u64 = 0;
        proof {
            assert(frames_back(a0.frames(), self.root(), vp0, 0) + a0.free() =~= a0.free());
        }
        while i < npages
            invariant
                a0 == *old(a),
                a0.wf(),
                self.wf(&a0),
                a.wf(),
                self.wf(a),
                a.end() == a0.end(),
                i <= npages,
                va as int % 4096 == 0,
                vp0 == va as int / 4096,
                va + npages * 4096 <= MAXVA,
                forall|vp: int| vp0 <= vp < vp0 + npages ==> {
                    &&& (#[trigger] lookup(a0.frames(), self.root(), vp)) is Some
                    &&& lookup(a0.frames(), self.root(), vp)->0.flags() != PTE::V
                },
                free ==> can_free(a0.frames(), self.root(), vp0, npages as int),
                unmapped(a0.frames(), a.frames(), self.root(), vp0, i as int),
                if free {
                    &&& a.free() == frames_back(a0.frames(), self.root(), vp0, i as int) + a0.free()
                    &&& forall|q: int| is_frame(q) && (#[trigger] a0.frames()[q] is Data || a0.frames()[q] is Reserved)
                        && !a.free().contains(q) ==> a.frames()[q] == a0.frames()[q]
                } else {
                    &&& a.free() == a0.free()
                    &&& forall|q: int| is_frame(q) && !(#[trigger] a0.frames()[q] is Table)
                        ==> a.frames()[q] == a0.frames()[q]
                },
            decreases npages - i,
        {
            let ghost a1 = *a;
            let va1 = va + i * PGSIZE;
            let ghost vp = va1 as int / 4096;
            proof {
                assert(vp == vp0 + i);
                assert(lookup(a1.frames(), self.root(), vp) == lookup(a0.frames(), self.root(), vp));
                if free {
                    lemma_all_mapped(a0.frames(), self.root(), vp0, i as int);
                    lemma_next_free(a0, a1, self.root(), vp0, i as int, npages as int);
                }
            }
            self.unmap_page(a, va1, free);
            proof {
                let p = frame_of(a0.frames(), self.root(), vp);
                assert forall|r: int, v: int| is_root(a0.frames(), r) && is_page(v) && !(r == self.root() && vp0 <= v < vp0 + i + 1)
                    implies #[trigger] lookup(a.frames(), r, v) == lookup(a0.frames(), r, v) by {
                    assert(lookup(a1.frames(), r, v) == lookup(a0.frames(), r, v));
                }
                lemma_unmapped_extend(a0.frames(), a1.frames(), a.frames(), self.root(), vp0, i as int);
                if free {
                    assert(a.free() =~= frames_back(a0.frames(), self.root(), vp0, i + 1) + a0.free());
                    assert forall|q: int| is_frame(q) && (#[trigger] a0.frames()[q] is Data || a0.frames()[q] is Reserved)
                        && !a.free().contains(q) implies a.frames()[q] == a0.frames()[q] by {
                        if a1.free().contains(q) {
                            let k = choose|k: int| 0 <= k < a1.free().len() && a1.free()[k] == q;
                            assert(a.free()[k + 1] == q);
                        }
                        assert(a.free()[0] == p);
                    }
                }
            }
            i = i + 1;
        }
    }

    /// Gives back the pages that bring the process from `old_size` to `new_size` bytes, and
    /// returns the new size. Neither size needs to be page-aligned, nor does `new_size` need to
    /// be less than `old_size`. `old_size` can be larger than the actual size of the process:
    /// pages that are not mapped are passed over.
    #[verifier::rlimit(40)]
    pub fn shrink(&self, a: &mut KernelAllocator, old_size: u64, new_size: u64) -> (r: Result<u64, ()>)
        requires
            old(a).wf(),
            self.wf(old(a)),
            new_size < old_size ==> roundup(old_size as int) <= MAXVA,
            new_size < old_size ==> forall|vp: int| page_count(new_size as int) <= vp < page_count(old_size as int) ==> {
                (#[trigger] lookup(old(a).frames(), self.root(), vp)) is Some ==> lookup(old(a).frames(), self.root(), vp)->0.flags() != PTE::V
            },
            new_size < old_size ==> can_free(
                old(a).frames(),
                self.root(),
                page_count(new_size as int),
                page_count(old_size as int) - page_count(new_size as int),
            ),
        ensures
            final(a).wf(),
            final(a).end() == old(a).end(),
            if new_size >= old_size {
                r == Ok::<u64, ()>(old_size) && *final(a) == *old(a)
            } else {
                let n = page_count(old_size as int) - page_count(new_size as int);
                let vp = page_count(new_size as int);
                &&& r == Ok::<u64, ()>(new_size)
                &&& unmapped(old(a).frames(), final(a).frames(), self.root(), vp, n)
                &&& final(a).free() == mapped_back(old(a).frames(), self.root(), vp, n) + old(a).free()
                &&& forall|q: int| is_frame(q) && (#[trigger] old(a).frames()[q] is Data || old(a).frames()[q] is Reserved)
                    && !final(a).free().contains(q) ==> final(a).frames()[q] == old(a).frames()[q]
            },
    {
        if new_size >= old_size {
            return Ok(old_size);
        }
        let shrink_start = pg_roundup(new_size);
        let shrink_end = pg_roundup(old_size);
        let ghost a0 = *a;
        let ghost vp0 = page_count(new_size as int);
        let ghost n = page_count(old_size as int) - vp0;
        let ghost mut i: int = 0;
        proof {
            assert(shrink_start as int / 4096 == vp0);
            assert(shrink_end as int / 4096 == vp0 + n);
            assert(mapped_back(a.frames(), self.root(), vp0, 0) + a.free() =~= a.free());
        }
        let mut va = shrink_start;
        while va < shrink_end
            invariant
                a0 == *old(a),
                a0.wf(),
                self.wf(&a0),
                a.wf(),
                self.wf(a),
                a.end() == a0.end(),
                0 <= i <= n,
                va == vp0 * 4096 + i * 4096,
                shrink_end == vp0 * 4096 + n * 4096,
                shrink_end <= MAXVA,
                0 <= vp0,
                can_free(a0.frames(), self.root(), vp0, n),
                unmapped(a0.frames(), a.frames(), self.root(), vp0, i),
                a.free() == mapped_back(a0.frames(), self.root(), vp0, i) + a0.free(),
                forall|q: int| is_frame(q) && (#[trigger] a0.frames()[q] is Data || a0.frames()[q] is Reserved)
                    && !a.free().contains(q) ==> a.frames()[q] == a0.frames()[q],
            decreases shrink_end - va,
        {
            let ghost a1 = *a;
            let ghost vp = vp0 + i;
            proof {
                assert(va as int / 4096 == vp);
                assert(lookup(a1.frames(), self.root(), vp) == lookup(a0.frames(), self.root(), vp));
            }
            if self.find_entry(a, va).is_some() {
                proof {
                    lemma_next_free(a0, a1, self.root(), vp0, i, n);
                }
                self.unmap_page(a, va, true);
                proof {
                    let p = frame_of(a0.frames(), self.root(), vp);
                    assert(a.free() =~= mapped_back(a0.frames(), self.root(), vp0, i + 1) + a0.free());
                    assert forall|q: int| is_frame(q) && (#[trigger] a0.frames()[q] is Data || a0.frames()[q] is Reserved)
                        && !a.free().contains(q) implies a.frames()[q] == a0.frames()[q] by {
                        if a1.free().contains(q) {
                            let k = choose|k: int| 0 <= k < a1.free().len() && a1.free()[k] == q;
                            assert(a.free()[k + 1] == q);
                        }
                        assert(a.free()[0] == p);
                    }
                }
            }
            proof {
                lemma_unmapped_extend(a0.frames(), a1.frames(), a.frames(), self.root(), vp0, i);
                i = i + 1;
            }
            va = va + PGSIZE;
        }
        Ok(new_size)
    }
}

/// The frames of those of `n` pages from `vp` on that are mapped, last page first.
pub open spec fn mapped_back(ram: Seq<Frame>, root: int, vp: int, n: int) -> Seq<int>
    decreases n,
{
    if n <= 0 {
        Seq::empty()
    } else if lookup(ram, root, vp + n - 1) is Some {
        seq![frame_of(ram, root, vp + n - 1)] + mapped_back(ram, root, vp, n - 1)
    } else {
        mapped_back(ram, root, vp, n - 1)
    }
}

/// Where every page is mapped, none is passed over.
pub proof fn lemma_all_mapped(ram: Seq<Frame>, root: int, vp: int, n: int)
    requires
        0 <= n,
        forall|v: int| vp <= v < vp + n ==> (#[trigger] lookup(ram, root, v)) is Some,
    ensures
        mapped_back(ram, root, vp, n) == frames_back(ram, root, vp, n),
    decreases n,
{
    if n > 0 {
        lemma_all_mapped(ram, root, vp, n - 1);
        assert(lookup(ram, root, vp + n - 1) is Some);
        assert(frames_back(ram, root, vp, n) =~= seq![frame_of(ram, root, vp + n - 1)] + frames_back(ram, root, vp, n - 1));
    } else {
        assert(frames_back(ram, root, vp, n) =~= Seq::<int>::empty());
    }
}

proof fn lemma_unmapped_extend(s0: Seq<Frame>, s1: Seq<Frame>, s2: Seq<Frame>, root: int, vp0: int, i: int)
    requires
        0 <= i,
        0 <= vp0,
        is_page(vp0 + i),
        is_root(s0, root),
        unmapped(s0, s1, root, vp0, i),
        unmapped(s1, s2, root, vp0 + i, 1) || (s2 == s1 && lookup(s1, root, vp0 + i) is None),
    ensures
        unmapped(s0, s2, root, vp0, i + 1),
{
    assert forall|r: int, v: int| is_root(s0, r) && is_page(v) && !(r == root && vp0 <= v < vp0 + i + 1) implies #[trigger] lookup(s2, r, v)
        == lookup(s0, r, v) by {
        assert(lookup(s1, r, v) == lookup(s0, r, v));
    }
    assert forall|v: int| vp0 <= v < vp0 + i + 1 implies (#[trigger] lookup(s2, root, v)) is None by {
        if v < vp0 + i {
            assert(lookup(s1, root, v) is None);
            assert(lookup(s2, root, v) == lookup(s1, root, v));
        }
    }
    assert forall|v: int| vp0 <= v < vp0 + i + 1 && lookup(s0, root, v) is Some implies #[trigger] cleared(s2, root, v) by {
        assert(is_page(v));
        if v < vp0 + i {
            assert(cleared(s1, root, v));
        } else {
            assert(lookup(s1, root, v) == lookup(s0, root, v));
        }
    }
    assert forall|r: int, v: int| is_root(s0, r) && is_page(v) && leaf_of(s0, r, v) is Some implies #[trigger] leaf_of(s2, r, v)
        == leaf_of(s0, r, v) by {
        assert(leaf_of(s1, r, v) == leaf_of(s0, r, v));
    }
    assert forall|r: int, v: int| is_root(s0, r) && is_page(v) && !(r == root && vp0 <= v < vp0 + i + 1) && #[trigger] cleared(s0, r, v)
        implies cleared(s2, r, v) by {
        assert(cleared(s1, r, v));
    }
    assert forall|r: int, v: int| is_root(s0, r) && is_page(v) && !(r == root && vp0 <= v < vp0 + i + 1) && #[trigger] is_owned(s0, r, v)
        implies is_owned(s2, r, v) by {
        assert(is_owned(s1, r, v));
    }
    assert forall|p: int| is_frame(p) && #[trigger] s0[p] is Table implies s2[p] is Table && s2[p]->level@ == s0[p]->level@
        && s2[p]->parent@ == s0[p]->parent@ by {
        assert(s1[p] is Table);
    }
}

/// The step from one size to the other is no larger than RAM.
pub open spec fn fits_in_ram(old_size: int, new_size: int) -> bool {
    old_size <= new_size <= old_size + 0x800_0000
}

/// The permission bits of a page that `grow` makes.
pub open spec fn grown_flags(perm: u64) -> u64 {
    perm | PTE::R | PTE::U
}

pub proof fn lemma_grown_flags(perm: u64)
    requires
        perm & 0x3ff == perm,
    ensures
        grown_flags(perm) & 0x3ff == grown_flags(perm),
        grown_flags(perm) & PTE::U != 0,
        grown_flags(perm) | 1 != 1,
{
    assert((perm | 2 | 16) & 0x3ff == (perm | 2 | 16) && (perm | 2 | 16) & 16 != 0 && (perm | 2 | 16) | 1 != 1) by (bit_vector)
        requires
            perm & 0x3ff == perm,
    ;
}

/// Page `vp` is user memory with the bits `flags`.
pub open spec fn has_page(ram: Seq<Frame>, root: int, vp: int, flags: u64) -> bool {
    &&& is_owned(ram, root, vp)
    &&& lookup(ram, root, vp)->0.flags() == flags | 1
}

/// Every byte of page `vp` is zero.
pub open spec fn page_zero(ram: Seq<Frame>, root: int, vp: int) -> bool {
    ram[frame_of(ram, root, vp)]->bytes@ == Seq::new(4096, |i: int| 0u8)
}

/// Mappings and contents outside of `n` pages from `vp` on are the same.
pub open spec fn kept_outside(old: Seq<Frame>, new: Seq<Frame>, root: int, vp: int, n: int) -> bool {
    &&& pages_kept(old, new, root, vp, n)
    &&& kernel_kept(old, new)
}

/// Mappings outside of `n` pages from `vp` on, and the contents of memory, are the same.
pub open spec fn pages_kept(old: Seq<Frame>, new: Seq<Frame>, root: int, vp: int, n: int) -> bool {
    &&& roots_kept(old, new)
    &&& forall|r: int, v: int|
        is_root(old, r) && is_page(v) && !(r == root && vp <= v < vp + n) ==> #[trigger] lookup(new, r, v) == lookup(old, r, v)
    &&& data_kept(old, new)
    &&& owned_kept(old, new)
}

/// Memory that only the kernel uses is the same.
#[verifier::opaque]
pub open spec fn kernel_kept(old: Seq<Frame>, new: Seq<Frame>) -> bool {
    forall|p: int|
        is_frame(p) && #[trigger] old[p] is Data && old[p]->owner@ == None::<(int, int)> ==> {
            &&& new[p] is Data
            &&& new[p]->owner@ == None::<(int, int)>
            &&& new[p]->bytes@ == old[p]->bytes@
        }
}

/// Replaces the contents of an ordinary frame.
pub(crate) fn set_frame(a: &mut KernelAllocator, p: usize, contents: Vec<u8>)
    requires
        old(a).wf(),
        is_frame(p as int),
        old(a).frames()[p as int] is Data,
        contents@.len() == 4096,
    ensures
        final(a).wf(),
        final(a).end() == old(a).end(),
        final(a).free() == old(a).free(),
        final(a).frames()[p as int] is Data,
        final(a).frames()[p as int]->bytes@ == contents@,
        final(a).frames()[p as int]->owner@ == old(a).frames()[p as int]->owner@,
        forall|q: int| is_frame(q) && q != p ==> #[trigger] final(a).frames()[q] == old(a).frames()[q],
{
    let ghost a0 = *a;
    match &mut a.ram[p] {
        Frame::Data { bytes, .. } => {
            *bytes = contents;
        },
        _ => {},
    }
    proof {
        let old = a0.frames();
        let new = a.frames();
        assert forall|t2: int, i2: int| is_frame(t2) && new[t2] is Table && 0 <= i2 < 512 implies
            #[trigger] entry_wf(new, t2, i2) by {
            assert(entry_wf(old, t2, i2));
        }
        lemma_list_kept(old, new, a.head, a.unused@);
    }
}

/// A copy of the contents of an ordinary frame.
pub(crate) fn get_frame(a: &KernelAllocator, p: usize) -> (contents: Vec<u8>)
    requires
        a.wf(),
        is_frame(p as int),
        a.frames()[p as int] is Data,
    ensures
        contents@ == a.frames()[p as int]->bytes@,
{
    match &a.ram[p] {
        Frame::Data { bytes, .. } => clone_bytes(bytes),
        _ => Vec::new(),
    }
}

/// A copy of a row of bytes.
pub fn clone_bytes(src: &Vec<u8>) -> (dst: Vec<u8>)
    ensures
        dst@ == src@,
{
    let mut dst: Vec<u8> = Vec::new();
    let mut i: usize = 0;
    while i < src.len()
        invariant
            i <= src@.len(),
            dst@ =~= src@.take(i as int),
        decreases src@.len() - i,
    {
        dst.push(src[i]);
        i = i + 1;
    }
    dst
}

impl PageTable {
    /// Takes a fresh page with the given contents and maps it at `va`.
    #[verifier::rlimit(60)]
    pub(crate) fn map_fresh(&self, a: &mut KernelAllocator, va: u64, contents: Vec<u8>, flags: u64) -> (r: Result<(), ()>)
        requires
            old(a).wf(),
            self.wf(old(a)),
            va < MAXVA,
            va as int % 4096 == 0,
            contents@.len() == 4096,
            flags & 0x3ff == flags,
            lookup(old(a).frames(), self.root(), va as int / 4096) is None,
        ensures
            final(a).wf(),
            final(a).end() == old(a).end(),
            kept_outside(old(a).frames(), final(a).frames(), self.root(), va as int / 4096, 1),
            match r {
                Ok(_) => {
                    &&& has_page(final(a).frames(), self.root(), va as int / 4096, flags)
                    &&& final(a).frames()[frame_of(final(a).frames(), self.root(), va as int / 4096)]->bytes@ == contents@
                    &&& old(a).frames()[frame_of(final(a).frames(), self.root(), va as int / 4096)] is Free
                    &&& final(a).free().len() + 1 + missing(old(a).frames(), self.root(), va as int / 4096) >= old(a).free().len()
                    &&& frames_taken(old(a).frames(), final(a).frames(), self.root(), va as int / 4096, 1)
                },
                Err(_) => {
                    &&& old(a).free().len() < 1 + missing(old(a).frames(), self.root(), va as int / 4096)
                    &&& final(a).free().len() <= 1
                    &&& lookup(final(a).frames(), self.root(), va as int / 4096) is None
                    &&& final(a).free().len() + missing(old(a).frames(), self.root(), va as int / 4096) >= old(a).free().len()
                    &&& frames_taken(old(a).frames(), final(a).frames(), self.root(), va as int / 4096, 0)
                },
            },
    {
        let ghost a0 = *a;
        let ghost vp = va as int / 4096;
        let ghost root = self.root();
        let pa = match a.allocate_page() {
            Some(pa) => pa,
            None => {
                proof {
                    reveal(kernel_kept);
                    lemma_tables_some(a0.frames(), root, vp, 1);
                    lemma_none_taken(a0.frames(), root, vp);
                }
                return Err(());
            },
        };
        let p: usize = ((pa - KERNBASE) / PGSIZE) as usize;
        let ghost a1 = *a;
        set_frame(a, p, contents);
        let ghost a2 = *a;
        proof {
            lemma_frames_changed(a0.frames(), a2.frames(), root, vp);
            lemma_same_tables(a0.frames(), a2.frames());
            assert(leaf_of(a2.frames(), root, vp) == leaf_of(a0.frames(), root, vp));
            assert(missing(a2.frames(), root, vp) == missing(a0.frames(), root, vp) && 0 <= missing(a0.frames(), root, vp) <= 2) by {
                reveal(missing);
                assert(child(a2.frames(), root, index_of(2, vp)) == child(a0.frames(), root, index_of(2, vp)));
            }
        }
        match self.map_page(a, va, pa, flags, true) {
            Ok(_) => {
                proof {
                    let k = choose|k: int| 0 <= k <= missing(a2.frames(), root, vp) && k <= a2.free().len() && #[trigger] a2.free().skip(k) == a.free();
                    lemma_leaf_entry(pa, flags);
                    assert(lookup(a.frames(), root, vp + 0) == Some(PTE::leaf((pa + 0 * 4096) as u64, flags)));
                    lemma_kept_outside(a0.frames(), a2.frames(), a.frames(), root, vp, 0, 1);
                    reveal(kernel_kept);
                    assert forall|q: int| is_frame(q) && #[trigger] a0.frames()[q] is Data && a0.frames()[q]->owner@ == None::<
                        (int, int),
                    > implies a.frames()[q] == a0.frames()[q] by {
                        assert(a2.frames()[q] == a0.frames()[q]);
                        assert(frame_addr(p as int) == pa);
                    }
                    reveal(frames_taken);
                    assert(is_owned(a.frames(), root, vp) && frame_of(a.frames(), root, vp) == p);
                    assert forall|q: int| is_frame(q) && #[trigger] a0.frames()[q] is Free implies a.frames()[q] is Free || is_inner_table(
                        a.frames(),
                        q,
                    ) || holds_page(a.frames(), root, vp, 1, q) by {
                        if q != p {
                            assert(a2.frames()[q] == a0.frames()[q]);
                        }
                    }
                }
                Ok(())
            },
            Err(_) => {
                let ghost a3 = *a;
                proof {
                    let k = choose|k: int| 0 <= k <= missing(a2.frames(), root, vp) && k <= a2.free().len() && #[trigger] a2.free().skip(k) == a.free();
                    assert(a2.frames()[p as int] is Data);
                    reveal(kernel_kept);
                    lemma_kept_outside(a0.frames(), a2.frames(), a3.frames(), root, vp, 0, 0);
                }
                a.deallocate_page(pa);
                proof {
                    lemma_same_tables(a3.frames(), a.frames());
                    assert(lookup(a.frames(), root, vp) == lookup(a3.frames(), root, vp));
                    lemma_frame_back(a0.frames(), a3.frames(), a.frames(), root, vp, p as int);
                    reveal(frames_taken);
                    assert forall|q: int| is_frame(q) && #[trigger] a0.frames()[q] is Free implies a.frames()[q] is Free || is_inner_table(
                        a.frames(),
                        q,
                    ) by {
                        if q != p {
                            assert(a2.frames()[q] == a0.frames()[q]);
                        }
                    }
                }
                Err(())
            },
        }
    }

    /// Allocates and maps the pages that bring the process from `old_size` to `new_size`
    /// bytes, filled with zeros, and returns the new size. On failure nothing stays mapped.
    #[verifier::rlimit(100)]
    #[verifier::spinoff_prover]
    pub fn grow(&self, a: &mut KernelAllocator, old_size: u64, new_size: u64, perm: u64) -> (r: Result<u64, ()>)
        requires
            old(a).wf(),
            self.wf(old(a)),
            perm & 0x3ff == perm,
            fits_in_ram(old_size as int, new_size as int) ==> roundup(new_size as int) <= MAXVA,
            fits_in_ram(old_size as int, new_size as int) ==> forall|vp: int|
                page_count(old_size as int) <= vp < page_count(new_size as int) ==> (#[trigger] lookup(
                    old(a).frames(),
                    self.root(),
                    vp,
                )) is None,
        ensures
            final(a).wf(),
            final(a).end() == old(a).end(),
            ({
                let vp0 = page_count(old_size as int);
                let n = page_count(new_size as int) - vp0;
                if new_size < old_size {
                    r == Ok::<u64, ()>(old_size) && *final(a) == *old(a)
                } else {
                    &&& kept_outside(old(a).frames(), final(a).frames(), self.root(), vp0, n)
                    &&& match r {
                        Ok(size) => {
                            &&& size == new_size
                            &&& forall|vp: int| vp0 <= vp < vp0 + n ==> {
                                &&& #[trigger] has_page(final(a).frames(), self.root(), vp, grown_flags(perm))
                                &&& page_zero(final(a).frames(), self.root(), vp)
                            }
                            &&& final(a).free().len() + n + tables_due(old(a).frames(), self.root(), vp0, n) >= old(a).free().len()
                            &&& frames_taken(old(a).frames(), final(a).frames(), self.root(), vp0, n)
                        },
                        Err(_) => {
                            &&& old(a).free().len() < n + tables_due(old(a).frames(), self.root(), vp0, n)
                            &&& final(a).free().len() <= n
                            &&& frames_taken(old(a).frames(), final(a).frames(), self.root(), vp0, 0)
                            &&& kept_outside(old(a).frames(), final(a).frames(), self.root(), vp0, 0)
                            &&& final(a).free().len() + tables_due(old(a).frames(), self.root(), vp0, n) >= old(a).free().len()
                        },
                    }
                }
            }),
    {
        if new_size < old_size {
            return Ok(old_size);
        }
        if new_size - old_size > 0x800_0000 {
            // More than all of RAM.
            proof {
                a.lemma_free_bounded();
                reveal(tables_for);
                lemma_tables_some(a.frames(), self.root(), page_count(old_size as int), page_count(new_size as int) - page_count(old_size as int));
                lemma_none_taken(a.frames(), self.root(), page_count(old_size as int));
                lemma_frames_changed(a.frames(), a.frames(), self.root(), page_count(old_size as int));
            }
            return Err(());
        }
        let ghost a0 = *a;
        let ghost root = self.root();
        let ghost vp0 = page_count(old_size as int);
        let ghost n = page_count(new_size as int) - vp0;
        let grow_start = pg_roundup(old_size);
        let flags = perm | PTE::R | PTE::U;
        proof {
            lemma_grown_flags(perm);
            assert(grow_start as int / 4096 == vp0);
            lemma_frames_changed(a0.frames(), a0.frames(), root, vp0);
            lemma_none_taken(a0.frames(), root, vp0);
            lemma_tables_some(a0.frames(), root, vp0, 1);
        }
        let mut va = grow_start;
        let ghost mut i: int = 0;
        while va < new_size
            invariant
                a0 == *old(a),
                root == self.root(),
                a0.wf(),
                self.wf(&a0),
                a.wf(),
                self.wf(a),
                a.end() == a0.end(),
                vp0 == page_count(old_size as int),
                n == page_count(new_size as int) - vp0,
                old_size <= new_size,
                roundup(new_size as int) <= MAXVA,
                0 <= i,
                va == vp0 * 4096 + i * 4096,
                i <= n || (i == 0 && va >= new_size),
                grow_start == vp0 * 4096,
                flags == grown_flags(perm),
                flags & 0x3ff == flags,
                flags | 1 != 1,
                forall|vp: int| vp0 <= vp < vp0 + n ==> (#[trigger] lookup(a0.frames(), root, vp)) is None,
                kept_outside(a0.frames(), a.frames(), root, vp0, i),
                fresh_pages(a0.frames(), a.frames(), root, vp0, i, flags),
                a.free().len() + i + tables_due(a0.frames(), root, vp0, i) >= a0.free().len(),
                i == 0 ==> a.frames() == a0.frames(),
                frames_taken(a0.frames(), a.frames(), root, vp0, i),
            decreases MAXVA - va,
        {
            let ghost a1 = *a;
            let contents = crate::allocator::zeroed_page();
            proof {
                assert(i < n);
                assert(va as int / 4096 == vp0 + i);
                assert(lookup(a0.frames(), root, vp0 + i) is None);
                assert(lookup(a1.frames(), root, vp0 + i) is None);
                if i > 0 {
                    assert(has_page(a1.frames(), root, vp0 + i - 1, flags));
                }
                lemma_due_step(a0.frames(), a1.frames(), root, vp0, i, n);
            }
            match self.map_fresh(a, va, contents, flags) {
                Ok(_) => {
                    proof {
                        lemma_page_added(a0.frames(), a1.frames(), a.frames(), root, vp0, i, flags);
                        i = i + 1;
                    }
                },
                Err(_) => {
                    let ghost a2 = *a;
                    proof {
                        assert(page_count(va as int) == vp0 + i);
                        assert forall|vp: int| vp0 <= vp < vp0 + i implies {
                            &&& (#[trigger] lookup(a2.frames(), root, vp)) is Some
                            &&& is_owned(a2.frames(), root, vp)
                            &&& lookup(a2.frames(), root, vp)->0.flags() != PTE::V
                        } by {
                            assert(has_page(a1.frames(), root, vp, flags));
                            assert(lookup(a2.frames(), root, vp) == lookup(a1.frames(), root, vp));
                        }
                        lemma_all_mapped(a2.frames(), root, vp0, i);
                        assert forall|vp: int| vp0 <= vp < vp0 + i implies #[trigger] is_owned(a1.frames(), root, vp) && !(
                        a0.frames()[frame_of(a1.frames(), root, vp)] is Data) by {
                            assert(has_page(a1.frames(), root, vp, flags));
                        }
                    }
                    let _ = self.shrink(a, va, old_size);
                    proof {
                        assert(frames_back(a2.frames(), root, vp0, 0) + a2.free() =~= a2.free());
                        lemma_pages_undone(a0, a1, a2, *a, root, vp0, i, n);
                    }
                    return Err(());
                },
            }
            va = va + PGSIZE;
        }
        proof {
            assert(i == n);
        }
        Ok(new_size)
    }
}

proof fn lemma_kept_outside(
    s0: Seq<Frame>,
    s1: Seq<Frame>,
    s2: Seq<Frame>,
    root: int,
    vp: int,
    i: int,
    j: int,
)
    requires
        0 <= i,
        0 <= j,
        pages_kept(s0, s1, root, vp, i),
        pages_kept(s1, s2, root, vp + i, j),
    ensures
        pages_kept(s0, s2, root, vp, i + j),
        kernel_kept(s0, s1) && kernel_kept(s1, s2) ==> kernel_kept(s0, s2),
{
    reveal(kernel_kept);
    assert forall|r: int, v: int| is_root(s0, r) && is_page(v) && !(r == root && vp <= v < vp + i + j) implies
        #[trigger] lookup(s2, r, v) == lookup(s0, r, v) by {
        assert(lookup(s1, r, v) == lookup(s0, r, v));
    }
    assert forall|r: int, v: int| is_root(s0, r) && is_page(v) && #[trigger] is_owned(s0, r, v) implies is_owned(s2, r, v) by {
        assert(is_owned(s1, r, v));
    }
    assert forall|p: int| is_frame(p) && #[trigger] s0[p] is Data implies s2[p] is Data && s2[p]->bytes@ == s0[p]->bytes@ by {
        assert(s1[p] is Data);
    }
}

/// Freeing pages of one table leaves the kernel's memory alone.
pub proof fn lemma_kernel_freed(a0: KernelAllocator, a1: KernelAllocator, root: int, vp: int, n: int)
    requires
        a0.wf(),
        0 <= n,
        a1 == a0 || {
            &&& forall|v: int| vp <= v < vp + n ==> #[trigger] is_owned(a0.frames(), root, v)
            &&& a1.free() == frames_back(a0.frames(), root, vp, n) + a0.free()
            &&& forall|q: int|
                is_frame(q) && (#[trigger] a0.frames()[q] is Data || a0.frames()[q] is Reserved) && !a1.free().contains(q) ==> a1.frames()[q]
                    == a0.frames()[q]
        },
    ensures
        kernel_kept(a0.frames(), a1.frames()),
{
    reveal(kernel_kept);
    let s0 = a0.frames();
    assert forall|q: int| is_frame(q) && #[trigger] s0[q] is Data && s0[q]->owner@ == None::<(int, int)> implies a1.frames()[q] == s0[q] by {
        if a1 != a0 && a1.free().contains(q) {
            let k = choose|k: int| 0 <= k < a1.free().len() && a1.free()[k] == q;
            if k < n {
                assert(q == frame_of(s0, root, vp + n - 1 - k));
                assert(is_owned(s0, root, vp + n - 1 - k));
            } else {
                assert(a1.free()[k] == a0.free()[k - n]);
                assert(s0[a0.free()[k - n]] is Free);
            }
        }
    }
}

/// Once its pages are freed, a table holds no frame but those of tables.
pub proof fn lemma_taken_back(s0: Seq<Frame>, a1: KernelAllocator, a2: KernelAllocator, root: int, vp: int, n: int)
    requires
        a1.wf(),
        a2.wf(),
        0 <= n,
        frames_taken(s0, a1.frames(), root, vp, n),
        tables_stay(a1.frames(), a2.frames()),
        a2.free() == frames_back(a1.frames(), root, vp, n) + a1.free(),
    ensures
        frames_taken(s0, a2.frames(), root, vp, 0),
{
    reveal(frames_taken);
    let s1 = a1.frames();
    let s2 = a2.frames();
    assert forall|p: int| is_frame(p) && #[trigger] s0[p] is Free implies s2[p] is Free || is_inner_table(s2, p) by {
        if s1[p] is Free {
            let k = choose|k: int| 0 <= k < a1.free().len() && a1.free()[k] == p;
            assert(a2.free()[n + k] == p);
        } else if holds_page(s1, root, vp, n, p) {
            let v = choose|v: int| vp <= v < vp + n && #[trigger] is_owned(s1, root, v) && frame_of(s1, root, v) == p;
            assert(a2.free()[vp + n - 1 - v] == p);
        } else {
            assert(s1[p] is Table);
        }
    }
    assert forall|p: int| is_frame(p) && #[trigger] s0[p] is Table implies s2[p] is Table && s2[p]->level@ == s0[p]->level@
        && s2[p]->parent@ == s0[p]->parent@ by {
        assert(s1[p] is Table);
    }
}

/// `i` pages from `vp0` on hold zeros, in frames that were not in use before.
spec fn fresh_pages(s0: Seq<Frame>, s1: Seq<Frame>, root: int, vp0: int, i: int, flags: u64) -> bool {
    forall|vp: int| vp0 <= vp < vp0 + i ==> {
        &&& #[trigger] has_page(s1, root, vp, flags)
        &&& page_zero(s1, root, vp)
        &&& !(s0[frame_of(s1, root, vp)] is Data)
    }
}

/// One more zero page beside the `i` that were added.
proof fn lemma_page_added(s0: Seq<Frame>, s1: Seq<Frame>, s2: Seq<Frame>, root: int, vp0: int, i: int, flags: u64)
    requires
        is_root(s0, root),
        0 <= i,
        0 <= vp0,
        is_page(vp0 + i),
        kept_outside(s0, s1, root, vp0, i),
        kept_outside(s1, s2, root, vp0 + i, 1),
        frames_taken(s0, s1, root, vp0, i),
        frames_taken(s1, s2, root, vp0 + i, 1),
        fresh_pages(s0, s1, root, vp0, i, flags),
        has_page(s2, root, vp0 + i, flags),
        page_zero(s2, root, vp0 + i),
        s1[frame_of(s2, root, vp0 + i)] is Free,
    ensures
        kept_outside(s0, s2, root, vp0, i + 1),
        frames_taken(s0, s2, root, vp0, i + 1),
        fresh_pages(s0, s2, root, vp0, i + 1, flags),
{
    lemma_kept_outside(s0, s1, s2, root, vp0, i, 1);
    assert(is_root(s1, root));
    lemma_frames_taken(s0, s1, s2, root, vp0, i, 1);
    assert forall|vp: int| vp0 <= vp < vp0 + i + 1 implies {
        &&& #[trigger] has_page(s2, root, vp, flags)
        &&& page_zero(s2, root, vp)
        &&& !(s0[frame_of(s2, root, vp)] is Data)
    } by {
        if vp < vp0 + i {
            assert(has_page(s1, root, vp, flags));
            assert(page_zero(s1, root, vp));
            assert(lookup(s2, root, vp) == lookup(s1, root, vp));
            assert(is_owned(s2, root, vp));
        }
    }
}

/// Where the `i` pages that were added are freed after the next one could not be had, nothing
/// stays mapped and no page is lost.
#[verifier::rlimit(40)]
#[verifier::spinoff_prover]
proof fn lemma_pages_undone(a0: KernelAllocator, a1: KernelAllocator, a2: KernelAllocator, a3: KernelAllocator, root: int, vp0: int, i: int, n: int)
    requires
        a0.wf(),
        a1.wf(),
        a2.wf(),
        a3.wf(),
        is_root(a0.frames(), root),
        0 <= i < n,
        0 <= vp0,
        is_page(vp0 + n - 1),
        forall|vp: int| vp0 <= vp < vp0 + n ==> (#[trigger] lookup(a0.frames(), root, vp)) is None,
        kept_outside(a0.frames(), a1.frames(), root, vp0, i),
        kept_outside(a1.frames(), a2.frames(), root, vp0 + i, 1),
        lookup(a2.frames(), root, vp0 + i) is None,
        frames_taken(a0.frames(), a1.frames(), root, vp0, i),
        frames_taken(a1.frames(), a2.frames(), root, vp0 + i, 0),
        forall|vp: int| vp0 <= vp < vp0 + i ==> #[trigger] is_owned(a1.frames(), root, vp) && !(a0.frames()[frame_of(a1.frames(), root, vp)] is Data),
        unmapped(a2.frames(), a3.frames(), root, vp0, i) || (i == 0 && a3 == a2),
        a3.free() == frames_back(a2.frames(), root, vp0, i) + a2.free(),
        forall|q: int| is_frame(q) && (#[trigger] a2.frames()[q] is Data || a2.frames()[q] is Reserved) && !a3.free().contains(q) ==>
            a3.frames()[q] == a2.frames()[q],
    ensures
        kept_outside(a0.frames(), a3.frames(), root, vp0, n),
        kept_outside(a0.frames(), a3.frames(), root, vp0, 0),
        frames_taken(a0.frames(), a3.frames(), root, vp0, 0),
        forall|vp: int| vp0 <= vp < vp0 + n ==> (#[trigger] lookup(a3.frames(), root, vp)) is None,
{
    let s0 = a0.frames();
    let s1 = a1.frames();
    let s2 = a2.frames();
    let s3 = a3.frames();
    assert forall|vp: int| vp0 <= vp < vp0 + i implies #[trigger] is_owned(s2, root, vp) && lookup(s2, root, vp) == lookup(s1, root, vp) by {
        assert(is_owned(s1, root, vp));
    }
    assert forall|q: int| is_frame(q) && #[trigger] s0[q] is Data implies s3[q] is Data && s3[q]->bytes@ == s0[q]->bytes@ by {
        assert(s1[q] is Data);
        assert(s2[q] is Data);
        if a3.free().contains(q) {
            let k = choose|k: int| 0 <= k < a3.free().len() && a3.free()[k] == q;
            if k < i {
                let vp = vp0 + i - 1 - k;
                assert(a3.free()[k] == frame_of(s2, root, vp));
                assert(is_owned(s1, root, vp));
                assert(is_owned(s2, root, vp));
            } else {
                assert(a3.free()[k] == a2.free()[k - i]);
                assert(s2[a2.free()[k - i]] is Free);
            }
        }
    }
    assert forall|vp: int| vp0 <= vp < vp0 + n implies (#[trigger] lookup(s3, root, vp)) is None by {
        assert(lookup(s0, root, vp) is None);
        if vp > vp0 + i {
            assert(lookup(s1, root, vp) == lookup(s0, root, vp));
            assert(lookup(s2, root, vp) == lookup(s1, root, vp));
        }
        if vp >= vp0 + i {
            assert(lookup(s3, root, vp) == lookup(s2, root, vp));
        }
    }
    lemma_kernel_freed(a2, a3, root, vp0, i);
    lemma_frames_taken(s0, s1, s2, root, vp0, i, 0);
    lemma_taken_back(s0, a2, a3, root, vp0, i);
    lemma_grow_undone(s0, s1, s2, s3, root, vp0, i);
    assert(kept_outside(s0, s3, root, vp0, n));
    assert forall|r: int, v: int| is_root(s0, r) && is_page(v) && !(r == root && vp0 <= v < vp0 + 0) implies #[trigger] lookup(s3, r, v)
        == lookup(s0, r, v) by {
        if r == root && vp0 <= v < vp0 + n {
            assert(lookup(s0, root, v) is None);
        }
    }
}

/// Taking back the pages that were added restores everything.
proof fn lemma_grow_undone(
    s0: Seq<Frame>,
    s1: Seq<Frame>,
    s2: Seq<Frame>,
    s3: Seq<Frame>,
    root: int,
    vp0: int,
    i: int,
)
    requires
        frames_wf(s0),
        frames_wf(s2),
        is_root(s0, root),
        0 <= i,
        0 <= vp0,
        is_page(vp0 + i),
        kept_outside(s0, s1, root, vp0, i),
        kept_outside(s1, s2, root, vp0 + i, 1),
        unmapped(s2, s3, root, vp0, i) || s3 == s2,
        forall|vp: int| vp0 <= vp < vp0 + i ==> (#[trigger] lookup(s0, root, vp)) is None,
        lookup(s0, root, vp0 + i) is None,
        data_kept(s0, s3),
        kernel_kept(s2, s3),
    ensures
        kept_outside(s0, s3, root, vp0, i + 1),
{
    lemma_kept_outside(s0, s1, s2, root, vp0, i, 1);
    assert(kernel_kept(s0, s3)) by {
        reveal(kernel_kept);
    }
    assert forall|r: int, v: int| is_root(s0, r) && is_page(v) && !(r == root && vp0 <= v < vp0 + i + 1) implies
        #[trigger] lookup(s3, r, v) == lookup(s0, r, v) by {
        assert(lookup(s2, r, v) == lookup(s0, r, v));
    }
    assert forall|r: int, v: int| is_root(s0, r) && is_page(v) && #[trigger] is_owned(s0, r, v) implies is_owned(s3, r, v) by {
        assert(is_owned(s2, r, v));
    }
    assert forall|r: int| #[trigger] is_root(s0, r) implies is_root(s3, r) by {
        assert(is_root(s2, r));
    }
}


/// Changes to frames that are neither tables nor ordinary memory go unnoticed.
proof fn lemma_frames_changed(s0: Seq<Frame>, s1: Seq<Frame>, root: int, vp: int)
    requires
        frames_wf(s0),
        forall|q: int| is_frame(q) && (#[trigger] s0[q] is Table || s0[q] is Data) ==> s1[q] == s0[q],
    ensures
        kept_outside(s0, s1, root, vp, 0),
        forall|r: int, v: int| is_root(s0, r) && is_page(v) ==> #[trigger] lookup(s1, r, v) == lookup(s0, r, v),
{
    reveal(kernel_kept);
    lemma_same_tables(s0, s1);
    assert forall|r: int, v: int| is_root(s0, r) && is_page(v) && #[trigger] is_owned(s0, r, v) implies is_owned(s1, r, v) by {
        assert(lookup(s1, r, v) == lookup(s0, r, v));
    }
}

/// Giving back a frame that was free at the start goes unnoticed.
proof fn lemma_frame_back(s0: Seq<Frame>, s1: Seq<Frame>, s2: Seq<Frame>, root: int, vp: int, p: int)
    requires
        frames_wf(s0),
        frames_wf(s1),
        kept_outside(s0, s1, root, vp, 0),
        is_frame(p),
        !(s0[p] is Data),
        s1[p] is Data,
        s1[p]->owner@ == None::<(int, int)>,
        forall|q: int| is_frame(q) && q != p ==> #[trigger] s2[q] == s1[q],
    ensures
        kept_outside(s0, s2, root, vp, 1),
{
    reveal(kernel_kept);
    lemma_same_tables(s1, s2);
    assert forall|r: int, v: int| is_root(s0, r) && is_page(v) implies #[trigger] lookup(s2, r, v) == lookup(s0, r, v) by {
        assert(is_root(s1, r));
        assert(lookup(s1, r, v) == lookup(s0, r, v));
        assert(lookup(s2, r, v) == lookup(s1, r, v));
    }
    assert forall|r: int, v: int| is_root(s0, r) && is_page(v) && #[trigger] is_owned(s0, r, v) implies is_owned(s2, r, v) by {
        assert(is_root(s1, r));
        assert(is_owned(s1, r, v));
        assert(lookup(s2, r, v) == lookup(s1, r, v));
    }
    assert forall|q: int| is_frame(q) && #[trigger] s0[q] is Data implies s2[q] is Data && s2[q]->bytes@ == s0[q]->bytes@ by {
        assert(s1[q] is Data);
    }
    assert forall|r: int| #[trigger] is_root(s0, r) implies is_root(s2, r) by {
        assert(is_root(s1, r));
    }
}


/// The `n` bytes from `va` on are user memory.
pub open spec fn accessible(ram: Seq<Frame>, root: int, va: int, n: int) -> bool {
    forall|i: int| va <= i < va + n ==> (#[trigger] user_byte(ram, root, i)) is Some
}

/// The difference between two states: user memory from `va` on became `bytes`.
pub open spec fn written(old: Seq<Frame>, new: Seq<Frame>, root: int, va: int, bytes: Seq<u8>) -> bool {
    &&& new.len() == old.len()
    &&& forall|p: int| is_frame(p) && !(#[trigger] old[p] is Data) ==> new[p] == old[p]
    &&& forall|p: int|
        is_frame(p) && #[trigger] old[p] is Data ==> {
            &&& new[p] is Data
            &&& new[p]->owner@ == old[p]->owner@
            &&& old[p]->owner@ is None ==> new[p]->bytes@ == old[p]->bytes@
        }
    &&& forall|i: int|
        va <= i < va + bytes.len() ==> #[trigger] user_byte(new, root, i) == Some(bytes[i - va])
    &&& forall|r: int, v: int|
        is_root(old, r) && own_only(old, r) && !(r == root && va <= v < va + bytes.len()) ==> #[trigger] user_byte(new, r, v) == user_byte(
            old,
            r,
            v,
        )
}

/// Where nothing but bytes changed, mappings are the same.
pub proof fn lemma_written_maps(old: Seq<Frame>, new: Seq<Frame>, root: int, va: int, bytes: Seq<u8>)
    requires
        frames_wf(old),
        written(old, new, root, va, bytes),
    ensures
        mappings_kept(old, new),
        forall|r: int, vp: int| is_root(old, r) ==> #[trigger] translate(new, r, vp) == translate(old, r, vp),
        owned_kept(old, new),
        forall|r: int| is_root(old, r) && own_only(old, r) ==> #[trigger] own_only(new, r),
{
    lemma_same_tables(old, new);
    assert forall|r: int, vp: int| is_root(old, r) implies #[trigger] translate(new, r, vp) == translate(old, r, vp) by {
        if is_page(vp) {
            assert(lookup(new, r, vp) == lookup(old, r, vp));
        }
    }
    assert forall|r: int, v: int| is_root(old, r) && is_page(v) && #[trigger] is_owned(old, r, v) implies is_owned(new, r, v) by {
        assert(lookup(new, r, v) == lookup(old, r, v));
    }
    assert forall|r: int| is_root(old, r) && own_only(old, r) implies #[trigger] own_only(new, r) by {
        lemma_own_kept(old, new, r);
    }
}

/// Two writes in a row make one.
pub proof fn lemma_written_join(s0: Seq<Frame>, s1: Seq<Frame>, s2: Seq<Frame>, root: int, va: int, x: Seq<u8>, y: Seq<u8>)
    requires
        frames_wf(s0),
        is_root(s0, root),
        own_only(s0, root),
        written(s0, s1, root, va, x),
        written(s1, s2, root, va + x.len(), y),
    ensures
        written(s0, s2, root, va, x + y),
{
    let z = x + y;
    lemma_written_maps(s0, s1, root, va, x);
    assert forall|r: int| is_root(s0, r) implies #[trigger] is_root(s1, r) by {
        assert(s1[r] == s0[r]);
    }
    assert forall|i: int| va <= i < va + z.len() implies #[trigger] user_byte(s2, root, i) == Some(z[i - va]) by {
        if i < va + x.len() {
            assert(user_byte(s1, root, i) == Some(x[i - va]));
            assert(user_byte(s2, root, i) == user_byte(s1, root, i));
        } else {
            assert(user_byte(s2, root, i) == Some(y[i - va - x.len()]));
        }
    }
    assert forall|r: int, v: int| is_root(s0, r) && own_only(s0, r) && !(r == root && va <= v < va + z.len()) implies
        #[trigger] user_byte(s2, r, v) == user_byte(s0, r, v) by {
        assert(is_root(s1, r));
        assert(own_only(s1, r));
        assert(user_byte(s1, r, v) == user_byte(s0, r, v));
        assert(user_byte(s2, r, v) == user_byte(s1, r, v));
    }
    assert forall|p: int| is_frame(p) && !(#[trigger] s0[p] is Data) implies s2[p] == s0[p] by {
        assert(s1[p] == s0[p]);
    }
    assert forall|p: int| is_frame(p) && #[trigger] s0[p] is Data implies {
        &&& s2[p] is Data
        &&& s2[p]->owner@ == s0[p]->owner@
        &&& s0[p]->owner@ is None ==> s2[p]->bytes@ == s0[p]->bytes@
    } by {
        assert(s1[p] is Data);
    }
}

/// Overwriting part of one user page.
proof fn lemma_write_page(old: Seq<Frame>, new: Seq<Frame>, root: int, va: int, bytes: Seq<u8>, p: int)
    requires
        frames_wf(old),
        is_root(old, root),
        own_only(old, root),
        0 <= va,
        translate(old, root, va / 4096) == Some(p),
        va % 4096 + bytes.len() <= 4096,
        new.len() == old.len(),
        new[p] is Data,
        new[p]->owner@ == old[p]->owner@,
        new[p]->bytes@.len() == 4096,
        forall|i: int| 0 <= i < 4096 ==> #[trigger] new[p]->bytes@[i] == if va % 4096 <= i < va % 4096 + bytes.len() {
            bytes[i - va % 4096]
        } else {
            old[p]->bytes@[i]
        },
        forall|q: int| is_frame(q) && q != p ==> #[trigger] new[q] == old[q],
    ensures
        written(old, new, root, va, bytes),
{
    lemma_translate(old, root, va / 4096);
    lemma_same_tables(old, new);
    assert forall|r: int, vp: int| is_root(old, r) implies #[trigger] translate(new, r, vp) == translate(old, r, vp) by {
        if is_page(vp) {
            assert(lookup(new, r, vp) == lookup(old, r, vp));
        }
    }
    assert forall|i: int| va <= i < va + bytes.len() implies #[trigger] user_byte(new, root, i) == Some(bytes[i - va]) by {
        assert(i / 4096 == va / 4096);
        assert(i % 4096 == va % 4096 + (i - va));
        assert(translate(new, root, i / 4096) == translate(old, root, i / 4096));
    }
    assert forall|r: int, v: int| is_root(old, r) && own_only(old, r) && !(r == root && va <= v < va + bytes.len()) implies
        #[trigger] user_byte(new, r, v) == user_byte(old, r, v) by {
        assert(translate(new, r, v / 4096) == translate(old, r, v / 4096));
        if translate(old, r, v / 4096) is Some {
            lemma_translate(old, r, v / 4096);
            if translate(old, r, v / 4096) == Some(p) {
                lemma_translate_injective(old, r, v / 4096, root, va / 4096);
                assert(new[p]->bytes@[v % 4096] == old[p]->bytes@[v % 4096]);
            }
        }
    }
}

/// A page reads the same everywhere or nowhere.
proof fn lemma_page_bytes(ram: Seq<Frame>, root: int, va: int, i: int)
    requires
        0 <= va,
        0 <= i,
        va % 4096 + i < 4096,
    ensures
        user_byte(ram, root, va + i) is Some <==> translate(ram, root, va / 4096) is Some,
        translate(ram, root, va / 4096) is Some ==> user_byte(ram, root, va + i) == Some(
            ram[translate(ram, root, va / 4096)->0]->bytes@[va % 4096 + i],
        ),
{
    assert((va + i) / 4096 == va / 4096);
    assert((va + i) % 4096 == va % 4096 + i);
}

impl PageTable {
    /// The valid entry for `va`, if it is mapped.
    fn find_entry(&self, a: &KernelAllocator, va: u64) -> (r: Option<PTE>)
        requires
            a.wf(),
            self.wf(a),
            va < MAXVA,
        ensures
            r == lookup(a.frames(), self.root(), va as int / 4096),
    {
        let ghost vp = va as int / 4096;
        proof {
            assert(entry_wf(a.frames(), self.root(), index_of(2, vp)));
        }
        let e2 = get_entry(a, self.table, PTE::index(2, va));
        if !e2.is_valid() {
            return None;
        }
        let mid: usize = ((e2.get_physical_addr() - KERNBASE) / PGSIZE) as usize;
        proof {
            assert(entry_wf(a.frames(), mid as int, index_of(1, vp)));
        }
        let e1 = get_entry(a, mid, PTE::index(1, va));
        if !e1.is_valid() {
            return None;
        }
        let leaf: usize = ((e1.get_physical_addr() - KERNBASE) / PGSIZE) as usize;
        let e0 = get_entry(a, leaf, PTE::index(0, va));
        if e0.is_valid() {
            Some(e0)
        } else {
            None
        }
    }

    /// The address of the page behind `va`, if user code may access it.
    pub fn virtual_to_physical(&self, a: &KernelAllocator, va: u64) -> (r: Option<u64>)
        requires
            a.wf(),
            self.wf(a),
        ensures
            r == match lookup(a.frames(), self.root(), va as int / 4096) {
                Some(e) => if va < MAXVA && e.user() { Some(e.pa()) } else { None },
                None => None,
            },
            r is Some <==> translate(a.frames(), self.root(), va as int / 4096) is Some,
            r matches Some(pa) ==> translate(a.frames(), self.root(), va as int / 4096) == Some(frame_at(pa as int)),
    {
        if va >= MAXVA {
            return None;
        }
        match self.find_entry(a, va) {
            None => None,
            Some(pte) => {
                if !pte.can_user_access() {
                    return None;
                }
                Some(pte.get_physical_addr())
            },
        }
    }

    /// Copies `src` to user memory from `dst_va` on. Where part of it cannot be accessed, the
    /// bytes before that part are copied and their number is the error.
    #[verifier::rlimit(40)]
    pub fn write(&self, a: &mut KernelAllocator, dst_va: u64, src: &Vec<u8>) -> (r: Result<(), usize>)
        requires
            old(a).wf(),
            self.wf(old(a)),
            own_only(old(a).frames(), self.root()),
        ensures
            final(a).wf(),
            self.wf(final(a)),
            final(a).end() == old(a).end(),
            final(a).free() == old(a).free(),
            match r {
                Ok(_) => {
                    &&& accessible(old(a).frames(), self.root(), dst_va as int, src@.len() as int)
                    &&& written(old(a).frames(), final(a).frames(), self.root(), dst_va as int, src@)
                },
                Err(n) => {
                    &&& n < src@.len()
                    &&& accessible(old(a).frames(), self.root(), dst_va as int, n as int)
                    &&& user_byte(old(a).frames(), self.root(), dst_va + n) is None
                    &&& written(old(a).frames(), final(a).frames(), self.root(), dst_va as int, src@.take(n as int))
                },
            },
    {
        let ghost a0 = *a;
        let ghost root = self.root();
        let src_size = src.len();
        let mut copied: usize = 0;
        let mut va = dst_va;
        proof {
            assert(src@.take(0) =~= Seq::<u8>::empty());
        }
        while copied < src_size
            invariant
                a0 == *old(a),
                a0.wf(),
                self.wf(&a0),
                own_only(a0.frames(), root),
                root == self.root(),
                a.wf(),
                self.wf(a),
                a.end() == a0.end(),
                a.free() == a0.free(),
                src_size == src@.len(),
                copied <= src_size,
                copied < src_size ==> va == dst_va + copied,
                accessible(a0.frames(), root, dst_va as int, copied as int),
                written(a0.frames(), a.frames(), root, dst_va as int, src@.take(copied as int)),
            decreases src_size - copied,
        {
            let ghost a1 = *a;
            proof {
                lemma_written_maps(a0.frames(), a1.frames(), root, dst_va as int, src@.take(copied as int));
                assert(own_only(a1.frames(), root));
            }
            let va0 = pg_rounddown(va);
            let pa0 = match self.virtual_to_physical(a, va0) {
                Some(pa0) => pa0,
                None => {
                    proof {
                        lemma_written_maps(a0.frames(), a1.frames(), root, dst_va as int, src@.take(copied as int));
                        assert(translate(a1.frames(), root, va as int / 4096) == translate(a0.frames(), root, va as int / 4096));
                    }
                    return Err(copied);
                },
            };
            let offset = va - va0;
            let remain = src_size - copied;
            let room = (PGSIZE - offset) as usize;
            let bytes = if room < remain { room } else { remain };
            let p: usize = ((pa0 - KERNBASE) / PGSIZE) as usize;
            proof {
                lemma_translate(a1.frames(), root, va as int / 4096);
                assert(translate(a1.frames(), root, va as int / 4096) == Some(p as int));
            }
            let mut contents = get_frame(a, p);
            let mut i: usize = 0;
            while i < bytes
                invariant
                    i <= bytes,
                    copied + bytes <= src_size,
                    src_size == src@.len(),
                    offset + bytes <= 4096,
                    contents@.len() == 4096,
                    forall|k: int| 0 <= k < 4096 ==> #[trigger] contents@[k] == if offset <= k < offset + i {
                        src@[copied + k - offset]
                    } else {
                        a1.frames()[p as int]->bytes@[k]
                    },
                decreases bytes - i,
            {
                let c = src[copied + i];
                contents.set(offset as usize + i, c);
                i = i + 1;
            }
            set_frame(a, p, contents);
            proof {
                let chunk = src@.subrange(copied as int, copied + bytes);
                lemma_write_page(a1.frames(), a.frames(), root, va as int, chunk, p as int);
                assert(src@.take(copied + bytes) =~= src@.take(copied as int) + chunk);
                lemma_written_join(a0.frames(), a1.frames(), a.frames(), root, dst_va as int, src@.take(copied as int), chunk);
                lemma_written_maps(a0.frames(), a1.frames(), root, dst_va as int, src@.take(copied as int));
                assert(translate(a1.frames(), root, va as int / 4096) == translate(a0.frames(), root, va as int / 4096));
                assert forall|i: int| dst_va <= i < dst_va + copied + bytes implies (#[trigger] user_byte(a0.frames(), root, i)) is Some by {
                    if i >= dst_va + copied {
                        lemma_page_bytes(a0.frames(), root, va as int, i - va);
                    }
                }
            }
            copied = copied + bytes;
            va = va0 + PGSIZE;
        }
        proof {
            assert(src@.take(copied as int) =~= src@);
        }
        Ok(())
    }

    /// Copies user memory from `src_va` on to `dst`. Where part of it cannot be accessed, the
    /// bytes before that part are copied and their number is the error.
    pub fn read(&self, a: &KernelAllocator, dst: &mut Vec<u8>, src_va: u64) -> (r: Result<(), usize>)
        requires
            a.wf(),
            self.wf(a),
            own_only(a.frames(), self.root()),
        ensures
            final(dst)@.len() == old(dst)@.len(),
            ({
                let n = match r {
                    Ok(_) => old(dst)@.len() as int,
                    Err(n) => n as int,
                };
                &&& forall|i: int| 0 <= i < n ==> user_byte(a.frames(), self.root(), src_va + i) == Some(#[trigger] final(dst)@[i])
                &&& forall|i: int| n <= i < old(dst)@.len() ==> #[trigger] final(dst)@[i] == old(dst)@[i]
                &&& r is Err ==> n < old(dst)@.len() && user_byte(a.frames(), self.root(), src_va + n) is None
            }),
    {
        let dst_size = dst.len();
        let mut copied: usize = 0;
        let mut va = src_va;
        while copied < dst_size
            invariant
                a.wf(),
                self.wf(a),
                own_only(a.frames(), self.root()),
                dst_size == dst@.len(),
                dst_size == old(dst)@.len(),
                copied <= dst_size,
                copied < dst_size ==> va == src_va + copied,
                forall|i: int| 0 <= i < copied ==> user_byte(a.frames(), self.root(), src_va + i) == Some(#[trigger] dst@[i]),
                forall|i: int| copied <= i < dst_size ==> #[trigger] dst@[i] == old(dst)@[i],
            decreases dst_size - copied,
        {
            let va0 = pg_rounddown(va);
            let pa0 = match self.virtual_to_physical(a, va0) {
                Some(pa0) => pa0,
                None => {
                    return Err(copied);
                },
            };
            let offset = va - va0;
            let remain = dst_size - copied;
            let room = (PGSIZE - offset) as usize;
            let bytes = if room < remain { room } else { remain };
            let p: usize = ((pa0 - KERNBASE) / PGSIZE) as usize;
            proof {
                lemma_translate(a.frames(), self.root(), va as int / 4096);
            }
            let contents = get_frame(a, p);
            let mut i: usize = 0;
            while i < bytes
                invariant
                    i <= bytes,
                    copied + bytes <= dst_size,
                    dst_size == dst@.len(),
                    offset + bytes <= 4096,
                    offset == va as int % 4096,
                    va == src_va + copied,
                    contents@.len() == 4096,
                    contents@ == a.frames()[p as int]->bytes@,
                    translate(a.frames(), self.root(), va as int / 4096) == Some(p as int),
                    dst@.len() == old(dst)@.len(),
                    forall|i: int| 0 <= i < copied ==> user_byte(a.frames(), self.root(), src_va + i) == Some(#[trigger] dst@[i]),
                    forall|k: int| copied <= k < copied + i ==> user_byte(a.frames(), self.root(), src_va + k) == Some(#[trigger] dst@[k]),
                    forall|k: int| copied + i <= k < dst@.len() ==> #[trigger] dst@[k] == old(dst)@[k],
                decreases bytes - i,
            {
                proof {
                    lemma_page_bytes(a.frames(), self.root(), va as int, i as int);
                }
                dst.set(copied + i, contents[offset as usize + i]);
                i = i + 1;
            }
            copied = copied + bytes;
            va = va0 + PGSIZE;
        }
        Ok(())
    }

    /// Copies a string that ends in a zero byte, and that byte, to `dst` and returns its
    /// length. It fails where `dst` is too short or part of the string cannot be accessed.
    pub fn read_cstr(&self, a: &KernelAllocator, dst: &mut Vec<u8>, src_va: u64) -> (r: Result<usize, ()>)
        requires
            a.wf(),
            self.wf(a),
            own_only(a.frames(), self.root()),
        ensures
            final(dst)@.len() == old(dst)@.len(),
            match r {
                Ok(n) => {
                    &&& n < old(dst)@.len()
                    &&& forall|i: int| 0 <= i <= n ==> user_byte(a.frames(), self.root(), src_va + i) == Some(#[trigger] final(dst)@[i])
                    &&& forall|i: int| 0 <= i < n ==> #[trigger] final(dst)@[i] != 0
                    &&& final(dst)@[n as int] == 0
                    &&& forall|i: int| n < i < old(dst)@.len() ==> #[trigger] final(dst)@[i] == old(dst)@[i]
                },
                Err(_) => exists|n: int| {
                    &&& 0 <= n <= old(dst)@.len()
                    &&& n < old(dst)@.len() ==> (#[trigger] user_byte(a.frames(), self.root(), src_va + n)) is None
                    &&& forall|i: int| 0 <= i < n ==> user_byte(a.frames(), self.root(), src_va + i) == Some(#[trigger] final(dst)@[i])
                    &&& forall|i: int| 0 <= i < n ==> #[trigger] final(dst)@[i] != 0
                    &&& forall|i: int| n <= i < old(dst)@.len() ==> #[trigger] final(dst)@[i] == old(dst)@[i]
                },
            },
    {
        let dst_size = dst.len();
        let mut read: usize = 0;
        let mut va = src_va;
        while read < dst_size
            invariant
                a.wf(),
                self.wf(a),
                own_only(a.frames(), self.root()),
                dst_size == dst@.len(),
                dst_size == old(dst)@.len(),
                read <= dst_size,
                read < dst_size ==> va == src_va + read,
                forall|i: int| 0 <= i < read ==> user_byte(a.frames(), self.root(), src_va + i) == Some(#[trigger] dst@[i]),
                forall|i: int| 0 <= i < read ==> #[trigger] dst@[i] != 0,
                forall|i: int| read <= i < dst_size ==> #[trigger] dst@[i] == old(dst)@[i],
            decreases dst_size - read,
        {
            let va0 = pg_rounddown(va);
            let pa0 = match self.virtual_to_physical(a, va0) {
                Some(pa0) => pa0,
                None => {
                    proof {
                        assert(user_byte(a.frames(), self.root(), src_va + read) is None);
                    }
                    return Err(());
                },
            };
            let offset = va - va0;
            let remain = dst_size - read;
            let room = (PGSIZE - offset) as usize;
            let n = if room < remain { room } else { remain };
            let p: usize = ((pa0 - KERNBASE) / PGSIZE) as usize;
            proof {
                lemma_translate(a.frames(), self.root(), va as int / 4096);
            }
            let contents = get_frame(a, p);
            let mut i: usize = 0;
            while i < n
                invariant
                    i <= n,
                    read + n <= dst_size,
                    dst_size == dst@.len(),
                    offset + n <= 4096,
                    offset == va as int % 4096,
                    va == src_va + read,
                    contents@.len() == 4096,
                    contents@ == a.frames()[p as int]->bytes@,
                    translate(a.frames(), self.root(), va as int / 4096) == Some(p as int),
                    dst@.len() == old(dst)@.len(),
                    forall|k: int| 0 <= k < read + i ==> user_byte(a.frames(), self.root(), src_va + k) == Some(#[trigger] dst@[k]),
                    forall|k: int| 0 <= k < read + i ==> #[trigger] dst@[k] != 0,
                    forall|k: int| read + i <= k < dst@.len() ==> #[trigger] dst@[k] == old(dst)@[k],
                decreases n - i,
            {
                proof {
                    lemma_page_bytes(a.frames(), self.root(), va as int, i as int);
                }
                let c = contents[offset as usize + i];
                dst.set(read + i, c);
                if c == 0 {
                    return Ok(read + i);
                }
                i = i + 1;
            }
            read = read + n;
            va = va0 + PGSIZE;
        }
        proof {
            let n = read as int;
            assert(user_byte(a.frames(), self.root(), src_va + n) is None || user_byte(a.frames(), self.root(), src_va + n) is Some);
        }
        Err(())
    }
}

/// What is read back after a write is what was written.
pub proof fn lemma_read_after_write(old: Seq<Frame>, new: Seq<Frame>, root: int, va: int, bytes: Seq<u8>, got: Seq<u8>)
    requires
        written(old, new, root, va, bytes),
        got.len() == bytes.len(),
        forall|i: int| 0 <= i < got.len() ==> user_byte(new, root, va + i) == Some(#[trigger] got[i]),
    ensures
        got == bytes,
{
    assert forall|i: int| 0 <= i < got.len() implies got[i] == bytes[i] by {
        assert(user_byte(new, root, va + i) == Some(bytes[va + i - va]));
    }
    assert(got =~= bytes);
}


/// Page `vp` of `to` is a copy of page `vp` of `from`.
pub open spec fn page_copied(old: Seq<Frame>, new: Seq<Frame>, from: int, to: int, vp: int) -> bool {
    &&& is_owned(new, to, vp)
    &&& lookup(new, to, vp)->0.flags() == lookup(old, from, vp)->0.flags()
    &&& new[frame_of(new, to, vp)]->bytes@ == old[frame_of(old, from, vp)]->bytes@
}

/// One more copied page beside the first `i`.
proof fn lemma_copy_added(s0: Seq<Frame>, s1: Seq<Frame>, s2: Seq<Frame>, from: int, root: int, i: int)
    requires
        is_root(s0, root),
        0 <= i,
        is_page(i),
        kept_outside(s0, s1, root, 0, i),
        kept_outside(s1, s2, root, i, 1),
        frames_taken(s0, s1, root, 0, i),
        frames_taken(s1, s2, root, i, 1),
        forall|vp: int| 0 <= vp < i ==> {
            &&& #[trigger] page_copied(s0, s1, from, root, vp)
            &&& !(s0[frame_of(s1, root, vp)] is Data)
        },
        page_copied(s0, s2, from, root, i),
        s1[frame_of(s2, root, i)] is Free,
    ensures
        kept_outside(s0, s2, root, 0, i + 1),
        frames_taken(s0, s2, root, 0, i + 1),
        forall|vp: int| 0 <= vp < i + 1 ==> {
            &&& #[trigger] page_copied(s0, s2, from, root, vp)
            &&& !(s0[frame_of(s2, root, vp)] is Data)
        },
{
    lemma_kept_outside(s0, s1, s2, root, 0, i, 1);
    assert(is_root(s1, root));
    assert forall|v: int| 0 <= v < 0 + i && #[trigger] is_owned(s1, root, v) implies is_owned(s2, root, v) && lookup(s2, root, v) == lookup(
        s1,
        root,
        v,
    ) by {
        assert(lookup(s2, root, v) == lookup(s1, root, v));
    }
    lemma_frames_taken(s0, s1, s2, root, 0, i, 1);
    assert forall|vp: int| 0 <= vp < i + 1 implies {
        &&& #[trigger] page_copied(s0, s2, from, root, vp)
        &&& !(s0[frame_of(s2, root, vp)] is Data)
    } by {
        if vp < i {
            assert(page_copied(s0, s1, from, root, vp));
            assert(lookup(s2, root, vp) == lookup(s1, root, vp));
            assert(is_owned(s2, root, vp));
        }
    }
}

impl PageTable {
    /// Gives `to` a copy of the first `size` bytes of memory, page by page and with the same
    /// permissions. On failure nothing stays mapped in `to`.
    #[verifier::rlimit(80)]
    #[verifier::spinoff_prover]
    pub fn copy(&self, a: &mut KernelAllocator, to: &PageTable, size: u64) -> (r: Result<(), ()>)
        requires
            old(a).wf(),
            self.wf(old(a)),
            to.wf(old(a)),
            roundup(size as int) <= MAXVA,
            forall|vp: int| 0 <= vp < page_count(size as int) ==> {
                &&& #[trigger] is_owned(old(a).frames(), self.root(), vp)
                &&& lookup(old(a).frames(), self.root(), vp)->0.flags() != PTE::V
            },
            forall|vp: int| 0 <= vp < page_count(size as int) ==> (#[trigger] lookup(old(a).frames(), to.root(), vp)) is None,
        ensures
            final(a).wf(),
            final(a).end() == old(a).end(),
            ({
                let n = page_count(size as int);
                &&& kept_outside(old(a).frames(), final(a).frames(), to.root(), 0, n)
                &&& match r {
                    Ok(_) => {
                        &&& forall|vp: int| 0 <= vp < n ==> #[trigger] page_copied(old(a).frames(), final(a).frames(), self.root(), to.root(), vp)
                        &&& final(a).free().len() + n + tables_due(old(a).frames(), to.root(), 0, n) >= old(a).free().len()
                        &&& frames_taken(old(a).frames(), final(a).frames(), to.root(), 0, n)
                    },
                    Err(_) => {
                        &&& old(a).free().len() < n + tables_due(old(a).frames(), to.root(), 0, n)
                        &&& final(a).free().len() <= n
                        &&& frames_taken(old(a).frames(), final(a).frames(), to.root(), 0, 0)
                        &&& forall|vp: int| 0 <= vp < n ==> (#[trigger] lookup(final(a).frames(), to.root(), vp)) is None
                        &&& final(a).free().len() + tables_due(old(a).frames(), to.root(), 0, n) >= old(a).free().len()
                    },
                }
            }),
    {
        let ghost a0 = *a;
        let ghost from = self.root();
        let ghost root = to.root();
        let ghost n = page_count(size as int);
        let mut va: u64 = 0;
        let ghost mut i: int = 0;
        proof {
            lemma_tables_some(a0.frames(), root, 0, 1);
            lemma_frames_changed(a0.frames(), a0.frames(), root, 0);
            lemma_none_taken(a0.frames(), root, 0);
            assert forall|vp: int| 0 <= vp < n implies #[trigger] is_owned(a0.frames(), from, vp) && lookup(a0.frames(), from, vp)->0.flags()
                != PTE::V by {
                assert(is_owned(old(a).frames(), self.root(), vp));
            }
        }
        while va < size
            invariant
                a0 == *old(a),
                from == self.root(),
                root == to.root(),
                a0.wf(),
                self.wf(&a0),
                to.wf(&a0),
                a.wf(),
                self.wf(a),
                to.wf(a),
                a.end() == a0.end(),
                n == page_count(size as int),
                roundup(size as int) <= MAXVA,
                0 <= i <= n,
                va == i * 4096,
                forall|vp: int| 0 <= vp < n ==> {
                    &&& #[trigger] is_owned(a0.frames(), from, vp)
                    &&& lookup(a0.frames(), from, vp)->0.flags() != PTE::V
                },
                forall|vp: int| 0 <= vp < n ==> (#[trigger] lookup(a0.frames(), root, vp)) is None,
                kept_outside(a0.frames(), a.frames(), root, 0, i),
                forall|vp: int| 0 <= vp < i ==> {
                    &&& #[trigger] page_copied(a0.frames(), a.frames(), from, root, vp)
                    &&& !(a0.frames()[frame_of(a.frames(), root, vp)] is Data)
                },
                a.free().len() + i + tables_due(a0.frames(), root, 0, i) >= a0.free().len(),
                i == 0 ==> a.frames() == a0.frames(),
                frames_taken(a0.frames(), a.frames(), root, 0, i),
            decreases MAXVA - va,
        {
            let ghost a1 = *a;
            proof {
                assert(i < n);
                assert(va as int / 4096 == i);
                assert(is_owned(a0.frames(), from, i));
                assert(lookup(a0.frames(), root, i) is None);
                assert(lookup(a1.frames(), root, i) is None);
                if i > 0 {
                    assert(page_copied(a0.frames(), a1.frames(), from, root, i - 1));
                }
                lemma_due_step(a0.frames(), a1.frames(), root, 0, i, n);
                assert(from != root);
                assert(lookup(a1.frames(), from, i) == lookup(a0.frames(), from, i));
                assert(is_owned(a1.frames(), from, i));
            }
            let pte = match self.find_entry(a, va) {
                Some(pte) => pte,
                None => PTE::invalid(),
            };
            let pa = pte.get_physical_addr();
            let flags = pte.get_flags();
            let p: usize = ((pa - KERNBASE) / PGSIZE) as usize;
            let contents = get_frame(a, p);
            proof {
                lemma_entry_flags(pte.0);
            }
            match to.map_fresh(a, va, contents, flags) {
                Ok(_) => {
                    proof {
                        lemma_copy_added(a0.frames(), a1.frames(), a.frames(), from, root, i);
                        i = i + 1;
                    }
                },
                Err(_) => {
                    let ghost a2 = *a;
                    proof {
                        assert forall|vp: int| 0 <= vp < i implies {
                            &&& (#[trigger] lookup(a2.frames(), root, vp)) is Some
                            &&& lookup(a2.frames(), root, vp)->0.flags() != PTE::V
                            &&& is_owned(a2.frames(), root, vp)
                        } by {
                            assert(page_copied(a0.frames(), a1.frames(), from, root, vp));
                            assert(is_owned(a0.frames(), from, vp));
                            assert(lookup(a2.frames(), root, vp) == lookup(a1.frames(), root, vp));
                        }
                        assert forall|vp: int| 0 <= vp < i implies #[trigger] is_owned(a2.frames(), root, vp) by {
                            assert(lookup(a2.frames(), root, vp) is Some);
                        }
                        assert forall|vp: int| 0 <= vp < i implies #[trigger] is_owned(a1.frames(), root, vp) && !(
                        a0.frames()[frame_of(a1.frames(), root, vp)] is Data) by {
                            assert(page_copied(a0.frames(), a1.frames(), from, root, vp));
                        }
                    }
                    to.unmap(a, 0, va / PGSIZE, true);
                    proof {
                        lemma_pages_undone(a0, a1, a2, *a, root, 0, i, n);
                    }
                    return Err(());
                },
            }
            va = va + PGSIZE;
        }
        proof {
            assert(i == n);
        }
        Ok(())
    }

    /// Allows or forbids user code to access the page at `va`, which must be mapped to memory
    /// of its own.
    #[verifier::rlimit(40)]
    pub fn set_user_page(&self, a: &mut KernelAllocator, va: u64, b: bool)
        requires
            old(a).wf(),
            self.wf(old(a)),
            va < MAXVA,
            is_owned(old(a).frames(), self.root(), va as int / 4096),
        ensures
            final(a).wf(),
            final(a).end() == old(a).end(),
            final(a).free() == old(a).free(),
            tables_stay(old(a).frames(), final(a).frames()),
            kept_outside(old(a).frames(), final(a).frames(), self.root(), va as int / 4096, 1),
            forall|q: int| is_frame(q) && !(#[trigger] old(a).frames()[q] is Table) ==> final(a).frames()[q] == old(a).frames()[q],
            lookup(final(a).frames(), self.root(), va as int / 4096) is Some,
            ({
                let e0 = lookup(old(a).frames(), self.root(), va as int / 4096)->0;
                let e1 = lookup(final(a).frames(), self.root(), va as int / 4096)->0;
                &&& e1.user() == b
                &&& e1.pa() == e0.pa()
                &&& e1.0 & !PTE::U == e0.0 & !PTE::U
            }),
    {
        let ghost a0 = *a;
        let ghost vp = va as int / 4096;
        let place = match self.search_entry(a, va, false) {
            Ok(place) => place,
            Err(_) => {
                return ;
            },
        };
        let mut pte = get_entry(a, place.table, place.index);
        let ghost e0 = pte;
        pte.set_user_access(b);
        set_entry(a, place.table, place.index, pte);
        proof {
            lemma_user_bit(e0.0, pte.0);
            lemma_set_leaf(a0.frames(), a.frames(), self.root(), vp, pte);
            lemma_list_kept(a0.frames(), a.frames(), a.head, a.unused@);
            assert(lookup(a.frames(), self.root(), vp) == Some(pte));
            assert(owned_kept(a0.frames(), a.frames()));
            reveal(kernel_kept);
        }
    }
}

proof fn lemma_entry_flags(x: u64)
    by (bit_vector)
    ensures
        (x & 0x3ff) & 0x3ff == x & 0x3ff,
        x & 1 != 0 ==> (x & 0x3ff) | 1 == x & 0x3ff,
{
}

/// Entries that differ in the user bit only agree on all else.
proof fn lemma_user_bit(x: u64, y: u64)
    by (bit_vector)
    requires
        x & !16 == y & !16,
    ensures
        x & 1 == y & 1,
        x >> 10 << 12 == y >> 10 << 12,
{
}


/// No page is mapped below table `t`.
pub open spec fn tree_empty(ram: Seq<Frame>, t: int, level: nat) -> bool
    decreases level,
{
    forall|i: int|
        0 <= i < 512 && (#[trigger] child(ram, t, i)) is Some ==> level > 0 && tree_empty(
            ram,
            child(ram, t, i)->0,
            (level - 1) as nat,
        )
}

/// Frame `p` is table `t` or one below it.
pub open spec fn in_tree(ram: Seq<Frame>, t: int, level: nat, p: int) -> bool
    decreases level,
{
    p == t || (level > 0 && exists|i: int|
        0 <= i < 512 && (#[trigger] child(ram, t, i)) is Some && in_tree(
            ram,
            child(ram, t, i)->0,
            (level - 1) as nat,
            p,
        ))
}

/// No table refers to table `t`.
spec fn unreferenced(ram: Seq<Frame>, t: int) -> bool {
    forall|t2: int, i2: int|
        is_frame(t2) && ram[t2] is Table && ram[t2]->level@ > 0 && 0 <= i2 < 512 ==> #[trigger] child(ram, t2, i2) != Some(t)
}

proof fn lemma_tree(ram: Seq<Frame>, t: int, level: nat, p: int)
    requires
        frames_wf(ram),
        is_frame(t),
        ram[t] is Table,
        ram[t]->level@ == level,
        in_tree(ram, t, level, p),
    ensures
        is_frame(p),
        ram[p] is Table,
        ram[p]->level@ <= level,
        ram[p]->level@ == level ==> p == t,
    decreases level,
{
    if p != t {
        let i = choose|i: int|
            0 <= i < 512 && (#[trigger] child(ram, t, i)) is Some && in_tree(ram, child(ram, t, i)->0, (level - 1) as nat, p);
        assert(entry_wf(ram, t, i));
        lemma_tree(ram, child(ram, t, i)->0, (level - 1) as nat, p);
    }
}

/// Trees of one height have no frame in common.
proof fn lemma_two_trees(ram: Seq<Frame>, t1: int, t2: int, level: nat, p: int)
    requires
        frames_wf(ram),
        is_frame(t1),
        is_frame(t2),
        ram[t1] is Table,
        ram[t2] is Table,
        ram[t1]->level@ == level,
        ram[t2]->level@ == level,
        in_tree(ram, t1, level, p),
        in_tree(ram, t2, level, p),
    ensures
        t1 == t2,
    decreases level,
{
    lemma_tree(ram, t1, level, p);
    lemma_tree(ram, t2, level, p);
    if p != t1 && p != t2 {
        let i1 = choose|i: int|
            0 <= i < 512 && (#[trigger] child(ram, t1, i)) is Some && in_tree(ram, child(ram, t1, i)->0, (level - 1) as nat, p);
        let i2 = choose|i: int|
            0 <= i < 512 && (#[trigger] child(ram, t2, i)) is Some && in_tree(ram, child(ram, t2, i)->0, (level - 1) as nat, p);
        assert(entry_wf(ram, t1, i1));
        assert(entry_wf(ram, t2, i2));
        lemma_two_trees(ram, child(ram, t1, i1)->0, child(ram, t2, i2)->0, (level - 1) as nat, p);
    }
}

/// A tree depends on its own frames only.
proof fn lemma_tree_kept(s0: Seq<Frame>, s1: Seq<Frame>, t: int, level: nat)
    requires
        forall|p: int| #[trigger] in_tree(s0, t, level, p) ==> s1[p] == s0[p],
    ensures
        tree_empty(s0, t, level) ==> tree_empty(s1, t, level),
        forall|p: int| #[trigger] in_tree(s1, t, level, p) <==> in_tree(s0, t, level, p),
    decreases level,
{
    assert(in_tree(s0, t, level, t));
    assert(forall|i: int| #[trigger] child(s1, t, i) == child(s0, t, i));
    if level > 0 {
        assert forall|i: int| 0 <= i < 512 && (#[trigger] child(s1, t, i)) is Some implies ({
            let c = child(s0, t, i)->0;
            let l = (level - 1) as nat;
            &&& tree_empty(s0, c, l) ==> tree_empty(s1, c, l)
            &&& forall|p: int| #[trigger] in_tree(s1, c, l, p) <==> in_tree(s0, c, l, p)
        }) by {
            let c = child(s0, t, i)->0;
            assert forall|p: int| #[trigger] in_tree(s0, c, (level - 1) as nat, p) implies s1[p] == s0[p] by {
                assert(child(s0, t, i) is Some);
                assert(in_tree(s0, t, level, p));
            }
            lemma_tree_kept(s0, s1, c, (level - 1) as nat);
        }
        assert forall|p: int| #[trigger] in_tree(s1, t, level, p) <==> in_tree(s0, t, level, p) by {
            if p != t {
                if in_tree(s1, t, level, p) {
                    let i = choose|i: int|
                        0 <= i < 512 && (#[trigger] child(s1, t, i)) is Some && in_tree(s1, child(s1, t, i)->0, (level - 1) as nat, p);
                    assert(child(s0, t, i) is Some);
                    assert(in_tree(s0, child(s0, t, i)->0, (level - 1) as nat, p));
                }
                if in_tree(s0, t, level, p) {
                    let i = choose|i: int|
                        0 <= i < 512 && (#[trigger] child(s0, t, i)) is Some && in_tree(s0, child(s0, t, i)->0, (level - 1) as nat, p);
                    assert(child(s1, t, i) is Some);
                    assert(in_tree(s1, child(s1, t, i)->0, (level - 1) as nat, p));
                }
            }
        }
    }
    if tree_empty(s0, t, level) {
        assert forall|i: int| 0 <= i < 512 && (#[trigger] child(s1, t, i)) is Some implies level > 0 && tree_empty(
            s1,
            child(s1, t, i)->0,
            (level - 1) as nat,
        ) by {
            assert(child(s0, t, i) is Some);
        }
    }
}

/// Frame `p` lies below one of the first `n` entries of table `t`.
spec fn below(ram: Seq<Frame>, t: int, level: nat, n: int, p: int) -> bool {
    level > 0 && exists|i: int|
        0 <= i < n && (#[trigger] child(ram, t, i)) is Some && in_tree(ram, child(ram, t, i)->0, (level - 1) as nat, p)
}

/// Frees table `t` and all tables below it.
#[verifier::rlimit(80)]
fn free_tree(a: &mut KernelAllocator, t: usize, level: u64)
    requires
        old(a).wf(),
        is_frame(t as int),
        old(a).frames()[t as int] is Table,
        old(a).frames()[t as int]->level@ == level,
        unreferenced(old(a).frames(), t as int),
        tree_empty(old(a).frames(), t as int, level as nat),
    ensures
        final(a).wf(),
        final(a).end() == old(a).end(),
        forall|p: int| is_frame(p) && in_tree(old(a).frames(), t as int, level as nat, p) ==> #[trigger] final(a).frames()[p] is Free,
        forall|p: int| is_frame(p) && !in_tree(old(a).frames(), t as int, level as nat, p) ==>
            #[trigger] final(a).frames()[p] == old(a).frames()[p],
        final(a).free().len() > old(a).free().len(),
    decreases level,
{
    let ghost a0 = *a;
    let ghost s0 = a0.frames();
    let ghost tt = t as int;
    let ghost lv = level as nat;
    let mut i: usize = 0;
    while i < 512
        invariant
            a0 == *old(a),
            a0.wf(),
            s0 == a0.frames(),
            tt == t,
            lv == level,
            is_frame(tt),
            s0[tt] is Table,
            s0[tt]->level@ == level,
            0 <= level <= 2,
            tree_empty(s0, tt, lv),
            a.wf(),
            a.end() == a0.end(),
            a.free().len() >= a0.free().len(),
            i <= 512,
            a.frames()[tt] is Table,
            a.frames()[tt]->level@ == level,
            a.frames()[tt]->parent@ == s0[tt]->parent@,
            unreferenced(s0, tt),
            unreferenced(a.frames(), tt),
            forall|j: int| 0 <= j < i ==> (#[trigger] child(a.frames(), tt, j)) is None,
            forall|j: int| i <= j < 512 ==> #[trigger] entry_at(a.frames(), tt, j) == entry_at(s0, tt, j),
            forall|p: int| is_frame(p) && below(s0, tt, lv, i as int, p) ==> #[trigger] a.frames()[p] is Free,
            forall|p: int| is_frame(p) && p != tt && !below(s0, tt, lv, i as int, p) ==> #[trigger] a.frames()[p] == s0[p],
        decreases 512 - i,
    {
        let ghost s1 = a.frames();
        let pte = get_entry(a, t, i);
        proof {
            assert(entry_at(s1, tt, i as int) == entry_at(s0, tt, i as int));
            assert(entry_wf(s0, tt, i as int));
            assert(child(s0, tt, i as int) == child(s1, tt, i as int));
        }
        if pte.is_valid() {
            let ghost l1 = (level - 1) as nat;
            let c: usize = ((pte.get_physical_addr() - KERNBASE) / PGSIZE) as usize;
            let ghost cc = c as int;
            proof {
                assert(child(s0, tt, i as int) == Some(cc));
                assert(level > 0);
                lemma_zero_entry();
                assert forall|p: int| #[trigger] in_tree(s0, cc, l1, p) implies s1[p] == s0[p] && p != tt && is_frame(p) by {
                    lemma_tree(s0, cc, l1, p);
                    if below(s0, tt, lv, i as int, p) {
                        let j = choose|j: int|
                            0 <= j < i && (#[trigger] child(s0, tt, j)) is Some && in_tree(s0, child(s0, tt, j)->0, (lv - 1) as nat, p);
                        assert(entry_wf(s0, tt, j));
                        lemma_two_trees(s0, child(s0, tt, j)->0, cc, l1, p);
                    }
                }
                assert(in_tree(s0, cc, l1, cc));
                lemma_tree_kept(s0, s1, cc, l1);
            }
            set_entry(a, t, i, PTE::invalid());
            let ghost s2 = a.frames();
            proof {
                assert(forall|t2: int, i2: int| is_frame(t2) && s1[t2] is Table && 0 <= i2 < 512 && !(t2 == tt && i2 == i) ==>
                    #[trigger] entry_at(s2, t2, i2) == entry_at(s1, t2, i2));
                assert(entry_at(s2, tt, i as int) == PTE(0));
                assert forall|t2: int, i2: int| is_frame(t2) && s2[t2] is Table && 0 <= i2 < 512 implies
                    #[trigger] entry_wf(s2, t2, i2) by {
                    assert(entry_wf(s1, t2, i2));
                }
                lemma_list_kept(s1, s2, a.head, a.unused@);
                assert forall|t2: int, i2: int| is_frame(t2) && s2[t2] is Table && s2[t2]->level@ > 0 && 0 <= i2 < 512 implies
                    #[trigger] child(s2, t2, i2) != Some(cc) && child(s2, t2, i2) != Some(tt) by {
                    assert(entry_wf(s1, t2, i2));
                    assert(entry_wf(s1, tt, i as int));
                    assert(child(s1, t2, i2) != Some(tt));
                    if t2 == tt && i2 == i {
                    } else {
                        assert(entry_at(s2, t2, i2) == entry_at(s1, t2, i2));
                    }
                }
                assert forall|p: int| #[trigger] in_tree(s1, cc, l1, p) implies s2[p] == s1[p] by {
                    assert(in_tree(s0, cc, l1, p));
                }
                lemma_tree_kept(s1, s2, cc, l1);
            }
            free_tree(a, c, level - 1);
            proof {
                let s3 = a.frames();
                assert(!in_tree(s2, cc, l1, tt)) by {
                    if in_tree(s2, cc, l1, tt) {
                        assert(in_tree(s1, cc, l1, tt));
                        assert(in_tree(s0, cc, l1, tt));
                    }
                }
                assert(s3[tt] == s2[tt]);
                assert forall|t2: int, i2: int| is_frame(t2) && s3[t2] is Table && s3[t2]->level@ > 0 && 0 <= i2 < 512 implies
                    #[trigger] child(s3, t2, i2) != Some(tt) by {
                    assert(s3[t2] == s2[t2]);
                    assert(child(s2, t2, i2) != Some(tt));
                }
                assert forall|j: int| 0 <= j < i + 1 implies (#[trigger] child(s3, tt, j)) is None by {
                    if j < i {
                        assert(child(s1, tt, j) is None);
                        assert(entry_at(s2, tt, j) == entry_at(s1, tt, j));
                    }
                }
                assert forall|j: int| i + 1 <= j < 512 implies #[trigger] entry_at(s3, tt, j) == entry_at(s0, tt, j) by {
                    assert(entry_at(s2, tt, j) == entry_at(s1, tt, j));
                    assert(entry_at(s1, tt, j) == entry_at(s0, tt, j));
                }
                assert forall|p: int| is_frame(p) && below(s0, tt, lv, i + 1, p) implies #[trigger] s3[p] is Free by {
                    if below(s0, tt, lv, i as int, p) {
                        assert(s1[p] is Free);
                        assert(s2[p] == s1[p]);
                        if !in_tree(s2, cc, l1, p) {
                            assert(s3[p] == s2[p]);
                        }
                    } else {
                        assert(in_tree(s0, cc, l1, p));
                        assert(in_tree(s1, cc, l1, p));
                        assert(in_tree(s2, cc, l1, p));
                    }
                }
                assert forall|p: int| is_frame(p) && p != tt && !below(s0, tt, lv, i + 1, p) implies #[trigger] s3[p] == s0[p] by {
                    if below(s0, tt, lv, i as int, p) {
                        let j = choose|j: int|
                            0 <= j < i && (#[trigger] child(s0, tt, j)) is Some && in_tree(s0, child(s0, tt, j)->0, (lv - 1) as nat, p);
                        assert(below(s0, tt, lv, i + 1, p));
                    }
                    assert(s1[p] == s0[p]);
                    if in_tree(s2, cc, l1, p) {
                        assert(in_tree(s1, cc, l1, p));
                        assert(in_tree(s0, cc, l1, p));
                        assert(child(s0, tt, i as int) is Some);
                    }
                }
            }
        } else {
            proof {
                assert(child(s0, tt, i as int) is None);
                assert forall|p: int| #[trigger] below(s0, tt, lv, i + 1, p) implies below(s0, tt, lv, i as int, p) by {
                    let j = choose|j: int|
                        0 <= j < i + 1 && (#[trigger] child(s0, tt, j)) is Some && in_tree(s0, child(s0, tt, j)->0, (lv - 1) as nat, p);
                    assert(j < i);
                }
                assert forall|p: int| #[trigger] below(s0, tt, lv, i as int, p) implies below(s0, tt, lv, i + 1, p) by {
                    let j = choose|j: int|
                        0 <= j < i && (#[trigger] child(s0, tt, j)) is Some && in_tree(s0, child(s0, tt, j)->0, (lv - 1) as nat, p);
                    assert(j < i + 1);
                }
                assert forall|p: int| is_frame(p) && below(s0, tt, lv, i + 1, p) implies #[trigger] a.frames()[p] is Free by {
                    assert(below(s0, tt, lv, i as int, p));
                }
            }
        }
        i = i + 1;
    }
    let ghost s4 = a.frames();
    let bytes = crate::allocator::zeroed_page();
    a.ram.set(t, Frame::Data { bytes, owner: Ghost(None) });
    proof {
        let s5 = a.frames();
        assert forall|t2: int, i2: int| is_frame(t2) && s5[t2] is Table && 0 <= i2 < 512 implies
            #[trigger] entry_wf(s5, t2, i2) by {
            assert(entry_wf(s4, t2, i2));
            if s4[t2]->level@ > 0 {
                assert(child(s4, t2, i2) != Some(tt));
            }
        }
        lemma_list_kept(s4, s5, a.head, a.unused@);
        assert(frame_addr(tt) >= a.end());
    }
    a.deallocate_page(KERNBASE + t as u64 * PGSIZE);
    proof {
        assert forall|p: int| is_frame(p) && in_tree(s0, tt, lv, p) implies #[trigger] a.frames()[p] is Free by {
            if p != tt {
                assert(below(s0, tt, lv, 512, p));
                assert(s4[p] is Free);
            }
        }
        assert forall|p: int| is_frame(p) && !in_tree(s0, tt, lv, p) implies #[trigger] a.frames()[p] == s0[p] by {
            assert(!below(s0, tt, lv, 512, p));
            assert(s4[p] == s0[p]);
        }
    }
}

/// Frames that make up the page table with root `root`.
pub open spec fn is_table_of(ram: Seq<Frame>, root: int, p: int) -> bool {
    in_tree(ram, root, 2, p)
}

impl PageTable {
    /// Frees all pages of the table. No mapping may be left.
    #[verifier::rlimit(40)]
    #[verifier::spinoff_prover]
    pub fn drop(self, a: &mut KernelAllocator)
        requires
            old(a).wf(),
            self.wf(old(a)),
            forall|vp: int| is_page(vp) ==> (#[trigger] lookup(old(a).frames(), self.root(), vp)) is None,
        ensures
            final(a).wf(),
            final(a).end() == old(a).end(),
            forall|p: int| is_frame(p) && is_table_of(old(a).frames(), self.root(), p) ==> #[trigger] final(a).frames()[p] is Free,
            forall|p: int| is_frame(p) && !is_table_of(old(a).frames(), self.root(), p) ==>
                #[trigger] final(a).frames()[p] == old(a).frames()[p],
            forall|r: int| #[trigger] is_root(old(a).frames(), r) && r != self.root() ==> is_root(final(a).frames(), r),
            forall|r: int, vp: int| is_root(old(a).frames(), r) && r != self.root() && is_page(vp) ==>
                #[trigger] lookup(final(a).frames(), r, vp) == lookup(old(a).frames(), r, vp) && leaf_of(final(a).frames(), r, vp)
                    == leaf_of(old(a).frames(), r, vp),
            final(a).free().len() > old(a).free().len(),
    {
        let ghost a0 = *a;
        proof {
            let s = a.frames();
            let r = self.root();
            assert forall|t2: int, i2: int| is_frame(t2) && s[t2] is Table && s[t2]->level@ > 0 && 0 <= i2 < 512 implies
                #[trigger] child(s, t2, i2) != Some(r) by {
                assert(entry_wf(s, t2, i2));
            }
            assert forall|i: int| 0 <= i < 512 && (#[trigger] child(s, r, i)) is Some implies tree_empty(s, child(s, r, i)->0, 1) by {
                let m = child(s, r, i)->0;
                assert(entry_wf(s, r, i));
                assert forall|j: int| 0 <= j < 512 && (#[trigger] child(s, m, j)) is Some implies tree_empty(s, child(s, m, j)->0, 0) by {
                    let l = child(s, m, j)->0;
                    assert(entry_wf(s, m, j));
                    assert forall|k: int| 0 <= k < 512 implies (#[trigger] child(s, l, k)) is None by {
                        let vp = i * 262144 + j * 512 + k;
                        assert(index_of(2, vp) == i && index_of(1, vp) == j && index_of(0, vp) == k && is_page(vp));
                        assert(lookup(s, r, vp) is None);
                    }
                }
            }
            assert(tree_empty(s, r, 2));
        }
        free_tree(a, self.table, 2);
        proof {
            assert forall|r: int, vp: int| is_root(a0.frames(), r) && r != self.root() && is_page(vp) implies
                #[trigger] lookup(a.frames(), r, vp) == lookup(a0.frames(), r, vp) && is_root(a.frames(), r) && leaf_of(a.frames(), r, vp)
                    == leaf_of(a0.frames(), r, vp) by {
                lemma_other_tree(a0.frames(), a.frames(), self.root(), r, vp);
            }
            assert forall|r: int| #[trigger] is_root(a0.frames(), r) && r != self.root() implies is_root(a.frames(), r) by {
                lemma_other_tree(a0.frames(), a.frames(), self.root(), r, 0);
            }
        }
    }
}


/// Freeing one page table leaves every other one alone.
proof fn lemma_other_tree(s0: Seq<Frame>, s1: Seq<Frame>, root: int, r: int, vp: int)
    requires
        frames_wf(s0),
        is_root(s0, root),
        is_root(s0, r),
        r != root,
        is_page(vp),
        forall|p: int| is_frame(p) && !is_table_of(s0, root, p) ==> #[trigger] s1[p] == s0[p],
    ensures
        is_root(s1, r),
        lookup(s1, r, vp) == lookup(s0, r, vp),
        leaf_of(s1, r, vp) == leaf_of(s0, r, vp),
{
    reveal_with_fuel(in_tree, 3);
    if in_tree(s0, root, 2, r) {
        assert(in_tree(s0, r, 2, r));
        lemma_two_trees(s0, root, r, 2, r);
    }
    assert(s1[r] == s0[r]);
    if child(s0, r, index_of(2, vp)) is Some {
        let m = child(s0, r, index_of(2, vp))->0;
        assert(entry_wf(s0, r, index_of(2, vp)));
        assert(in_tree(s0, m, 1, m));
        assert(in_tree(s0, r, 2, m));
        if in_tree(s0, root, 2, m) {
            lemma_two_trees(s0, root, r, 2, m);
        }
        assert(s1[m] == s0[m]);
        if child(s0, m, index_of(1, vp)) is Some {
            let l = child(s0, m, index_of(1, vp))->0;
            assert(entry_wf(s0, m, index_of(1, vp)));
            assert(in_tree(s0, l, 0, l));
            assert(in_tree(s0, m, 1, l));
            assert(in_tree(s0, r, 2, l));
            if in_tree(s0, root, 2, l) {
                lemma_two_trees(s0, root, r, 2, l);
            }
            assert(s1[l] == s0[l]);
        }
    }
}


/// No frame belongs to two pages.
pub proof fn lemma_owned_injective(ram: Seq<Frame>, r1: int, v1: int, r2: int, v2: int)
    requires
        frames_wf(ram),
        is_root(ram, r1),
        is_root(ram, r2),
        is_page(v1),
        is_page(v2),
        is_owned(ram, r1, v1),
        is_owned(ram, r2, v2),
        frame_of(ram, r1, v1) == frame_of(ram, r2, v2),
    ensures
        r1 == r2,
        v1 == v2,
{
    lemma_leaf_injective(ram, r1, v1, r2, v2);
}

/// The tree below a table is made of tables.
pub proof fn lemma_tree_tables(ram: Seq<Frame>, t: int, level: nat, p: int)
    requires
        frames_wf(ram),
        is_frame(t),
        ram[t] is Table,
        ram[t]->level@ == level,
        in_tree(ram, t, level, p),
    ensures
        is_frame(p),
        ram[p] is Table,
    decreases level,
{
    if p != t {
        let i = choose|i: int| 0 <= i < 512 && (#[trigger] child(ram, t, i)) is Some && in_tree(ram, child(ram, t, i)->0, (level - 1) as nat, p);
        assert(entry_wf(ram, t, i));
        lemma_tree_tables(ram, child(ram, t, i)->0, (level - 1) as nat, p);
    }
}


/// The three page indices and the offset make up a virtual address of 39 bits.
pub proof fn lemma_address_parts(va: int)
    requires
        0 <= va < 0x80_0000_0000,
    ensures
        va == index_of(2, va / 4096) * 0x4000_0000 + index_of(1, va / 4096) * 0x20_0000 + index_of(0, va / 4096) * 4096 + va % 4096,
        0 <= index_of(2, va / 4096) < 512,
        0 <= index_of(1, va / 4096) < 512,
        0 <= index_of(0, va / 4096) < 512,
{
    let vp = va / 4096;
    assert(vp / 262144 == vp / 512 / 512);
}


} // verus!
