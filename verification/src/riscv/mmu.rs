//! How the hart finds memory through a page table, and that the kernel's view of it is the same.
use vstd::prelude::*;
use crate::allocator::{entry_at, entry_wf, frame_addr, frames_wf, is_frame, Frame};
use crate::riscv::paging::{child, index_of, is_page, is_root, lemma_leaf_entry, lookup, user_byte, PTE};
use crate::vm::{kernel_mapped, range_mapped};

verus! {

/// The word of RAM at physical address `pa`, in a page that holds a page table.
pub open spec fn word_at(ram: Seq<Frame>, pa: int) -> u64 {
    entry_at(ram, (pa - 0x8000_0000) / 4096, (pa - 0x8000_0000) % 4096 / 8).0
}

/// The page table entry for `va` in the table at physical address `table`, which is one of `level`:
/// nine bits of the address choose it.
pub open spec fn entry_for(ram: Seq<Frame>, table: int, level: int, va: int) -> u64 {
    let i = if level == 2 {
        va / 0x4000_0000
    } else if level == 1 {
        va / 0x20_0000
    } else {
        va / 0x1000
    };
    word_at(ram, table + 8 * (i % 512))
}

/// The physical page that an entry refers to.
pub open spec fn page_in(entry: u64) -> int {
    entry as int / 0x400 * 0x1000
}

/// The physical address at which the hart finds `va` when user code accesses it, through the page table
/// whose root the register `satp` names: three entries lead there, each of them valid (bit 0), the first
/// two without permissions (bits 1 to 3), and the last one for user code (bit 4).
pub open spec fn hart_finds(ram: Seq<Frame>, satp: int, va: int) -> Option<int> {
    let e2 = entry_for(ram, satp % 0x1000_0000_0000 * 0x1000, 2, va);
    let e1 = entry_for(ram, page_in(e2), 1, va);
    let e0 = entry_for(ram, page_in(e1), 0, va);
    if e2 & 1 == 0 || e2 & 0xe != 0 || e1 & 1 == 0 || e1 & 0xe != 0 || e0 & 1 == 0 || e0 & 16 == 0 {
        None
    } else {
        Some(page_in(e0) + va % 0x1000)
    }
}

/// The address in an entry as a number.
proof fn lemma_page_in(e: PTE)
    requires
        e.0 < 0x40_0000_0000_0000,
    ensures
        e.pa() == page_in(e.0),
{
    let x = e.0;
    assert(x >> 10 << 12 == x / 0x400 * 0x1000) by (bit_vector)
        requires
            x < 0x40_0000_0000_0000,
    ;
}

/// An entry that leads to a table has its address and no permissions.
proof fn lemma_inner_entry(e: u64)
    by (bit_vector)
    requires
        e & 0x3ff == 1,
    ensures
        e & 1 != 0,
        e & 0xe == 0,
{
}

/// A table at physical address `table` and its entries.
proof fn lemma_entry_for(ram: Seq<Frame>, t: int, level: int, va: int)
    requires
        is_frame(t),
        0 <= level <= 2,
        0 <= va,
    ensures
        entry_for(ram, frame_addr(t), level, va) == entry_at(ram, t, index_of(level, va / 4096)).0,
        0 <= index_of(level, va / 4096) < 512,
{
    let i = index_of(level, va / 4096);
    assert((t * 4096 + 8 * i) / 4096 == t);
    assert((t * 4096 + 8 * i) % 4096 / 8 == i);
}

/// One step from table `t` to the next one.
proof fn lemma_step(ram: Seq<Frame>, t: int, level: int, va: int)
    requires
        frames_wf(ram),
        is_frame(t),
        ram[t] is Table,
        ram[t]->level@ == level,
        1 <= level <= 2,
        0 <= va,
        entry_at(ram, t, index_of(level, va / 4096)).0 < 0x40_0000_0000_0000,
    ensures
        ({
            let e = entry_for(ram, frame_addr(t), level, va);
            let c = child(ram, t, index_of(level, va / 4096));
            &&& c is None <==> e & 1 == 0
            &&& c matches Some(n) ==> {
                &&& e & 0xe == 0
                &&& is_frame(n)
                &&& ram[n] is Table
                &&& ram[n]->level@ == level - 1
                &&& page_in(e) == frame_addr(n)
            }
        }),
{
    let i = index_of(level, va / 4096);
    lemma_entry_for(ram, t, level, va);
    assert(entry_wf(ram, t, i));
    let e = entry_at(ram, t, i);
    lemma_page_in(e);
    if e.valid() {
        lemma_inner_entry(e.0);
    }
}

/// The hart finds for user code what the kernel takes for its memory, and nothing else. In a page table
/// whose entries hold addresses of 56 bits, as those of the hart are, an address leads to the same
/// byte for both.
pub proof fn lemma_hart_agrees(ram: Seq<Frame>, root: int, satp: int, va: int)
    requires
        frames_wf(ram),
        is_root(ram, root),
        satp == 0x8000_0000_0000_0000 + frame_addr(root) / 4096,
        0 <= va < 0x40_0000_0000,
        forall|t: int, i: int| is_frame(t) && ram[t] is Table && 0 <= i < 512 ==> (#[trigger] entry_at(ram, t, i)).0 < 0x40_0000_0000_0000,
    ensures
        ({
            let pa = hart_finds(ram, satp, va);
            &&& pa is Some <==> user_byte(ram, root, va) is Some
            &&& pa is Some ==> user_byte(ram, root, va) == Some(ram[(pa->0 - 0x8000_0000) / 4096]->bytes@[pa->0 % 4096])
        }),
{
    let vp = va / 4096;
    assert(is_page(vp));
    assert(satp % 0x1000_0000_0000 * 0x1000 == frame_addr(root)) by {
        assert(0x8000_0000_0000_0000int % 0x1000_0000_0000 == 0);
        assert(frame_addr(root) / 4096 == 0x8_0000 + root);
    }
    lemma_entry_for(ram, root, 2, va);
    lemma_step(ram, root, 2, va);
    match child(ram, root, index_of(2, vp)) {
        None => {},
        Some(mid) => {
            lemma_entry_for(ram, mid, 1, va);
            lemma_step(ram, mid, 1, va);
            match child(ram, mid, index_of(1, vp)) {
                None => {},
                Some(l) => {
                    lemma_entry_for(ram, l, 0, va);
                    let e = entry_at(ram, l, index_of(0, vp));
                    lemma_page_in(e);
                    let pa = page_in(e.0);
                    assert(pa % 4096 == 0);
                    assert((pa + va % 4096 - 0x8000_0000) / 4096 == (pa - 0x8000_0000) / 4096);
                    assert((pa + va % 4096) % 4096 == va % 4096);
                },
            }
        },
    }
}

pub(crate) proof fn lemma_kernel_bits()
    ensures
        (2u64 | 4) & 0x3ff == 2 | 4,
        (2u64 | 8) & 0x3ff == 2 | 8,
        (2u64 | 4) & 2 != 0 && (2u64 | 4) & 4 != 0 && (2u64 | 4) & 8 == 0 && (2u64 | 4) & 16 == 0,
        (2u64 | 8) & 2 != 0 && (2u64 | 8) & 4 == 0 && (2u64 | 8) & 8 != 0 && (2u64 | 8) & 16 == 0,
{
    assert((2u64 | 4) & 0x3ff == 2 | 4 && (2u64 | 8) & 0x3ff == 2 | 8 && (2u64 | 4) & 2 != 0 && (2u64 | 4) & 4 != 0 && (2u64 | 4) & 8 == 0 && (2u64 | 4) & 16
        == 0 && (2u64 | 8) & 2 != 0 && (2u64 | 8) & 4 == 0 && (2u64 | 8) & 8 != 0 && (2u64 | 8) & 16 == 0) by (bit_vector);
}

/// The entry for the page at `pa` that the kernel alone reads and writes.
pub proof fn lemma_kernel_page_entry(pa: u64)
    requires
        pa % 4096 == 0,
        pa < 0x100_0000_0000_0000,
    ensures
        PTE::leaf(pa, PTE::R | PTE::W).pa() == pa,
        PTE::leaf(pa, PTE::R | PTE::W).0 & 1 != 0,
        PTE::leaf(pa, PTE::R | PTE::W).0 & 2 != 0,
        PTE::leaf(pa, PTE::R | PTE::W).0 & 4 != 0,
        PTE::leaf(pa, PTE::R | PTE::W).0 & 8 == 0,
        PTE::leaf(pa, PTE::R | PTE::W).0 & 16 == 0,
{
    lemma_kernel_bits();
    lemma_leaf_entry(pa, PTE::R | PTE::W);
}

proof fn lemma_range(ram: Seq<Frame>, root: int, base: int, size: int, flags: u64, va: int)
    requires
        range_mapped(ram, root, base, base, size, flags),
        base % 4096 == 0,
        0 <= base <= va < base + size,
        base + size <= 0x40_0000_0000,
        flags & 0x3ff == flags,
    ensures
        lookup(ram, root, va / 4096) is Some,
        lookup(ram, root, va / 4096)->0.pa() == va - va % 4096,
        lookup(ram, root, va / 4096)->0.user() == (flags & 16 != 0),
        lookup(ram, root, va / 4096)->0.readable() == (flags & 2 != 0),
        lookup(ram, root, va / 4096)->0.writable() == (flags & 4 != 0),
        lookup(ram, root, va / 4096)->0.executable() == (flags & 8 != 0),
{
    let k = va / 4096 - base / 4096;
    assert(lookup(ram, root, base / 4096 + k) == Some(PTE::leaf((base + k * 4096) as u64, flags)));
    assert(base + k * 4096 == va - va % 4096);
    lemma_leaf_entry((base + k * 4096) as u64, flags);
}

/// The kernel finds all of RAM and its devices at their physical addresses. Its code can be executed and
/// not written, all else can be written and not executed, and user code gets at nothing of it.
pub proof fn lemma_kernel_view(ram: Seq<Frame>, root: int, etext: int, trampoline: int, va: int)
    requires
        kernel_mapped(ram, root, etext, trampoline),
        etext % 4096 == 0,
        0x8000_0000 < etext < 0x8800_0000,
        0x8000_0000 <= va < 0x8800_0000 || 0x1000_0000 <= va < 0x1000_2000 || 0xc00_0000 <= va < 0xc40_0000,
    ensures
        ({
            let e = lookup(ram, root, va / 4096);
            &&& e is Some
            &&& e->0.pa() == va - va % 4096
            &&& (e->0).0 & 2 != 0
            &&& (e->0).0 & 8 != 0 <==> 0x8000_0000 <= va < etext
            &&& (e->0).0 & 4 != 0 <==> !(0x8000_0000 <= va < etext)
            &&& (e->0).0 & 16 == 0
        }),
{
    lemma_kernel_bits();
    let rw = PTE::R | PTE::W;
    let rx = PTE::R | PTE::X;
    if 0x8000_0000 <= va < etext {
        lemma_range(ram, root, 0x8000_0000, etext - 0x8000_0000, rx, va);
    } else if etext <= va {
        lemma_range(ram, root, etext, 0x8800_0000 - etext, rw, va);
    } else if va < 0x1000_0000 {
        lemma_range(ram, root, 0xc00_0000, 0x40_0000, rw, va);
    } else if va < 0x1000_1000 {
        lemma_range(ram, root, 0x1000_0000, 4096, rw, va);
    } else {
        lemma_range(ram, root, 0x1000_1000, 4096, rw, va);
    }
}

} // verus!
