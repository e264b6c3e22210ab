//! Where the bytes of a file are.
use vstd::prelude::*;
use crate::filesystem::buffer::BSIZE;
use crate::filesystem::bytes::le32;
use crate::filesystem::inode::{InodeKind, InodeView};
use crate::filesystem::superblock::SuperBlock;
use crate::filesystem::volume::{data_start, disk_inode, in_use, is_data, layout_wf, taken};

verus! {

/// Address `slot` of an inode, zero where there is none. Slots below 12 are the blocks that
/// the inode refers to itself, slot 12 is the indirect block and the slots from 13 on are
/// the entries of the indirect block.
pub open spec fn addr(v: Seq<Seq<u8>>, ino: InodeView, slot: int) -> int {
    if slot < 12 {
        ino.addrs[slot]
    } else if slot == 12 {
        ino.chain
    } else if ino.chain == 0 {
        0
    } else {
        le32(v[ino.chain], (slot - 13) * 4)
    }
}

/// Slot for block `i` of a file.
pub open spec fn slot_for(i: int) -> int {
    if i < 12 {
        i
    } else {
        i + 1
    }
}

/// Address of block `i` of a file.
pub open spec fn block_of(v: Seq<Seq<u8>>, ino: InodeView, i: int) -> int {
    addr(v, ino, slot_for(i))
}

/// Blocks that `size` bytes take.
pub open spec fn nblocks(size: int) -> int {
    (size + 1023) / 1024
}

/// Address `slot` of inode `inum` is zero or a data block that belongs to it.
pub open spec fn addr_wf(v: Seq<Seq<u8>>, sb: SuperBlock, owner: Map<int, (int, int)>, inum: int, ino: InodeView, slot: int) -> bool {
    let a = addr(v, ino, slot);
    a != 0 ==> {
        &&& is_data(sb, a)
        &&& in_use(v, sb, a)
        &&& owner.contains_key(a)
        &&& owner[a] == (inum, slot)
    }
}

/// An inode is well-formed: its blocks belong to it and there are no holes.
pub open spec fn inode_wf(v: Seq<Seq<u8>>, sb: SuperBlock, owner: Map<int, (int, int)>, inum: int, ino: InodeView) -> bool {
    &&& ino.addrs.len() == 12
    &&& forall|slot: int| 0 <= slot < 269 ==> #[trigger] addr_wf(v, sb, owner, inum, ino, slot)
    &&& 0 <= ino.size <= 274432
    &&& forall|i: int| 0 <= i < nblocks(ino.size) ==> #[trigger] block_of(v, ino, i) != 0
    &&& ino.kind == InodeKind::Directory ==> ino.size % 16 == 0
    &&& ino.kind == InodeKind::Unused ==> blank(ino)
}

/// No block and no byte.
pub open spec fn blank(ino: InodeView) -> bool {
    &&& ino.size == 0
    &&& ino.chain == 0
    &&& forall|i: int| 0 <= i < 12 ==> #[trigger] ino.addrs[i] == 0
}

/// The bytes of a file.
pub open spec fn contents(v: Seq<Seq<u8>>, ino: InodeView) -> Seq<u8> {
    Seq::new(ino.size as nat, |i: int| v[block_of(v, ino, i / 1024)][i % 1024])
}

/// `old` refers to no other block than `new`.
pub open spec fn behind(old: InodeView, new: InodeView) -> bool {
    &&& old.chain == 0 || old.chain == new.chain
    &&& forall|i: int| 0 <= i < 12 ==> #[trigger] old.addrs[i] == 0 || old.addrs[i] == new.addrs[i]
}

/// An inode in memory and the one on disk are both well-formed.
pub open spec fn tracks(v: Seq<Seq<u8>>, sb: SuperBlock, owner: Map<int, (int, int)>, inum: int, ino: InodeView) -> bool {
    &&& inode_wf(v, sb, owner, inum, ino)
    &&& inode_wf(v, sb, owner, inum, disk_inode(v, sb, inum))
    &&& behind(disk_inode(v, sb, inum), ino)
}

/// Same attributes.
pub open spec fn same_attrs(a: InodeView, b: InodeView) -> bool {
    &&& a.kind == b.kind
    &&& a.major == b.major
    &&& a.minor == b.minor
    &&& a.nlink == b.nlink
    &&& a.size == b.size
}

/// An inode in memory stands for the same file as the one on disk.
pub open spec fn synced(v: Seq<Seq<u8>>, sb: SuperBlock, owner: Map<int, (int, int)>, inum: int, ino: InodeView) -> bool {
    tracks(v, sb, owner, inum, ino) && same_attrs(disk_inode(v, sb, inum), ino)
}

/// Work on inode `inum` changes no block of another inode and nothing before the free map.
pub open spec fn touched(
    v0: Seq<Seq<u8>>,
    v1: Seq<Seq<u8>>,
    sb: SuperBlock,
    o0: Map<int, (int, int)>,
    o1: Map<int, (int, int)>,
    inum: int,
) -> bool {
    &&& v1.len() == v0.len()
    &&& forall|b: int| 0 <= b < sb.bmapstart ==> #[trigger] v1[b] == v0[b]
    &&& others_kept(v0, v1, sb, o0, o1, inum)
}

pub open spec fn others_kept(
    v0: Seq<Seq<u8>>,
    v1: Seq<Seq<u8>>,
    sb: SuperBlock,
    o0: Map<int, (int, int)>,
    o1: Map<int, (int, int)>,
    inum: int,
) -> bool {
    forall|b: int|
        is_data(sb, b) && in_use(v0, sb, b) && #[trigger] o0.contains_key(b) && o0[b].0 != inum ==> {
            &&& v1[b] == v0[b]
            &&& in_use(v1, sb, b)
            &&& o1.contains_key(b)
            &&& o1[b] == o0[b]
        }
}

/// Addresses that were there stay, and so do the bytes behind them.
pub open spec fn grown(v0: Seq<Seq<u8>>, i0: InodeView, v1: Seq<Seq<u8>>, i1: InodeView) -> bool {
    forall|slot: int|
        0 <= slot < 269 && #[trigger] addr(v0, i0, slot) != 0 ==> {
            &&& addr(v1, i1, slot) == addr(v0, i0, slot)
            &&& slot != 12 ==> v1[addr(v0, i0, slot)] == v0[addr(v0, i0, slot)]
        }
}

pub proof fn lemma_touched_trans(
    v0: Seq<Seq<u8>>,
    v1: Seq<Seq<u8>>,
    v2: Seq<Seq<u8>>,
    sb: SuperBlock,
    o0: Map<int, (int, int)>,
    o1: Map<int, (int, int)>,
    o2: Map<int, (int, int)>,
    inum: int,
)
    requires
        touched(v0, v1, sb, o0, o1, inum),
        touched(v1, v2, sb, o1, o2, inum),
    ensures
        touched(v0, v2, sb, o0, o2, inum),
{
    assert forall|b: int| 0 <= b < sb.bmapstart implies #[trigger] v2[b] == v0[b] by {
        assert(v1[b] == v0[b]);
    }
    assert forall|b: int| is_data(sb, b) && in_use(v0, sb, b) && #[trigger] o0.contains_key(b) && o0[b].0 != inum implies {
        &&& v2[b] == v0[b]
        &&& in_use(v2, sb, b)
        &&& o2.contains_key(b)
        &&& o2[b] == o0[b]
    } by {
        assert(o1.contains_key(b));
    }
}

pub proof fn lemma_grown_trans(v0: Seq<Seq<u8>>, i0: InodeView, v1: Seq<Seq<u8>>, i1: InodeView, v2: Seq<Seq<u8>>, i2: InodeView)
    requires
        grown(v0, i0, v1, i1),
        grown(v1, i1, v2, i2),
    ensures
        grown(v0, i0, v2, i2),
{
    assert forall|slot: int| 0 <= slot < 269 && #[trigger] addr(v0, i0, slot) != 0 implies {
        &&& addr(v2, i2, slot) == addr(v0, i0, slot)
        &&& slot != 12 ==> v2[addr(v0, i0, slot)] == v0[addr(v0, i0, slot)]
    } by {
        assert(addr(v1, i1, slot) == addr(v0, i0, slot));
    }
}

/// A file whose inode only grew has the same bytes.
pub proof fn lemma_grown_contents(v0: Seq<Seq<u8>>, i0: InodeView, v1: Seq<Seq<u8>>, i1: InodeView)
    requires
        grown(v0, i0, v1, i1),
        i1.size == i0.size,
        0 <= i0.size <= 274432,
        forall|i: int| 0 <= i < nblocks(i0.size) ==> #[trigger] block_of(v0, i0, i) != 0,
    ensures
        contents(v1, i1) == contents(v0, i0),
{
    assert forall|i: int| 0 <= i < i0.size implies contents(v1, i1)[i] == contents(v0, i0)[i] by {
        let k = i / 1024;
        assert(0 <= k < nblocks(i0.size));
        assert(block_of(v0, i0, k) != 0);
        let slot = slot_for(k);
        assert(addr(v0, i0, slot) != 0);
        assert(addr(v1, i1, slot) == addr(v0, i0, slot));
    }
    assert(contents(v1, i1) =~= contents(v0, i0));
}

/// Work on one inode leaves the others alone.
pub proof fn lemma_other_file(
    v0: Seq<Seq<u8>>,
    v1: Seq<Seq<u8>>,
    sb: SuperBlock,
    o0: Map<int, (int, int)>,
    o1: Map<int, (int, int)>,
    inum: int,
    j: int,
    ino: InodeView,
)
    requires
        others_kept(v0, v1, sb, o0, o1, inum),
        inode_wf(v0, sb, o0, j, ino),
        j != inum,
    ensures
        inode_wf(v1, sb, o1, j, ino),
        contents(v1, ino) == contents(v0, ino),
        grown(v0, ino, v1, ino),
        forall|slot: int| 0 <= slot < 269 ==> #[trigger] addr(v1, ino, slot) == addr(v0, ino, slot),
{
    assert(addr_wf(v0, sb, o0, j, ino, 12));
    assert forall|slot: int| 0 <= slot < 269 implies #[trigger] addr(v1, ino, slot) == addr(v0, ino, slot) by {
        if ino.chain != 0 {
            assert(addr(v0, ino, 12) == ino.chain);
            assert(o0.contains_key(ino.chain));
        }
    }
    assert forall|slot: int| 0 <= slot < 269 implies #[trigger] addr_wf(v1, sb, o1, j, ino, slot) by {
        assert(addr_wf(v0, sb, o0, j, ino, slot));
        assert(addr(v1, ino, slot) == addr(v0, ino, slot));
        let a = addr(v0, ino, slot);
        if a != 0 {
            assert(o0.contains_key(a));
        }
    }
    assert forall|slot: int| 0 <= slot < 269 && #[trigger] addr(v0, ino, slot) != 0 implies {
        &&& addr(v1, ino, slot) == addr(v0, ino, slot)
        &&& slot != 12 ==> v1[addr(v0, ino, slot)] == v0[addr(v0, ino, slot)]
    } by {
        assert(addr_wf(v0, sb, o0, j, ino, slot));
        let a = addr(v0, ino, slot);
        assert(o0.contains_key(a));
    }
    assert forall|i: int| 0 <= i < nblocks(ino.size) implies #[trigger] block_of(v1, ino, i) != 0 by {
        assert(block_of(v0, ino, i) != 0);
        assert(addr(v1, ino, slot_for(i)) == addr(v0, ino, slot_for(i)));
    }
    lemma_grown_contents(v0, ino, v1, ino);
}

/// Taking a free block disturbs no inode.
pub proof fn lemma_taken(
    v0: Seq<Seq<u8>>,
    v1: Seq<Seq<u8>>,
    sb: SuperBlock,
    o0: Map<int, (int, int)>,
    b: int,
    inum: int,
    slot: int,
)
    requires
        layout_wf(sb, v0.len() as int),
        taken(v0, v1, sb, b),
        is_data(sb, b),
        !in_use(v0, sb, b),
    ensures
        touched(v0, v1, sb, o0, o0.insert(b, (inum, slot)), inum),
        forall|j: int, ino: InodeView|
            #[trigger] inode_wf(v0, sb, o0, j, ino) ==> inode_wf(v1, sb, o0.insert(b, (inum, slot)), j, ino) && grown(v0, ino, v1, ino),
        forall|j: int| 0 <= j < sb.ninodes ==> #[trigger] disk_inode(v1, sb, j) == disk_inode(v0, sb, j),
{
    let o1 = o0.insert(b, (inum, slot));
    assert forall|x: int| is_data(sb, x) && in_use(v0, sb, x) && #[trigger] o0.contains_key(x) implies {
        &&& v1[x] == v0[x]
        &&& in_use(v1, sb, x)
        &&& o1.contains_key(x)
        &&& o1[x] == o0[x]
    } by {
        assert(x != b);
        assert(in_use(v1, sb, x) == (x == b || in_use(v0, sb, x)));
    }
    assert forall|j: int, ino: InodeView| #[trigger] inode_wf(v0, sb, o0, j, ino) implies inode_wf(v1, sb, o1, j, ino) && grown(
        v0,
        ino,
        v1,
        ino,
    ) by {
        assert(others_kept(v0, v1, sb, o0, o1, j + 1));
        lemma_other_file(v0, v1, sb, o0, o1, j + 1, j, ino);
    }
    assert forall|j: int| 0 <= j < sb.ninodes implies #[trigger] disk_inode(v1, sb, j) == disk_inode(v0, sb, j) by {
        assert(v1[sb.inodestart + j / 16] == v0[sb.inodestart + j / 16]);
    }
}

/// Giving an inode a block of its own in an empty direct slot.
pub proof fn lemma_set_direct(v: Seq<Seq<u8>>, sb: SuperBlock, o: Map<int, (int, int)>, inum: int, i0: InodeView, i1: InodeView, k: int, b: int)
    requires
        inode_wf(v, sb, o, inum, i0),
        i0.kind != InodeKind::Unused,
        0 <= k < 12,
        i0.addrs[k] == 0,
        i1 == (InodeView { addrs: i0.addrs.update(k, b), ..i0 }),
        is_data(sb, b),
        in_use(v, sb, b),
        o.contains_key(b),
        o[b] == (inum, k),
    ensures
        inode_wf(v, sb, o, inum, i1),
        grown(v, i0, v, i1),
        block_of(v, i1, k) == b,
{
    assert forall|slot: int| 0 <= slot < 269 implies #[trigger] addr_wf(v, sb, o, inum, i1, slot) by {
        assert(addr_wf(v, sb, o, inum, i0, slot));
    }
    assert forall|i: int| 0 <= i < nblocks(i1.size) implies #[trigger] block_of(v, i1, i) != 0 by {
        assert(block_of(v, i0, i) != 0);
    }
}

/// Giving an inode an empty indirect block.
pub proof fn lemma_set_chain(v: Seq<Seq<u8>>, sb: SuperBlock, o: Map<int, (int, int)>, inum: int, i0: InodeView, i1: InodeView, b: int)
    requires
        inode_wf(v, sb, o, inum, i0),
        i0.kind != InodeKind::Unused,
        i0.chain == 0,
        i1 == (InodeView { chain: b, ..i0 }),
        is_data(sb, b),
        in_use(v, sb, b),
        o.contains_key(b),
        o[b] == (inum, 12int),
        v[b] == Seq::new(BSIZE as nat, |i: int| 0u8),
        b != 0,
    ensures
        inode_wf(v, sb, o, inum, i1),
        grown(v, i0, v, i1),
{
    assert forall|slot: int| 0 <= slot < 269 implies #[trigger] addr_wf(v, sb, o, inum, i1, slot) by {
        assert(addr_wf(v, sb, o, inum, i0, slot));
        if slot > 12 {
            assert(addr(v, i1, slot) == 0);
        }
    }
    assert forall|i: int| 0 <= i < nblocks(i1.size) implies #[trigger] block_of(v, i1, i) != 0 by {
        assert(block_of(v, i0, i) != 0);
    }
}

/// Giving an inode a block of its own in an empty entry of its indirect block.
pub proof fn lemma_set_indirect(
    v0: Seq<Seq<u8>>,
    v1: Seq<Seq<u8>>,
    sb: SuperBlock,
    o: Map<int, (int, int)>,
    inum: int,
    ino: InodeView,
    k: int,
    b: int,
)
    requires
        layout_wf(sb, v0.len() as int),
        inode_wf(v0, sb, o, inum, ino),
        ino.chain != 0,
        0 <= k < 256,
        addr(v0, ino, 13 + k) == 0,
        v1 == v0.update(ino.chain, v1[ino.chain]),
        le32(v1[ino.chain], k * 4) == b,
        forall|j: int| 0 <= j < 256 && j != k ==> #[trigger] le32(v1[ino.chain], j * 4) == le32(v0[ino.chain], j * 4),
        is_data(sb, b),
        in_use(v0, sb, b),
        o.contains_key(b),
        o[b] == (inum, 13 + k),
    ensures
        touched(v0, v1, sb, o, o, inum),
        inode_wf(v1, sb, o, inum, ino),
        grown(v0, ino, v1, ino),
        addr(v1, ino, 13 + k) == b,
        forall|old: InodeView| #[trigger] inode_wf(v0, sb, o, inum, old) && behind(old, ino) ==> inode_wf(v1, sb, o, inum, old) && grown(
            v0,
            old,
            v1,
            old,
        ),
        forall|j: int| 0 <= j < sb.ninodes ==> #[trigger] disk_inode(v1, sb, j) == disk_inode(v0, sb, j),
{
    let c = ino.chain;
    assert(addr_wf(v0, sb, o, inum, ino, 12));
    assert(addr(v0, ino, 12) == c);
    assert(is_data(sb, c));
    assert forall|x: int| 0 <= x < sb.size implies #[trigger] in_use(v1, sb, x) == in_use(v0, sb, x) by {
        assert(sb.bmapstart + x / 8192 < data_start(sb));
    }
    assert forall|old: InodeView| #[trigger] inode_wf(v0, sb, o, inum, old) && behind(old, ino) implies inode_wf(v1, sb, o, inum, old)
        && grown(v0, old, v1, old) by {
        assert forall|slot: int| 0 <= slot < 269 && slot != 13 + k implies #[trigger] addr(v1, old, slot) == addr(v0, old, slot) by {
            if slot > 12 && old.chain != 0 {
                let j = slot - 13;
                assert(le32(v1[c], j * 4) == le32(v0[c], j * 4));
            }
        }
        assert forall|slot: int| 0 <= slot < 269 implies #[trigger] addr_wf(v1, sb, o, inum, old, slot) by {
            assert(addr_wf(v0, sb, o, inum, old, slot));
            if slot != 13 + k {
                assert(addr(v1, old, slot) == addr(v0, old, slot));
            }
        }
        assert forall|slot: int| 0 <= slot < 269 && #[trigger] addr(v0, old, slot) != 0 implies {
            &&& addr(v1, old, slot) == addr(v0, old, slot)
            &&& slot != 12 ==> v1[addr(v0, old, slot)] == v0[addr(v0, old, slot)]
        } by {
            assert(addr_wf(v0, sb, o, inum, old, slot));
            if slot == 13 + k {
                assert(old.chain == 0 || old.chain == c);
            } else {
                assert(addr(v1, old, slot) == addr(v0, old, slot));
            }
            if slot != 12 && addr(v0, old, slot) == c {
                assert(o[c] == (inum, 12int));
            }
        }
        assert forall|i: int| 0 <= i < nblocks(old.size) implies #[trigger] block_of(v1, old, i) != 0 by {
            assert(block_of(v0, old, i) != 0);
            assert(addr(v0, old, slot_for(i)) != 0);
        }
    }
    assert(behind(ino, ino));
    assert forall|j: int| 0 <= j < sb.ninodes implies #[trigger] disk_inode(v1, sb, j) == disk_inode(v0, sb, j) by {
        assert(v1[sb.inodestart + j / 16] == v0[sb.inodestart + j / 16]);
    }
    assert forall|x: int| is_data(sb, x) && in_use(v0, sb, x) && #[trigger] o.contains_key(x) && o[x].0 != inum implies v1[x] == v0[x]
        && in_use(v1, sb, x) by {
        assert(x != c);
        assert(in_use(v1, sb, x) == in_use(v0, sb, x));
    }
}

/// Overwriting a block that holds bytes of a file.
pub proof fn lemma_set_data(
    v0: Seq<Seq<u8>>,
    v1: Seq<Seq<u8>>,
    sb: SuperBlock,
    o: Map<int, (int, int)>,
    inum: int,
    ino: InodeView,
    k: int,
    new: Seq<u8>,
)
    requires
        layout_wf(sb, v0.len() as int),
        inode_wf(v0, sb, o, inum, ino),
        0 <= k < 268,
        block_of(v0, ino, k) != 0,
        v1 == v0.update(block_of(v0, ino, k), new),
    ensures
        touched(v0, v1, sb, o, o, inum),
        inode_wf(v1, sb, o, inum, ino),
        forall|slot: int| 0 <= slot < 269 ==> #[trigger] addr(v1, ino, slot) == addr(v0, ino, slot),
        forall|i: int| 0 <= i < 268 && i != k && block_of(v0, ino, i) != 0 ==> v1[#[trigger] block_of(v0, ino, i)] == v0[block_of(
            v0,
            ino,
            i,
        )],
        v1[block_of(v0, ino, k)] == new,
        forall|old: InodeView| #[trigger] inode_wf(v0, sb, o, inum, old) && behind(old, ino) ==> inode_wf(v1, sb, o, inum, old),
        forall|j: int| 0 <= j < sb.ninodes ==> #[trigger] disk_inode(v1, sb, j) == disk_inode(v0, sb, j),
{
    let s = slot_for(k);
    let b = addr(v0, ino, s);
    assert(addr_wf(v0, sb, o, inum, ino, s));
    assert(is_data(sb, b));
    assert forall|x: int| 0 <= x < sb.size implies #[trigger] in_use(v1, sb, x) == in_use(v0, sb, x) by {
        assert(sb.bmapstart + x / 8192 < data_start(sb));
    }
    assert forall|old: InodeView| #[trigger] inode_wf(v0, sb, o, inum, old) && behind(old, ino) implies inode_wf(v1, sb, o, inum, old)
        && (forall|slot: int| 0 <= slot < 269 ==> #[trigger] addr(v1, old, slot) == addr(v0, old, slot)) by {
        assert(addr_wf(v0, sb, o, inum, old, 12));
        assert forall|slot: int| 0 <= slot < 269 implies #[trigger] addr(v1, old, slot) == addr(v0, old, slot) by {
            if old.chain != 0 {
                assert(addr(v0, old, 12) == old.chain);
                assert(old.chain != b);
            }
        }
        assert forall|slot: int| 0 <= slot < 269 implies #[trigger] addr_wf(v1, sb, o, inum, old, slot) by {
            assert(addr_wf(v0, sb, o, inum, old, slot));
            assert(addr(v1, old, slot) == addr(v0, old, slot));
        }
        assert forall|i: int| 0 <= i < nblocks(old.size) implies #[trigger] block_of(v1, old, i) != 0 by {
            assert(block_of(v0, old, i) != 0);
            assert(addr(v1, old, slot_for(i)) == addr(v0, old, slot_for(i)));
        }
    }
    assert(behind(ino, ino));
    assert forall|i: int| 0 <= i < 268 && i != k && block_of(v0, ino, i) != 0 implies v1[#[trigger] block_of(v0, ino, i)] == v0[block_of(
        v0,
        ino,
        i,
    )] by {
        assert(addr_wf(v0, sb, o, inum, ino, slot_for(i)));
    }
    assert forall|j: int| 0 <= j < sb.ninodes implies #[trigger] disk_inode(v1, sb, j) == disk_inode(v0, sb, j) by {
        assert(v1[sb.inodestart + j / 16] == v0[sb.inodestart + j / 16]);
    }
    assert forall|x: int| is_data(sb, x) && in_use(v0, sb, x) && #[trigger] o.contains_key(x) && o[x].0 != inum implies v1[x] == v0[x]
        && in_use(v1, sb, x) by {
        assert(x != b);
        assert(in_use(v1, sb, x) == in_use(v0, sb, x));
    }
}

} // verus!
