//! What stands where on disk, byte by byte.
use vstd::prelude::*;
use crate::filesystem::file::{entry_inum, entry_matches, entry_name, is_entry_of};
use crate::filesystem::inode::{InodeKind, InodeView};
use crate::filesystem::layout::{block_of, contents};
use crate::filesystem::log::{header_block, header_n, may_begin, Log};
use crate::filesystem::superblock::SuperBlock;
use crate::filesystem::volume::{disk_inode, first_free, freed, in_use, taken};

verus! {

/// The number in the four bytes from `at` on, the lowest byte first.
pub open spec fn word(bytes: Seq<u8>, at: int) -> int {
    bytes[at] + 0x100 * bytes[at + 1] + 0x1_0000 * bytes[at + 2] + 0x100_0000 * bytes[at + 3]
}

/// The number in the two bytes from `at` on, the lowest byte first.
pub open spec fn half(bytes: Seq<u8>, at: int) -> int {
    bytes[at] + 0x100 * bytes[at + 1]
}

/// The superblock holds, in this order: a magic number, the size of the disk, the numbers of data blocks,
/// of inodes and of log blocks, and where the log, the inodes and the free map begin.
pub proof fn lemma_superblock_format(bytes: Seq<u8>)
    ensures
        ({
            let sb = SuperBlock::decode(bytes);
            &&& sb.magic == word(bytes, 0)
            &&& sb.size == word(bytes, 4)
            &&& sb.nblocks == word(bytes, 8)
            &&& sb.ninodes == word(bytes, 12)
            &&& sb.nlog == word(bytes, 16)
            &&& sb.logstart == word(bytes, 20)
            &&& sb.inodestart == word(bytes, 24)
            &&& sb.bmapstart == word(bytes, 28)
        }),
{
}

/// Sixteen inodes stand in a block, of 64 bytes each: the kind (1 for a directory, 2 for a file, 3 for a
/// device), the numbers of the device, the number of names, the size, twelve addresses of blocks and that
/// of the indirect block.
pub proof fn lemma_inode_format(v: Seq<Seq<u8>>, sb: SuperBlock, i: int, k: int)
    requires
        0 <= i,
        0 <= k < 12,
    ensures
        ({
            let b = v[sb.inodestart + i / 16];
            let at = 64 * (i % 16);
            let ino = disk_inode(v, sb, i);
            &&& ino.kind == InodeKind::Directory <==> half(b, at) == 1
            &&& ino.kind == InodeKind::File <==> half(b, at) == 2
            &&& ino.kind == InodeKind::Device <==> half(b, at) == 3
            &&& ino.major == half(b, at + 2)
            &&& ino.minor == half(b, at + 4)
            &&& ino.nlink == half(b, at + 6)
            &&& ino.size == word(b, at + 8)
            &&& ino.addrs[k] == word(b, at + 12 + 4 * k)
            &&& ino.chain == word(b, at + 60)
        }),
{
}

/// Byte `i` of a file stands in the block whose address is the one for `i / 1024`, at `i % 1024`: one of
/// twelve addresses in the inode, or of 256 in the indirect block.
pub proof fn lemma_file_format(v: Seq<Seq<u8>>, ino: InodeView, i: int)
    requires
        0 <= i < ino.size <= 1024 * 268,
        ino.chain != 0,
    ensures
        contents(v, ino).len() == ino.size,
        i < 12288 ==> contents(v, ino)[i] == v[ino.addrs[i / 1024]][i % 1024],
        i >= 12288 ==> contents(v, ino)[i] == v[word(v[ino.chain], 4 * ((i - 12288) / 1024))][(i - 12288) % 1024],
{
    if i >= 12288 {
        assert(i / 1024 - 12 == (i - 12288) / 1024);
        assert(block_of(v, ino, i / 1024) == word(v[ino.chain], 4 * ((i - 12288) / 1024)));
    }
}

/// Block `b` is in use where its bit in the free map is set: a block of the map has bits for 8192 blocks,
/// eight in a byte, the lowest first.
pub proof fn lemma_map_format(v: Seq<Seq<u8>>, sb: SuperBlock, b: int)
    requires
        0 <= b,
    ensures
        in_use(v, sb, b) <==> v[sb.bmapstart + b / 8192][b % 8192 / 8] as int / power(b % 8) % 2 == 1,
{
    let byte = v[sb.bmapstart + b / 8192][b % 8192 / 8];
    let k = (b % 8) as u8;
    assert(b % 8192 % 8 == b % 8);
    lemma_bit(byte, k);
}

/// Two to the `k`, for the bits of a byte.
pub open spec fn power(k: int) -> int {
    if k == 0 {
        1
    } else if k == 1 {
        2
    } else if k == 2 {
        4
    } else if k == 3 {
        8
    } else if k == 4 {
        16
    } else if k == 5 {
        32
    } else if k == 6 {
        64
    } else {
        128
    }
}

proof fn lemma_bit(byte: u8, k: u8)
    requires
        k < 8,
    ensures
        byte & (1u8 << k) != 0 <==> byte as int / power(k as int) % 2 == 1,
{
    assert((byte & (1u8 << 0) != 0 <==> byte % 2 == 1) && (byte & (1u8 << 1) != 0 <==> byte / 2 % 2 == 1) && (byte & (1u8 << 2) != 0 <==> byte / 4 % 2
        == 1) && (byte & (1u8 << 3) != 0 <==> byte / 8 % 2 == 1) && (byte & (1u8 << 4) != 0 <==> byte / 16 % 2 == 1) && (byte & (1u8 << 5) != 0 <==> byte
        / 32 % 2 == 1) && (byte & (1u8 << 6) != 0 <==> byte / 64 % 2 == 1) && (byte & (1u8 << 7) != 0 <==> byte / 128 % 2 == 1)) by (bit_vector);
}

/// The header of the log holds how many blocks are logged, and where each of them belongs.
pub proof fn lemma_header_format(bytes: Seq<u8>, i: int)
    requires
        0 <= i < 30,
    ensures
        header_n(bytes) == word(bytes, 0),
        header_block(bytes, i) == word(bytes, 4 + 4 * i),
{
}

/// Entry `j` of a directory is not in use or has another name.
pub open spec fn passed_over(c: Seq<u8>, j: int, name: Seq<u8>) -> bool {
    half(c, 16 * j) == 0 || exists|i: int| 0 <= i < name.len() && i < 14 && c[16 * j + 2 + i] != #[trigger] name[i]
}

/// A directory is a row of entries of 16 bytes: the number of an inode, which is zero where the entry is
/// not in use, and a name. The first entry in use whose name begins as the one looked for counts.
pub proof fn lemma_directory_format(c: Seq<u8>, name: Seq<u8>, k: int)
    requires
        c.len() % 16 == 0,
        0 <= k,
        16 * k < c.len(),
        half(c, 16 * k) != 0,
        forall|i: int| 0 <= i < name.len() && i < 14 ==> c[16 * k + 2 + i] == #[trigger] name[i],
        forall|j: int| 0 <= j < k ==> #[trigger] passed_over(c, j, name),
    ensures
        is_entry_of(c, name, k),
        entry_inum(c, k) == half(c, 16 * k),
{
    assert(entry_matches(c, k, name)) by {
        assert forall|i: int| 0 <= i < name.len() && i < 14 implies #[trigger] entry_name(c, k)[i] == name[i] by {}
    }
    assert forall|j: int| 0 <= j < k implies !#[trigger] entry_matches(c, j, name) by {
        assert(passed_over(c, j, name));
        if half(c, 16 * j) != 0 {
            let i = choose|i: int| 0 <= i < name.len() && i < 14 && c[16 * j + 2 + i] != #[trigger] name[i];
            assert(entry_name(c, j)[i] == c[16 * j + 2 + i]);
        }
    }
}

/// The log never runs out of space: with every system call that was let in, however many are active, each
/// can log ten blocks, and 30 fit.
pub proof fn lemma_log_suffices(log: Log, each: Seq<int>)
    requires
        each.len() == log.outstanding + 1,
        forall|i: int| 0 <= i < each.len() ==> 0 <= #[trigger] each[i] <= 10,
    ensures
        may_begin(log) ==> log.header.n + total(each) <= 30,
        !may_begin(log) ==> log.header.n + 10 * (log.outstanding + 1) > 30,
{
    lemma_total(each);
}

/// The sum of a row of numbers.
pub open spec fn total(each: Seq<int>) -> int
    decreases each.len(),
{
    if each.len() == 0 {
        0
    } else {
        total(each.drop_last()) + each.last()
    }
}

proof fn lemma_total(each: Seq<int>)
    requires
        forall|i: int| 0 <= i < each.len() ==> 0 <= #[trigger] each[i] <= 10,
    ensures
        total(each) <= 10 * each.len(),
    decreases each.len(),
{
    if each.len() > 0 {
        let rest = each.drop_last();
        assert forall|i: int| 0 <= i < rest.len() implies 0 <= #[trigger] rest[i] <= 10 by {
            assert(rest[i] == each[i]);
        }
        lemma_total(rest);
    }
}

/// A block that is handed out was free, is in use then and holds zeros, and no block in use changes but the
/// free map. A block that is given back is free then, and no other one.
pub proof fn lemma_block_handed_out(v0: Seq<Seq<u8>>, v1: Seq<Seq<u8>>, v2: Seq<Seq<u8>>, sb: SuperBlock, b: int, x: int, i: int)
    requires
        first_free(v0, sb, b),
        taken(v0, v1, sb, b),
        freed(v1, v2, sb, b),
        0 <= x < sb.size,
        sb.size <= v0.len(),
        0 <= i < 1024,
    ensures
        !in_use(v0, sb, b),
        in_use(v1, sb, b),
        !in_use(v2, sb, b),
        v1[b].len() == 1024,
        v1[b][i] == 0,
        x != b ==> in_use(v1, sb, x) == in_use(v0, sb, x) && in_use(v2, sb, x) == in_use(v0, sb, x),
        x != b && !(sb.bmapstart <= x <= sb.bmapstart + sb.size / 8192) ==> v1[x] == v0[x] && v2[x] == v0[x],
{
}

} // verus!
