//! Inodes as they are on disk.
use vstd::prelude::*;
use crate::filesystem::NDIRECT;
use crate::filesystem::bytes::{get_u16, get_u32, put_u16, put_u32, zeros};
#[allow(unused_imports)]
use crate::filesystem::bytes::{le16, le32, lemma_le_kept};

verus! {

/// What an inode stands for.
#[derive(Clone, Copy, PartialEq, Eq, Structural, Debug)]
pub enum InodeKind {
    Unused,
    Directory,
    File,
    Device,
}

impl InodeKind {
    /// The number that stands for the kind on disk.
    pub open spec fn code(self) -> int {
        match self {
            InodeKind::Unused => 0,
            InodeKind::Directory => 1,
            InodeKind::File => 2,
            InodeKind::Device => 3,
        }
    }

    /// The number that stands for the kind on disk.
    pub fn to_u16(self) -> (r: u16)
        ensures
            r == self.code(),
    {
        match self {
            InodeKind::Unused => 0,
            InodeKind::Directory => 1,
            InodeKind::File => 2,
            InodeKind::Device => 3,
        }
    }
}

/// Bytes of an inode on disk.
pub const INODE_SIZE: usize = 64;

/// A file: its attributes and where its blocks are. An address of zero means no block.
pub struct Inode {
    pub kind: InodeKind,
    pub major: u16,
    pub minor: u16,
    pub nlink: u16,
    pub size: u32,
    pub addrs: Vec<u32>,
    pub chain: u32,
}

/// An inode as a mathematical value.
pub struct InodeView {
    pub kind: InodeKind,
    pub major: int,
    pub minor: int,
    pub nlink: int,
    pub size: int,
    pub addrs: Seq<int>,
    pub chain: int,
}

/// The kind that number `code` stands for.
pub open spec fn kind_of(code: int) -> InodeKind {
    if code == 1 {
        InodeKind::Directory
    } else if code == 2 {
        InodeKind::File
    } else if code == 3 {
        InodeKind::Device
    } else {
        InodeKind::Unused
    }
}

/// The inode stored at `at`.
pub open spec fn inode_at(bytes: Seq<u8>, at: int) -> InodeView {
    InodeView {
        kind: kind_of(le16(bytes, at)),
        major: le16(bytes, at + 2),
        minor: le16(bytes, at + 4),
        nlink: le16(bytes, at + 6),
        size: le32(bytes, at + 8),
        addrs: Seq::new(12, |i: int| le32(bytes, at + 12 + 4 * i)),
        chain: le32(bytes, at + 60),
    }
}

impl View for Inode {
    type V = InodeView;

    open spec fn view(&self) -> InodeView {
        InodeView {
            kind: self.kind,
            major: self.major as int,
            minor: self.minor as int,
            nlink: self.nlink as int,
            size: self.size as int,
            addrs: Seq::new(12, |i: int| self.addrs@[i] as int),
            chain: self.chain as int,
        }
    }
}

impl Inode {
    pub open spec fn wf(&self) -> bool {
        self.addrs@.len() == NDIRECT
    }

    /// An unused inode.
    pub fn zeroed() -> (this: Self)
        ensures
            this.wf(),
            this@ == (InodeView {
                kind: InodeKind::Unused,
                major: 0,
                minor: 0,
                nlink: 0,
                size: 0,
                addrs: Seq::new(12, |i: int| 0int),
                chain: 0,
            }),
    {
        let mut addrs: Vec<u32> = Vec::new();
        let mut i: usize = 0;
        while i < NDIRECT
            invariant
                i <= NDIRECT,
                addrs@.len() == i,
                forall|k: int| 0 <= k < i ==> #[trigger] addrs@[k] == 0,
            decreases NDIRECT - i,
        {
            addrs.push(0);
            i = i + 1;
        }
        let this = Inode { kind: InodeKind::Unused, major: 0, minor: 0, nlink: 0, size: 0, addrs, chain: 0 };
        proof {
            assert(this@.addrs =~= Seq::new(12, |i: int| 0int));
        }
        this
    }

    /// Reads the inode at `at`. A number that stands for no kind counts as unused.
    pub fn from_bytes(bytes: &Vec<u8>, at: usize) -> (this: Self)
        requires
            at + 64 <= bytes.len(),
        ensures
            this.wf(),
            this@ == inode_at(bytes@, at as int),
    {
        let code = get_u16(bytes, at);
        let kind = if code == 1 {
            InodeKind::Directory
        } else if code == 2 {
            InodeKind::File
        } else if code == 3 {
            InodeKind::Device
        } else {
            InodeKind::Unused
        };
        let mut addrs: Vec<u32> = Vec::new();
        let mut i: usize = 0;
        while i < NDIRECT
            invariant
                i <= NDIRECT,
                at + 64 <= bytes.len(),
                addrs@.len() == i,
                forall|k: int| 0 <= k < i ==> #[trigger] addrs@[k] == le32(bytes@, at + 12 + 4 * k),
            decreases NDIRECT - i,
        {
            addrs.push(get_u32(bytes, at + 12 + 4 * i));
            i = i + 1;
        }
        let this = Inode {
            kind,
            major: get_u16(bytes, at + 2),
            minor: get_u16(bytes, at + 4),
            nlink: get_u16(bytes, at + 6),
            size: get_u32(bytes, at + 8),
            addrs,
            chain: get_u32(bytes, at + 60),
        };
        proof {
            assert(this@.addrs =~= inode_at(bytes@, at as int).addrs);
        }
        this
    }

    /// The bytes of the inode on disk.
    pub fn to_bytes(&self) -> (bytes: Vec<u8>)
        requires
            self.wf(),
        ensures
            bytes@.len() == 64,
            inode_at(bytes@, 0) == self@,
    {
        let mut bytes = zeros(INODE_SIZE);
        let mut i: usize = 0;
        while i < NDIRECT
            invariant
                i <= NDIRECT,
                self.wf(),
                bytes@.len() == 64,
                forall|k: int| 0 <= k < i ==> #[trigger] self.addrs@[k] == le32(bytes@, 12 + 4 * k),
            decreases NDIRECT - i,
        {
            let ghost before = bytes@;
            put_u32(&mut bytes, 12 + 4 * i, self.addrs[i]);
            proof {
                assert forall|k: int| 0 <= k < i implies #[trigger] self.addrs@[k] == le32(bytes@, 12 + 4 * k) by {
                    lemma_le_kept(before, bytes@, 12 + 4 * i, 4, 12 + 4 * k);
                }
            }
            i = i + 1;
        }
        let ghost b0 = bytes@;
        put_u16(&mut bytes, 0, self.kind.to_u16());
        put_u16(&mut bytes, 2, self.major);
        put_u16(&mut bytes, 4, self.minor);
        put_u16(&mut bytes, 6, self.nlink);
        put_u32(&mut bytes, 8, self.size);
        put_u32(&mut bytes, 60, self.chain);
        proof {
            assert forall|k: int| 0 <= k < 12 implies #[trigger] self.addrs@[k] == le32(bytes@, 12 + 4 * k) by {
                assert(forall|j: int| 12 <= j < 60 ==> #[trigger] bytes@[j] == b0[j]);
            }
            assert(inode_at(bytes@, 0).addrs =~= self@.addrs);
        }
        bytes
    }
}

/// An inode reads back as it was written.
pub proof fn lemma_inode_at(bytes: Seq<u8>, at: int, block: Seq<u8>)
    requires
        bytes.len() == 64,
        0 <= at,
        at + 64 <= block.len(),
        forall|i: int| 0 <= i < 64 ==> #[trigger] block[at + i] == bytes[i],
    ensures
        inode_at(block, at) == inode_at(bytes, 0),
{
    assert forall|pos: int| 0 <= pos <= 60 implies #[trigger] le32(block, at + pos) == le32(bytes, pos) by {
        assert(block[at + pos] == bytes[pos]);
        assert(block[at + (pos + 1)] == bytes[pos + 1]);
        assert(block[at + (pos + 2)] == bytes[pos + 2]);
        assert(block[at + (pos + 3)] == bytes[pos + 3]);
    }
    assert forall|pos: int| 0 <= pos <= 62 implies #[trigger] le16(block, at + pos) == le16(bytes, pos) by {
        assert(block[at + pos] == bytes[pos]);
        assert(block[at + (pos + 1)] == bytes[pos + 1]);
    }
    assert(le16(block, at + 0) == le16(bytes, 0));
    assert(inode_at(block, at).addrs =~= inode_at(bytes, 0).addrs) by {
        assert forall|i: int| 0 <= i < 12 implies #[trigger] inode_at(block, at).addrs[i] == inode_at(bytes, 0).addrs[i] by {
            assert(le32(block, at + (12 + 4 * i)) == le32(bytes, 12 + 4 * i));
        }
    }
}

} // verus!
