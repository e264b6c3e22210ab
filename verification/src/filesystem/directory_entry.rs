//! Entries of directories.
use vstd::prelude::*;
use crate::filesystem::bytes::{get_u16, zeros};
#[allow(unused_imports)]
use crate::filesystem::bytes::le16;

verus! {

/// Bytes of an entry on disk.
pub const ENTRY_SIZE: usize = 16;

/// A name and the inode that it stands for. Inode number zero marks an unused entry.
pub struct DirectoryEntry {
    pub inode_number: u16,
    pub name: Vec<u8>,
}

/// The first 14 bytes of a name, filled up with zeros.
pub open spec fn padded(name: Seq<u8>) -> Seq<u8> {
    Seq::new(14, |i: int| if i < name.len() { name[i] } else { 0u8 })
}

/// Whether `stored` begins with the first 14 bytes of `name`.
pub open spec fn name_is(stored: Seq<u8>, name: Seq<u8>) -> bool {
    forall|i: int| 0 <= i < name.len() && i < 14 ==> #[trigger] stored[i] == name[i]
}

/// The bytes of an entry.
pub open spec fn entry_bytes(inode_number: int, name: Seq<u8>) -> Seq<u8> {
    Seq::new(
        16,
        |i: int|
            if i == 0 {
                (inode_number % 256) as u8
            } else if i == 1 {
                (inode_number / 256) as u8
            } else {
                name[i - 2]
            },
    )
}

impl DirectoryEntry {
    pub const NAME_LENGTH: usize = 14;

    pub open spec fn wf(&self) -> bool {
        self.name@.len() == 14
    }

    pub fn unused() -> (this: Self)
        ensures
            this.wf(),
            this.inode_number == 0,
            this.name@ == padded(Seq::empty()),
    {
        let name = zeros(14);
        proof {
            assert(name@ =~= padded(Seq::empty()));
        }
        DirectoryEntry { inode_number: 0, name }
    }

    /// An entry for `name`, of which only the first 14 bytes are kept.
    pub fn new(inode_number: usize, name: &Vec<u8>) -> (this: Self)
        ensures
            this.wf(),
            this.inode_number == inode_number as int % 65536,
            this.name@ == padded(name@),
    {
        let len = if name.len() < 14 { name.len() } else { 14 };
        let mut stored = zeros(14);
        let mut i: usize = 0;
        while i < len
            invariant
                i <= len,
                len <= 14,
                len <= name@.len(),
                len == 14 || len == name@.len(),
                stored@.len() == 14,
                forall|k: int| 0 <= k < i ==> #[trigger] stored@[k] == name@[k],
                forall|k: int| i <= k < 14 ==> #[trigger] stored@[k] == 0,
            decreases len - i,
        {
            stored.set(i, name[i]);
            i = i + 1;
        }
        proof {
            assert(stored@ =~= padded(name@));
        }
        DirectoryEntry { inode_number: (inode_number % 65536) as u16, name: stored }
    }

    pub fn inode_number(&self) -> (r: usize)
        ensures
            r == self.inode_number,
    {
        self.inode_number as usize
    }

    /// Whether the entry's name begins with the first 14 bytes of `name`.
    pub fn is(&self, name: &Vec<u8>) -> (b: bool)
        requires
            self.wf(),
        ensures
            b == name_is(self.name@, name@),
    {
        let len = if name.len() < 14 { name.len() } else { 14 };
        let mut i: usize = 0;
        while i < len
            invariant
                i <= len,
                len <= 14,
                len <= name@.len(),
                len == 14 || len == name@.len(),
                self.wf(),
                forall|k: int| 0 <= k < i ==> #[trigger] self.name@[k] == name@[k],
            decreases len - i,
        {
            if self.name[i] != name[i] {
                return false;
            }
            i = i + 1;
        }
        true
    }

    /// Reads an entry.
    pub fn from_bytes(bytes: &Vec<u8>) -> (this: Self)
        requires
            bytes@.len() == 16,
        ensures
            this.wf(),
            this.inode_number == le16(bytes@, 0),
            this.name@ == bytes@.subrange(2, 16),
    {
        let name = crate::filesystem::bytes::slice_of(bytes, 2, 14);
        DirectoryEntry { inode_number: get_u16(bytes, 0), name }
    }

    /// The bytes of the entry on disk.
    pub fn to_bytes(&self) -> (bytes: Vec<u8>)
        requires
            self.wf(),
        ensures
            bytes@ == entry_bytes(self.inode_number as int, self.name@),
    {
        let mut bytes = zeros(16);
        let n = self.inode_number;
        bytes.set(0, (n % 256) as u8);
        bytes.set(1, (n / 256) as u8);
        crate::filesystem::bytes::copy_into(&mut bytes, 2, &self.name, 0, 14);
        proof {
            assert(bytes@ =~= entry_bytes(self.inode_number as int, self.name@));
        }
        bytes
    }
}

/// An entry reads back as it was written.
pub proof fn lemma_entry_bytes(inode_number: int, name: Seq<u8>)
    requires
        0 <= inode_number < 65536,
        name.len() == 14,
    ensures
        le16(entry_bytes(inode_number, name), 0) == inode_number,
        entry_bytes(inode_number, name).subrange(2, 16) == name,
{
    assert(entry_bytes(inode_number, name).subrange(2, 16) =~= name);
}

/// An entry made for a name is found under that name.
pub proof fn lemma_name_found(name: Seq<u8>)
    ensures
        name_is(padded(name), name),
{
}


/// An entry that was made for one name is found under another one of the same length, of at most 14
/// bytes, only if they are the same.
pub proof fn lemma_names_apart(x: Seq<u8>, y: Seq<u8>)
    requires
        x.len() == y.len() <= 14,
    ensures
        name_is(entry_bytes(0, padded(x)).subrange(2, 16), y) ==> x == y,
        name_is(padded(x), y) <==> x == y,
{
    let stored = padded(x);
    assert(entry_bytes(0, stored).subrange(2, 16) =~= stored);
    if name_is(stored, y) {
        assert forall|i: int| 0 <= i < x.len() implies x[i] == y[i] by {
            assert(stored[i] == y[i]);
        }
        assert(x =~= y);
    }
}

/// An entry that was made for `x` is found under a name without zero bytes exactly where the first 14
/// bytes of `x` begin with the first 14 bytes of the name.
pub proof fn lemma_name_prefix(x: Seq<u8>, y: Seq<u8>)
    requires
        forall|i: int| 0 <= i < y.len() ==> #[trigger] y[i] != 0,
    ensures
        name_is(padded(x), y) <==> {
            let a = if x.len() < 14 { x } else { x.take(14) };
            let b = if y.len() < 14 { y } else { y.take(14) };
            b.is_prefix_of(a)
        },
{
    let a = if x.len() < 14 { x } else { x.take(14) };
    let b = if y.len() < 14 { y } else { y.take(14) };
    let stored = padded(x);
    if name_is(stored, y) {
        assert forall|i: int| 0 <= i < b.len() implies i < a.len() && b[i] == a[i] by {
            assert(stored[i] == y[i]);
            assert(y[i] != 0);
        }
        if b.len() > a.len() {
            let i = a.len() as int;
            assert(b[i] == y[i]);
        }
        assert(b.is_prefix_of(a));
    }
    if b.is_prefix_of(a) {
        assert forall|i: int| 0 <= i < y.len() && i < 14 implies #[trigger] stored[i] == y[i] by {
            assert(b[i] == a[i]);
        }
    }
}

} // verus!
