//! Block devices.
use vstd::prelude::*;
use crate::riscv::paging::clone_bytes;

verus! {

/// A device that stores blocks of bytes.
pub trait BlockDevice: Sized {
    /// What is stored.
    spec fn blocks(&self) -> Seq<Seq<u8>>;

    /// All writes so far, oldest first.
    spec fn trace(&self) -> Seq<(int, Seq<u8>)>;

    /// Reads block `block`.
    fn read_block(&mut self, block: usize) -> (data: Vec<u8>)
        requires
            block < old(self).blocks().len(),
        ensures
            data@ == old(self).blocks()[block as int],
            final(self).blocks() == old(self).blocks(),
            final(self).trace() == old(self).trace(),
    ;

    /// Overwrites block `block`.
    fn write_block(&mut self, block: usize, data: &Vec<u8>)
        requires
            block < old(self).blocks().len(),
            data@.len() == old(self).blocks()[block as int].len(),
        ensures
            final(self).blocks() == old(self).blocks().update(block as int, data@),
            final(self).trace() == old(self).trace().push((block as int, data@)),
    ;
}

/// A device in memory.
pub struct RamDisk {
    pub contents: Vec<Vec<u8>>,
    pub history: Ghost<Seq<(int, Seq<u8>)>>,
}

impl RamDisk {
    /// A device with the given blocks.
    pub fn new(contents: Vec<Vec<u8>>) -> (this: Self)
        ensures
            this.blocks() == Seq::new(contents@.len(), |i: int| contents@[i]@),
            this.trace() == Seq::<(int, Seq<u8>)>::empty(),
    {
        RamDisk { contents, history: Ghost(Seq::empty()) }
    }
}

impl BlockDevice for RamDisk {
    open spec fn blocks(&self) -> Seq<Seq<u8>> {
        Seq::new(self.contents@.len(), |i: int| self.contents@[i]@)
    }

    open spec fn trace(&self) -> Seq<(int, Seq<u8>)> {
        self.history@
    }

    fn read_block(&mut self, block: usize) -> (data: Vec<u8>) {
        clone_bytes(&self.contents[block])
    }

    fn write_block(&mut self, block: usize, data: &Vec<u8>) {
        let ghost before = self.blocks();
        let copy = clone_bytes(data);
        self.contents.set(block, copy);
        proof {
            self.history = Ghost(self.history@.push((block as int, data@)));
            assert(self.blocks() =~= before.update(block as int, data@));
        }
    }
}

/// All blocks have `size` bytes.
pub open spec fn sized(blocks: Seq<Seq<u8>>, size: int) -> bool {
    forall|b: int| 0 <= b < blocks.len() ==> (#[trigger] blocks[b]).len() == size
}

} // verus!
