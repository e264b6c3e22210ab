//! The superblock, which describes the layout of the disk.
use vstd::prelude::*;
use crate::filesystem::{BITMAP_BITS, INODES_PER_BLOCK};
use crate::filesystem::bytes::get_u32;
#[allow(unused_imports)]
use crate::filesystem::bytes::le32;

verus! {

/// Where the parts of the file system are.
#[derive(Clone, Copy)]
pub struct SuperBlock {
    /// Must be `FSMAGIC`.
    pub magic: u32,
    /// Size of the file system image in blocks.
    pub size: u32,
    /// Number of data blocks.
    pub nblocks: u32,
    /// Number of inodes.
    pub ninodes: u32,
    /// Number of log blocks.
    pub nlog: u32,
    /// Block number of the first log block.
    pub logstart: u32,
    /// Block number of the first inode block.
    pub inodestart: u32,
    /// Block number of the first free map block.
    pub bmapstart: u32,
}

impl SuperBlock {
    pub fn zeroed() -> (this: Self)
        ensures
            this == (SuperBlock {
                magic: 0,
                size: 0,
                nblocks: 0,
                ninodes: 0,
                nlog: 0,
                logstart: 0,
                inodestart: 0,
                bmapstart: 0,
            }),
    {
        SuperBlock { magic: 0, size: 0, nblocks: 0, ninodes: 0, nlog: 0, logstart: 0, inodestart: 0, bmapstart: 0 }
    }

    /// The superblock that a block holds.
    pub open spec fn decode(bytes: Seq<u8>) -> SuperBlock {
        SuperBlock {
            magic: le32(bytes, 0) as u32,
            size: le32(bytes, 4) as u32,
            nblocks: le32(bytes, 8) as u32,
            ninodes: le32(bytes, 12) as u32,
            nlog: le32(bytes, 16) as u32,
            logstart: le32(bytes, 20) as u32,
            inodestart: le32(bytes, 24) as u32,
            bmapstart: le32(bytes, 28) as u32,
        }
    }

    /// Reads a superblock from the bytes of its block.
    pub fn from_bytes(bytes: &Vec<u8>) -> (this: Self)
        requires
            bytes@.len() >= 32,
        ensures
            this == Self::decode(bytes@),
    {
        SuperBlock {
            magic: get_u32(bytes, 0),
            size: get_u32(bytes, 4),
            nblocks: get_u32(bytes, 8),
            ninodes: get_u32(bytes, 12),
            nlog: get_u32(bytes, 16),
            logstart: get_u32(bytes, 20),
            inodestart: get_u32(bytes, 24),
            bmapstart: get_u32(bytes, 28),
        }
    }

    /// The block that holds inode `index`.
    pub fn inode_block_at(&self, index: usize) -> (r: usize)
        requires
            self.inodestart + index / INODES_PER_BLOCK <= usize::MAX,
        ensures
            r == self.inodestart + index as int / 16,
    {
        self.inodestart as usize + index / INODES_PER_BLOCK
    }

    /// The block of the free map that holds the bit of block `index`.
    pub fn bitmap_at(&self, index: usize) -> (r: usize)
        requires
            self.bmapstart + index / BITMAP_BITS <= usize::MAX,
        ensures
            r == self.bmapstart + index as int / 8192,
    {
        self.bmapstart as usize + index / BITMAP_BITS
    }
}

} // verus!
