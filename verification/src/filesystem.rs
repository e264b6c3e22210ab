//! On-disk structures and the layers below files: devices, buffers and the log.
use vstd::prelude::*;

pub mod buffer;
pub mod bytes;
pub mod device;
pub mod directory_entry;
pub mod file;
pub mod format;
pub mod inode;
pub mod layout;
pub mod log;
pub mod path;
pub mod stat;
pub mod superblock;
pub mod volume;

verus! {

/// Bits in one block of the free map.
pub const BITMAP_BITS: usize = 8192;

/// Inodes in one block.
pub const INODES_PER_BLOCK: usize = 16;

/// Number of the root directory's inode.
pub const ROOTINO: usize = 1;

/// Blocks that an inode refers to itself.
pub const NDIRECT: usize = 12;

/// Blocks that an inode refers to through its indirect block.
pub const NINDIRECT: usize = 256;

/// Blocks of the largest file.
pub const MAXFILE: usize = 268;

pub const FSMAGIC: u32 = 0x10203040;

} // verus!
