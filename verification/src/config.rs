//! Sizes of the kernel's fixed tables.
use vstd::prelude::*;

verus! {

/// Maximum number of processes.
pub const NPROC: usize = 64;

/// Maximum number of CPUs.
pub const NCPU: usize = 8;

/// Open files per process.
pub const NOFILE: usize = 16;

/// Maximum number of active i-nodes.
pub const NINODE: usize = 50;

/// Maximum major device number.
pub const NDEV: usize = 10;

/// Device number of the file system root disk.
pub const ROOTDEV: usize = 1;

/// Maximum number of exec arguments.
pub const MAXARG: usize = 32;

/// Maximum number of blocks any file system operation writes.
pub const MAXOPBLOCKS: usize = 10;

/// Maximum number of data blocks in the on-disk log.
pub const LOGSIZE: usize = 30;

/// Size of the disk block cache.
pub const NBUF: usize = 30;

/// Maximum length of a path name.
pub const MAXPATH: usize = 128;

/// Bytes of stack that each CPU has while it boots.
pub const ENTRY_STACKSIZE: usize = 4096;

} // verus!
