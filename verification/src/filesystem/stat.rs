//! What a program can ask about a file.
use vstd::prelude::*;
use crate::filesystem::inode::InodeKind;

verus! {

/// Attributes of a file.
pub struct Stat {
    pub device: u32,
    pub inode: u32,
    pub kind: InodeKind,
    pub nlink: u16,
    pub size: usize,
}

} // verus!
