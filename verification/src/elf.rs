//! Format of an ELF executable file.
use vstd::prelude::*;
use crate::filesystem::bytes::{get_u16, get_u32, get_u64, slice_of};
#[allow(unused_imports)]
use crate::filesystem::bytes::{le16, le32, le64};

verus! {

/// Bytes of a file header.
pub const ELF_HEADER_SIZE: usize = 64;

/// Bytes of a program section header.
pub const PROGRAM_HEADER_SIZE: usize = 56;

/// File header.
pub struct ELFHeader {
    pub magic: u32,
    pub elf: Vec<u8>,
    pub kind: u16,
    pub machine: u16,
    pub version: u32,
    pub entry: u64,
    pub phoff: u64,
    pub shoff: u64,
    pub flags: u32,
    pub ehsize: u16,
    pub phentsize: u16,
    pub phnum: u16,
    pub shentsize: u16,
    pub shnum: u16,
    pub shstrndx: u16,
}

impl ELFHeader {
    /// The header is the one that `bytes` begin with.
    pub open spec fn is_header_of(&self, bytes: Seq<u8>) -> bool {
        &&& self.magic == le32(bytes, 0)
        &&& self.elf@ == bytes.subrange(4, 16)
        &&& self.kind == le16(bytes, 16)
        &&& self.machine == le16(bytes, 18)
        &&& self.version == le32(bytes, 20)
        &&& self.entry == le64(bytes, 24)
        &&& self.phoff == le64(bytes, 32)
        &&& self.shoff == le64(bytes, 40)
        &&& self.flags == le32(bytes, 48)
        &&& self.ehsize == le16(bytes, 52)
        &&& self.phentsize == le16(bytes, 54)
        &&& self.phnum == le16(bytes, 56)
        &&& self.shentsize == le16(bytes, 58)
        &&& self.shnum == le16(bytes, 60)
        &&& self.shstrndx == le16(bytes, 62)
    }

    pub fn from_bytes(bytes: &Vec<u8>) -> (this: Self)
        requires
            bytes@.len() == ELF_HEADER_SIZE,
        ensures
            this.is_header_of(bytes@),
    {
        ELFHeader {
            magic: get_u32(bytes, 0),
            elf: slice_of(bytes, 4, 12),
            kind: get_u16(bytes, 16),
            machine: get_u16(bytes, 18),
            version: get_u32(bytes, 20),
            entry: get_u64(bytes, 24),
            phoff: get_u64(bytes, 32),
            shoff: get_u64(bytes, 40),
            flags: get_u32(bytes, 48),
            ehsize: get_u16(bytes, 52),
            phentsize: get_u16(bytes, 54),
            phnum: get_u16(bytes, 56),
            shentsize: get_u16(bytes, 58),
            shnum: get_u16(bytes, 60),
            shstrndx: get_u16(bytes, 62),
        }
    }

    /// Whether the file begins as an ELF file must.
    pub fn validate_magic(&self) -> (r: bool)
        ensures
            r == (self.magic == 0x464c_457f),
    {
        self.magic == 0x464c_457f
    }
}

/// Program section header.
#[derive(Clone, Copy)]
pub struct ProgramHeader {
    pub kind: u32,
    pub flags: u32,
    pub off: u64,
    pub vaddr: u64,
    pub paddr: u64,
    pub filesz: u64,
    pub memsz: u64,
    pub align: u64,
}

impl ProgramHeader {
    pub const KIND_LOAD: u32 = 1;

    pub const FLAG_EXEC: u32 = 1;

    pub const FLAG_WRITE: u32 = 2;

    pub const FLAG_READ: u32 = 4;

    /// The header that stands in `bytes` at `at`.
    pub open spec fn decode(bytes: Seq<u8>, at: int) -> ProgramHeader {
        ProgramHeader {
            kind: le32(bytes, at) as u32,
            flags: le32(bytes, at + 4) as u32,
            off: le64(bytes, at + 8) as u64,
            vaddr: le64(bytes, at + 16) as u64,
            paddr: le64(bytes, at + 24) as u64,
            filesz: le64(bytes, at + 32) as u64,
            memsz: le64(bytes, at + 40) as u64,
            align: le64(bytes, at + 48) as u64,
        }
    }

    pub fn from_bytes(bytes: &Vec<u8>) -> (this: Self)
        requires
            bytes@.len() == PROGRAM_HEADER_SIZE,
        ensures
            this == Self::decode(bytes@, 0),
    {
        ProgramHeader {
            kind: get_u32(bytes, 0),
            flags: get_u32(bytes, 4),
            off: get_u64(bytes, 8),
            vaddr: get_u64(bytes, 16),
            paddr: get_u64(bytes, 24),
            filesz: get_u64(bytes, 32),
            memsz: get_u64(bytes, 40),
            align: get_u64(bytes, 48),
        }
    }
}

} // verus!
