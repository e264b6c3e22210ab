//! Virtio device definitions, for both the mmio interface and virtio descriptors. This is the
//! interface that qemu calls "legacy".
use vstd::prelude::*;
use crate::memory_layout::VIRTIO0;

pub mod device;
pub mod disk;

verus! {

/// Must read 0x74726976.
pub const MAGIC_VALUE: u64 = 0x000;

/// Must read 2.
pub const VERSION: u64 = 0x004;

/// Device type; 1 is net, 2 is disk.
pub const DEVICE_ID: u64 = 0x008;

/// Must read 0x554d4551.
pub const VENDOR_ID: u64 = 0x00c;

pub const DEVICE_FEATURES: u64 = 0x010;

pub const DRIVER_FEATURES: u64 = 0x020;

/// Select queue, write-only.
pub const QUEUE_SEL: u64 = 0x030;

/// Max size of current queue, read-only.
pub const QUEUE_NUM_MAX: u64 = 0x034;

/// Size of current queue, write-only.
pub const QUEUE_NUM: u64 = 0x038;

/// Ready bit.
pub const QUEUE_READY: u64 = 0x044;

/// Write-only.
pub const QUEUE_NOTIFY: u64 = 0x050;

/// Read-only.
pub const INTERRUPT_STATUS: u64 = 0x060;

/// Write-only.
pub const INTERRUPT_ACK: u64 = 0x064;

/// Read/write.
pub const STATUS: u64 = 0x070;

/// Physical address for descriptor table, write-only.
pub const QUEUE_DESC_LOW: u64 = 0x080;

pub const QUEUE_DESC_HIGH: u64 = 0x084;

/// Physical address for available ring, write-only.
pub const DRIVER_DESC_LOW: u64 = 0x090;

pub const DRIVER_DESC_HIGH: u64 = 0x094;

/// Physical address for used ring, write-only.
pub const DEVICE_DESC_LOW: u64 = 0x0a0;

pub const DEVICE_DESC_HIGH: u64 = 0x0a4;

/// Status register bits.
pub const STATUS_ACKNOWLEDGE: u32 = 1;

pub const STATUS_DRIVER: u32 = 2;

pub const STATUS_DRIVER_OK: u32 = 4;

pub const STATUS_FEATURES_OK: u32 = 8;

/// Device feature bits: disk is read-only.
pub const FEATURE_BLK_RO: u32 = 5;

/// Supports scsi command passthru.
pub const FEATURE_BLK_SCSI: u32 = 7;

/// Writeback mode available in config.
pub const FEATURE_BLK_CONFIG_WCE: u32 = 11;

/// Support more than one vq.
pub const FEATURE_BLK_MQ: u32 = 12;

pub const FEATURE_ANY_LAYOUT: u32 = 27;

pub const FEATURE_RING_INDIRECT_DESC: u32 = 28;

pub const FEATURE_RING_EVENT_IDX: u32 = 29;

/// This many virtio descriptors. Must be a power of two.
pub const DESCRIPTOR_NUM: usize = 8;

/// Chained with another descriptor.
pub const VRING_DESC_F_NEXT: u16 = 1;

/// Device writes (vs read).
pub const VRING_DESC_F_WRITE: u16 = 2;

/// A single descriptor.
#[derive(Clone, Copy, Debug, PartialEq, Eq, Structural)]
pub struct Descriptor {
    pub addr: u64,
    pub len: u32,
    pub flags: u16,
    pub next: u16,
}

impl Descriptor {
    pub fn zeroed() -> (r: Self)
        ensures
            r == (Descriptor { addr: 0, len: 0, flags: 0, next: 0 }),
    {
        Descriptor { addr: 0, len: 0, flags: 0, next: 0 }
    }
}

/// The (entire) avail ring.
pub struct Avail {
    /// Always zero.
    pub flags: u16,
    /// Driver will write ring\[idx\] next.
    pub idx: u16,
    /// Descriptor numbers of chain heads.
    pub ring: Vec<u16>,
    pub unused: u16,
}

impl Avail {
    pub fn zeroed() -> (r: Self)
        ensures
            r.flags == 0,
            r.idx == 0,
            r.ring@ == Seq::new(DESCRIPTOR_NUM as nat, |i: int| 0u16),
            r.unused == 0,
    {
        let mut ring: Vec<u16> = Vec::new();
        let mut i: usize = 0;
        while i < DESCRIPTOR_NUM
            invariant
                i <= DESCRIPTOR_NUM,
                ring@ =~= Seq::new(i as nat, |i: int| 0u16),
            decreases DESCRIPTOR_NUM - i,
        {
            ring.push(0);
            i = i + 1;
        }
        Avail { flags: 0, idx: 0, ring, unused: 0 }
    }
}

/// One entry in the "used" ring, with which the device tells the driver about completed
/// requests.
#[derive(Clone, Copy, Debug, PartialEq, Eq, Structural)]
pub struct UsedElem {
    /// Index of start of completed descriptor chain.
    pub id: u32,
    pub len: u32,
}

impl UsedElem {
    pub fn zeroed() -> (r: Self)
        ensures
            r == (UsedElem { id: 0, len: 0 }),
    {
        UsedElem { id: 0, len: 0 }
    }
}

/// The "used" ring.
pub struct Used {
    /// Always zero.
    pub flags: u16,
    /// Device increments when it adds a ring\[\] entry.
    pub idx: u16,
    pub ring: Vec<UsedElem>,
}

impl Used {
    pub fn zeroed() -> (r: Self)
        ensures
            r.flags == 0,
            r.idx == 0,
            r.ring@ == Seq::new(DESCRIPTOR_NUM as nat, |i: int| UsedElem { id: 0, len: 0 }),
    {
        let mut ring: Vec<UsedElem> = Vec::new();
        let mut i: usize = 0;
        while i < DESCRIPTOR_NUM
            invariant
                i <= DESCRIPTOR_NUM,
                ring@ =~= Seq::new(i as nat, |i: int| UsedElem { id: 0, len: 0 }),
            decreases DESCRIPTOR_NUM - i,
        {
            ring.push(UsedElem::zeroed());
            i = i + 1;
        }
        Used { flags: 0, idx: 0, ring }
    }
}

/// What a request to a disk is about.
#[derive(Clone, Copy, Debug, PartialEq, Eq, Structural)]
pub enum BlockRequestType {
    Read,
    Write,
}

impl BlockRequestType {
    /// The number that stands for the type in a request.
    pub open spec fn type_number(&self) -> u32 {
        match self {
            BlockRequestType::Read => 0,
            BlockRequestType::Write => 1,
        }
    }

    /// The number that stands for the type in a request.
    pub fn number(&self) -> (r: u32)
        ensures
            r == if *self == BlockRequestType::Read { 0u32 } else { 1u32 },
            r == self.type_number(),
    {
        match self {
            BlockRequestType::Read => 0,
            BlockRequestType::Write => 1,
        }
    }
}

/// The format of the first descriptor in a disk request, to be followed by two more descriptors
/// containing the block, and a one-byte status.
#[derive(Clone, Copy, Debug, PartialEq, Eq, Structural)]
pub struct BlockRequest {
    pub ty: BlockRequestType,
    pub reserved: u32,
    pub sector: u64,
}

/// The address of virtio mmio register `reg`.
pub fn mmio_register(reg: u64) -> (r: u64)
    requires
        reg <= 0xffff,
    ensures
        r == VIRTIO0 + reg,
{
    VIRTIO0 + reg
}

} // verus!
