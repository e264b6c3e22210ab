//! Driver for the virtio disk device.
use vstd::prelude::*;
use crate::allocator::{frame_at, is_frame_addr, KernelAllocator};
use crate::bitmap::Bitmap;
use crate::virtio::{
    Avail, BlockRequest, BlockRequestType, Descriptor, Used, UsedElem, DESCRIPTOR_NUM, DEVICE_DESC_HIGH, DEVICE_DESC_LOW, DEVICE_FEATURES, DEVICE_ID,
    DRIVER_DESC_HIGH, DRIVER_DESC_LOW, DRIVER_FEATURES, MAGIC_VALUE, QUEUE_DESC_HIGH, QUEUE_DESC_LOW, QUEUE_NUM, QUEUE_NUM_MAX, QUEUE_READY, QUEUE_SEL,
    STATUS, STATUS_ACKNOWLEDGE, STATUS_DRIVER, STATUS_DRIVER_OK, STATUS_FEATURES_OK, VENDOR_ID, VERSION, VRING_DESC_F_NEXT, VRING_DESC_F_WRITE,
};

verus! {

/// What is known of an operation in flight, for when its completion interrupt arrives.
#[derive(Clone, Copy, Debug, PartialEq, Eq, Structural)]
pub struct Info {
    pub addr: u64,
    pub in_use: bool,
    pub status: u8,
}

/// The driver's side of the disk.
pub struct Disk {
    /// A set (not a ring) of DMA descriptors, with which the driver tells the device where to
    /// read and write individual disk operations. Most commands consist of a "chain" (a linked
    /// list) of a couple of these descriptors.
    pub descriptor: Vec<Descriptor>,
    /// A ring in which the driver writes descriptor numbers that the driver would like the
    /// device to process. It only includes the head descriptor of each chain.
    pub avail: Avail,
    /// A ring in which the device writes descriptor numbers that the device has finished
    /// processing (just the head of each chain).
    pub used: Used,
    /// Is a descriptor in use?
    pub free: Bitmap<DESCRIPTOR_NUM>,
    /// We've looked this far in `used`.
    pub used_index: u16,
    /// Operations in flight, by the first descriptor of the chain.
    pub info: Vec<Info>,
    /// Disk command headers, one for one with descriptors.
    pub ops: Vec<BlockRequest>,
    /// Physical addresses of the descriptor table, the avail ring and the used ring.
    pub descriptor_addr: u64,
    pub avail_addr: u64,
    pub used_addr: u64,
    /// Physical addresses of the first command header and of the first status byte. Headers and
    /// status bytes of successive descriptors lie 16 bytes apart.
    pub ops_addr: u64,
    pub status_addr: u64,
}

/// A register and the value that is written to it.
pub struct RegisterWrite {
    pub register: u64,
    pub value: u32,
}

/// How far the initialisation of the device is.
#[derive(Clone, Copy, Debug, PartialEq, Eq, Structural)]
pub enum InitState {
    /// The device has to be identified.
    Identify,
    /// The features of the device are to be read.
    Negotiate,
    /// The device has to confirm the features.
    Confirm,
    /// The queue has to be free and large enough.
    Queue { status: u32 },
    /// The queue can be set up.
    Ready { status: u32 },
    /// This is not a disk that the driver can use.
    Failed,
}

/// The registers that have to be read in a state of the initialisation.
pub open spec fn registers_of(state: InitState) -> Seq<u64> {
    match state {
        InitState::Identify => seq![MAGIC_VALUE, VERSION, DEVICE_ID, VENDOR_ID],
        InitState::Negotiate => seq![DEVICE_FEATURES],
        InitState::Confirm => seq![STATUS],
        InitState::Queue { .. } => seq![QUEUE_READY, QUEUE_NUM_MAX],
        _ => Seq::empty(),
    }
}

/// The features that the driver accepts of those that the device offers.
pub open spec fn accepted(features: u32) -> u32 {
    features & !0x3800_18a0u32
}

/// Registers and values as plain pairs.
pub open spec fn writes_of(w: Seq<RegisterWrite>) -> Seq<(u64, u32)> {
    Seq::new(w.len(), |i: int| (w[i].register, w[i].value))
}

/// The next state of the initialisation and what is written to registers, given what was read.
pub open spec fn init_after(state: InitState, read: Seq<u32>) -> (InitState, Seq<(u64, u32)>) {
    match state {
        InitState::Identify => if read[0] == 0x7472_6976 && read[1] == 2 && read[2] == 2 && read[3] == 0x554d_4551 {
            (
                InitState::Negotiate,
                seq![(STATUS, 0u32), (STATUS, STATUS_ACKNOWLEDGE), (STATUS, STATUS_ACKNOWLEDGE | STATUS_DRIVER)],
            )
        } else {
            (InitState::Failed, Seq::empty())
        },
        InitState::Negotiate => (
            InitState::Confirm,
            seq![(DRIVER_FEATURES, accepted(read[0])), (STATUS, STATUS_ACKNOWLEDGE | STATUS_DRIVER | STATUS_FEATURES_OK)],
        ),
        InitState::Confirm => if read[0] & STATUS_FEATURES_OK != 0 {
            (InitState::Queue { status: read[0] }, seq![(QUEUE_SEL, 0u32)])
        } else {
            (InitState::Failed, Seq::empty())
        },
        InitState::Queue { status } => if read[0] == 0 && read[1] >= DESCRIPTOR_NUM {
            (InitState::Ready { status }, Seq::empty())
        } else {
            (InitState::Failed, Seq::empty())
        },
        _ => (state, Seq::empty()),
    }
}

/// Clears the feature bits that the driver does not support.
fn supported_features(features: u32) -> (r: u32)
    ensures
        r == accepted(features),
{
    let mut f = features;
    f = f & !(1u32 << 5);
    f = f & !(1u32 << 7);
    f = f & !(1u32 << 11);
    f = f & !(1u32 << 12);
    f = f & !(1u32 << 27);
    f = f & !(1u32 << 29);
    f = f & !(1u32 << 28);
    proof {
        assert(features & !(1u32 << 5) & !(1u32 << 7) & !(1u32 << 11) & !(1u32 << 12) & !(1u32 << 27) & !(1u32 << 29) & !(1u32 << 28) == features
            & !0x3800_18a0u32) by (bit_vector);
    }
    f
}

/// The registers to read in a state of the initialisation, in this order.
pub fn registers_to_read(state: InitState) -> (r: Vec<u64>)
    ensures
        r@ == registers_of(state),
{
    let mut r: Vec<u64> = Vec::new();
    match state {
        InitState::Identify => {
            r.push(MAGIC_VALUE);
            r.push(VERSION);
            r.push(DEVICE_ID);
            r.push(VENDOR_ID);
        },
        InitState::Negotiate => {
            r.push(DEVICE_FEATURES);
        },
        InitState::Confirm => {
            r.push(STATUS);
        },
        InitState::Queue { .. } => {
            r.push(QUEUE_READY);
            r.push(QUEUE_NUM_MAX);
        },
        _ => {},
    }
    proof {
        assert(r@ =~= registers_of(state));
    }
    r
}

/// One step of the initialisation: given the values of the registers that `registers_to_read`
/// names, the next state and what to write to registers.
pub fn init_step(state: InitState, read: &Vec<u32>) -> (r: (InitState, Vec<RegisterWrite>))
    requires
        read@.len() == registers_of(state).len(),
    ensures
        r.0 == init_after(state, read@).0,
        writes_of(r.1@) == init_after(state, read@).1,
{
    let mut w: Vec<RegisterWrite> = Vec::new();
    proof {
        assert(writes_of(w@) =~= Seq::<(u64, u32)>::empty());
        assert(0u32 | 1 == 1 && 1u32 | 2 == (1 | 2)) by (bit_vector);
    }
    match state {
        InitState::Identify => {
            if read[0] != 0x7472_6976 || read[1] != 2 || read[2] != 2 || read[3] != 0x554d_4551 {
                return (InitState::Failed, w);
            }
            let mut s: u32 = 0;
            w.push(RegisterWrite { register: STATUS, value: s });
            s = s | STATUS_ACKNOWLEDGE;
            w.push(RegisterWrite { register: STATUS, value: s });
            s = s | STATUS_DRIVER;
            w.push(RegisterWrite { register: STATUS, value: s });
            proof {
                assert(writes_of(w@) =~= init_after(state, read@).1);
            }
            (InitState::Negotiate, w)
        },
        InitState::Negotiate => {
            let features = supported_features(read[0]);
            w.push(RegisterWrite { register: DRIVER_FEATURES, value: features });
            w.push(RegisterWrite { register: STATUS, value: STATUS_ACKNOWLEDGE | STATUS_DRIVER | STATUS_FEATURES_OK });
            proof {
                assert(writes_of(w@) =~= init_after(state, read@).1);
            }
            (InitState::Confirm, w)
        },
        InitState::Confirm => {
            if read[0] & STATUS_FEATURES_OK == 0 {
                return (InitState::Failed, w);
            }
            w.push(RegisterWrite { register: QUEUE_SEL, value: 0 });
            proof {
                assert(writes_of(w@) =~= init_after(state, read@).1);
            }
            (InitState::Queue { status: read[0] }, w)
        },
        InitState::Queue { status } => {
            if read[0] != 0 || read[1] == 0 || read[1] < DESCRIPTOR_NUM as u32 {
                return (InitState::Failed, w);
            }
            (InitState::Ready { status }, w)
        },
        _ => (state, w),
    }
}

/// The last registers that are written: the size of the queue, where it is, and that all is
/// ready.
pub open spec fn queue_writes(status: u32, descriptor: u64, avail: u64, used: u64) -> Seq<(u64, u32)> {
    seq![
        (QUEUE_NUM, 8u32),
        (QUEUE_DESC_LOW, (descriptor % 0x1_0000_0000) as u32),
        (QUEUE_DESC_HIGH, (descriptor / 0x1_0000_0000) as u32),
        (DRIVER_DESC_LOW, (avail % 0x1_0000_0000) as u32),
        (DRIVER_DESC_HIGH, (avail / 0x1_0000_0000) as u32),
        (DEVICE_DESC_LOW, (used % 0x1_0000_0000) as u32),
        (DEVICE_DESC_HIGH, (used / 0x1_0000_0000) as u32),
        (QUEUE_READY, 1u32),
        (STATUS, status | STATUS_DRIVER_OK),
    ]
}

/// A read or write of a block that somebody waits for.
pub struct Request {
    pub addr: u64,
    pub block: u64,
    pub size: u64,
    pub write: bool,
    /// The descriptors that the request has so far.
    pub idx: Vec<usize>,
    /// Whether the device knows of the request.
    pub submitted: bool,
}

/// What has to happen for a request to go on.
#[derive(Clone, Copy, Debug, PartialEq, Eq, Structural)]
pub enum Progress {
    /// Wait until a descriptor is free.
    AwaitDescriptor,
    /// Tell the device to look at the queue, then wait for the request to complete.
    Notify,
    /// Wait for the request to complete.
    AwaitCompletion,
    /// The request is complete. Whoever waits for descriptors has to be woken.
    Done,
}

/// The request is for the block to be read.
pub open spec fn asks_read(q: Request, addr: u64, block: u64, size: u64) -> bool {
    q.addr == addr && q.block == block && q.size == size && !q.write
}

/// The request is for the block to be written.
pub open spec fn asks_write(q: Request, addr: u64, block: u64, size: u64) -> bool {
    q.addr == addr && q.block == block && q.size == size && q.write
}

/// A request to read a block of `size` bytes into memory at `addr`.
pub fn read(addr: u64, block: u64, size: u64) -> (r: Request)
    ensures
        r.addr == addr,
        r.block == block,
        r.size == size,
        !r.write,
        r.idx@.len() == 0,
        !r.submitted,
        asks_read(r, addr, block, size),
{
    Request { addr, block, size, write: false, idx: Vec::new(), submitted: false }
}

/// A request to write a block of `size` bytes from memory at `addr`.
pub fn write(addr: u64, block: u64, size: u64) -> (r: Request)
    ensures
        r.addr == addr,
        r.block == block,
        r.size == size,
        r.write,
        r.idx@.len() == 0,
        !r.submitted,
        asks_write(r, addr, block, size),
{
    Request { addr, block, size, write: true, idx: Vec::new(), submitted: false }
}

impl Request {
    /// The descriptors of the request are different ones, and in use.
    pub open spec fn wf(&self, disk: &Disk) -> bool {
        &&& self.idx@.len() <= 3
        &&& self.submitted ==> self.idx@.len() == 3
        &&& self.block * (self.size / 512) <= u64::MAX
        &&& self.size <= u32::MAX
        &&& forall|i: int| 0 <= i < self.idx@.len() ==> #[trigger] self.idx@[i] < DESCRIPTOR_NUM && disk.taken()[self.idx@[i] as int]
        &&& forall|i: int, k: int| 0 <= i < k < self.idx@.len() ==> #[trigger] self.idx@[i] != #[trigger] self.idx@[k]
    }

    /// The first sector of the block.
    pub open spec fn sector(&self) -> int {
        self.block * (self.size / 512)
    }
}

/// The three descriptors of a request form a chain: the command, the data, the status.
pub open spec fn chain(disk: Disk, req: Request) -> bool {
    let h = req.idx@[0] as int;
    &&& disk.ops@[h] == (BlockRequest {
        ty: if req.write { BlockRequestType::Write } else { BlockRequestType::Read },
        reserved: 0,
        sector: req.sector() as u64,
    })
    &&& disk.descriptor@[h] == (Descriptor {
        addr: (disk.ops_addr + 16 * h) as u64,
        len: 16,
        flags: VRING_DESC_F_NEXT,
        next: req.idx@[1] as u16,
    })
    &&& disk.descriptor@[req.idx@[1] as int] == (Descriptor {
        addr: req.addr,
        len: req.size as u32,
        flags: if req.write { VRING_DESC_F_NEXT } else { VRING_DESC_F_NEXT | VRING_DESC_F_WRITE },
        next: req.idx@[2] as u16,
    })
    &&& disk.descriptor@[req.idx@[2] as int] == (Descriptor {
        addr: (disk.status_addr + 16 * h) as u64,
        len: 1,
        flags: VRING_DESC_F_WRITE,
        next: 0,
    })
}

/// What work on a request comes to.
pub open spec fn rw_came_to(d0: Disk, d1: Disk, q0: Request, q1: Request, r: Progress) -> bool {
    &&& q1.addr == q0.addr && q1.block == q0.block && q1.size == q0.size && q1.write == q0.write
    &&& d1.used == d0.used && d1.used_index == d0.used_index && d1.ops_addr == d0.ops_addr && d1.status_addr == d0.status_addr
    &&& if q0.submitted {
        if d0.info@[q0.idx@[0] as int].in_use {
            r == Progress::AwaitCompletion && d1 == d0 && q1 == q0
        } else {
            &&& r == Progress::Done
            &&& d1 == (Disk { free: d1.free, ..d0 })
            &&& d1.taken() == d0.taken().update(q0.idx@[0] as int, false).update(q0.idx@[1] as int, false).update(
                q0.idx@[2] as int,
                false,
            )
            &&& q1.idx@.len() == 0
            &&& !q1.submitted
        }
    } else {
        &&& q1.wf(&d1)
        &&& q0.idx@.is_prefix_of(q1.idx@)
        &&& forall|i: int| q0.idx@.len() <= i < q1.idx@.len() ==> !d0.taken()[#[trigger] q1.idx@[i] as int]
        &&& forall|i: int| 0 <= i < 8 ==> #[trigger] d1.taken()[i] == (d0.taken()[i] || q1.idx@.contains(i as usize))
        &&& match r {
            Progress::Notify => {
                &&& q1.submitted
                &&& q1.idx@.len() == 3
                &&& chain(d1, q1)
                &&& d1.info@ == d0.info@.update(q1.idx@[0] as int, Info { addr: q0.addr, in_use: true, status: 0 })
                &&& d1.avail.idx == (if d0.avail.idx == u16::MAX { 0 } else { d0.avail.idx + 1 })
                &&& d1.avail.ring@ == d0.avail.ring@.update(d0.avail.idx as int % 8, q1.idx@[0] as u16)
                &&& others_untouched(d0, d1, q1)
            },
            Progress::AwaitDescriptor => {
                &&& !q1.submitted
                &&& q1.idx@.len() < 3
                &&& d1 == (Disk { free: d1.free, ..d0 })
                &&& forall|i: int| 0 <= i < 8 ==> #[trigger] d1.taken()[i]
            },
            _ => false,
        }
    }
}

impl Disk {
    /// Whether each descriptor is in use.
    pub open spec fn taken(&self) -> Seq<bool> {
        self.free@
    }

    pub open spec fn wf(&self) -> bool {
        &&& self.descriptor@.len() == DESCRIPTOR_NUM
        &&& self.avail.ring@.len() == DESCRIPTOR_NUM
        &&& self.used.ring@.len() == DESCRIPTOR_NUM
        &&& self.info@.len() == DESCRIPTOR_NUM
        &&& self.ops@.len() == DESCRIPTOR_NUM
        &&& self.free.wf()
        &&& self.ops_addr <= 0xffff_ffff_ffff_0000
        &&& self.status_addr <= 0xffff_ffff_ffff_0000
    }

    /// The driver's state for a device whose initialisation is `Ready`: takes three pages for
    /// the queue and says what to write to registers.
    pub fn init(a: &mut KernelAllocator, status: u32, ops_addr: u64, status_addr: u64) -> (r: (Self, Vec<RegisterWrite>))
        requires
            old(a).wf(),
            old(a).free().len() >= 3,
            ops_addr <= 0xffff_ffff_ffff_0000,
            status_addr <= 0xffff_ffff_ffff_0000,
        ensures
            final(a).wf(),
            final(a).free() == old(a).free().skip(3),
            ({
                let d = r.0;
                &&& d.wf()
                &&& frame_at(d.descriptor_addr as int) == old(a).free()[0] && is_frame_addr(d.descriptor_addr as int)
                &&& frame_at(d.avail_addr as int) == old(a).free()[1] && is_frame_addr(d.avail_addr as int)
                &&& frame_at(d.used_addr as int) == old(a).free()[2] && is_frame_addr(d.used_addr as int)
                &&& d.descriptor@ == Seq::new(8, |i: int| Descriptor { addr: 0, len: 0, flags: 0, next: 0 })
                &&& d.avail.idx == 0 && d.avail.flags == 0 && d.avail.unused == 0
                &&& d.avail.ring@ == Seq::new(8, |i: int| 0u16)
                &&& d.used.idx == 0 && d.used.flags == 0
                &&& d.used.ring@ == Seq::new(8, |i: int| UsedElem { id: 0, len: 0 })
                &&& d.info@ == Seq::new(8, |i: int| Info { addr: 0, in_use: false, status: 0 })
                &&& d.ops@ == Seq::new(8, |i: int| BlockRequest { ty: BlockRequestType::Read, reserved: 0, sector: 0 })
                &&& d.used_index == 0
                &&& d.taken() == Seq::new(8, |i: int| false)
                &&& d.ops_addr == ops_addr
                &&& d.status_addr == status_addr
                &&& writes_of(r.1@) == queue_writes(status, d.descriptor_addr, d.avail_addr, d.used_addr)
            }),
    {
        let ghost a0 = *a;
        let descriptor_addr = take_page(a);
        let ghost a1 = *a;
        let avail_addr = take_page(a);
        let used_addr = take_page(a);
        proof {
            assert(a1.free()[0] == a0.free()[1]);
            assert(a1.free().skip(1)[0] == a0.free()[2]);
            assert(a.free() =~= a0.free().skip(3));
        }
        let mut descriptor: Vec<Descriptor> = Vec::new();
        let mut info: Vec<Info> = Vec::new();
        let mut ops: Vec<BlockRequest> = Vec::new();
        let mut i: usize = 0;
        while i < DESCRIPTOR_NUM
            invariant
                i <= DESCRIPTOR_NUM,
                descriptor@ =~= Seq::new(i as nat, |i: int| Descriptor { addr: 0, len: 0, flags: 0, next: 0 }),
                info@ =~= Seq::new(i as nat, |i: int| Info { addr: 0, in_use: false, status: 0 }),
                ops@ =~= Seq::new(i as nat, |i: int| BlockRequest { ty: BlockRequestType::Read, reserved: 0, sector: 0 }),
            decreases DESCRIPTOR_NUM - i,
        {
            descriptor.push(Descriptor::zeroed());
            info.push(Info { addr: 0, in_use: false, status: 0 });
            ops.push(BlockRequest { ty: BlockRequestType::Read, reserved: 0, sector: 0 });
            i = i + 1;
        }
        let mut w: Vec<RegisterWrite> = Vec::new();
        w.push(RegisterWrite { register: QUEUE_NUM, value: DESCRIPTOR_NUM as u32 });
        w.push(RegisterWrite { register: QUEUE_DESC_LOW, value: (descriptor_addr % 0x1_0000_0000) as u32 });
        w.push(RegisterWrite { register: QUEUE_DESC_HIGH, value: (descriptor_addr / 0x1_0000_0000) as u32 });
        w.push(RegisterWrite { register: DRIVER_DESC_LOW, value: (avail_addr % 0x1_0000_0000) as u32 });
        w.push(RegisterWrite { register: DRIVER_DESC_HIGH, value: (avail_addr / 0x1_0000_0000) as u32 });
        w.push(RegisterWrite { register: DEVICE_DESC_LOW, value: (used_addr % 0x1_0000_0000) as u32 });
        w.push(RegisterWrite { register: DEVICE_DESC_HIGH, value: (used_addr / 0x1_0000_0000) as u32 });
        w.push(RegisterWrite { register: QUEUE_READY, value: 0x1 });
        w.push(RegisterWrite { register: STATUS, value: status | STATUS_DRIVER_OK });
        proof {
            assert(writes_of(w@) =~= queue_writes(status, descriptor_addr, avail_addr, used_addr));
        }
        let disk = Disk {
            descriptor,
            avail: Avail::zeroed(),
            used: Used::zeroed(),
            free: Bitmap::new(),
            used_index: 0,
            info,
            ops,
            descriptor_addr,
            avail_addr,
            used_addr,
            ops_addr,
            status_addr,
        };
        (disk, w)
    }

    /// Takes a descriptor that is not in use.
    fn allocate_descriptor(&mut self) -> (r: Option<usize>)
        requires
            old(self).wf(),
        ensures
            final(self).wf(),
            match r {
                Some(i) => {
                    &&& i < DESCRIPTOR_NUM
                    &&& !old(self).taken()[i as int]
                    &&& final(self).taken() == old(self).taken().update(i as int, true)
                },
                None => {
                    &&& forall|j: int| 0 <= j < DESCRIPTOR_NUM ==> #[trigger] old(self).taken()[j]
                    &&& final(self).taken() == old(self).taken()
                },
            },
            *final(self) == (Disk { free: final(self).free, ..*old(self) }),
    {
        self.free.allocate()
    }

    /// Gives back a descriptor.
    fn deallocate_descriptor(&mut self, index: usize)
        requires
            old(self).wf(),
            index < DESCRIPTOR_NUM,
            old(self).taken()[index as int],
        ensures
            final(self).wf(),
            final(self).taken() == old(self).taken().update(index as int, false),
            *final(self) == (Disk { free: final(self).free, ..*old(self) }),
    {
        let _ = self.free.deallocate(index);
    }

    /// Fills in the three descriptors of a request and puts the first one on the avail ring.
    fn submit(&mut self, req: &Request)
        requires
            old(self).wf(),
            req.wf(old(self)),
            req.idx@.len() == 3,
        ensures
            final(self).wf(),
            final(self).taken() == old(self).taken(),
            chain(*final(self), *req),
            final(self).info@ == old(self).info@.update(req.idx@[0] as int, Info { addr: req.addr, in_use: true, status: 0 }),
            final(self).avail.idx == (if old(self).avail.idx == u16::MAX { 0 } else { old(self).avail.idx + 1 }),
            final(self).avail.ring@ == old(self).avail.ring@.update(old(self).avail.idx as int % 8, req.idx@[0] as u16),
            final(self).used == old(self).used,
            final(self).used_index == old(self).used_index,
            final(self).ops_addr == old(self).ops_addr,
            final(self).status_addr == old(self).status_addr,
            others_untouched(*old(self), *final(self), *req),
    {
        let i0 = req.idx[0];
        let i1 = req.idx[1];
        let i2 = req.idx[2];
        proof {
            assert(i0 != i1 && i0 != i2 && i1 != i2) by {
                assert(req.idx@[0] != req.idx@[1]);
                assert(req.idx@[0] != req.idx@[2]);
                assert(req.idx@[1] != req.idx@[2]);
            }
        }
        let sector: u64 = req.block * (req.size / 512);
        let ty = if req.write {
            BlockRequestType::Write
        } else {
            BlockRequestType::Read
        };
        self.ops.set(i0, BlockRequest { ty, reserved: 0, sector });
        self.descriptor.set(
            i0,
            Descriptor { addr: self.ops_addr + 16 * i0 as u64, len: 16, flags: VRING_DESC_F_NEXT, next: i1 as u16 },
        );
        let flags = if req.write {
            VRING_DESC_F_NEXT
        } else {
            VRING_DESC_F_NEXT | VRING_DESC_F_WRITE
        };
        self.descriptor.set(i1, Descriptor { addr: req.addr, len: req.size as u32, flags, next: i2 as u16 });
        self.info.set(i0, Info { addr: req.addr, in_use: true, status: 0 });
        self.descriptor.set(
            i2,
            Descriptor { addr: self.status_addr + 16 * i0 as u64, len: 1, flags: VRING_DESC_F_WRITE, next: 0 },
        );
        let at = self.avail.idx as usize % DESCRIPTOR_NUM;
        self.avail.ring.set(at, i0 as u16);
        self.avail.idx = self.avail.idx.wrapping_add(1);
    }

    /// Works on a request as far as is possible without waiting.
    #[verifier::rlimit(40)]
    pub fn rw(&mut self, req: &mut Request) -> (r: Progress)
        requires
            old(self).wf(),
            old(req).wf(old(self)),
        ensures
            final(self).wf(),
            rw_came_to(*old(self), *final(self), *old(req), *final(req), r),
    {
        let ghost d0 = *self;
        let ghost q0 = *req;
        if req.submitted {
            if self.info[req.idx[0]].in_use {
                return Progress::AwaitCompletion;
            }
            proof {
                assert(req.idx@[0] != req.idx@[1]);
                assert(req.idx@[0] != req.idx@[2]);
                assert(req.idx@[1] != req.idx@[2]);
            }
            self.deallocate_descriptor(req.idx[0]);
            self.deallocate_descriptor(req.idx[1]);
            self.deallocate_descriptor(req.idx[2]);
            req.idx = Vec::new();
            req.submitted = false;
            return Progress::Done;
        }
        while req.idx.len() < 3
            invariant
                d0 == *old(self),
                q0 == *old(req),
                self.wf(),
                req.wf(self),
                !req.submitted,
                req.addr == q0.addr,
                req.block == q0.block,
                req.size == q0.size,
                req.write == q0.write,
                *self == (Disk { free: self.free, ..d0 }),
                q0.idx@.is_prefix_of(req.idx@),
                forall|i: int| q0.idx@.len() <= i < req.idx@.len() ==> !d0.taken()[#[trigger] req.idx@[i] as int],
                forall|i: int| 0 <= i < 8 ==> #[trigger] self.taken()[i] == (d0.taken()[i] || req.idx@.contains(i as usize)),
                !q0.submitted,
            decreases 3 - req.idx@.len(),
        {
            let ghost before = req.idx@;
            let ghost d1 = *self;
            match self.allocate_descriptor() {
                Some(i) => {
                    req.idx.push(i);
                    proof {
                        let after = req.idx@;
                        assert(after =~= before.push(i));
                        assert forall|k: int| 0 <= k < before.len() implies #[trigger] before[k] != i by {
                            assert(d1.taken()[before[k] as int]);
                        }
                        assert forall|k: int| 0 <= k < 8 implies #[trigger] self.taken()[k] == (d0.taken()[k] || after.contains(k as usize)) by {
                            assert(d1.taken()[k] == (d0.taken()[k] || before.contains(k as usize)));
                            if k == i {
                                assert(after[before.len() as int] == i);
                            } else if before.contains(k as usize) {
                                let m = choose|m: int| 0 <= m < before.len() && before[m] == k as usize;
                                assert(after[m] == k as usize);
                            } else if after.contains(k as usize) {
                                let m = choose|m: int| 0 <= m < after.len() && after[m] == k as usize;
                                if m < before.len() {
                                    assert(before[m] == k as usize);
                                }
                            }
                        }
                        assert(!d1.taken()[i as int]);
                        assert(d1.taken()[i as int] == (d0.taken()[i as int] || before.contains(i)));
                    }
                },
                None => {
                    return Progress::AwaitDescriptor;
                },
            }
        }
        let ghost d1 = *self;
        self.submit(req);
        req.submitted = true;
        Progress::Notify
    }

    /// Handles an interrupt: every request that the device has completed since the last one is
    /// no longer in use. The result is the memory whose waiters have to be woken, in order.
    #[verifier::rlimit(40)]
    pub fn interrupt_handler(&mut self) -> (r: Vec<u64>)
        requires
            old(self).wf(),
            forall|i: int|
                0 <= i < completed(*old(self)) ==> {
                    let id = #[trigger] used_id(*old(self), i);
                    &&& id < DESCRIPTOR_NUM
                    &&& old(self).info@[id].status == 0
                },
        ensures
            final(self).wf(),
            final(self).used_index == old(self).used.idx,
            r@.len() == completed(*old(self)),
            forall|i: int| 0 <= i < r@.len() ==> #[trigger] r@[i] == old(self).info@[used_id(*old(self), i)].addr,
            forall|k: int| 0 <= k < 8 ==> #[trigger] final(self).info@[k] == (Info {
                in_use: old(self).info@[k].in_use && !is_completed(*old(self), k, completed(*old(self))),
                ..old(self).info@[k]
            }),
            handled(*old(self), *final(self), r@),
            final(self).descriptor == old(self).descriptor,
            final(self).avail == old(self).avail,
            final(self).used == old(self).used,
            final(self).free == old(self).free,
            final(self).ops == old(self).ops,
    {
        let ghost d0 = *self;
        let mut woken: Vec<u64> = Vec::new();
        let ghost mut n: int = 0;
        while self.used_index != self.used.idx
            invariant
                d0 == *old(self),
                d0.wf(),
                self.wf(),
                0 <= n <= completed(d0),
                self.used_index as int == (d0.used_index + n) % 65536,
                woken@.len() == n,
                forall|i: int|
                    0 <= i < completed(d0) ==> {
                        let id = #[trigger] used_id(d0, i);
                        &&& id < DESCRIPTOR_NUM
                        &&& d0.info@[id].status == 0
                    },
                forall|i: int| 0 <= i < n ==> #[trigger] woken@[i] == d0.info@[used_id(d0, i)].addr,
                forall|k: int| 0 <= k < 8 ==> #[trigger] self.info@[k] == (Info {
                    in_use: d0.info@[k].in_use && !is_completed(d0, k, n),
                    ..d0.info@[k]
                }),
                self.descriptor == d0.descriptor,
                self.avail == d0.avail,
                self.used == d0.used,
                self.free == d0.free,
                self.ops == d0.ops,
                self.ops_addr == d0.ops_addr,
                self.status_addr == d0.status_addr,
            decreases completed(d0) - n,
        {
            let ghost info0 = self.info@;
            let at = self.used_index as usize % DESCRIPTOR_NUM;
            let id = self.used.ring[at].id as usize;
            proof {
                assert(n < completed(d0));
                assert(at == (d0.used_index + n) % 8);
                assert(id == used_id(d0, n));
            }
            let old_info = self.info[id];
            self.info.set(id, Info { addr: old_info.addr, in_use: false, status: old_info.status });
            woken.push(old_info.addr);
            self.used_index = self.used_index.wrapping_add(1);
            proof {
                assert forall|k: int| 0 <= k < 8 implies #[trigger] self.info@[k] == (Info {
                    in_use: d0.info@[k].in_use && !is_completed(d0, k, n + 1),
                    ..d0.info@[k]
                }) by {
                    assert(info0[k] == (Info { in_use: d0.info@[k].in_use && !is_completed(d0, k, n), ..d0.info@[k] }));
                    if is_completed(d0, k, n) {
                        let i = choose|i: int| 0 <= i < n && #[trigger] used_id(d0, i) == k;
                        assert(used_id(d0, i) == k);
                    }
                    if is_completed(d0, k, n + 1) && k != id {
                        let i = choose|i: int| 0 <= i < n + 1 && #[trigger] used_id(d0, i) == k;
                        assert(used_id(d0, i) == k);
                    }
                    if k == id {
                        assert(used_id(d0, n) == k);
                    }
                }
                n = n + 1;
            }
        }
        woken
    }
}

/// Number of entries of the used ring that the driver has not looked at.
pub open spec fn completed(disk: Disk) -> int {
    (disk.used.idx - disk.used_index) % 65536
}

/// The first descriptor of the `i`th request that the driver has not looked at.
pub open spec fn used_id(disk: Disk, i: int) -> int {
    disk.used.ring@[(disk.used_index + i) % 8].id as int
}

/// Request `k` is among the first `n` that the driver has not looked at.
pub open spec fn is_completed(disk: Disk, k: int, n: int) -> bool {
    exists|i: int| 0 <= i < n && #[trigger] used_id(disk, i) == k
}

/// What handling an interrupt comes to: the memory of every request that is complete.
pub open spec fn handled(d0: Disk, d1: Disk, r: Seq<u64>) -> bool {
    &&& d1.used_index == d0.used.idx
    &&& r.len() == completed(d0)
    &&& forall|i: int| 0 <= i < r.len() ==> #[trigger] r[i] == d0.info@[used_id(d0, i)].addr
    &&& forall|k: int| 0 <= k < 8 ==> #[trigger] d1.info@[k] == (Info {
        in_use: d0.info@[k].in_use && !is_completed(d0, k, completed(d0)),
        ..d0.info@[k]
    })
}

/// All descriptors, commands and operations but those of a request are the same.
pub open spec fn others_untouched(old: Disk, new: Disk, req: Request) -> bool {
    &&& forall|k: int| 0 <= k < 8 && !req.idx@.contains(k as usize) ==> #[trigger] new.descriptor@[k] == old.descriptor@[k]
    &&& forall|k: int| 0 <= k < 8 && k != req.idx@[0] ==> #[trigger] new.ops@[k] == old.ops@[k]
}

/// What is written to acknowledge an interrupt, given the value of the interrupt status.
pub fn acknowledge(interrupt_status: u32) -> (r: u32)
    ensures
        r == interrupt_status & 0x3,
{
    interrupt_status & 0x3
}

/// Takes a page from the allocator, which must have one.
fn take_page(a: &mut KernelAllocator) -> (pa: u64)
    requires
        old(a).wf(),
        old(a).free().len() > 0,
    ensures
        final(a).wf(),
        is_frame_addr(pa as int),
        frame_at(pa as int) == old(a).free()[0],
        final(a).free() == old(a).free().skip(1),
{
    match a.allocate_page() {
        Some(pa) => pa,
        None => 0,
    }
}


/// Requests in flight never share a descriptor, and work on one leaves the chains of the others
/// alone: the descriptors that a request takes were free, and those of another one are not.
pub proof fn lemma_requests_apart(d0: Disk, d1: Disk, q0: Request, q1: Request, other: Request)
    requires
        d0.wf(),
        d1.wf(),
        other.wf(&d0),
        forall|i: int| 0 <= i < other.idx@.len() ==> !q0.idx@.contains(#[trigger] other.idx@[i]),
        q0.idx@.is_prefix_of(q1.idx@),
        forall|i: int| q0.idx@.len() <= i < q1.idx@.len() ==> !d0.taken()[#[trigger] q1.idx@[i] as int],
        q1.idx@.len() == 3,
        others_untouched(d0, d1, q1),
        d1.ops_addr == d0.ops_addr,
        d1.status_addr == d0.status_addr,
    ensures
        forall|i: int| 0 <= i < other.idx@.len() ==> !q1.idx@.contains(#[trigger] other.idx@[i]),
        other.idx@.len() == 3 && chain(d0, other) ==> chain(d1, other),
{
    assert forall|i: int| 0 <= i < other.idx@.len() implies !q1.idx@.contains(#[trigger] other.idx@[i]) by {
        let x = other.idx@[i];
        if q1.idx@.contains(x) {
            let k = choose|k: int| 0 <= k < q1.idx@.len() && q1.idx@[k] == x;
            if k < q0.idx@.len() {
                assert(q0.idx@[k] == q1.idx@[k]);
                assert(q0.idx@.contains(x));
            }
        }
    }
    if other.idx@.len() == 3 && chain(d0, other) {
        assert(!q1.idx@.contains(other.idx@[0]));
        assert(!q1.idx@.contains(other.idx@[1]));
        assert(!q1.idx@.contains(other.idx@[2]));
        assert(q1.idx@.contains(q1.idx@[0]));
        assert(d1.descriptor@[other.idx@[0] as int] == d0.descriptor@[other.idx@[0] as int]);
        assert(d1.descriptor@[other.idx@[1] as int] == d0.descriptor@[other.idx@[1] as int]);
        assert(d1.descriptor@[other.idx@[2] as int] == d0.descriptor@[other.idx@[2] as int]);
        assert(d1.ops@[other.idx@[0] as int] == d0.ops@[other.idx@[0] as int]);
    }
}

} // verus!
