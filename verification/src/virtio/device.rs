//! The device's side of the queue, and what requests do to memory and to the disk.
use vstd::prelude::*;
use crate::virtio::disk::{
    accepted, asks_read, asks_write, chain, handled, init_after, is_completed, queue_writes, rw_came_to, used_id, Disk, InitState, Progress, Request,
};
use crate::virtio::{BlockRequest, Descriptor};

verus! {

/// What the device finds from descriptor `head` on is a command, its data and its status: the first two
/// descriptors have a next one, the last one has none, and the device may write the status and not the
/// command.
pub open spec fn is_command(d: Disk, head: int) -> bool {
    let first = d.descriptor@[head];
    let last = third(d, head);
    &&& first.flags & 1 != 0
    &&& first.flags & 2 == 0
    &&& first.len == 16
    &&& d.ops_addr <= first.addr < d.ops_addr + 16 * d.ops@.len()
    &&& (first.addr - d.ops_addr) % 16 == 0
    &&& second(d, head).flags & 1 != 0
    &&& last.flags & 1 == 0
    &&& last.flags & 2 != 0
    &&& last.len == 1
}

/// The descriptor of the data.
pub open spec fn second(d: Disk, head: int) -> Descriptor {
    d.descriptor@[d.descriptor@[head].next as int]
}

/// The descriptor of the status.
pub open spec fn third(d: Disk, head: int) -> Descriptor {
    d.descriptor@[second(d, head).next as int]
}

/// The header of the command, which is where the first descriptor says.
pub open spec fn header(d: Disk, head: int) -> BlockRequest {
    d.ops@[(d.descriptor@[head].addr - d.ops_addr) / 16]
}

/// The device reads sectors: the command is number 0, and it may write the data.
pub open spec fn serves_read(d: Disk, head: int) -> bool {
    is_command(d, head) && header(d, head).ty.type_number() == 0 && second(d, head).flags & 2 != 0
}

/// The device writes sectors: the command is number 1, and it may only read the data.
pub open spec fn serves_write(d: Disk, head: int) -> bool {
    is_command(d, head) && header(d, head).ty.type_number() == 1 && second(d, head).flags & 2 == 0
}

/// Memory after the device has served the command from descriptor `head` on. A command that it does
/// not understand changes nothing.
pub open spec fn memory_after(d: Disk, head: int, memory: spec_fn(int) -> u8, sectors: spec_fn(int) -> u8) -> spec_fn(int) -> u8 {
    let data = second(d, head);
    let from = header(d, head).sector * 512;
    |x: int|
        if x == third(d, head).addr && (serves_read(d, head) || serves_write(d, head)) {
            0u8
        } else if serves_read(d, head) && data.addr <= x < data.addr + data.len {
            sectors(from + (x - data.addr))
        } else {
            memory(x)
        }
}

/// The bytes of the disk after the device has served the command from descriptor `head` on.
pub open spec fn sectors_after(d: Disk, head: int, memory: spec_fn(int) -> u8, sectors: spec_fn(int) -> u8) -> spec_fn(int) -> u8 {
    let data = second(d, head);
    let to = header(d, head).sector * 512;
    |x: int|
        if serves_write(d, head) && to <= x < to + data.len {
            memory(data.addr + (x - to))
        } else {
            sectors(x)
        }
}

/// The flags of descriptors by their bits.
proof fn lemma_flags()
    ensures
        1u16 & 1 == 1,
        1u16 & 2 == 0,
        2u16 & 1 == 0,
        2u16 & 2 == 2,
        (1u16 | 2u16) & 1 == 1,
        (1u16 | 2u16) & 2 == 2,
{
    assert(1u16 & 1 == 1 && 1u16 & 2 == 0 && 2u16 & 1 == 0 && 2u16 & 2 == 2 && (1u16 | 2u16) & 1 == 1 && (1u16 | 2u16) & 2 == 2) by (bit_vector);
}

/// The device finds the three descriptors of a request.
proof fn lemma_command(d: Disk, q: Request)
    requires
        d.wf(),
        q.wf(&d),
        q.idx@.len() == 3,
        chain(d, q),
    ensures
        is_command(d, q.idx@[0] as int),
        header(d, q.idx@[0] as int) == d.ops@[q.idx@[0] as int],
        second(d, q.idx@[0] as int) == d.descriptor@[q.idx@[1] as int],
        third(d, q.idx@[0] as int) == d.descriptor@[q.idx@[2] as int],
        third(d, q.idx@[0] as int).addr == d.status_addr + 16 * q.idx@[0],
{
    lemma_flags();
    let h = q.idx@[0] as int;
    assert(q.idx@[0] < 8 && q.idx@[1] < 8 && q.idx@[2] < 8);
    assert((d.ops_addr + 16 * h - d.ops_addr) / 16 == h);
    assert((d.ops_addr + 16 * h - d.ops_addr) % 16 == 0);
}

/// A request to read block `block` that the driver has handed to the device: the device finds it on the
/// ring, and when it has served it, memory at `addr` holds the block and nothing else of memory has
/// changed but the status, and the disk is as it was.
pub proof fn lemma_read_request(
    d0: Disk,
    d1: Disk,
    q0: Request,
    q1: Request,
    addr: u64,
    block: u64,
    size: u64,
    memory: spec_fn(int) -> u8,
    sectors: spec_fn(int) -> u8,
)
    requires
        d0.wf(),
        d1.wf(),
        asks_read(q0, addr, block, size),
        !q0.submitted,
        rw_came_to(d0, d1, q0, q1, Progress::Notify),
        size % 512 == 0,
    ensures
        ({
            let head = d1.avail.ring@[d0.avail.idx as int % 8] as int;
            let status = d1.status_addr + 16 * head;
            let memory1 = memory_after(d1, head, memory, sectors);
            let sectors1 = sectors_after(d1, head, memory, sectors);
            &&& forall|x: int| 0 <= x < size && addr + x != status ==> #[trigger] memory1(addr + x) == sectors(block * size + x)
            &&& forall|x: int| !(addr <= x < addr + size) && x != status ==> #[trigger] memory1(x) == memory(x)
            &&& memory1(status) == 0
            &&& forall|x: int| #[trigger] sectors1(x) == sectors(x)
        }),
        d1.avail.idx == (d0.avail.idx + 1) % 65536,
        d1.avail.ring@[d0.avail.idx as int % 8] < 8,
{
    lemma_flags();
    let h = q1.idx@[0] as int;
    assert(q1.idx@[0] < 8);
    lemma_command(d1, q1);
    lemma_sector(block as int, size as int);
    assert(d1.avail.ring@[d0.avail.idx as int % 8] == h);
    assert(serves_read(d1, h));
}

/// A request to write block `block` that the driver has handed to the device: the device finds it on
/// the ring, and when it has served it, the block holds what memory at `addr` held and no other byte of
/// the disk has changed, and nothing of memory but the status.
pub proof fn lemma_write_request(
    d0: Disk,
    d1: Disk,
    q0: Request,
    q1: Request,
    addr: u64,
    block: u64,
    size: u64,
    memory: spec_fn(int) -> u8,
    sectors: spec_fn(int) -> u8,
)
    requires
        d0.wf(),
        d1.wf(),
        asks_write(q0, addr, block, size),
        !q0.submitted,
        rw_came_to(d0, d1, q0, q1, Progress::Notify),
        size % 512 == 0,
    ensures
        ({
            let head = d1.avail.ring@[d0.avail.idx as int % 8] as int;
            let status = d1.status_addr + 16 * head;
            let memory1 = memory_after(d1, head, memory, sectors);
            let sectors1 = sectors_after(d1, head, memory, sectors);
            &&& forall|x: int| 0 <= x < size ==> #[trigger] sectors1(block * size + x) == memory(addr + x)
            &&& forall|x: int| !(block * size <= x < block * size + size) ==> #[trigger] sectors1(x) == sectors(x)
            &&& forall|x: int| x != status ==> #[trigger] memory1(x) == memory(x)
            &&& memory1(status) == 0
        }),
        d1.avail.idx == (d0.avail.idx + 1) % 65536,
        d1.avail.ring@[d0.avail.idx as int % 8] < 8,
{
    lemma_flags();
    let h = q1.idx@[0] as int;
    assert(q1.idx@[0] < 8);
    lemma_command(d1, q1);
    lemma_sector(block as int, size as int);
    assert(d1.avail.ring@[d0.avail.idx as int % 8] == h);
    assert(serves_write(d1, h));
}

proof fn lemma_sector(block: int, size: int)
    requires
        0 <= block,
        0 <= size,
        size % 512 == 0,
    ensures
        block * (size / 512) * 512 == block * size,
{
    let n = size / 512;
    assert(size == n * 512);
    assert(block * n * 512 == block * (n * 512)) by (nonlinear_arith);
}

/// Where the device has completed the requests `heads`, one after another, handling its interrupt gives
/// the memory of these requests in this order, and their next step is the last one. A request that is
/// not complete stays in use.
pub proof fn lemma_completion(d0: Disk, d1: Disk, r: Seq<u64>, heads: Seq<int>, q0: Request, q1: Request, d2: Disk, p: Progress)
    requires
        d0.wf(),
        d1.wf(),
        heads.len() <= 8,
        d0.used.idx == (d0.used_index + heads.len()) % 65536,
        forall|i: int| 0 <= i < heads.len() ==> #[trigger] heads[i] == d0.used.ring@[(d0.used_index + i) % 8].id && 0 <= heads[i] < 8,
        handled(d0, d1, r),
        q0.submitted,
        q0.wf(&d1),
        rw_came_to(d1, d2, q0, q1, p),
    ensures
        r.len() == heads.len(),
        forall|i: int| 0 <= i < heads.len() ==> #[trigger] r[i] == d0.info@[heads[i]].addr,
        heads.contains(q0.idx@[0] as int) ==> p == Progress::Done && (forall|i: int|
            0 <= i < 3 ==> !d2.taken()[#[trigger] q0.idx@[i] as int]) && (forall|k: int|
            0 <= k < 8 && !q0.idx@.contains(k as usize) ==> #[trigger] d2.taken()[k] == d1.taken()[k]),
        !heads.contains(q0.idx@[0] as int) && d0.info@[q0.idx@[0] as int].in_use ==> p == Progress::AwaitCompletion && q1 == q0 && d2 == d1,
        d1.used_index == d0.used.idx,
{
    let n = heads.len() as int;
    assert((d0.used.idx - d0.used_index) % 65536 == n);
    let h = q0.idx@[0] as int;
    assert(q0.idx@[0] < 8);
    assert forall|i: int| 0 <= i < n implies #[trigger] r[i] == d0.info@[heads[i]].addr by {
        assert(used_id(d0, i) == heads[i]);
    }
    if heads.contains(h) {
        let i = choose|i: int| 0 <= i < heads.len() && heads[i] == h;
        assert(used_id(d0, i) == h);
        assert(is_completed(d0, h, n));
        assert(q0.idx@[0] != q0.idx@[1] && q0.idx@[0] != q0.idx@[2] && q0.idx@[1] != q0.idx@[2]);
        assert(q0.idx@[0] < 8 && q0.idx@[1] < 8 && q0.idx@[2] < 8);
        assert(d1.taken().len() == 8);
        assert forall|k: int| 0 <= k < 8 && !q0.idx@.contains(k as usize) implies #[trigger] d2.taken()[k] == d1.taken()[k] by {
            assert(q0.idx@[0] != k && q0.idx@[1] != k && q0.idx@[2] != k);
        }
        assert forall|i: int| 0 <= i < 3 implies !d2.taken()[#[trigger] q0.idx@[i] as int] by {}
    } else if is_completed(d0, h, n) {
        let i = choose|i: int| 0 <= i < n && #[trigger] used_id(d0, i) == h;
        assert(heads[i] == h);
    }
}

/// Of the features that the device offers, the driver accepts all but a read-only disk (5), scsi
/// commands (7), the writeback mode (11), several queues (12), any layout (27), indirect descriptors
/// (28) and event indices (29), and none that the device does not offer.
pub proof fn lemma_features(features: u32, bit: u32)
    requires
        bit < 32,
    ensures
        accepted(features) & (1u32 << bit) == if bit == 5 || bit == 7 || bit == 11 || bit == 12 || bit == 27 || bit == 28 || bit == 29 {
            0
        } else {
            features & (1u32 << bit)
        },
{
    assert((features & !0x3800_18a0u32) & (1u32 << bit) == if bit == 5 || bit == 7 || bit == 11 || bit == 12 || bit == 27 || bit == 28 || bit == 29 {
        0
    } else {
        features & (1u32 << bit)
    }) by (bit_vector)
        requires
            bit < 32,
    ;
}

/// An address is written to a pair of registers, its lower half to the first.
pub open spec fn told(w: Seq<(u64, u32)>, low: u64, high: u64, addr: u64) -> bool {
    exists|i: int, j: int|
        0 <= i < w.len() && 0 <= j < w.len() && (#[trigger] w[i]).0 == low && (#[trigger] w[j]).0 == high && w[i].1 + 0x1_0000_0000 * w[j].1 == addr
}

/// The device learns of the whole addresses of the three parts of the queue, and only then that the
/// queue and the driver are ready.
pub proof fn lemma_queue_addresses(status: u32, descriptor: u64, avail: u64, used: u64)
    ensures
        ({
            let w = queue_writes(status, descriptor, avail, used);
            &&& told(w, 0x080, 0x084, descriptor)
            &&& told(w, 0x090, 0x094, avail)
            &&& told(w, 0x0a0, 0x0a4, used)
            &&& w.contains((0x038, 8))
            &&& w.drop_last().last() == (0x044u64, 1u32)
            &&& w.last().0 == 0x070
            &&& w.last().1 & 4 != 0
            &&& forall|bit: u32| bit < 32 && bit != 2 ==> w.last().1 & #[trigger] (1u32 << bit) == status & (1u32 << bit)
        }),
{
    let w = queue_writes(status, descriptor, avail, used);
    assert(w[0] == (0x038u64, 8u32));
    assert(w[1] == (0x080u64, (descriptor % 0x1_0000_0000) as u32));
    assert(w[2] == (0x084u64, (descriptor / 0x1_0000_0000) as u32));
    assert(w[3] == (0x090u64, (avail % 0x1_0000_0000) as u32));
    assert(w[4] == (0x094u64, (avail / 0x1_0000_0000) as u32));
    assert(w[5] == (0x0a0u64, (used % 0x1_0000_0000) as u32));
    assert(w[6] == (0x0a4u64, (used / 0x1_0000_0000) as u32));
    assert((status | 4u32) & 4 != 0) by (bit_vector);
    assert forall|bit: u32| bit < 32 && bit != 2 implies w.last().1 & #[trigger] (1u32 << bit) == status & (1u32 << bit) by {
        assert((status | 4u32) & (1u32 << bit) == status & (1u32 << bit)) by (bit_vector)
            requires
                bit < 32,
                bit != 2,
        ;
    }
}

/// The initialisation gets as far as setting up the queue only with a disk of this kind: after reading
/// what it is, which features it has and that it took the ones chosen, and a queue that is free and has
/// room for 8 descriptors.
pub proof fn lemma_init(read: Seq<u32>, features: Seq<u32>, confirmed: Seq<u32>, queue: Seq<u32>)
    requires
        read.len() == 4,
        features.len() == 1,
        confirmed.len() == 1,
        queue.len() == 2,
    ensures
        ({
            let s1 = init_after(InitState::Identify, read).0;
            let s2 = init_after(s1, features).0;
            let s3 = init_after(s2, confirmed).0;
            let s4 = init_after(s3, queue).0;
            s4 is Ready <==> read[0] == 0x7472_6976 && read[1] == 2 && read[2] == 2 && read[3] == 0x554d_4551 && confirmed[0] & 8 != 0 && queue[0] == 0
                && queue[1] >= 8
        }),
{
}

} // verus!
