//! Simple logging that allows concurrent FS system calls: a transaction holds the updates of
//! several calls, and is committed when no call is active.
use vstd::prelude::*;
use crate::config::{LOGSIZE, NBUF};
use crate::filesystem::buffer::{same_but, Buffer, BSIZE};
use crate::filesystem::device::{sized, BlockDevice};
use crate::filesystem::log::{committed, header_n, initialize, may_begin, recovered, valid_header, Storage};
use crate::filesystem::superblock::SuperBlock;
pub use crate::filesystem::log::{Log, LogHeader};

verus! {

/// A system call that is active in the log.
pub struct LogGuard {}

impl LogGuard {
    /// Notes that a buffer was changed. It stays in memory until the transaction is committed.
    pub fn write<D: BlockDevice>(&self, storage: &mut Storage<D>, buf: &Buffer)
        requires
            old(storage).log.header.wf(),
            old(storage).log.header.n < LOGSIZE,
            old(storage).log.header.n + 1 < old(storage).log.size,
            old(storage).log.outstanding > 0,
            buf.block_number <= u32::MAX,
            old(storage).buffers.wf(),
            old(storage).buffers.has(*buf),
            old(storage).buffers.users(buf.cache_index as int) < usize::MAX - 1,
        ensures
            final(storage).device == old(storage).device,
            final(storage).buffers.data(buf.cache_index as int) == old(storage).buffers.data(buf.cache_index as int),
            same_but(old(storage).buffers, final(storage).buffers, buf.cache_index as int),
            if old(storage).log.homes().contains(buf.block_number as int) {
                *final(storage) == *old(storage)
            } else {
                &&& final(storage).log.homes() == old(storage).log.homes().push(buf.block_number as int)
                &&& final(storage).buffers.users(buf.cache_index as int) == old(storage).buffers.users(buf.cache_index as int) + 1
            },
    {
        storage.log.write(&mut storage.buffers, buf);
    }

    /// The call ends. The last one that is active commits the transaction.
    pub fn end<D: BlockDevice>(self, storage: &mut Storage<D>)
        requires
            old(storage).wf(),
            old(storage).log.outstanding > 0,
        ensures
            final(storage).wf(),
            final(storage).log.outstanding == old(storage).log.outstanding - 1,
            if old(storage).log.outstanding > 1 {
                &&& final(storage).view() == old(storage).view()
                &&& final(storage).log == (Log { outstanding: (old(storage).log.outstanding - 1) as usize, ..old(storage).log })
                &&& final(storage).device == old(storage).device
            } else {
                committed(*old(storage), *final(storage))
            },
    {
        storage.end();
    }
}

/// Begins a system call. `None` means that the caller has to wait and try again: a commit is
/// under way, or the log might run out of space.
pub fn start<D: BlockDevice>(storage: &mut Storage<D>) -> (r: Option<LogGuard>)
    requires
        old(storage).wf(),
    ensures
        final(storage).wf(),
        r is Some <==> may_begin(old(storage).log),
        final(storage).view() == old(storage).view(),
        final(storage).device == old(storage).device,
        final(storage).log == (Log {
            outstanding: (old(storage).log.outstanding + if r is Some { 1int } else { 0int }) as usize,
            ..old(storage).log
        }),
{
    if storage.begin() {
        Some(LogGuard {  })
    } else {
        None
    }
}

/// Finds the log of device `dev` and completes the commit that its header tells of, if any.
pub fn initlog<D: BlockDevice>(storage: &mut Storage<D>, dev: u32, sb: &SuperBlock)
    requires
        old(storage).buffers.wf(),
        forall|i: int| 0 <= i < NBUF ==> (#[trigger] old(storage).buffers.keys()[i]) is None,
        forall|i: int| 0 <= i < NBUF ==> !(#[trigger] old(storage).buffers.taken@[i]),
        old(storage).log.header.wf(),
        old(storage).log.header.n == 0,
        old(storage).log.outstanding == 0,
        !old(storage).log.committing,
        sized(old(storage).device.blocks(), BSIZE as int),
        old(storage).device.blocks().len() <= usize::MAX,
        0 < sb.nlog,
        sb.logstart + sb.nlog <= old(storage).device.blocks().len(),
        valid_header(
            old(storage).device.blocks()[sb.logstart as int],
            sb.logstart as int,
            sb.nlog as int,
            old(storage).device.blocks().len() as int,
        ),
    ensures
        final(storage).wf(),
        final(storage).log.start == sb.logstart,
        final(storage).log.size == sb.nlog,
        final(storage).log.device == dev,
        final(storage).log.header.n == 0,
        final(storage).log.outstanding == 0,
        final(storage).device.blocks().len() == old(storage).device.blocks().len(),
        header_n(final(storage).device.blocks()[sb.logstart as int]) == 0,
        forall|b: int| 0 <= b < old(storage).device.blocks().len() && b != sb.logstart ==>
            #[trigger] final(storage).device.blocks()[b] == recovered(old(storage).device.blocks(), sb.logstart as int)[b],
        final(storage).view() == final(storage).device.blocks(),
{
    initialize(storage, dev as usize, sb);
}

} // verus!
