use kernel::allocator::KernelAllocator;
use kernel::bitmap::{get_bit, require_bytes, set_bit, Bitmap};
use kernel::console::{Console, ReadProgress, ReadRequest};
use kernel::interrupt::{get_depth, is_enabled, is_enabled_before, off, pop_off, push_off, InterruptState};
use kernel::lock::sleep::SleepLock;
use kernel::lock::spin::SpinLock;
use kernel::lock::spin_c::SpinLockC;
use kernel::lock::{Lock, LockGuard};
use kernel::plic;
use kernel::riscv;
use kernel::start::{entry_stack, initialize_timer, start};
use kernel::trap::{device_interrupt_handler, is_external, kerneltrap, Device, InterruptWork};
use kernel::uart::{PutProgress, UART};
use kernel::undrop::Undroppable;
use kernel::virtio::disk::{acknowledge, init_step, read, registers_to_read, Disk, InitState, Progress};
use kernel::virtio::{Avail, BlockRequestType, Used, UsedElem};

fn memory() -> KernelAllocator {
    let mut a = KernelAllocator::empty(0x8010_0000);
    kernel::allocator::initialize(&mut a);
    a
}

#[test]
fn lines_are_edited() {
    let mut c = Console::new();
    for x in b"ab\x7fc" {
        let r = c.handle_interrupt(*x);
        assert!(!r.wake && !r.dump);
    }
    let r = c.handle_interrupt(b'\r');
    assert_eq!(r.echo, vec![b'\n']);
    assert!(r.wake);
    assert_eq!(c.buf[..3], *b"ac\n");
    assert_eq!((c.read_index, c.write_index, c.edit_index), (0, 3, 3));
    // kill the line: three characters are erased from the screen
    for x in b"xyz" {
        c.handle_interrupt(*x);
    }
    let r = c.handle_interrupt(0x15);
    assert_eq!(r.echo, b"\x08 \x08\x08 \x08\x08 \x08".to_vec());
    assert_eq!(c.edit_index, 3);
    assert!(c.handle_interrupt(0x10).dump);
    let reactions = kernel::uart::uartintr(&mut c, &b"ls\n".to_vec());
    assert_eq!(reactions.iter().map(|r| r.wake).collect::<Vec<bool>>(), vec![false, false, true]);
    assert_eq!(c.buf[..6], *b"ac\nls\n");
    assert_eq!(Console::putc(b'x'), vec![b'x']);
    assert_eq!(Console::backspace(), b"\x08 \x08".to_vec());
}

#[test]
fn a_line_is_read_at_once() {
    let mut a = memory();
    let p = kernel::riscv::paging::PageTable::allocate(&mut a).unwrap();
    assert_eq!(p.grow(&mut a, 0, 4096, 0x1e), Ok(4096));
    let mut c = Console::new();
    let mut req = ReadRequest { dst: 100, n: 10, target: 10 };
    assert!(matches!(c.read(&mut a, &p, &mut req, false), ReadProgress::Sleep));
    assert!(matches!(c.read(&mut a, &p, &mut req, true), ReadProgress::Killed));
    for x in b"hi\nmore\n" {
        c.handle_interrupt(*x);
    }
    assert!(matches!(c.read(&mut a, &p, &mut req, false), ReadProgress::Done(3)));
    assert_eq!(Console::write(&a, &p, 100, 3), b"hi\n".to_vec());
    let mut req = ReadRequest { dst: 100, n: 2, target: 2 };
    assert!(matches!(c.read(&mut a, &p, &mut req, false), ReadProgress::Done(2)));
    assert_eq!(Console::write(&a, &p, 100, 2), b"mo".to_vec());
    // end of file, which a reader gets alone
    let mut req = ReadRequest { dst: 100, n: 9, target: 9 };
    assert!(matches!(c.read(&mut a, &p, &mut req, false), ReadProgress::Done(3)));
    c.handle_interrupt(0x04);
    let mut req = ReadRequest { dst: 100, n: 9, target: 9 };
    assert!(matches!(c.read(&mut a, &p, &mut req, false), ReadProgress::Done(0)));
    // only what can be accessed is written
    assert_eq!(Console::write(&a, &p, 4094, 5).len(), 2);
}

#[test]
fn characters_are_sent_in_order() {
    let mut u = UART::new();
    assert_eq!(u.init().len(), 7);
    for i in 0..32u8 {
        assert_eq!(u.putc(i), PutProgress::Queued);
    }
    assert_eq!(u.putc(99), PutProgress::Sleep);
    assert_eq!(u.send(0), None);
    for i in 0..32u8 {
        assert_eq!(u.send(32), Some(i));
    }
    assert_eq!(u.send(32), None);
    assert!(u.putc_blocking(32));
    assert!(u.getc(1) && !u.getc(32));
    u.panicked = true;
    assert_eq!(u.putc(1), PutProgress::Panicked);
    assert!(!u.putc_blocking(32));
}

#[test]
fn interrupts_are_off_as_long_as_anyone_wants() {
    let mut s = InterruptState::new();
    let mut enabled = true;
    push_off(&mut s, &mut enabled);
    assert!(!enabled && is_enabled_before(&s));
    push_off(&mut s, &mut enabled);
    assert_eq!(get_depth(&s), 2);
    pop_off(&mut s, &mut enabled);
    assert!(!enabled);
    pop_off(&mut s, &mut enabled);
    assert!(enabled);
    assert_eq!(off(&mut s, &mut enabled, |inside, on| if inside.depth_of_disable == 1 && !on { 5 } else { 6 }), 5);
    assert!(enabled);
    assert!(is_enabled(2) && !is_enabled(1));
}

#[test]
fn locks_have_one_holder() {
    let g = LockGuard::lock(SpinLock::new(5), 2).ok().unwrap();
    assert!(g.lock.is_locked() && g.lock.is_held_by_current_cpu(2));
    assert!(!g.lock.is_held_by_current_cpu(1));
    let lock = g.unlock(2);
    assert!(!lock.is_locked());
    let g = LockGuard::lock(SleepLock::new(5), 0).ok().unwrap();
    let again = SleepLock { locked: g.lock.locked, value: 6 };
    assert!(LockGuard::lock(again, 0).is_err());
    let mut c = SpinLockC::new();
    assert!(c.raw_lock(3));
    assert!(!c.raw_lock(1));
    let g = LockGuard::lock(SpinLock::new(1), 0).ok().unwrap();
    let (g, seen) = g.unlock_temporarily(0, |l| {
        let seen = l.is_locked();
        (SpinLock::new(9), seen)
    });
    assert!(!seen);
    assert_eq!(g.ok().map(|g| g.lock.value), Some(9));
    assert!(c.is_held_by_current_cpu(3) && c.is_locked());
}

#[test]
fn spin_locks_turn_interrupts_off() {
    let mut s = InterruptState::new();
    let mut enabled = true;
    let lock = kernel::spinlock::SpinLock::new(1);
    let mut g = lock.lock(0, &mut s, &mut enabled).ok().unwrap();
    assert!(!enabled);
    *g.value_mut() = 2;
    let (r, _) = kernel::spinlock::SpinLock::unlock_temporarily(g, 0, &mut s, &mut enabled, |l| (l, ()));
    let g = r.ok().unwrap();
    assert!(!enabled && g.lock.is_held_by_current_cpu(0));
    let (r, _) = kernel::spinlock::SpinLock::unlock_temporarily(g, 0, &mut s, &mut enabled, |mut l| {
        l.locked = true;
        l.cpuid = 5;
        (l, ())
    });
    let mut lock = r.err().unwrap();
    assert!(enabled && lock.is_held_by_current_cpu(5));
    lock.locked = false;
    let g = lock.lock(0, &mut s, &mut enabled).ok().unwrap();
    let lock = kernel::spinlock::SpinLock::unlock(g, 0, &mut s, &mut enabled);
    assert!(enabled && !lock.is_locked());
    assert_eq!(*lock.get(), 2);
    let lock = kernel::sleeplock::SleepLock::new(7);
    let g = lock.lock().ok().unwrap();
    assert_eq!(*g.value(), 7);
    assert!(!kernel::sleeplock::SleepLock::unlock(g).locked);
}

#[test]
fn registers() {
    assert_eq!(riscv::make_satp(0x8000_3000), 0x8000_0000_0008_0003);
    assert_eq!(riscv::disable_interrupt(7), 5);
    assert_eq!(riscv::enable_interrupt(5), 7);
    assert!(riscv::is_interrupt_enabled(2));
    assert_eq!(plic::initialize(), vec![(0x0c00_0028, 1), (0x0c00_0004, 1)]);
    assert_eq!(plic::initialize_for_core(1), vec![(0x0c00_2180, 0x402), (0x0c20_3000, 0)]);
    assert_eq!(plic::plic_claim(0), 0x0c20_1004);
    assert_eq!(plic::plic_complete(0, 10), (0x0c20_1004, 10));
    assert_eq!(entry_stack(0x8000_0000, 1), 0x8000_2000);
    let r = start(0x1880, 0, 0x8000_1234);
    assert_eq!((r.mstatus, r.mepc, r.satp), (0x880, 0x8000_1234, 0));
    assert_eq!((r.medeleg, r.mideleg, r.sie), (0xffff, 0xffff, 0x222));
    let t = initialize_timer(2, 500, 0, 0);
    assert_eq!((t.mtimecmp, t.next), (0x200_4010, 1_000_500));
    assert_eq!((t.mstatus, t.mie), (8, 0x80));
}

#[test]
fn traps_are_told_apart() {
    let external = 0x8000_0000_0000_0009;
    assert!(is_external(external));
    assert!(!is_external(9));
    let w = device_interrupt_handler(external, 10, 0, 0);
    assert_eq!((w.which, w.device, w.complete), (1, Some(Device::Uart), Some(10)));
    assert_eq!(device_interrupt_handler(external, 1, 0, 0).device, Some(Device::Disk));
    assert_eq!(device_interrupt_handler(external, 5, 0, 0).device, Some(Device::Unexpected(5)));
    assert_eq!(device_interrupt_handler(external, 0, 0, 0).complete, None);
    let timer = 0x8000_0000_0000_0001;
    assert_eq!(
        device_interrupt_handler(timer, 0, 0, 7),
        InterruptWork { which: 2, device: None, complete: None, tick: true, sip: Some(5) }
    );
    assert!(!device_interrupt_handler(timer, 0, 1, 7).tick);
    assert_eq!(device_interrupt_handler(8, 0, 0, 0).which, 0);
    let r = kerneltrap(2, true, 40, 0x100);
    assert_eq!((r.pause, r.sepc, r.sstatus), (true, 40, 0x100));
    assert!(!kerneltrap(2, false, 40, 0x100).pause);
    assert!(!kerneltrap(1, true, 40, 0x100).pause);
}

#[test]
fn a_disk_is_identified_and_asked() {
    assert_eq!(registers_to_read(InitState::Identify), vec![0, 4, 8, 12]);
    let (s, w) = init_step(InitState::Identify, &vec![0x7472_6976, 2, 2, 0x554d_4551]);
    assert!(matches!(s, InitState::Negotiate));
    assert!(!w.is_empty());
    let (s, _) = init_step(InitState::Identify, &vec![1, 2, 2, 0x554d_4551]);
    assert!(matches!(s, InitState::Failed));
    let mut a = memory();
    let (mut disk, _) = Disk::init(&mut a, 11, 0x9000, 0xa000);
    let mut one = read(0x5000, 3, 1024);
    assert_eq!(disk.rw(&mut one), Progress::Notify);
    let mut two = kernel::virtio::disk::write(0x6000, 4, 1024);
    assert_eq!(disk.rw(&mut two), Progress::Notify);
    let mut three = read(0x7000, 5, 1024);
    assert_eq!(disk.rw(&mut three), Progress::AwaitDescriptor);
    assert_eq!(disk.avail.idx, 2);
    assert_eq!(disk.ops[one.idx[0]].sector, 6);
    assert_eq!(disk.descriptor[one.idx[1]].addr, 0x5000);
    assert_eq!(disk.rw(&mut one), Progress::AwaitCompletion);
    // the device is done with the first request
    disk.used.ring[0] = UsedElem { id: one.idx[0] as u32, len: 0 };
    disk.used.idx = 1;
    disk.info[one.idx[0]].status = 0;
    assert_eq!(disk.interrupt_handler(), vec![0x5000]);
    assert_eq!(disk.rw(&mut one), Progress::Done);
    assert_eq!(disk.rw(&mut three), Progress::Notify);
    assert_eq!(acknowledge(7), 3);
    assert_eq!(BlockRequestType::Write.number(), 1);
    assert_eq!(Avail::zeroed().ring.len(), 8);
    assert_eq!(Used::zeroed().ring.len(), 8);
}

#[test]
fn bits() {
    assert_eq!(require_bytes(9), 2);
    let mut v = vec![0u8; 2];
    set_bit(&mut v, 9, true);
    assert_eq!(v, vec![0, 2]);
    assert!(get_bit(&v, 9) && !get_bit(&v, 8));
    let mut b: Bitmap<3> = Bitmap::new();
    assert_eq!((b.bits(), b.bytes()), (3, 1));
    assert_eq!((b.allocate(), b.allocate(), b.allocate(), b.allocate()), (Some(0), Some(1), Some(2), None));
    assert_eq!(b.deallocate(1), Ok(()));
    assert_eq!(b.deallocate(1), Err(()));
    assert_eq!(b.deallocate(3), Err(()));
    assert_eq!((b.get(0), b.get(1), b.get(3)), (Some(true), Some(false), None));
    assert_eq!(b.set(5, true), Err(()));
    assert_eq!(b.allocate(), Some(1));
}

#[test]
fn a_value_is_taken_once() {
    let mut x = Undroppable::new(vec![1, 2]);
    assert_eq!(Undroppable::take(&mut x), vec![1, 2]);
    Undroppable::forget(x);
    assert_eq!(Undroppable::into_inner(Undroppable::new(5)), 5);
}

#[test]
fn a_new_console_is_at_its_start() {
    let c = Console::new();
    assert_eq!((c.read_index, c.write_index, c.edit_index), (0, 0, 0));
}

#[test]
fn reading_moves_one_index() {
    let mut a = memory();
    let p = kernel::riscv::paging::PageTable::allocate(&mut a).unwrap();
    assert_eq!(p.grow(&mut a, 0, 4096, 0x1e), Ok(4096));
    let mut c = Console::new();
    for x in b"hi\nmo" {
        c.handle_interrupt(*x);
    }
    let mut req = ReadRequest { dst: 0, n: 10, target: 10 };
    assert!(matches!(c.read(&mut a, &p, &mut req, false), ReadProgress::Done(3)));
    assert_eq!((c.read_index, c.write_index, c.edit_index), (3, 3, 5));
    // a leading end of file is passed over
    c.handle_interrupt(0x15);
    c.handle_interrupt(0x04);
    let mut req = ReadRequest { dst: 0, n: 10, target: 10 };
    assert!(matches!(c.read(&mut a, &p, &mut req, false), ReadProgress::Done(0)));
    assert_eq!((c.read_index, c.write_index, c.edit_index), (4, 4, 4));
}

#[test]
fn no_more_is_written_than_there_is() {
    let mut a = memory();
    let p = kernel::riscv::paging::PageTable::allocate(&mut a).unwrap();
    assert_eq!(p.grow(&mut a, 0, 4096, 0x1e), Ok(4096));
    assert_eq!(Console::write(&a, &p, 96, usize::MAX).len(), 4000);
}

#[test]
fn a_mask_has_one_bit() {
    for i in 0..16 {
        let mut row = vec![0u8; 2];
        set_bit(&mut row, i, true);
        assert_eq!(row.iter().map(|b| b.count_ones()).sum::<u32>(), 1);
        assert!(get_bit(&row, i));
    }
}
