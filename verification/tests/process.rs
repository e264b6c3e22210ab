use kernel::allocator::KernelAllocator;
use kernel::bitmap::Bitmap;
use kernel::clock::Clock;
use kernel::config::NPROC;
use kernel::interrupt::InterruptState;
use kernel::memory_layout::{kstack, kstack_index};
use kernel::process::context::CPUContext;
use kernel::process::cpu::CPU;
use kernel::process::kernel_stack::{kstack_allocator, KernelStackAllocator};
use kernel::process::process::StateName;
use kernel::process::table::ProcessTable;
use kernel::process::{
    allocate_kstack, back_from_scheduler, copyin_either, copyout_either, deallocate_kstack, exit, fork, id, is_killed,
    is_running, kill, pause, procdump, read_memory, return_to_scheduler, scheduler, set_killed, setup_init_process, sleep, wait, wakeup, write_memory, Assigned, WaitProgress,
};
use kernel::syscall::{sys_getpid, sys_kill, sys_sbrk, sys_sleep, sys_uptime, sys_wait};

const TRAMPOLINE_CODE: u64 = 0x8000_1000;
const JUMP: u64 = 0x8000_2000;

struct Machine {
    table: ProcessTable,
    a: KernelAllocator,
    stacks: KernelStackAllocator,
}

/// One process, which runs.
fn boot() -> Machine {
    let mut a = KernelAllocator::empty(0x8010_0000);
    kernel::allocator::initialize(&mut a);
    let mut stacks = kstack_allocator();
    let mut table = ProcessTable::new();
    setup_init_process(&mut table, &mut a, &mut stacks, TRAMPOLINE_CODE, JUMP, &vec![0x13, 0, 0, 0], Some(0));
    assert_eq!(scheduler(&mut table, 0), Some(0));
    Machine { table, a, stacks }
}

#[test]
fn the_first_process_runs_its_code() {
    let mut m = boot();
    assert_eq!(id(&m.table, Some(0)), Some(1));
    assert_eq!(id(&m.table, None), None);
    assert!(is_running(&m.table, Some(0)));
    assert!(!is_running(&m.table, None));
    let dump = procdump(&m.table);
    assert_eq!(dump.len(), NPROC);
    assert!(matches!(&dump[0], Some((1, StateName::Running, _))));
    assert!(dump[1].is_none());
    let c = m.table.procs[0].context().unwrap();
    assert_eq!(c.sz, 4096);
    assert_eq!((c.trapframe.epc, c.trapframe.sp), (0, 4096));
    assert_eq!((c.context.ra, c.context.sp), (JUMP, c.kstack + 4096));
    assert_eq!(read_memory(c, &m.a, 0, 6), Some(vec![0x13, 0, 0, 0, 0, 0]));
    assert_eq!(read_memory(c, &m.a, 4090, 6), Some(vec![0; 6]));
    assert_eq!(read_memory(c, &m.a, 4090, 7), None);
}

#[test]
fn memory_is_read_back_across_pages() {
    let mut m = boot();
    let c = m.table.procs[0].context().unwrap();
    c.trapframe.a0 = 8192;
    assert_eq!(sys_sbrk(c, &mut m.a), Ok(4096));
    assert_eq!(c.sz, 12288);
    let value: Vec<u8> = (0..5000u32).map(|i| (i % 253) as u8).collect();
    assert!(write_memory(c, &mut m.a, 3000, &value));
    assert_eq!(read_memory(c, &m.a, 3000, 5000), Some(value));
    assert_eq!(read_memory(c, &m.a, 2999, 1), Some(vec![0]));
    assert!(!write_memory(c, &mut m.a, 12288, &vec![1]));
    // shrink, and the end is gone
    c.trapframe.a0 = (-8000i64) as u64;
    assert_eq!(sys_sbrk(c, &mut m.a), Ok(12288));
    assert_eq!(c.sz, 4288);
    assert!(write_memory(c, &mut m.a, 4200, &vec![1]));
    assert!(!write_memory(c, &mut m.a, 8192, &vec![1]));
    // more than the machine has
    c.trapframe.a0 = 0x7fff_ffff;
    assert_eq!(sys_sbrk(c, &mut m.a), Err(()));
    assert_eq!(c.sz, 4288);
}

#[test]
fn copies_from_either_side() {
    let mut m = boot();
    let c = m.table.procs[0].context().unwrap();
    assert!(copyout_either(c, &mut m.a, true, 100, &vec![1, 2, 3]));
    let mut dst = vec![0; 3];
    assert!(copyin_either(c, &m.a, &mut dst, true, 100));
    assert_eq!(dst, vec![1, 2, 3]);
    assert!(!copyin_either(c, &m.a, &mut dst, true, 4096));
}

#[test]
fn a_child_has_memory_of_its_own() {
    let mut m = boot();
    let c = m.table.procs[0].context().unwrap();
    assert!(write_memory(c, &mut m.a, 64, &vec![42]));
    c.trapframe.a0 = 77;
    c.trapframe.a1 = 78;
    assert_eq!(fork(&mut m.table, 0, &mut m.a, &mut m.stacks, TRAMPOLINE_CODE, JUMP), Some(2));
    assert_eq!(id(&m.table, Some(1)), Some(2));
    assert_eq!(m.table.procs[1].parent, Some(0));
    let child = m.table.procs[1].context().unwrap();
    assert_eq!((child.trapframe.a0, child.trapframe.a1, child.sz), (0, 78, 4096));
    assert_eq!(read_memory(child, &m.a, 64, 1), Some(vec![42]));
    assert!(write_memory(child, &mut m.a, 64, &vec![9]));
    let parent = m.table.procs[0].context().unwrap();
    assert_eq!(parent.trapframe.a0, 77);
    assert_eq!(read_memory(parent, &m.a, 64, 1), Some(vec![42]));
}

#[test]
fn a_parent_waits_for_its_child() {
    let mut m = boot();
    assert_eq!(wait(&mut m.table, 0, None, &mut m.a, &mut m.stacks), WaitProgress::Failed);
    assert_eq!(fork(&mut m.table, 0, &mut m.a, &mut m.stacks, TRAMPOLINE_CODE, JUMP), Some(2));
    assert_eq!(wait(&mut m.table, 0, None, &mut m.a, &mut m.stacks), WaitProgress::Sleep);
    sleep(&mut m.table, 0, 0);
    assert_eq!(scheduler(&mut m.table, 1), Some(1));
    let (files, cwd) = exit(&mut m.table, 1, -3);
    assert_eq!((files, cwd), (vec![], Some(0)));
    assert!(matches!(&procdump(&m.table)[1], Some((2, StateName::Zombie, _))));
    wakeup(&mut m.table, None, 0);
    assert_eq!(scheduler(&mut m.table, 0), Some(0));
    let c = m.table.procs[0].context().unwrap();
    c.trapframe.a0 = 256;
    assert_eq!(sys_wait(&mut m.table, 0, &mut m.a, &mut m.stacks), WaitProgress::Reaped(2));
    let c = m.table.procs[0].context().unwrap();
    assert_eq!(read_memory(c, &m.a, 256, 4), Some((-3i32).to_le_bytes().to_vec()));
    assert!(procdump(&m.table)[1].is_none());
    assert_eq!(wait(&mut m.table, 0, None, &mut m.a, &mut m.stacks), WaitProgress::Failed);
    // numbers are not used again, places are
    assert_eq!(fork(&mut m.table, 0, &mut m.a, &mut m.stacks, TRAMPOLINE_CODE, JUMP), Some(3));
    assert_eq!(id(&m.table, Some(1)), Some(3));
}

#[test]
fn orphans_go_to_the_first_process() {
    let mut m = boot();
    assert_eq!(fork(&mut m.table, 0, &mut m.a, &mut m.stacks, TRAMPOLINE_CODE, JUMP), Some(2));
    assert_eq!(scheduler(&mut m.table, 1), Some(1));
    assert_eq!(fork(&mut m.table, 1, &mut m.a, &mut m.stacks, TRAMPOLINE_CODE, JUMP), Some(3));
    assert_eq!(m.table.procs[2].parent, Some(1));
    exit(&mut m.table, 1, 0);
    assert_eq!(m.table.procs[2].parent, Some(0));
}

#[test]
fn sleepers_wake_by_their_token() {
    let mut m = boot();
    sleep(&mut m.table, 0, 5);
    assert_eq!(scheduler(&mut m.table, 0), None);
    wakeup(&mut m.table, None, 6);
    assert_eq!(scheduler(&mut m.table, 0), None);
    wakeup(&mut m.table, None, 5);
    assert_eq!(scheduler(&mut m.table, 0), Some(0));
    pause(&mut m.table, 0);
    assert!(!is_running(&m.table, Some(0)));
    assert_eq!(scheduler(&mut m.table, 3), None);
    assert_eq!(scheduler(&mut m.table, 0), Some(0));
}

#[test]
fn killed_processes_wake_up() {
    let mut m = boot();
    sleep(&mut m.table, 0, 5);
    assert!(!kill(&mut m.table, 9));
    assert_eq!(is_killed(&m.table, Some(0)), Some(false));
    assert!(kill(&mut m.table, 1));
    assert_eq!(is_killed(&m.table, Some(0)), Some(true));
    assert_eq!(is_killed(&m.table, None), None);
    assert_eq!(scheduler(&mut m.table, 0), Some(0));
    assert_eq!(set_killed(&mut m.table, None), None);
    assert_eq!(set_killed(&mut m.table, Some(0)), Some(()));
}

#[test]
fn calls_on_processes() {
    let mut m = boot();
    assert_eq!(sys_getpid(&m.table, 0), Ok(1));
    m.table.procs[0].context().unwrap().trapframe.a0 = 1;
    assert_eq!(sys_kill(&mut m.table, 0), Ok(1));
    assert_eq!(is_killed(&m.table, Some(0)), Some(true));
    let c = m.table.procs[0].context().unwrap();
    c.trapframe.a0 = 5;
    assert_eq!(sys_kill(&mut m.table, 0), Ok(0));
    let c = m.table.procs[0].context_ref().unwrap();
    let mut clock = Clock { ticks: 10 };
    assert_eq!(sys_uptime(&clock), Ok(10));
    assert_eq!(sys_sleep(c, &clock, 10, false), None);
    assert_eq!(sys_sleep(c, &clock, 10, true), Some(Err(())));
    for _ in 0..5 {
        kernel::clock::tick(&mut clock);
    }
    assert_eq!(kernel::clock::get(&clock), 15);
    assert_eq!(sys_sleep(c, &clock, 10, false), Some(Ok(0)));
}

#[test]
fn kernel_stacks_are_apart() {
    assert_eq!(kstack(0), 0x3f_ffff_d000);
    assert_eq!(kstack(1), 0x3f_ffff_b000);
    assert_eq!(kstack_index(kstack(7)), 7);
    let mut used: Bitmap<NPROC> = Bitmap::new();
    let a = allocate_kstack(&mut used).unwrap();
    let b = allocate_kstack(&mut used).unwrap();
    assert_eq!((a, b), (kstack(0), kstack(1)));
    assert_eq!(deallocate_kstack(&mut used, a), Ok(()));
    assert_eq!(allocate_kstack(&mut used), Some(a));
    let mut stacks = kstack_allocator();
    for i in 0..NPROC {
        assert_eq!(stacks.allocate(), Some(kstack(i)));
    }
    assert_eq!(stacks.allocate(), None);
    stacks.deallocate(kstack(9));
    assert_eq!(stacks.allocate(), Some(kstack(9)));
}

#[test]
fn a_cpu_goes_through_its_states() {
    let mut cpu: CPU<u8, u8> = CPU::Ready;
    assert_eq!(cpu.assigned_process(), None);
    assert_eq!(cpu.finish_dispatch(), Err(()));
    assert_eq!(cpu.start_dispatch(1, 2), Ok(()));
    assert_eq!(cpu.start_dispatch(3, 4), Err(4));
    assert_eq!(cpu.finish_dispatch(), Ok(()));
    assert_eq!(cpu.assigned_process(), Some(&2));
    assert_eq!(cpu.start_preemption(9), Err(9));
    assert_eq!(cpu.pause(), Ok(2));
    assert_eq!(cpu.start_preemption(2), Ok(1));
    assert_eq!(cpu.finish_preemption(), Ok(2));
    assert!(matches!(cpu, CPU::Ready));
}

#[test]
fn an_assignment_goes_through_its_states() {
    let mut x: Assigned<u8> = Assigned::Idle;
    assert_eq!(x.get(), None);
    x.switch(3);
    assert_eq!(x.get(), None);
    x.assign();
    assert_eq!(x.get(), Some(&3));
    x.release();
    assert_eq!(x.get(), None);
}

#[test]
fn a_process_leaves_its_registers() {
    let mut m = boot();
    sleep(&mut m.table, 0, 5);
    let contexts: Vec<CPUContext> = (0..8).map(|i| CPUContext { ra: i, ..CPUContext::zeroed() }).collect();
    let mut registers = CPUContext { s1: 77, ..CPUContext::zeroed() };
    let mut slot: Assigned<usize> = Assigned::Idle;
    let mut state = InterruptState { depth_of_disable: 1, is_enabled_before: true };
    let intena = return_to_scheduler(&mut slot, 0, &mut m.table, &contexts, 3, &mut registers, &state, false);
    assert!(intena);
    assert_eq!(registers.ra, 3);
    assert_eq!(m.table.procs[0].context().unwrap().context.s1, 77);
    assert!(m.table.procs[0].state.is_sleeping_on(5));
    assert_eq!(slot.get(), None);
    state.is_enabled_before = false;
    back_from_scheduler(&mut slot, &mut state, intena);
    assert_eq!(slot.get(), Some(&0));
    assert!(state.is_enabled_before);
}

#[test]
fn the_scheduler_goes_on_where_it_left() {
    let mut contexts: Vec<CPUContext> = (0..8).map(|_| CPUContext::zeroed()).collect();
    let mut registers = CPUContext { ra: 1, s3: 2, ..CPUContext::zeroed() };
    let mut process = CPUContext { ra: 10, sp: 20, ..CPUContext::zeroed() };
    kernel::cpu::dispatch(&mut contexts, 1, &mut registers, &process);
    assert_eq!((registers.ra, registers.sp), (10, 20));
    registers.s0 = 5;
    kernel::cpu::preemption(&contexts, 1, &mut registers, &mut process);
    assert_eq!((registers.ra, registers.s3), (1, 2));
    assert_eq!((process.ra, process.s0), (10, 5));
    assert_eq!(kernel::cpu::id(0, 3), 3);
}
