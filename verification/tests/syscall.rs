use kernel::allocator::KernelAllocator;
use kernel::config::{NOFILE, ROOTDEV};
use kernel::file::table::FileTable;
use kernel::file::{DeviceFile, File, Transfer, PIPESIZE};
use kernel::filesystem::device::RamDisk;
use kernel::filesystem::file::InodeReference;
use kernel::filesystem::FSMAGIC;
use kernel::fs::{initialize, FileSystem};
use kernel::pipe::{PipeWrite, Pipes};
use kernel::process::memory::ProcessMemory;
use kernel::riscv::paging::PageTable;
use kernel::process::kernel_stack::{kstack_allocator, KernelStackAllocator};
use kernel::process::process::ProcessContext;
use kernel::process::table::ProcessTable;
use kernel::process::{read_memory, scheduler, setup_init_process, write_memory, WaitProgress};
use kernel::syscall::files::{
    sys_close, sys_dup, sys_exit, sys_fork, sys_fstat, sys_pipe, sys_read, sys_write, write_request,
};
use kernel::syscall::paths::{
    sys_chdir, sys_exec, sys_link, sys_mkdir, sys_mknod, sys_open, sys_unlink, O_CREATE, O_RDONLY, O_RDWR, O_TRUNC, O_WRONLY,
};
use kernel::syscall::{
    arg_fd, arg_i32, arg_raw, arg_string, fdalloc, free_fd, read_string_from_process_memory, sys_wait, syscall, Call,
};

const SIZE: usize = 400;

fn put32(b: &mut Vec<u8>, at: usize, v: u32) {
    b[at..at + 4].copy_from_slice(&v.to_le_bytes());
}

/// An empty file system: log from block 2, inodes from 32, free map at 45, data from 46.
fn image() -> Vec<Vec<u8>> {
    let mut blocks: Vec<Vec<u8>> = vec![vec![0u8; 1024]; SIZE];
    let fields = [FSMAGIC, SIZE as u32, (SIZE - 46) as u32, 200, 30, 2, 32, 45];
    for (i, v) in fields.iter().enumerate() {
        put32(&mut blocks[1], 4 * i, *v);
    }
    // the root directory
    blocks[32][64] = 1;
    blocks[32][70] = 1;
    put32(&mut blocks[32], 72, 32);
    put32(&mut blocks[32], 76, 46);
    blocks[46][0] = 1;
    blocks[46][2] = b'.';
    blocks[46][16] = 1;
    blocks[46][18] = b'.';
    blocks[46][19] = b'.';
    for b in 0..47 {
        blocks[45][b / 8] |= 1 << (b % 8);
    }
    blocks
}

fn mounted() -> FileSystem<RamDisk> {
    initialize(RamDisk::new(image()), ROOTDEV)
}

fn bytes(s: &str) -> Vec<u8> {
    s.as_bytes().to_vec()
}

const TRAMPOLINE_CODE: u64 = 0x8000_1000;
const JUMP: u64 = 0x8000_2000;

struct Machine {
    table: ProcessTable,
    a: KernelAllocator,
    stacks: KernelStackAllocator,
    fs: FileSystem<RamDisk>,
    files: FileTable,
    pipes: Pipes<PIPESIZE>,
}

/// One process, which runs in the root directory.
fn boot() -> Machine {
    let mut a = KernelAllocator::empty(0x8010_0000);
    kernel::allocator::initialize(&mut a);
    let mut stacks = kstack_allocator();
    let mut table = ProcessTable::new();
    let mut fs = mounted();
    let root = fs.search_inode(&bytes("/"), &None).unwrap();
    setup_init_process(&mut table, &mut a, &mut stacks, TRAMPOLINE_CODE, JUMP, &vec![0x13, 0, 0, 0], Some(root.cache_index));
    assert_eq!(scheduler(&mut table, 0), Some(0));
    Machine { table, a, stacks, fs, files: FileTable::new(), pipes: Pipes { pipes: vec![] } }
}

/// Puts a string into the memory of the process.
fn put(c: &ProcessContext, a: &mut KernelAllocator, addr: u64, s: &str) {
    let mut b = bytes(s);
    b.push(0);
    assert!(write_memory(c, a, addr, &b));
}

fn open(m: &mut Machine, path: &str, flags: u64) -> Result<u64, ()> {
    let c = m.table.procs[0].context().unwrap();
    put(c, &mut m.a, 1000, path);
    c.trapframe.a0 = 1000;
    c.trapframe.a1 = flags;
    sys_open(c, &m.a, &mut m.fs, &mut m.files, &m.pipes)
}

fn put_file(m: &mut Machine, fd: u64, data: &[u8]) -> Transfer {
    let c = m.table.procs[0].context().unwrap();
    assert!(write_memory(c, &mut m.a, 2000, &data.to_vec()));
    c.trapframe.a0 = fd;
    c.trapframe.a1 = 2000;
    c.trapframe.a2 = data.len() as u64;
    let mut req = write_request(c);
    sys_write(c, &mut m.files, &mut m.fs, &mut m.pipes, &m.a, &mut req, false)
}

fn read(m: &mut Machine, fd: u64, n: u64) -> (Transfer, Vec<u8>) {
    let c = m.table.procs[0].context().unwrap();
    c.trapframe.a0 = fd;
    c.trapframe.a1 = 3000;
    c.trapframe.a2 = n;
    let r = sys_read(c, &mut m.files, &mut m.fs, &mut m.pipes, &mut m.a, false);
    let got = match r {
        Transfer::Done(k) => read_memory(c, &m.a, 3000, k).unwrap(),
        _ => vec![],
    };
    (r, got)
}

fn close(m: &mut Machine, fd: u64) -> Result<u64, ()> {
    let c = m.table.procs[0].context().unwrap();
    c.trapframe.a0 = fd;
    sys_close(c, &mut m.files, &mut m.fs, &mut m.pipes)
}

fn mkdir(m: &mut Machine, path: &str) -> Result<u64, ()> {
    let c = m.table.procs[0].context().unwrap();
    put(c, &mut m.a, 1000, path);
    c.trapframe.a0 = 1000;
    sys_mkdir(c, &m.a, &mut m.fs)
}

fn chdir(m: &mut Machine, path: &str) -> Result<u64, ()> {
    let c = m.table.procs[0].context().unwrap();
    put(c, &mut m.a, 1000, path);
    c.trapframe.a0 = 1000;
    sys_chdir(c, &m.a, &mut m.fs, &m.files, &m.pipes)
}

fn unlink(m: &mut Machine, path: &str) -> Result<u64, ()> {
    let c = m.table.procs[0].context().unwrap();
    put(c, &mut m.a, 1000, path);
    c.trapframe.a0 = 1000;
    sys_unlink(c, &m.a, &mut m.fs)
}

#[test]
fn calls_have_numbers() {
    assert_eq!(syscall(1), Ok(Call::Fork));
    assert_eq!(syscall(7), Ok(Call::Exec));
    assert_eq!(syscall(15), Ok(Call::Open));
    assert_eq!(syscall(21), Ok(Call::Close));
    assert_eq!(syscall(0), Err(()));
    assert_eq!(syscall(22), Err(()));
}

#[test]
fn arguments_come_from_registers() {
    let mut m = boot();
    let c = m.table.procs[0].context().unwrap();
    c.trapframe.a0 = 3;
    c.trapframe.a5 = 0x1_ffff_fffe;
    assert_eq!(arg_raw(&c.trapframe, 0), 3);
    assert_eq!(arg_raw(&c.trapframe, 5), 0x1_ffff_fffe);
    assert_eq!(arg_i32(&c.trapframe, 5), -2);
    assert_eq!(arg_fd(c, 0), Err(()));
    assert_eq!(free_fd(c), Some(0));
    for i in 0..NOFILE {
        assert_eq!(fdalloc(c, 40 + i), Ok(i));
    }
    assert_eq!(fdalloc(c, 99), Err(()));
    assert_eq!(free_fd(c), None);
    assert_eq!(arg_fd(c, 0), Ok((3, 43)));
    c.trapframe.a0 = NOFILE as u64;
    assert_eq!(arg_fd(c, 0), Err(()));
}

#[test]
fn strings_come_from_memory() {
    let mut m = boot();
    let c = m.table.procs[0].context().unwrap();
    put(c, &mut m.a, 500, "name");
    let mut buffer = vec![0xffu8; 8];
    assert_eq!(read_string_from_process_memory(c, &m.a, 500, &mut buffer), Ok(4));
    assert_eq!(buffer[..4], *b"name");
    let mut short = vec![0u8; 4];
    assert_eq!(read_string_from_process_memory(c, &m.a, 500, &mut short), Err(()));
    c.trapframe.a0 = 500;
    assert_eq!(arg_string(c, &m.a, 0), Ok(bytes("name")));
    // not UTF-8
    assert!(write_memory(c, &mut m.a, 500, &vec![b'a', 0xff, 0]));
    assert_eq!(arg_string(c, &m.a, 0), Err(()));
    put(c, &mut m.a, 500, "\u{e9}t\u{e9}");
    assert_eq!(arg_string(c, &m.a, 0), Ok(bytes("\u{e9}t\u{e9}")));
    // too long
    put(c, &mut m.a, 500, &"x".repeat(128));
    assert_eq!(arg_string(c, &m.a, 0), Err(()));
    put(c, &mut m.a, 500, &"x".repeat(127));
    assert_eq!(arg_string(c, &m.a, 0), Ok(vec![b'x'; 127]));
    // not in memory
    c.trapframe.a0 = 4096;
    assert_eq!(arg_string(c, &m.a, 0), Err(()));
}

#[test]
fn files_are_written_and_read() {
    let mut m = boot();
    assert_eq!(open(&mut m, "/f", O_RDONLY), Err(()));
    assert_eq!(open(&mut m, "/f", O_CREATE | O_RDWR), Ok(0));
    assert_eq!(put_file(&mut m, 0, b"hello"), Transfer::Done(5));
    assert_eq!(put_file(&mut m, 0, b" world"), Transfer::Done(6));
    assert_eq!(open(&mut m, "/f", O_RDONLY), Ok(1));
    assert_eq!(read(&mut m, 1, 8), (Transfer::Done(8), b"hello wo".to_vec()));
    assert_eq!(read(&mut m, 1, 8), (Transfer::Done(3), b"rld".to_vec()));
    assert_eq!(read(&mut m, 1, 8), (Transfer::Done(0), vec![]));
    assert_eq!(put_file(&mut m, 1, b"x"), Transfer::Failed);
    assert_eq!(open(&mut m, "/f", O_WRONLY), Ok(2));
    assert_eq!(read(&mut m, 2, 8).0, Transfer::Failed);
    assert_eq!(close(&mut m, 1), Ok(0));
    assert_eq!(close(&mut m, 1), Err(()));
    assert_eq!(read(&mut m, 1, 8).0, Transfer::Failed);
    // the lowest descriptor that is free
    assert_eq!(open(&mut m, "/f", O_RDWR | O_TRUNC), Ok(1));
    assert_eq!(read(&mut m, 1, 8), (Transfer::Done(0), vec![]));
}

#[test]
fn duplicates_share_the_offset() {
    let mut m = boot();
    assert_eq!(open(&mut m, "/f", O_CREATE | O_RDWR), Ok(0));
    let c = m.table.procs[0].context().unwrap();
    c.trapframe.a0 = 0;
    assert_eq!(sys_dup(c, &mut m.files), Ok(1));
    c.trapframe.a0 = 9;
    assert_eq!(sys_dup(c, &mut m.files), Err(()));
    assert_eq!(m.files.files[0].as_ref().unwrap().count, 2);
    assert_eq!(put_file(&mut m, 0, b"ab"), Transfer::Done(2));
    assert_eq!(put_file(&mut m, 1, b"cd"), Transfer::Done(2));
    assert_eq!(close(&mut m, 0), Ok(0));
    assert_eq!(open(&mut m, "/f", O_RDONLY), Ok(0));
    assert_eq!(read(&mut m, 0, 10), (Transfer::Done(4), b"abcd".to_vec()));
}

#[test]
fn attributes() {
    let mut m = boot();
    assert_eq!(open(&mut m, "/f", O_CREATE | O_RDWR), Ok(0));
    assert_eq!(put_file(&mut m, 0, b"hello"), Transfer::Done(5));
    let c = m.table.procs[0].context().unwrap();
    c.trapframe.a0 = 0;
    c.trapframe.a1 = 3000;
    assert_eq!(sys_fstat(c, &m.files, &mut m.fs, &m.pipes, &mut m.a), Ok(0));
    let b = read_memory(c, &m.a, 3000, 24).unwrap();
    assert_eq!(b[..4], [1, 0, 0, 0]);
    assert_eq!(b[4..8], [2, 0, 0, 0]);
    assert_eq!(b[8..12], [2, 0, 1, 0]);
    assert_eq!(b[16..24], [5, 0, 0, 0, 0, 0, 0, 0]);
    c.trapframe.a1 = 4096;
    assert_eq!(sys_fstat(c, &m.files, &mut m.fs, &m.pipes, &mut m.a), Err(()));
    c.trapframe.a0 = 3;
    assert_eq!(sys_fstat(c, &m.files, &mut m.fs, &m.pipes, &mut m.a), Err(()));
}

#[test]
fn pipes_carry_bytes_in_order() {
    let mut m = boot();
    let c = m.table.procs[0].context().unwrap();
    c.trapframe.a0 = 3500;
    assert_eq!(sys_pipe(c, &mut m.files, &m.fs, &mut m.pipes, &mut m.a), Ok(0));
    assert_eq!(read_memory(c, &m.a, 3500, 8), Some(vec![0, 0, 0, 0, 1, 0, 0, 0]));
    assert_eq!(read(&mut m, 0, 4).0, Transfer::AwaitData);
    assert_eq!(put_file(&mut m, 1, b"abcdef"), Transfer::Done(6));
    assert_eq!(read(&mut m, 0, 4), (Transfer::Done(4), b"abcd".to_vec()));
    assert_eq!(put_file(&mut m, 1, b"gh"), Transfer::Done(2));
    assert_eq!(read(&mut m, 0, 40), (Transfer::Done(4), b"efgh".to_vec()));
    assert_eq!(put_file(&mut m, 0, b"x"), Transfer::Failed);
    assert_eq!(read(&mut m, 1, 1).0, Transfer::Failed);
    assert_eq!(put_file(&mut m, 1, &vec![7u8; PIPESIZE + 1]), Transfer::AwaitSpace);
    assert_eq!(read(&mut m, 0, 600).0, Transfer::Done(PIPESIZE));
    assert_eq!(close(&mut m, 1), Ok(0));
    assert_eq!(read(&mut m, 0, 600), (Transfer::Done(0), vec![]));
}

#[test]
fn a_pipe_without_readers_takes_nothing() {
    let mut m = boot();
    let c = m.table.procs[0].context().unwrap();
    c.trapframe.a0 = 3500;
    assert_eq!(sys_pipe(c, &mut m.files, &m.fs, &mut m.pipes, &mut m.a), Ok(0));
    assert_eq!(close(&mut m, 0), Ok(0));
    assert_eq!(put_file(&mut m, 1, b"x"), Transfer::Failed);
    let c = m.table.procs[0].context().unwrap();
    c.trapframe.a0 = 4090;
    assert_eq!(sys_pipe(c, &mut m.files, &m.fs, &mut m.pipes, &mut m.a), Err(()));
    assert_eq!(free_fd(c), Some(0));
}

#[test]
fn devices_are_left_to_their_drivers() {
    let mut m = boot();
    let c = m.table.procs[0].context().unwrap();
    put(c, &mut m.a, 1000, "/console");
    c.trapframe.a0 = 1000;
    c.trapframe.a1 = 1;
    c.trapframe.a2 = 0;
    assert_eq!(sys_mknod(c, &m.a, &mut m.fs), Ok(0));
    assert_eq!(sys_mknod(c, &m.a, &mut m.fs), Err(()));
    assert_eq!(open(&mut m, "/console", O_RDWR), Ok(0));
    assert_eq!(put_file(&mut m, 0, b"hi"), Transfer::Device(DeviceFile { major: 1 }));
    assert_eq!(read(&mut m, 0, 1).0, Transfer::Device(DeviceFile { major: 1 }));
    assert_eq!(DeviceFile { major: 1 }.complete(2), Ok(2));
    assert_eq!(DeviceFile { major: 1 }.complete(-1), Err(()));
}

#[test]
fn directories_and_names() {
    let mut m = boot();
    assert_eq!(mkdir(&mut m, "/d"), Ok(0));
    assert_eq!(mkdir(&mut m, "/d"), Err(()));
    assert_eq!(chdir(&mut m, "d"), Ok(0));
    assert_eq!(chdir(&mut m, "missing"), Err(()));
    assert_eq!(open(&mut m, "inner", O_CREATE | O_RDWR), Ok(0));
    assert_eq!(open(&mut m, "/d/inner", O_RDONLY), Ok(1));
    assert_eq!(open(&mut m, "/d", O_RDWR), Err(()));
    assert_eq!(open(&mut m, "/d", O_RDONLY), Ok(2));
    let c = m.table.procs[0].context().unwrap();
    put(c, &mut m.a, 1000, "inner");
    put(c, &mut m.a, 1200, "/other");
    c.trapframe.a0 = 1000;
    c.trapframe.a1 = 1200;
    assert_eq!(sys_link(c, &m.a, &mut m.fs), Ok(0));
    assert_eq!(sys_link(c, &m.a, &mut m.fs), Err(()));
    assert_eq!(unlink(&mut m, "inner"), Ok(0));
    assert_eq!(unlink(&mut m, "inner"), Err(()));
    assert_eq!(open(&mut m, "/other", O_RDONLY), Ok(3));
    assert_eq!(chdir(&mut m, ".."), Ok(0));
    assert_eq!(open(&mut m, "other", O_RDONLY), Ok(4));
}

#[test]
fn a_child_shares_the_files() {
    let mut m = boot();
    assert_eq!(open(&mut m, "/f", O_CREATE | O_RDWR), Ok(0));
    assert_eq!(put_file(&mut m, 0, b"ab"), Transfer::Done(2));
    let r = sys_fork(&mut m.table, 0, &mut m.a, &mut m.stacks, &mut m.files, &mut m.fs, TRAMPOLINE_CODE, JUMP);
    assert_eq!(r, Ok(2));
    assert_eq!(m.files.files[0].as_ref().unwrap().count, 2);
    assert_eq!(close(&mut m, 0), Ok(0));
    assert_eq!(m.files.files[0].as_ref().unwrap().count, 1);
    assert_eq!(scheduler(&mut m.table, 1), Some(1));
    let c = m.table.procs[1].context().unwrap();
    assert_eq!(arg_fd(c, 0).map(|x| x.0), Ok(0));
    assert!(write_memory(c, &mut m.a, 2000, &b"cd".to_vec()));
    c.trapframe.a1 = 2000;
    c.trapframe.a2 = 2;
    let mut req = write_request(c);
    assert_eq!(sys_write(c, &mut m.files, &mut m.fs, &mut m.pipes, &m.a, &mut req, false), Transfer::Done(2));
    m.table.procs[1].context().unwrap().trapframe.a0 = 9;
    let root = m.table.procs[1].context_ref().unwrap().cwd.unwrap();
    assert_eq!(m.fs.inodes.cache.reference_count(root), Some(2));
    sys_exit(&mut m.table, 1, &mut m.files, &mut m.fs, &mut m.pipes);
    assert!(m.files.files.iter().all(|f| f.is_none()));
    assert_eq!(m.fs.inodes.cache.reference_count(root), Some(1));
    let c = m.table.procs[0].context().unwrap();
    c.trapframe.a0 = 3800;
    assert_eq!(sys_wait(&mut m.table, 0, &mut m.a, &mut m.stacks), WaitProgress::Reaped(2));
    let c = m.table.procs[0].context().unwrap();
    assert_eq!(read_memory(c, &m.a, 3800, 4), Some(vec![9, 0, 0, 0]));
    assert_eq!(open(&mut m, "/f", O_RDONLY), Ok(0));
    assert_eq!(read(&mut m, 0, 10), (Transfer::Done(4), b"abcd".to_vec()));
}

/// A program with one segment of 100 bytes at address 0, of which 4 are in the file.
fn program() -> Vec<u8> {
    let mut e = vec![0u8; 124];
    e[..4].copy_from_slice(&0x464c_457fu32.to_le_bytes());
    e[24] = 16;
    e[32] = 64;
    e[56] = 1;
    e[64] = 1;
    e[68] = 7;
    e[72] = 120;
    e[96] = 4;
    e[104] = 100;
    e[120..].copy_from_slice(&[9, 8, 7, 6]);
    e
}

fn exec(m: &mut Machine, path: &str, argv: &[&str]) -> Result<u64, ()> {
    let c = m.table.procs[0].context().unwrap();
    put(c, &mut m.a, 1000, path);
    let mut table = vec![];
    let mut at = 2000u64;
    for s in argv {
        put(c, &mut m.a, at, s);
        table.extend_from_slice(&at.to_le_bytes());
        at += s.len() as u64 + 1;
    }
    table.extend_from_slice(&[0u8; 8]);
    assert!(write_memory(c, &mut m.a, 1500, &table));
    c.trapframe.a0 = 1000;
    c.trapframe.a1 = 1500;
    sys_exec(&mut m.a, &mut m.fs, c, TRAMPOLINE_CODE)
}

#[test]
fn a_program_is_loaded_with_its_arguments() {
    let mut m = boot();
    assert_eq!(open(&mut m, "/p", O_CREATE | O_RDWR), Ok(0));
    assert_eq!(put_file(&mut m, 0, &program()), Transfer::Done(124));
    assert_eq!(exec(&mut m, "/p", &["ab", "c"]), Ok(2));
    let c = m.table.procs[0].context().unwrap();
    assert_eq!(c.sz, 12288);
    assert_eq!((c.trapframe.epc, c.trapframe.sp, c.trapframe.a1), (16, 12224, 12224));
    assert_eq!(read_memory(c, &m.a, 0, 5), Some(vec![9, 8, 7, 6, 0]));
    // the page below the stack cannot be used
    assert_eq!(read_memory(c, &m.a, 4096, 1), None);
    let mut words = vec![];
    for v in [12272u64, 12256, 0] {
        words.extend_from_slice(&v.to_le_bytes());
    }
    assert_eq!(read_memory(c, &m.a, 12224, 24), Some(words));
    assert_eq!(read_memory(c, &m.a, 12272, 3), Some(b"ab\0".to_vec()));
    assert_eq!(read_memory(c, &m.a, 12256, 2), Some(b"c\0".to_vec()));
    assert!(arg_fd(c, 5).is_ok());
}

#[test]
fn a_bad_program_changes_nothing() {
    let mut m = boot();
    assert_eq!(exec(&mut m, "/none", &["a"]), Err(()));
    assert_eq!(open(&mut m, "/p", O_CREATE | O_RDWR), Ok(0));
    assert_eq!(put_file(&mut m, 0, b"not a program"), Transfer::Done(13));
    assert_eq!(exec(&mut m, "/p", &["a"]), Err(()));
    // too many arguments
    assert_eq!(open(&mut m, "/q", O_CREATE | O_RDWR), Ok(1));
    assert_eq!(put_file(&mut m, 1, &program()), Transfer::Done(124));
    assert_eq!(exec(&mut m, "/q", &["a"; 33]), Err(()));
    let c = m.table.procs[0].context().unwrap();
    assert_eq!(c.sz, 4096);
    assert_eq!(read_memory(c, &m.a, 0, 1), Some(vec![0x13]));
    assert_eq!(exec(&mut m, "/q", &["a"; 31]), Ok(31));
}

#[test]
fn nothing_can_be_written_to_a_directory_handle() {
    let mut m = boot();
    let root = m.fs.search_inode(&bytes("/"), &None).unwrap();
    let c = m.table.procs[0].context_ref().unwrap();
    let mem = ProcessMemory { pagetable: PageTable { table: c.pagetable.table }, size: c.sz };
    let mut req = PipeWrite { addr: 0, n: 0, i: 0 };
    let mut wo = File::new_inode(InodeReference { cache_index: root.cache_index }, false, true);
    assert_eq!(wo.write(&mut m.fs, &mut m.pipes, &m.a, &mem, &mut req, false), Transfer::Done(0));
    let mut ro = File::new_inode(root, true, false);
    assert_eq!(ro.write(&mut m.fs, &mut m.pipes, &m.a, &mem, &mut req, false), Transfer::Failed);
}
