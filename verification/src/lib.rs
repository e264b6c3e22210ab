//! A small teaching kernel: memory, processes, devices and a logging file system.
pub mod allocator;
pub mod bitmap;
pub mod bounded;
pub mod buffer;
pub mod cache;
pub mod clock;
pub mod config;
pub mod console;
pub mod cpu;
pub mod elf;
pub mod exec;
pub mod file;
pub mod filesystem;
pub mod fs;
pub mod interrupt;
pub mod lock;
pub mod log;
pub mod memory_layout;
pub mod page_alloc;
pub mod pipe;
pub mod plic;
pub mod process;
pub mod riscv;
pub mod sleeplock;
pub mod spinlock;
pub mod start;
pub mod syscall;
pub mod trap;
pub mod uart;
pub mod undrop;
pub mod virtio;
pub mod vm;
