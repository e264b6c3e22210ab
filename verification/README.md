# kernel

A small Unix-like teaching kernel for RISC-V, written in Verus. The library in `src/` holds the
parts that decide and compute; every function in it is verified against its contract.

## Layout

| Module | What it holds |
| --- | --- |
| `allocator`, `page_alloc` | physical pages: a list of the free ones |
| `riscv`, `riscv::paging`, `vm` | page tables over modelled memory, and the kernel's own table |
| `process` | the process table, fork, exit, wait, sleep and wakeup, the scheduler |
| `exec`, `elf` | loading programs |
| `filesystem` | blocks, buffers, the log, inodes and directories on disk |
| `fs` | the file system: paths, creating, linking and removing files |
| `file`, `pipe` | open files and pipes |
| `syscall` | system calls on processes, files and paths |
| `trap`, `interrupt`, `plic`, `start`, `clock` | traps and interrupts |
| `console`, `uart`, `virtio` | device drivers |
| `lock`, `spinlock`, `sleeplock` | locks |
| `buffer`, `cache`, `bitmap`, `undrop`, `bounded` | containers |

Hardware is modelled by plain values. Memory is a list of page frames in `KernelAllocator`; a
disk is an implementation of `BlockDevice`; a function that would read or write registers takes
and returns their values. A function that would wait returns a value that says what to wait for,
and is called again.

`app/` runs the kernel on a simulated machine. `tests/` runs the library on concrete values.

## Statements about the whole

Besides the contracts of single functions, these are proved as public proof functions: what is
read from a file or from memory is what was written (`fs::lemma_read_what_was_written`,
`riscv::paging::lemma_read_after_write`), a crash leaves either the state before a commit or the
one after it (`filesystem::log::lemma_commit_atomic`), processes do not reach each other's memory
(`process::lemma_processes_isolated`), the status of a process that ended reaches its parent
(`process::lemma_status_handed_over`), every entry of a directory names an inode that is in use
after every operation (`fs::links`), paths lead to what was created or linked under them and
nowhere after it was removed (`fs::paths`), a file is open exactly as long as some process has a
descriptor for it, every reference to an inode is that of an open file or of a current directory
(`syscall::descriptors`), bytes leave a pipe and the UART in the order in which they came
(`pipe::lemma_pipe_in_order`, `uart::lemma_sent_in_order`), and the count of a cache slot is the
number of references that are out (`cache::lemma_count_is_references`).
