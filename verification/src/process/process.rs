//! A process and its states.
use vstd::prelude::*;
use crate::allocator::{frame_at, is_frame, is_frame_addr, Frame, KernelAllocator};
use crate::config::{NOFILE, NPROC};
use crate::memory_layout::kstack_spec;
use crate::process::context::CPUContext;
use crate::process::kernel_stack::{stack_taken, KernelStackAllocator};
use crate::process::memory::{
    grow_memory, lemma_copy_frames, lemma_own_only, lemma_frames_for, pages_and_tables, lemma_memory_safe, lemma_memory_same, lemma_safe_kept, lemma_safe_trans, mem_end, memory_wf, others_safe, own_page, same_below, shrink_memory,
    trampoline_page, trapframe_page,
};
use crate::process::trapframe::TrapFrame;
use crate::process::{allocate_pagetable, free_pagetable};
use crate::riscv::paging::{
    frame_of, lemma_taken_less, lemma_taken_none, lemma_taken_pages, lemma_taken_trans, page_frames, taken_but, is_owned, is_page, is_root, kernel_kept, lookup, page_copied, page_count, user_byte, PageTable, PGSIZE, PTE, own_only,
};

verus! {

/// What a process is about.
pub enum ProcessState {
    Invalid,
    Unused,
    Used,
    Sleeping(ProcessContext, usize),
    Runnable(ProcessContext),
    Running(ProcessContext),
    Zombie(ProcessContext, i32),
}

impl ProcessState {
    pub fn is_unused(&self) -> (r: bool)
        ensures
            r == (self is Unused),
    {
        matches!(self, ProcessState::Unused)
    }

    pub fn is_sleeping(&self) -> (r: bool)
        ensures
            r == (self is Sleeping),
    {
        matches!(self, ProcessState::Sleeping(_, _))
    }

    pub fn is_sleeping_on(&self, token: usize) -> (r: bool)
        ensures
            r == (self matches ProcessState::Sleeping(_, on) && on == token),
    {
        match self {
            ProcessState::Sleeping(_, on) => *on == token,
            _ => false,
        }
    }

    pub fn is_runnable(&self) -> (r: bool)
        ensures
            r == (self is Runnable),
    {
        matches!(self, ProcessState::Runnable(_))
    }

    pub fn is_running(&self) -> (r: bool)
        ensures
            r == (self is Running),
    {
        matches!(self, ProcessState::Running(_))
    }

    pub fn is_zombie(&self) -> (r: bool)
        ensures
            r == (self is Zombie),
    {
        matches!(self, ProcessState::Zombie(_, _))
    }

    /// Takes a process slot into use.
    pub fn allocate(&mut self) -> (r: Result<(), ()>)
        ensures
            match *old(self) {
                ProcessState::Unused => r is Ok && *final(self) == ProcessState::Used,
                _ => r is Err && *final(self) == *old(self),
            },
    {
        match self {
            ProcessState::Unused => {
                *self = ProcessState::Used;
                Ok(())
            },
            _ => Err(()),
        }
    }

    /// Makes a new process runnable.
    pub fn setup(&mut self, context: ProcessContext) -> (r: Result<(), ProcessContext>)
        ensures
            match *old(self) {
                ProcessState::Used => r is Ok && *final(self) == ProcessState::Runnable(context),
                _ => r == Err::<(), ProcessContext>(context) && *final(self) == *old(self),
            },
    {
        match self {
            ProcessState::Used => {
                *self = ProcessState::Runnable(context);
                Ok(())
            },
            _ => Err(context),
        }
    }

    /// A CPU begins to run the process.
    pub fn run(&mut self) -> (r: Result<(), ()>)
        ensures
            match *old(self) {
                ProcessState::Runnable(context) => r is Ok && *final(self) == ProcessState::Running(context),
                _ => r is Err && *final(self) == *old(self),
            },
    {
        let mut this = ProcessState::Invalid;
        core::mem::swap(self, &mut this);
        match this {
            ProcessState::Runnable(context) => {
                *self = ProcessState::Running(context);
                Ok(())
            },
            other => {
                *self = other;
                Err(())
            },
        }
    }

    /// The process waits for `token`.
    pub fn sleep(&mut self, token: usize) -> (r: Result<(), ()>)
        ensures
            match *old(self) {
                ProcessState::Running(context) => r is Ok && *final(self) == ProcessState::Sleeping(context, token),
                _ => r is Err && *final(self) == *old(self),
            },
    {
        let mut this = ProcessState::Invalid;
        core::mem::swap(self, &mut this);
        match this {
            ProcessState::Running(context) => {
                *self = ProcessState::Sleeping(context, token);
                Ok(())
            },
            other => {
                *self = other;
                Err(())
            },
        }
    }

    /// The process need not wait any longer.
    pub fn wakeup(&mut self) -> (r: Result<(), ()>)
        ensures
            match *old(self) {
                ProcessState::Sleeping(context, _) => r is Ok && *final(self) == ProcessState::Runnable(context),
                _ => r is Err && *final(self) == *old(self),
            },
    {
        let mut this = ProcessState::Invalid;
        core::mem::swap(self, &mut this);
        match this {
            ProcessState::Sleeping(context, _) => {
                *self = ProcessState::Runnable(context);
                Ok(())
            },
            other => {
                *self = other;
                Err(())
            },
        }
    }

    /// The process gives up the CPU.
    pub fn pause(&mut self) -> (r: Result<(), ()>)
        ensures
            match *old(self) {
                ProcessState::Running(context) => r is Ok && *final(self) == ProcessState::Runnable(context),
                _ => r is Err && *final(self) == *old(self),
            },
    {
        let mut this = ProcessState::Invalid;
        core::mem::swap(self, &mut this);
        match this {
            ProcessState::Running(context) => {
                *self = ProcessState::Runnable(context);
                Ok(())
            },
            other => {
                *self = other;
                Err(())
            },
        }
    }

    /// The process ends; its parent will ask for the exit status.
    pub fn die(&mut self, exit_status: i32) -> (r: Result<(), ()>)
        ensures
            match *old(self) {
                ProcessState::Running(context) => r is Ok && *final(self) == ProcessState::Zombie(context, exit_status),
                _ => r is Err && *final(self) == *old(self),
            },
    {
        let mut this = ProcessState::Invalid;
        core::mem::swap(self, &mut this);
        match this {
            ProcessState::Running(context) => {
                *self = ProcessState::Zombie(context, exit_status);
                Ok(())
            },
            other => {
                *self = other;
                Err(())
            },
        }
    }

    /// Takes the context from a running process, whose slot is free afterwards.
    pub fn clear(&mut self) -> (r: Result<ProcessContext, ()>)
        ensures
            match *old(self) {
                ProcessState::Running(context) => r == Ok::<ProcessContext, ()>(context) && *final(self) == ProcessState::Unused,
                _ => r is Err && *final(self) == *old(self),
            },
    {
        let mut this = ProcessState::Invalid;
        core::mem::swap(self, &mut this);
        match this {
            ProcessState::Running(context) => {
                *self = ProcessState::Unused;
                Ok(context)
            },
            other => {
                *self = other;
                Err(())
            },
        }
    }

    /// The context of a process that neither runs nor has ended.
    pub fn context(&mut self) -> (r: Option<&mut ProcessContext>)
        ensures
            match r {
                Some(c) => match *old(self) {
                    ProcessState::Runnable(context) => *c == context && *final(self) == ProcessState::Runnable(*final(c)),
                    ProcessState::Sleeping(context, on) => *c == context && *final(self) == ProcessState::Sleeping(*final(c), on),
                    _ => false,
                },
                None => !(*old(self) is Runnable) && !(*old(self) is Sleeping) && *final(self) == *old(self),
            },
    {
        match self {
            ProcessState::Runnable(context) => Some(context),
            ProcessState::Sleeping(context, _) => Some(context),
            _ => None,
        }
    }

    /// The same state with another context.
    pub open spec fn with_context(&self, context: ProcessContext) -> ProcessState {
        match *self {
            ProcessState::Runnable(_) => ProcessState::Runnable(context),
            ProcessState::Running(_) => ProcessState::Running(context),
            ProcessState::Sleeping(_, on) => ProcessState::Sleeping(context, on),
            ProcessState::Zombie(_, status) => ProcessState::Zombie(context, status),
            _ => *self,
        }
    }

    /// The context that the process has in any state.
    pub open spec fn held_context(&self) -> Option<ProcessContext> {
        match *self {
            ProcessState::Runnable(context) => Some(context),
            ProcessState::Running(context) => Some(context),
            ProcessState::Sleeping(context, _) => Some(context),
            ProcessState::Zombie(context, _) => Some(context),
            _ => None,
        }
    }
}

/// A slot of the process table.
pub struct Process {
    pub state: ProcessState,
    /// Whether the process was told to end.
    pub killed: bool,
    /// Process number.
    pub pid: usize,
    /// Slot of the parent process.
    pub parent: Option<usize>,
    /// For debugging.
    pub name: Vec<u8>,
}

impl Process {
    pub fn unused() -> (this: Self)
        ensures
            this.is_blank(),
    {
        Process { state: ProcessState::Unused, killed: false, pid: 0, parent: None, name: crate::filesystem::bytes::zeros(16) }
    }

    /// The slot is as it was at the start.
    pub open spec fn is_blank(&self) -> bool {
        &&& self.state == ProcessState::Unused
        &&& !self.killed
        &&& self.pid == 0
        &&& self.parent == None::<usize>
        &&& self.name@ == Seq::new(16, |i: int| 0u8)
    }

    /// The context of a process that has one.
    pub fn context(&mut self) -> (r: Option<&mut ProcessContext>)
        ensures
            match r {
                Some(c) => {
                    &&& old(self).state.held_context() == Some(*c)
                    &&& *final(self) == (Process { state: old(self).state.with_context(*final(c)), ..*old(self) })
                },
                None => old(self).state.held_context() is None && *final(self) == *old(self),
            },
    {
        match &mut self.state {
            ProcessState::Runnable(context) => Some(context),
            ProcessState::Running(context) => Some(context),
            ProcessState::Sleeping(context, _) => Some(context),
            ProcessState::Zombie(context, _) => Some(context),
            _ => None,
        }
    }

    /// Makes the slot free. The context, if there is one, is handed out for its resources to
    /// be released.
    pub fn deallocate(&mut self) -> (r: Option<ProcessContext>)
        requires
            old(self).name@.len() == 16,
        ensures
            r == old(self).state.held_context(),
            final(self).state == ProcessState::Unused,
            !final(self).killed,
            final(self).pid == 0,
            final(self).parent == None::<usize>,
            final(self).name@ == old(self).name@.update(0, 0u8),
    {
        self.pid = 0;
        self.parent = None;
        self.name.set(0, 0);
        self.killed = false;
        let mut this = ProcessState::Unused;
        core::mem::swap(&mut self.state, &mut this);
        match this {
            ProcessState::Runnable(context) => Some(context),
            ProcessState::Running(context) => Some(context),
            ProcessState::Sleeping(context, _) => Some(context),
            ProcessState::Zombie(context, _) => Some(context),
            _ => None,
        }
    }

    /// What a listing of processes shows of the slot: nothing where it is unused, else the
    /// process number, the state and the name.
    pub fn dump(&self) -> (r: Option<(usize, StateName, Vec<u8>)>)
        ensures
            match r {
                None => self.state is Unused,
                Some((pid, state, name)) => {
                    &&& !(self.state is Unused)
                    &&& pid == self.pid
                    &&& state == self.state.name_of()
                    &&& name@ == self.name@
                },
            },
    {
        if self.state.is_unused() {
            return None;
        }
        Some((self.pid, self.state.state_name(), crate::riscv::paging::clone_bytes(&self.name)))
    }
}

/// The names of the states.
#[derive(Clone, Copy, Debug, PartialEq, Eq, Structural)]
pub enum StateName {
    Invalid,
    Unused,
    Used,
    Sleeping,
    Runnable,
    Running,
    Zombie,
}

impl ProcessState {
    pub open spec fn name_of(&self) -> StateName {
        match self {
            ProcessState::Invalid => StateName::Invalid,
            ProcessState::Unused => StateName::Unused,
            ProcessState::Used => StateName::Used,
            ProcessState::Sleeping(_, _) => StateName::Sleeping,
            ProcessState::Runnable(_) => StateName::Runnable,
            ProcessState::Running(_) => StateName::Running,
            ProcessState::Zombie(_, _) => StateName::Zombie,
        }
    }

    pub fn state_name(&self) -> (r: StateName)
        ensures
            r == self.name_of(),
    {
        match self {
            ProcessState::Invalid => StateName::Invalid,
            ProcessState::Unused => StateName::Unused,
            ProcessState::Used => StateName::Used,
            ProcessState::Sleeping(_, _) => StateName::Sleeping,
            ProcessState::Runnable(_) => StateName::Runnable,
            ProcessState::Running(_) => StateName::Running,
            ProcessState::Zombie(_, _) => StateName::Zombie,
        }
    }
}

/// What belongs to a process from its start to its end.
pub struct ProcessContext {
    /// Virtual address of the kernel stack.
    pub kstack: u64,
    /// Size of process memory in bytes.
    pub sz: u64,
    /// User page table.
    pub pagetable: PageTable,
    /// Data for the trampoline.
    pub trapframe: TrapFrame,
    /// Physical address of the page that holds the trap frame.
    pub trapframe_addr: u64,
    /// Switch here to run the process.
    pub context: CPUContext,
    /// Open files, by their numbers in the table of files.
    pub ofile: Vec<Option<usize>>,
    /// Current directory, by its slot in the cache of inodes.
    pub cwd: Option<usize>,
}

/// `pa` is a page of memory that only the kernel uses.
pub open spec fn is_kernel_page(ram: Seq<Frame>, pa: int) -> bool {
    &&& is_frame_addr(pa)
    &&& ram[frame_at(pa)] is Data
    &&& ram[frame_at(pa)]->owner@ == None::<(int, int)>
}

/// What a change of the size of the memory by `n` bytes does to a process.
pub open spec fn resized(c0: ProcessContext, c1: ProcessContext, a0: KernelAllocator, a1: KernelAllocator, n: int, r: Result<u64, ()>) -> bool {
    let root = c0.pagetable.root();
    let sz0 = c0.sz as int;
    &&& c1 == (ProcessContext { sz: c1.sz, ..c0 })
    &&& match r {
        Ok(old_size) => {
            &&& old_size == sz0
            &&& c1.sz == if sz0 + n < 0 { sz0 } else { sz0 + n }
            &&& same_below(
                a0.frames(),
                a1.frames(),
                root,
                mem_end(if c1.sz < sz0 { c1.sz as int } else { sz0 }),
            )
            &&& forall|va: int| mem_end(sz0) <= va < mem_end(c1.sz as int) ==> #[trigger] user_byte(
                a1.frames(),
                root,
                va,
            ) == Some(0u8)
            &&& forall|vp: int| page_count(sz0) <= vp < page_count(c1.sz as int) ==> #[trigger] crate::riscv::paging::has_page(
                a1.frames(),
                root,
                vp,
                crate::riscv::paging::grown_flags(PTE::W),
            )
            &&& forall|vp: int|
                0 <= vp < page_count(sz0) && vp < page_count(c1.sz as int) ==> #[trigger] lookup(a1.frames(), root, vp) == lookup(a0.frames(), root, vp)
            &&& taken_but(
                a0.frames(),
                a1.frames(),
                page_frames(a1.frames(), root, page_count(sz0), page_count(c1.sz as int) - page_count(sz0)),
            )
            &&& c1.sz <= sz0 ==> a1.free().len() == a0.free().len() + page_count(sz0) - page_count(c1.sz as int)
        },
        Err(_) => {
            &&& n > 0
            &&& c1 == c0
            &&& same_below(a0.frames(), a1.frames(), root, mem_end(sz0))
            &&& a0.free().len() < pages_and_tables(sz0, sz0 + n)
            &&& a1.free().len() <= page_count(sz0 + n) - page_count(sz0)
            &&& taken_but(a0.frames(), a1.frames(), Set::empty())
        },
    }
}

/// The frames of the root of the page table and of the trap frame.
pub open spec fn own_frames(c: ProcessContext) -> Set<int> {
    set![c.pagetable.root(), frame_at(c.trapframe_addr as int)]
}

/// The frames that belong to a process: those of its memory, and those of the root of its page
/// table and of its trap frame.
pub open spec fn frames_of_process(ram: Seq<Frame>, c: ProcessContext) -> Set<int> {
    own_frames(c).union(page_frames(ram, c.pagetable.root(), 0, page_count(c.sz as int)))
}

/// A page that goes back to the free list was not taken, nor was what is free otherwise.
proof fn lemma_taken_returned(s0: Seq<Frame>, s1: Seq<Frame>, s2: Seq<Frame>, x: Set<int>, p: int)
    requires
        taken_but(s0, s1, x),
        is_frame(p),
        s1[p] is Data,
        s2[p] is Free,
        forall|q: int| is_frame(q) && q != p ==> #[trigger] s2[q] == s1[q],
        forall|q: int| is_frame(q) && #[trigger] x.contains(q) ==> q == p || s1[q] is Free,
    ensures
        taken_but(s0, s2, Set::empty()),
{
    lemma_taken_none(s1, s2);
    lemma_taken_trans(s0, s1, s2, x, Set::empty());
    lemma_taken_less(s0, s2, x.union(Set::empty()), Set::empty());
}

impl ProcessContext {
    pub open spec fn wf(&self, a: &KernelAllocator) -> bool {
        &&& memory_wf(a.frames(), self.pagetable.root(), self.sz as int)
        &&& is_kernel_page(a.frames(), self.trapframe_addr as int)
        &&& self.trapframe_addr >= a.end()
        &&& self.ofile@.len() == NOFILE
        &&& exists|i: int| 0 <= i < NPROC && self.kstack == #[trigger] kstack_spec(i)
    }

    /// Makes the context of a process without memory that begins to run at `jump`. It fails
    /// only when no page or no kernel stack is left.
    #[verifier::rlimit(40)]
    pub fn allocate(a: &mut KernelAllocator, stacks: &mut KernelStackAllocator, trampoline: u64, jump: u64) -> (r: Result<Self, ()>)
        requires
            old(a).wf(),
            old(stacks).wf(),
            trampoline <= 0xff_ffff_ffff_0000,
        ensures
            final(a).wf(),
            final(a).end() == old(a).end(),
            final(stacks).wf(),
            match r {
                Ok(this) => {
                    &&& this.wf(final(a))
                    &&& this.sz == 0
                    &&& this.context == (CPUContext { ra: jump, sp: (this.kstack + PGSIZE) as u64, ..CPUContext::zero() })
                    &&& this.trapframe == TrapFrame::zero()
                    &&& this.ofile@ == Seq::new(NOFILE as nat, |i: int| None::<usize>)
                    &&& this.cwd == None::<usize>
                    &&& !is_root(old(a).frames(), this.pagetable.root())
                    &&& old(a).frames()[frame_at(this.trapframe_addr as int)] is Free
                    &&& lookup(final(a).frames(), this.pagetable.root(), trampoline_page()) == Some(PTE::leaf(trampoline, PTE::R | PTE::X))
                    &&& lookup(final(a).frames(), this.pagetable.root(), trapframe_page()) == Some(
                        PTE::leaf(this.trapframe_addr, PTE::R | PTE::W),
                    )
                    &&& others_safe(old(a).frames(), final(a).frames(), this.pagetable.root())
                    &&& stack_taken(*old(stacks), *final(stacks), this.kstack)
                    &&& final(a).free().len() + 4 >= old(a).free().len()
                    &&& taken_but(old(a).frames(), final(a).frames(), own_frames(this))
                },
                Err(_) => {
                    &&& others_safe(old(a).frames(), final(a).frames(), -1)
                    &&& taken_but(old(a).frames(), final(a).frames(), Set::empty())
                    &&& final(stacks).used() == old(stacks).used()
                    &&& old(a).free().len() < 4 || forall|i: int| 0 <= i < NPROC ==> #[trigger] old(stacks).used()[i]
                },
            },
    {
        let ghost a0 = *a;
        proof {
            reveal(kernel_kept);
            lemma_taken_none(a0.frames(), a0.frames());
        }
        let trapframe_addr = match a.allocate_page() {
            Some(pa) => pa,
            None => {
                return Err(());
            },
        };
        let ghost a1 = *a;
        let ghost mine: Set<int> = set![frame_at(trapframe_addr as int)];
        proof {
            lemma_page_taken(a0.frames(), a1.frames(), frame_at(trapframe_addr as int));
            assert(taken_but(a0.frames(), a1.frames(), mine)) by {
                reveal(taken_but);
            }
        }
        let pagetable = match allocate_pagetable(a, trampoline, trapframe_addr) {
            Ok(pagetable) => pagetable,
            Err(_) => {
                let ghost a2 = *a;
                a.deallocate_page(trapframe_addr);
                proof {
                    lemma_safe_trans(a0.frames(), a1.frames(), a2.frames(), -1);
                    lemma_page_returned(a0.frames(), a2.frames(), a.frames(), frame_at(trapframe_addr as int));
                    lemma_taken_trans(a0.frames(), a1.frames(), a2.frames(), mine, Set::empty());
                    lemma_taken_returned(a0.frames(), a2.frames(), a.frames(), mine.union(Set::empty()), frame_at(trapframe_addr as int));
                }
                return Err(());
            },
        };
        let ghost root = pagetable.root();
        let ghost a2 = *a;
        let kstack = match stacks.allocate() {
            Some(kstack) => kstack,
            None => {
                free_pagetable(a, pagetable, 0);
                let ghost a3 = *a;
                proof {
                    lemma_safe_trans(a1.frames(), a2.frames(), a3.frames(), root);
                    assert(!is_root(a1.frames(), root));
                    assert(others_safe(a1.frames(), a3.frames(), -1));
                    lemma_safe_trans(a0.frames(), a1.frames(), a3.frames(), -1);
                }
                a.deallocate_page(trapframe_addr);
                proof {
                    lemma_page_returned(a0.frames(), a3.frames(), a.frames(), frame_at(trapframe_addr as int));
                    lemma_taken_trans(a0.frames(), a1.frames(), a2.frames(), mine, set![root]);
                    lemma_taken_trans(a0.frames(), a2.frames(), a3.frames(), mine.union(set![root]), Set::empty());
                    lemma_taken_returned(
                        a0.frames(),
                        a3.frames(),
                        a.frames(),
                        mine.union(set![root]).union(Set::empty()),
                        frame_at(trapframe_addr as int),
                    );
                }
                return Err(());
            },
        };
        let mut context = CPUContext::zeroed();
        context.ra = jump;
        proof {
            let i = choose|i: int| 0 <= i < NPROC && kstack == #[trigger] kstack_spec(i);
            crate::memory_layout::lemma_kstack_index(i);
        }
        context.sp = kstack + PGSIZE;
        let mut ofile: Vec<Option<usize>> = Vec::new();
        let mut i: usize = 0;
        while i < NOFILE
            invariant
                i <= NOFILE,
                ofile@ =~= Seq::new(i as nat, |i: int| None::<usize>),
            decreases NOFILE - i,
        {
            ofile.push(None);
            i = i + 1;
        }
        proof {
            assert(!is_root(a1.frames(), root));
            assert(!is_root(a0.frames(), root));
            assert(others_safe(a0.frames(), a1.frames(), root));
            lemma_safe_trans(a0.frames(), a1.frames(), a2.frames(), root);
            lemma_taken_trans(a0.frames(), a1.frames(), a2.frames(), mine, set![root]);
            assert(mine.union(set![root]) =~= set![root, frame_at(trapframe_addr as int)]);
        }
        Ok(ProcessContext { kstack, sz: 0, pagetable, trapframe: TrapFrame::zeroed(), trapframe_addr, context, ofile, cwd: None })
    }

    /// Closes all files: the numbers of the open files are handed out, and the current
    /// directory, for the caller to release them.
    pub fn release_files(&mut self) -> (r: (Vec<usize>, Option<usize>))
        ensures
            final(self).ofile@ == Seq::new(old(self).ofile@.len(), |i: int| None::<usize>),
            final(self).cwd == None::<usize>,
            final(self).kstack == old(self).kstack,
            final(self).sz == old(self).sz,
            final(self).pagetable == old(self).pagetable,
            final(self).trapframe == old(self).trapframe,
            final(self).trapframe_addr == old(self).trapframe_addr,
            final(self).context == old(self).context,
            r.0@ == open_files(old(self).ofile@),
            r.1 == old(self).cwd,
    {
        let ghost ofile0 = self.ofile@;
        let mut files: Vec<usize> = Vec::new();
        let n = self.ofile.len();
        let mut i: usize = 0;
        while i < n
            invariant
                n == ofile0.len(),
                self.ofile@.len() == n,
                i <= n,
                forall|k: int| 0 <= k < i ==> #[trigger] self.ofile@[k] == None::<usize>,
                forall|k: int| i <= k < n ==> #[trigger] self.ofile@[k] == ofile0[k],
                files@ == open_files(ofile0.take(i as int)),
                self.cwd == old(self).cwd,
                self.kstack == old(self).kstack,
                self.sz == old(self).sz,
                self.pagetable == old(self).pagetable,
                self.trapframe == old(self).trapframe,
                self.trapframe_addr == old(self).trapframe_addr,
                self.context == old(self).context,
            decreases n - i,
        {
            proof {
                assert(ofile0.take(i + 1).drop_last() =~= ofile0.take(i as int));
                assert(ofile0.take(i + 1).last() == ofile0[i as int]);
            }
            if let Some(f) = self.ofile[i] {
                files.push(f);
                self.ofile.set(i, None);
            }
            i = i + 1;
        }
        proof {
            assert(ofile0.take(n as int) =~= ofile0);
            assert(self.ofile@ =~= Seq::new(ofile0.len(), |i: int| None::<usize>));
        }
        let cwd = self.cwd;
        self.cwd = None;
        (files, cwd)
    }

    /// Changes the size of the memory by `n` bytes and returns the old size. It fails only
    /// when no page is left, and then changes nothing. Shrinking below zero bytes changes
    /// nothing either.
    pub fn resize_memory(&mut self, a: &mut KernelAllocator, n: i64) -> (r: Result<u64, ()>)
        requires
            old(a).wf(),
            old(self).wf(old(a)),
        ensures
            final(a).wf(),
            final(a).end() == old(a).end(),
            final(self).wf(final(a)),
            others_safe(old(a).frames(), final(a).frames(), old(self).pagetable.root()),
            resized(*old(self), *final(self), *old(a), *final(a), n as int, r),
    {
        let ghost s0 = a.frames();
        let ghost this0 = *self;
        let old_size = self.sz;
        proof {
            assert((4u64 & 0x3ff) == 4) by (bit_vector);
        }
        proof {
            let sz0 = old_size as int;
            crate::riscv::paging::lemma_none_taken(s0, self.pagetable.root(), page_count(sz0));
            lemma_taken_pages(s0, s0, self.pagetable.root(), page_count(sz0), 0);
        }
        if n == 0 {
            proof {
                crate::process::lemma_safe_same(s0, self.pagetable.root());
            }
            return Ok(old_size);
        }
        if n > 0 {
            let new_size = old_size + n as u64;
            match grow_memory(a, &self.pagetable, old_size, new_size, PTE::W) {
                Ok(size) => {
                    self.sz = size;
                },
                Err(_) => {
                    proof {
                        this0.lemma_kernel_page(s0, *a);
                    }
                    return Err(());
                },
            }
        } else {
            let d: u64 = (-(n as i128)) as u64;
            if d <= old_size {
                let _ = shrink_memory(a, &self.pagetable, old_size, old_size - d);
                self.sz = old_size - d;
                proof {
                    let sz0 = old_size as int;
                    lemma_taken_less(
                        s0,
                        a.frames(),
                        Set::empty(),
                        page_frames(a.frames(), self.pagetable.root(), page_count(sz0), page_count(self.sz as int) - page_count(sz0)),
                    );
                }
            } else {
                proof {
                    crate::process::lemma_safe_same(s0, self.pagetable.root());
                }
            }
        }
        proof {
            this0.lemma_kernel_page(s0, *a);
        }
        Ok(old_size)
    }

    /// The kernel's page of a context stays the kernel's as long as the kernel's memory is
    /// kept.
    pub proof fn lemma_kernel_page(&self, s0: Seq<Frame>, a: KernelAllocator)
        requires
            is_kernel_page(s0, self.trapframe_addr as int),
            kernel_kept(s0, a.frames()),
        ensures
            is_kernel_page(a.frames(), self.trapframe_addr as int),
    {
        reveal(kernel_kept);
        assert(is_frame(frame_at(self.trapframe_addr as int)));
    }

    /// Work on another process leaves a context in order.
    pub proof fn lemma_safe(&self, a0: KernelAllocator, a1: KernelAllocator, other: int)
        requires
            self.wf(&a0),
            others_safe(a0.frames(), a1.frames(), other),
            a1.end() == a0.end(),
            self.pagetable.root() != other,
        ensures
            self.wf(&a1),
    {
        lemma_memory_safe(a0.frames(), a1.frames(), other, self.pagetable.root(), self.sz as int);
        self.lemma_kernel_page(a0.frames(), a1);
    }

    /// Gives back everything that belongs to the process: its memory, its page table, the
    /// page of the trap frame and the kernel stack.
    pub fn release(self, a: &mut KernelAllocator, stacks: &mut KernelStackAllocator)
        requires
            old(a).wf(),
            old(stacks).wf(),
            self.wf(old(a)),
            exists|i: int| 0 <= i < NPROC && self.kstack == #[trigger] kstack_spec(i) && old(stacks).used()[i],
        ensures
            final(a).wf(),
            final(a).end() == old(a).end(),
            final(stacks).wf(),
            exists|i: int| 0 <= i < NPROC && self.kstack == #[trigger] kstack_spec(i) && final(stacks).used() == old(stacks).used().update(
                i,
                false,
            ),
            !is_root(final(a).frames(), self.pagetable.root()),
            final(a).frames()[frame_at(self.trapframe_addr as int)] is Free,
            released_safe(old(a).frames(), final(a).frames(), self.pagetable.root(), self.trapframe_addr as int),
            taken_but(old(a).frames(), final(a).frames(), Set::empty()),
            final(a).frames()[self.pagetable.root()] is Free,
            forall|vp: int| 0 <= vp < page_count(self.sz as int) ==>
                final(a).frames()[#[trigger] frame_of(old(a).frames(), self.pagetable.root(), vp)] is Free,
            final(a).free().len() > old(a).free().len() + page_count(self.sz as int) + 1,
    {
        let ghost a0 = *a;
        free_pagetable(a, self.pagetable, self.sz);
        let ghost a1 = *a;
        proof {
            self.lemma_kernel_page(a0.frames(), a1);
        }
        a.deallocate_page(self.trapframe_addr);
        stacks.deallocate(self.kstack);
        proof {
            let p = frame_at(self.trapframe_addr as int);
            let root = self.pagetable.root();
            reveal(kernel_kept);
            lemma_page_given(a1.frames(), a.frames(), p, root);
            lemma_released(a0.frames(), a1.frames(), a.frames(), root, p);
            lemma_taken_returned(a0.frames(), a1.frames(), a.frames(), Set::empty(), p);
            assert forall|vp: int| 0 <= vp < page_count(self.sz as int) implies a.frames()[#[trigger] frame_of(a0.frames(), root, vp)] is Free by {
                assert(crate::process::memory::own_page(a0.frames(), root, vp));
                assert(is_frame(frame_of(a0.frames(), root, vp)));
                assert(a1.frames()[frame_of(a0.frames(), root, vp)] is Free);
            }
        }
    }
}

/// The numbers of the files that are open.
pub open spec fn open_files(ofile: Seq<Option<usize>>) -> Seq<usize>
    decreases ofile.len(),
{
    if ofile.len() == 0 {
        Seq::empty()
    } else {
        match ofile.last() {
            Some(f) => open_files(ofile.drop_last()).push(f),
            None => open_files(ofile.drop_last()),
        }
    }
}

/// Like `others_safe`, but one page of the kernel was given back.
pub open spec fn released_safe(old: Seq<Frame>, new: Seq<Frame>, root: int, pa: int) -> bool {
    &&& forall|r: int| #[trigger] is_root(old, r) && r != root ==> is_root(new, r)
    &&& forall|r: int, vp: int|
        is_root(old, r) && r != root && is_page(vp) ==> #[trigger] lookup(new, r, vp) == lookup(old, r, vp)
    &&& forall|r: int, vp: int|
        is_root(old, r) && r != root && is_page(vp) && #[trigger] is_owned(old, r, vp)
            ==> is_owned(new, r, vp)
    &&& forall|r: int, va: int| is_root(old, r) && own_only(old, r) && r != root ==> #[trigger] user_byte(new, r, va) == user_byte(old, r, va)
    &&& forall|p: int|
        is_frame(p) && p != frame_at(pa) && #[trigger] old[p] is Data && old[p]->owner@ == None::<(int, int)> ==> {
            &&& new[p] is Data
            &&& new[p]->owner@ == None::<(int, int)>
            &&& new[p]->bytes@ == old[p]->bytes@
        }
}

/// A page was taken from the free list.
pub proof fn lemma_page_taken(s0: Seq<Frame>, s1: Seq<Frame>, p: int)
    requires
        crate::allocator::frames_wf(s0),
        is_frame(p),
        s0[p] is Free,
        forall|q: int| is_frame(q) && q != p ==> #[trigger] s1[q] == s0[q],
    ensures
        forall|root: int| #[trigger] others_safe(s0, s1, root),
{
    reveal(kernel_kept);
    crate::riscv::paging::lemma_same_tables(s0, s1);
    assert forall|root: int| #[trigger] others_safe(s0, s1, root) by {
        lemma_frame_aside(s0, s1, p, root);
    }
}

/// A page of the kernel that is given back was none of a process.
pub(crate) proof fn lemma_page_dropped(c: ProcessContext, a0: KernelAllocator, a1: KernelAllocator, p: int)
    requires
        c.wf(&a0),
        a0.wf(),
        a1.wf(),
        a1.end() == a0.end(),
        is_frame(p),
        p != frame_at(c.trapframe_addr as int),
        a0.frames()[p] is Data,
        a0.frames()[p]->owner@ == None::<(int, int)>,
        forall|q: int| is_frame(q) && q != p ==> #[trigger] a1.frames()[q] == a0.frames()[q],
    ensures
        c.wf(&a1),
{
    lemma_frame_aside(a0.frames(), a1.frames(), p, -1);
    lemma_memory_same(a0.frames(), a1.frames(), c.pagetable.root(), c.sz as int);
}

/// A frame that no page table reaches changed.
proof fn lemma_frame_aside(s0: Seq<Frame>, s1: Seq<Frame>, p: int, root: int)
    requires
        crate::allocator::frames_wf(s0),
        is_frame(p),
        !(s0[p] is Table),
        s0[p] is Data ==> s0[p]->owner@ == None::<(int, int)>,
        forall|q: int| is_frame(q) && q != p ==> #[trigger] s1[q] == s0[q],
    ensures
        forall|r: int| #[trigger] is_root(s0, r) ==> is_root(s1, r),
        forall|r: int, vp: int| is_root(s0, r) && is_page(vp) ==> #[trigger] lookup(s1, r, vp) == lookup(s0, r, vp),
        forall|r: int, vp: int|
            is_root(s0, r) && is_page(vp) && #[trigger] is_owned(s0, r, vp)
                ==> is_owned(s1, r, vp),
        forall|r: int, va: int| is_root(s0, r) && own_only(s0, r) ==> #[trigger] user_byte(s1, r, va) == user_byte(s0, r, va),
        !(s0[p] is Data) ==> others_safe(s0, s1, root),
{
    reveal(kernel_kept);
    crate::riscv::paging::lemma_same_tables(s0, s1);
    assert forall|r: int, va: int| is_root(s0, r) && own_only(s0, r) implies #[trigger] user_byte(s1, r, va) == user_byte(s0, r, va) by {
        let vp = va / 4096;
        if is_page(vp) {
            assert(lookup(s1, r, vp) == lookup(s0, r, vp));
        }
        if crate::riscv::paging::translate(s0, r, vp) is Some {
            crate::riscv::paging::lemma_translate(s0, r, vp);
        }
    }
    assert forall|r: int, vp: int|
        is_root(s0, r) && is_page(vp) && #[trigger] is_owned(s0, r, vp) implies is_owned(
        s1,
        r,
        vp,
    ) by {
        assert(lookup(s1, r, vp) == lookup(s0, r, vp));
    }
}

/// A page that was free at the start was given back.
pub(crate) proof fn lemma_page_returned(s0: Seq<Frame>, s1: Seq<Frame>, s2: Seq<Frame>, p: int)
    requires
        crate::allocator::frames_wf(s1),
        is_frame(p),
        s0[p] is Free,
        others_safe(s0, s1, -1),
        s1[p] is Data,
        s1[p]->owner@ == None::<(int, int)>,
        forall|q: int| is_frame(q) && q != p ==> #[trigger] s2[q] == s1[q],
    ensures
        others_safe(s0, s2, -1),
{
    reveal(kernel_kept);
    lemma_frame_aside(s1, s2, p, -1);
    assert forall|r: int, vp: int| is_root(s0, r) && r != -1 && is_page(vp) implies #[trigger] lookup(s2, r, vp) == lookup(
        s0,
        r,
        vp,
    ) by {
        assert(lookup(s1, r, vp) == lookup(s0, r, vp));
        assert(is_root(s1, r));
    }
    assert forall|r: int, vp: int|
        is_root(s0, r) && r != -1 && is_page(vp) && #[trigger] is_owned(
            s0,
            r,
            vp,
        ) implies is_owned(s2, r, vp) by {
        assert(is_owned(s1, r, vp));
        assert(is_root(s1, r));
    }
    assert forall|r: int, va: int| is_root(s0, r) && own_only(s0, r) && r != -1 implies #[trigger] user_byte(s2, r, va) == user_byte(s0, r, va) by {
        assert(user_byte(s1, r, va) == user_byte(s0, r, va));
        assert(is_root(s1, r));
    }
    assert forall|r: int| #[trigger] is_root(s0, r) && r != -1 implies is_root(s2, r) by {
        assert(is_root(s1, r));
    }
}

/// A page of the kernel was given back.
proof fn lemma_page_given(s0: Seq<Frame>, s1: Seq<Frame>, p: int, root: int)
    requires
        crate::allocator::frames_wf(s0),
        is_frame(p),
        s0[p] is Data,
        s0[p]->owner@ == None::<(int, int)>,
        s1[p] is Free,
        forall|q: int| is_frame(q) && q != p ==> #[trigger] s1[q] == s0[q],
    ensures
        released_safe(s0, s1, root, crate::allocator::frame_addr(p)),
        !is_root(s0, root) ==> !is_root(s1, root),
{
    lemma_frame_aside(s0, s1, p, root);
    assert(frame_at(crate::allocator::frame_addr(p)) == p);
}

proof fn lemma_released(s0: Seq<Frame>, s1: Seq<Frame>, s2: Seq<Frame>, root: int, p: int)
    requires
        is_frame(p),
        others_safe(s0, s1, root),
        released_safe(s1, s2, root, crate::allocator::frame_addr(p)),
    ensures
        released_safe(s0, s2, root, crate::allocator::frame_addr(p)),
{
    reveal(kernel_kept);
    assert forall|r: int, vp: int| is_root(s0, r) && r != root && is_page(vp) implies #[trigger] lookup(s2, r, vp) == lookup(
        s0,
        r,
        vp,
    ) by {
        assert(lookup(s1, r, vp) == lookup(s0, r, vp));
        assert(is_root(s1, r));
    }
    assert forall|r: int, vp: int|
        is_root(s0, r) && r != root && is_page(vp) && #[trigger] is_owned(
            s0,
            r,
            vp,
        ) implies is_owned(s2, r, vp) by {
        assert(is_owned(s1, r, vp));
        assert(is_root(s1, r));
    }
    assert forall|r: int, va: int| is_root(s0, r) && own_only(s0, r) && r != root implies #[trigger] user_byte(s2, r, va) == user_byte(s0, r, va) by {
        assert(user_byte(s1, r, va) == user_byte(s0, r, va));
        assert(is_root(s1, r));
    }
    assert forall|r: int| #[trigger] is_root(s0, r) && r != root implies is_root(s2, r) by {
        assert(is_root(s1, r));
    }
}


impl Process {
    /// The context of a process that has one, to be looked at.
    pub fn context_ref(&self) -> (r: Option<&ProcessContext>)
        ensures
            match r {
                Some(c) => self.state.held_context() == Some(*c),
                None => self.state.held_context() is None,
            },
    {
        match &self.state {
            ProcessState::Runnable(context) => Some(context),
            ProcessState::Running(context) => Some(context),
            ProcessState::Sleeping(context, _) => Some(context),
            ProcessState::Zombie(context, _) => Some(context),
            _ => None,
        }
    }
}

/// User memory of one page table below `end` is a copy of that of another.
pub open spec fn memory_copied(old: Seq<Frame>, new: Seq<Frame>, from: int, to: int, end: int) -> bool {
    forall|va: int| 0 <= va < end ==> #[trigger] user_byte(new, to, va) == user_byte(old, from, va)
}

/// The first `n` pages of one page table have the permissions of those of another.
pub open spec fn permissions_copied(old: Seq<Frame>, new: Seq<Frame>, from: int, to: int, n: int) -> bool {
    forall|vp: int| 0 <= vp < n ==> (#[trigger] lookup(new, to, vp)) is Some && lookup(new, to, vp)->0.flags() == lookup(old, from, vp)->0.flags()
}

/// Copied pages hold the same user memory.
proof fn lemma_copied(s0: Seq<Frame>, s1: Seq<Frame>, from: int, to: int, size: int)
    requires
        crate::allocator::frames_wf(s0),
        crate::allocator::frames_wf(s1),
        memory_wf(s0, from, size),
        is_root(s1, to),
        forall|vp: int| 0 <= vp < page_count(size) ==> #[trigger] page_copied(s0, s1, from, to, vp),
    ensures
        memory_copied(s0, s1, from, to, mem_end(size)),
        forall|vp: int| 0 <= vp < page_count(size) ==> #[trigger] own_page(s1, to, vp),
{
    assert forall|vp: int| 0 <= vp < page_count(size) implies #[trigger] own_page(s1, to, vp) by {
        assert(page_copied(s0, s1, from, to, vp));
        assert(own_page(s0, from, vp));
    }
    assert forall|va: int| 0 <= va < mem_end(size) implies #[trigger] user_byte(s1, to, va) == user_byte(s0, from, va) by {
        let vp = va / 4096;
        assert(page_copied(s0, s1, from, to, vp));
        assert(own_page(s0, from, vp));
        let x = (lookup(s0, from, vp)->0).0;
        let y = (lookup(s1, to, vp)->0).0;
        assert(x & 16 == y & 16) by (bit_vector)
            requires
                x & 0x3ff == y & 0x3ff,
        ;
    }
}

impl ProcessContext {
    /// Makes the context of a child process: it has a copy of the memory, of the registers,
    /// except that its system call returns 0, and of the numbers of files and directory. It
    /// fails only when no page or no kernel stack is left.
    #[verifier::rlimit(100)]
    #[verifier::spinoff_prover]
    pub fn try_clone(&self, a: &mut KernelAllocator, stacks: &mut KernelStackAllocator, trampoline: u64, jump: u64) -> (r: Result<Self, ()>)
        requires
            old(a).wf(),
            old(stacks).wf(),
            self.wf(old(a)),
            trampoline <= 0xff_ffff_ffff_0000,
        ensures
            final(a).wf(),
            final(a).end() == old(a).end(),
            final(stacks).wf(),
            match r {
                Ok(new) => {
                    &&& new.wf(final(a))
                    &&& new.sz == self.sz
                    &&& new.trapframe == (TrapFrame { a0: 0, ..self.trapframe })
                    &&& new.context == (CPUContext { ra: jump, sp: (new.kstack + PGSIZE) as u64, ..CPUContext::zero() })
                    &&& new.ofile@ == self.ofile@
                    &&& new.cwd == self.cwd
                    &&& memory_copied(old(a).frames(), final(a).frames(), self.pagetable.root(), new.pagetable.root(), mem_end(self.sz as int))
                    &&& permissions_copied(
                        old(a).frames(),
                        final(a).frames(),
                        self.pagetable.root(),
                        new.pagetable.root(),
                        page_count(self.sz as int),
                    )
                    &&& lookup(final(a).frames(), new.pagetable.root(), trampoline_page()) == Some(PTE::leaf(trampoline, PTE::R | PTE::X))
                    &&& lookup(final(a).frames(), new.pagetable.root(), trapframe_page()) == Some(PTE::leaf(new.trapframe_addr, PTE::R | PTE::W))
                    &&& others_safe(old(a).frames(), final(a).frames(), new.pagetable.root())
                    &&& !is_root(old(a).frames(), new.pagetable.root())
                    &&& old(a).frames()[frame_at(new.trapframe_addr as int)] is Free
                    &&& stack_taken(*old(stacks), *final(stacks), new.kstack)
                    &&& taken_but(old(a).frames(), final(a).frames(), frames_of_process(final(a).frames(), new))
                },
                Err(_) => {
                    &&& taken_but(old(a).frames(), final(a).frames(), Set::empty())
                    &&& others_safe(old(a).frames(), final(a).frames(), -1)
                    &&& final(stacks).used() =~= old(stacks).used()
                    &&& old(a).free().len() < 4 + pages_and_tables(0, self.sz as int) || forall|i: int| 0 <= i < NPROC ==> #[trigger] old(stacks).used()[i]
                },
            },
    {
        let ghost a0 = *a;
        let ghost st0 = *stacks;
        let ghost from = self.pagetable.root();
        let mut new = match ProcessContext::allocate(a, stacks, trampoline, jump) {
            Ok(new) => new,
            Err(_) => {
                proof {
                    lemma_frames_for(page_count(0), page_count(self.sz as int));
                }
                return Err(());
            },
        };
        let ghost a1 = *a;
        let ghost to = new.pagetable.root();
        let ghost k = choose|k: int| 0 <= k < NPROC && new.kstack == #[trigger] kstack_spec(k) && !st0.used()[k] && stacks.used() == st0.used().update(
            k,
            true,
        );
        proof {
            assert(to != from);
            lemma_memory_safe(a0.frames(), a1.frames(), to, from, self.sz as int);
            assert(page_count(0) == 0);
            assert forall|vp: int| 0 <= vp < page_count(self.sz as int) implies #[trigger] is_owned(a1.frames(), from, vp) && lookup(
                a1.frames(),
                from,
                vp,
            )->0.flags() != PTE::V by {
                assert(own_page(a1.frames(), from, vp));
            }
        }
        if self.pagetable.copy(a, &new.pagetable, self.sz).is_err() {
            let ghost a2 = *a;
            proof {
                let n = page_count(self.sz as int);
                lemma_copy_frames(a1.frames(), to, self.sz as int);
                lemma_safe_kept(a1.frames(), a2.frames(), to, 0, n);
                lemma_safe_trans(a0.frames(), a1.frames(), a2.frames(), to);
                lemma_taken_pages(a1.frames(), a2.frames(), to, 0, 0);
                lemma_taken_trans(a0.frames(), a1.frames(), a2.frames(), own_frames(new), Set::empty());
                assert forall|vp: int| is_page(vp) implies #[trigger] lookup(a2.frames(), to, vp) == lookup(a1.frames(), to, vp) by {
                    if 0 <= vp < n {
                        assert(lookup(a1.frames(), to, vp) is None);
                    }
                }
                lemma_memory_same(a1.frames(), a2.frames(), to, 0);
                new.lemma_kernel_page(a1.frames(), a2);
                assert(stacks.used()[k]);
                assert(new.kstack == kstack_spec(k));
            }
            let ghost p = frame_at(new.trapframe_addr as int);
            new.release(a, stacks);
            proof {
                let k2 = choose|k2: int| 0 <= k2 < NPROC && new.kstack == #[trigger] kstack_spec(k2) && stacks.used() == st0.used().update(
                    k,
                    true,
                ).update(k2, false);
                crate::memory_layout::lemma_kstack_index(k);
                crate::memory_layout::lemma_kstack_index(k2);
                assert(k2 == k);
                assert(stacks.used() =~= st0.used());
                lemma_taken_trans(a0.frames(), a2.frames(), a.frames(), own_frames(new).union(Set::empty()), Set::empty());
                lemma_taken_less(a0.frames(), a.frames(), own_frames(new).union(Set::empty()).union(Set::empty()), Set::empty());
                lemma_clone_undone(a0.frames(), a2.frames(), a.frames(), to, new.trapframe_addr as int);
            }
            return Err(());
        }
        new.sz = self.sz;
        new.trapframe = self.trapframe;
        new.trapframe.a0 = 0;
        new.ofile = copy_slots(&self.ofile);
        new.cwd = self.cwd;
        proof {
            let s1 = a1.frames();
            let s2 = a.frames();
            let n = page_count(self.sz as int);
            lemma_safe_kept(s1, s2, to, 0, n);
            lemma_safe_trans(a0.frames(), s1, s2, to);
            lemma_taken_pages(s1, s2, to, 0, n);
            lemma_taken_trans(a0.frames(), s1, s2, own_frames(new), page_frames(s2, to, 0, n));
            lemma_copied(s1, s2, from, to, self.sz as int);
            assert forall|vp: int| n <= vp < trapframe_page() implies (#[trigger] lookup(s2, to, vp)) is None by {
                assert(lookup(s1, to, vp) is None);
            }
            assert(lookup(s2, to, trapframe_page()) == lookup(s1, to, trapframe_page()));
            assert(lookup(s2, to, trampoline_page()) == lookup(s1, to, trampoline_page()));
            assert forall|vp: int| 0 <= vp < n implies #[trigger] own_page(s2, to, vp) by {}
            lemma_own_only(s2, to, self.sz as int);
            assert(memory_wf(s2, to, self.sz as int));
            new.lemma_kernel_page(s1, *a);
            assert forall|va: int| 0 <= va < mem_end(self.sz as int) implies #[trigger] user_byte(s2, to, va) == user_byte(a0.frames(), from, va) by {
                assert(user_byte(s2, to, va) == user_byte(s1, from, va));
                assert(user_byte(s1, from, va) == user_byte(a0.frames(), from, va));
            }
            assert forall|vp: int| 0 <= vp < n implies (#[trigger] lookup(s2, to, vp)) is Some && lookup(s2, to, vp)->0.flags() == lookup(
                a0.frames(),
                from,
                vp,
            )->0.flags() by {
                assert(crate::riscv::paging::page_copied(s1, s2, from, to, vp));
                assert(lookup(s1, from, vp) == lookup(a0.frames(), from, vp));
            }
            assert(new.kstack == kstack_spec(k));
        }
        Ok(new)
    }
}

/// A copy of a row of file numbers.
pub(crate) fn copy_slots(ofile: &Vec<Option<usize>>) -> (r: Vec<Option<usize>>)
    ensures
        r@ == ofile@,
{
    let mut r: Vec<Option<usize>> = Vec::new();
    let mut i: usize = 0;
    while i < ofile.len()
        invariant
            i <= ofile@.len(),
            r@ =~= ofile@.take(i as int),
        decreases ofile@.len() - i,
    {
        r.push(ofile[i]);
        i = i + 1;
    }
    proof {
        assert(r@ =~= ofile@);
    }
    r
}

/// A context that was made and released leaves everything as it was.
proof fn lemma_clone_undone(s0: Seq<Frame>, s1: Seq<Frame>, s2: Seq<Frame>, root: int, pa: int)
    requires
        others_safe(s0, s1, root),
        released_safe(s1, s2, root, pa),
        !is_root(s0, root),
        is_frame_addr(pa),
        s0[frame_at(pa)] is Free,
    ensures
        others_safe(s0, s2, -1),
{
    reveal(kernel_kept);
    assert forall|r: int| #[trigger] is_root(s0, r) implies r != root && is_root(s1, r) && is_root(s2, r) by {}
    assert forall|r: int, vp: int| is_root(s0, r) && r != -1 && is_page(vp) implies #[trigger] lookup(s2, r, vp) == lookup(s0, r, vp) by {
        assert(is_root(s1, r));
        assert(lookup(s1, r, vp) == lookup(s0, r, vp));
    }
    assert forall|r: int, vp: int| is_root(s0, r) && r != -1 && is_page(vp) && #[trigger] is_owned(s0, r, vp) implies is_owned(s2, r, vp) by {
        assert(is_root(s1, r));
        assert(is_owned(s1, r, vp));
    }
    assert forall|r: int, va: int| is_root(s0, r) && own_only(s0, r) && r != -1 implies #[trigger] user_byte(s2, r, va) == user_byte(s0, r, va) by {
        assert(is_root(s1, r));
        assert(user_byte(s1, r, va) == user_byte(s0, r, va));
    }
}

} // verus!
