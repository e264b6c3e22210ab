//! Kernel stacks, one for each process.
use vstd::prelude::*;
use crate::bitmap::Bitmap;
use crate::config::NPROC;
use crate::memory_layout::{kstack, kstack_index, kstack_spec, lemma_kstack_index};

verus! {

/// Keeps track of which kernel stacks are in use.
pub struct KernelStackAllocator {
    pub bitmap: Bitmap<NPROC>,
}

impl KernelStackAllocator {
    pub open spec fn wf(&self) -> bool {
        self.bitmap.wf()
    }

    /// Whether stack `i` is in use.
    pub open spec fn used(&self) -> Seq<bool> {
        self.bitmap@
    }

    pub fn new() -> (this: Self)
        ensures
            this.wf(),
            this.used() == Seq::new(NPROC as nat, |i: int| false),
    {
        KernelStackAllocator { bitmap: Bitmap::new() }
    }

    /// Hands out the first stack that is not in use.
    pub fn allocate(&mut self) -> (r: Option<u64>)
        requires
            old(self).wf(),
        ensures
            final(self).wf(),
            match r {
                Some(addr) => exists|i: int| {
                    &&& 0 <= i < NPROC
                    &&& addr == #[trigger] kstack_spec(i)
                    &&& !old(self).used()[i]
                    &&& forall|j: int| 0 <= j < i ==> #[trigger] old(self).used()[j]
                    &&& final(self).used() == old(self).used().update(i, true)
                },
                None => {
                    &&& forall|j: int| 0 <= j < NPROC ==> #[trigger] old(self).used()[j]
                    &&& final(self).used() == old(self).used()
                },
            },
    {
        let n = self.bitmap.bits();
        let mut i: usize = 0;
        while i < n
            invariant
                n == NPROC,
                self.wf(),
                *self == *old(self),
                i <= n,
                forall|j: int| 0 <= j < i ==> #[trigger] self.used()[j],
            decreases n - i,
        {
            if let Some(false) = self.bitmap.get(i) {
                let _ = self.bitmap.set(i, true);
                proof {
                    assert(0 <= i < NPROC && kstack_spec(i as int) == kstack_spec(i as int));
                }
                return Some(kstack(i));
            }
            i = i + 1;
        }
        None
    }

    /// Takes back a stack that is in use.
    pub fn deallocate(&mut self, addr: u64)
        requires
            old(self).wf(),
            exists|i: int| 0 <= i < NPROC && addr == #[trigger] kstack_spec(i) && old(self).used()[i],
        ensures
            final(self).wf(),
            exists|i: int| 0 <= i < NPROC && addr == #[trigger] kstack_spec(i) && final(self).used() == old(self).used().update(i, false),
    {
        let ghost i = choose|i: int| 0 <= i < NPROC && addr == #[trigger] kstack_spec(i) && self.used()[i];
        proof {
            lemma_kstack_index(i);
        }
        let index = kstack_index(addr);
        let _ = self.bitmap.set(index, false);
        proof {
            assert(kstack_spec(i) == addr);
        }
    }
}

/// A stack allocator that has all stacks; the kernel keeps one, behind a lock.
pub fn kstack_allocator() -> (r: KernelStackAllocator)
    ensures
        r.wf(),
        r.used() == Seq::new(NPROC as nat, |i: int| false),
{
    KernelStackAllocator::new()
}


/// The kernel stack at `addr` was the first free one and is in use; the others are as before.
pub open spec fn stack_taken(stacks0: KernelStackAllocator, stacks1: KernelStackAllocator, addr: u64) -> bool {
    exists|m: int| {
        &&& 0 <= m < NPROC
        &&& addr == #[trigger] kstack_spec(m)
        &&& !stacks0.used()[m]
        &&& forall|j: int| 0 <= j < m ==> #[trigger] stacks0.used()[j]
        &&& stacks1.used() == stacks0.used().update(m, true)
    }
}

/// Stacks that are handed out one after the other are different ones. Between any two of them lies a page
/// that is part of no stack, and all of them end below the trampoline, with such a page below it.
pub proof fn lemma_stacks_apart(s0: KernelStackAllocator, s1: KernelStackAllocator, s2: KernelStackAllocator, x: u64, y: u64)
    requires
        s0.wf(),
        s1.wf(),
        stack_taken(s0, s1, x),
        stack_taken(s1, s2, y),
    ensures
        x + 8192 <= y || y + 8192 <= x,
        x % 4096 == 0,
        x + 4096 <= 0x3f_ffff_f000 - 4096,
        y + 4096 <= 0x3f_ffff_f000 - 4096,
{
    let m = choose|m: int| {
        &&& 0 <= m < NPROC
        &&& x == #[trigger] kstack_spec(m)
        &&& !s0.used()[m]
        &&& s1.used() == s0.used().update(m, true)
    };
    let n = choose|n: int| {
        &&& 0 <= n < NPROC
        &&& y == #[trigger] kstack_spec(n)
        &&& !s1.used()[n]
    };
    assert(x == kstack_spec(m) && y == kstack_spec(n));
    assert(s1.used()[m]);
    assert(m != n);
}

} // verus!
