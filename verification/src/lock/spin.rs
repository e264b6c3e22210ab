//! Mutual exclusion between CPUs.
use vstd::prelude::*;
use crate::lock::Lock;

verus! {

/// A value that one CPU at a time may use.
pub struct SpinLock<T> {
    pub locked: bool,
    pub value: T,
    /// The CPU that holds the lock.
    pub cpuid: usize,
}

impl<T> SpinLock<T> {
    pub fn new(value: T) -> (this: Self)
        ensures
            this == (SpinLock { locked: false, value, cpuid: usize::MAX }),
    {
        SpinLock { locked: false, value, cpuid: usize::MAX }
    }

    pub fn is_locked(&self) -> (r: bool)
        ensures
            r == self.locked,
    {
        self.locked
    }

    /// Whether the CPU with number `cpu` holds the lock. Its interrupts must be off.
    pub fn is_held_by_current_cpu(&self, cpu: usize) -> (r: bool)
        ensures
            r == (self.locked && self.cpuid == cpu),
    {
        self.is_locked() && self.cpuid == cpu
    }
}

impl<T> Lock for SpinLock<T> {
    type Target = T;

    open spec fn taken(&self) -> bool {
        self.locked
    }

    open spec fn may_unlock(&self, who: usize) -> bool {
        self.cpuid == who
    }

    open spec fn protected(&self) -> T {
        self.value
    }

    fn get(&self) -> (r: &T) {
        &self.value
    }

    fn get_mut(&mut self) -> (r: &mut T) {
        &mut self.value
    }

    fn raw_lock(&mut self, who: usize) -> (r: bool)
        ensures
            *final(self) == (if old(self).locked { *old(self) } else { SpinLock { locked: true, cpuid: who, ..*old(self) } }),
    {
        if self.locked {
            return false;
        }
        self.locked = true;
        self.cpuid = who;
        true
    }

    fn raw_unlock(&mut self, who: usize)
        ensures
            *final(self) == (SpinLock { locked: false, cpuid: usize::MAX, ..*old(self) }),
    {
        self.cpuid = usize::MAX;
        self.locked = false;
    }
}

} // verus!
