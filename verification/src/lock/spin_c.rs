//! A spin lock that protects nothing but itself, for code that keeps its data elsewhere.
use vstd::prelude::*;
use crate::lock::Lock;

verus! {

/// A spin lock without a value.
pub struct SpinLockC {
    /// Not zero while the lock is held.
    pub locked: u32,
    /// The CPU that holds the lock.
    pub cpuid: i32,
    /// Nothing is protected.
    pub nothing: (),
}

impl SpinLockC {
    pub fn new() -> (this: Self)
        ensures
            this == (SpinLockC { locked: 0, cpuid: 0, nothing: () }),
    {
        SpinLockC { locked: 0, cpuid: 0, nothing: () }
    }

    pub fn is_locked(&self) -> (r: bool)
        ensures
            r == (self.locked != 0),
    {
        self.locked != 0
    }

    /// Whether the CPU with number `cpu` holds the lock. Its interrupts must be off.
    pub fn is_held_by_current_cpu(&self, cpu: usize) -> (r: bool)
        requires
            cpu <= 0x7fff_ffff,
        ensures
            r == (self.locked != 0 && self.cpuid == cpu),
    {
        self.is_locked() && self.cpuid == cpu as i32
    }
}

impl Lock for SpinLockC {
    type Target = ();

    open spec fn taken(&self) -> bool {
        self.locked != 0
    }

    open spec fn may_unlock(&self, who: usize) -> bool {
        who <= 0x7fff_ffff ==> self.cpuid == who
    }

    open spec fn protected(&self) -> () {
        self.nothing
    }

    fn get(&self) -> (r: &()) {
        &self.nothing
    }

    fn get_mut(&mut self) -> (r: &mut ()) {
        &mut self.nothing
    }

    fn raw_lock(&mut self, who: usize) -> (r: bool) {
        if self.locked != 0 {
            return false;
        }
        self.locked = 1;
        self.cpuid = if who <= 0x7fff_ffff {
            who as i32
        } else {
            -1
        };
        true
    }

    fn raw_unlock(&mut self, who: usize) {
        self.cpuid = -1;
        self.locked = 0;
    }
}

} // verus!
