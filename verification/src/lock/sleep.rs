//! Long-term locks for processes.
use vstd::prelude::*;
use crate::lock::Lock;

verus! {

/// A value that one process at a time may use; others sleep meanwhile.
pub struct SleepLock<T> {
    pub locked: bool,
    pub value: T,
}

impl<T> SleepLock<T> {
    pub fn new(value: T) -> (this: Self)
        ensures
            this == (SleepLock { locked: false, value }),
    {
        SleepLock { locked: false, value }
    }
}

impl<T> Lock for SleepLock<T> {
    type Target = T;

    open spec fn taken(&self) -> bool {
        self.locked
    }

    open spec fn may_unlock(&self, who: usize) -> bool {
        true
    }

    open spec fn protected(&self) -> T {
        self.value
    }

    fn get(&self) -> (r: &T) {
        &self.value
    }

    fn get_mut(&mut self) -> (r: &mut T) {
        &mut self.value
    }

    /// `false` means that the process has to sleep until the lock is given back.
    fn raw_lock(&mut self, who: usize) -> (r: bool)
        ensures
            *final(self) == (SleepLock { locked: true, ..*old(self) }),
    {
        if self.locked {
            return false;
        }
        self.locked = true;
        true
    }

    /// Whoever sleeps for the lock has to be woken.
    fn raw_unlock(&mut self, who: usize)
        ensures
            *final(self) == (SleepLock { locked: false, ..*old(self) }),
    {
        self.locked = false;
    }
}

} // verus!
