//! Long-term locks for processes.
use vstd::prelude::*;

verus! {

/// A value that one process at a time may use; others sleep meanwhile.
pub struct SleepLock<T> {
    pub locked: bool,
    pub value: T,
}

/// A lock that is held.
pub struct SleepLockGuard<T> {
    pub lock: SleepLock<T>,
}

impl<T> SleepLock<T> {
    pub fn new(value: T) -> (this: Self)
        ensures
            this == (SleepLock { locked: false, value }),
    {
        SleepLock { locked: false, value }
    }

    /// Takes the lock. `Err` means that the process has to sleep until it is given back.
    pub fn lock(self) -> (r: Result<SleepLockGuard<T>, Self>)
        ensures
            lock_came_to(self, r),
    {
        if self.locked {
            return Err(self);
        }
        Ok(SleepLockGuard { lock: SleepLock { locked: true, value: self.value } })
    }

    /// Gives the lock back. Whoever sleeps for it has to be woken.
    pub fn unlock(guard: SleepLockGuard<T>) -> (r: Self)
        ensures
            unlock_came_to(guard, r),
    {
        SleepLock { locked: false, value: guard.lock.value }
    }
}

impl<T> SleepLockGuard<T> {
    /// The value behind the lock.
    pub fn value(&self) -> (r: &T)
        ensures
            *r == self.lock.value,
    {
        &self.lock.value
    }

    /// The value behind the lock, to be changed.
    pub fn value_mut(&mut self) -> (r: &mut T)
        ensures
            *r == old(self).lock.value,
            final(self).lock == (SleepLock { value: *final(r), ..old(self).lock }),
    {
        &mut self.lock.value
    }
}

/// What trying to take a lock comes to.
pub open spec fn lock_came_to<T>(lock: SleepLock<T>, r: Result<SleepLockGuard<T>, SleepLock<T>>) -> bool {
    match r {
        Ok(guard) => !lock.locked && guard.lock == (SleepLock { locked: true, value: lock.value }),
        Err(this) => lock.locked && this == lock,
    }
}

/// What giving a lock back comes to.
pub open spec fn unlock_came_to<T>(guard: SleepLockGuard<T>, r: SleepLock<T>) -> bool {
    r == (SleepLock { locked: false, value: guard.lock.value })
}

/// A lock that is taken cannot be taken again until it is given back, and can be taken then. What it
/// protects is not changed by that.
pub proof fn lemma_lock_unlock<T>(
    lock: SleepLock<T>,
    guard: SleepLockGuard<T>,
    second: Result<SleepLockGuard<T>, SleepLock<T>>,
    free: SleepLock<T>,
    third: Result<SleepLockGuard<T>, SleepLock<T>>,
)
    requires
        lock_came_to(lock, Ok(guard)),
        lock_came_to(guard.lock, second),
        unlock_came_to(guard, free),
        lock_came_to(free, third),
    ensures
        !lock.locked,
        second is Err,
        third is Ok,
        guard.lock.value == lock.value,
        free == lock,
{
}

} // verus!
