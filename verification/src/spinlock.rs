//! Mutual exclusion between CPUs.
use vstd::prelude::*;
use crate::interrupt::{pop_off, push_off, InterruptState};

verus! {

/// A value that one CPU at a time may use.
pub struct SpinLock<T> {
    pub locked: bool,
    pub value: T,
    /// The CPU that holds the lock.
    pub cpuid: usize,
}

/// A lock that is held.
pub struct SpinLockGuard<T> {
    pub lock: SpinLock<T>,
}

impl<T> SpinLock<T> {
    /// Nobody's number.
    pub open spec fn nobody() -> usize {
        usize::MAX
    }

    /// CPU `cpu` holds the lock.
    pub open spec fn held_by(&self, cpu: usize) -> bool {
        self.locked && self.cpuid == cpu
    }

    pub fn new(value: T) -> (this: Self)
        ensures
            !this.locked,
            this.value == value,
            this.cpuid == Self::nobody(),
    {
        SpinLock { locked: false, value, cpuid: usize::MAX }
    }

    pub fn is_locked(&self) -> (r: bool)
        ensures
            r == self.locked,
    {
        self.locked
    }

    /// Whether the CPU with number `cpu` holds the lock. Its interrupts must be off.
    pub fn is_held_by_current_cpu(&self, cpu: usize) -> (r: bool)
        ensures
            r == self.held_by(cpu),
    {
        self.is_locked() && self.cpuid == cpu
    }

    /// Tries to take the lock for CPU `cpu`, which must not hold it already. On success its
    /// interrupts are off. `Err` means that another CPU holds the lock; the caller tries again.
    pub fn lock(self, cpu: usize, state: &mut InterruptState, enabled: &mut bool) -> (r: Result<SpinLockGuard<T>, Self>)
        requires
            !self.held_by(cpu),
            old(state).depth_of_disable < usize::MAX,
        ensures
            lock_came_to(self, cpu, *old(state), *final(state), *old(enabled), *final(enabled), r),
    {
        if self.locked {
            return Err(self);
        }
        push_off(state, enabled);
        Ok(SpinLockGuard { lock: SpinLock { locked: true, value: self.value, cpuid: cpu } })
    }

    /// Gives the lock back.
    pub fn unlock(guard: SpinLockGuard<T>, cpu: usize, state: &mut InterruptState, enabled: &mut bool) -> (r: Self)
        requires
            guard.lock.held_by(cpu),
            old(state).depth_of_disable > 0,
            !*old(enabled),
        ensures
            unlock_came_to(guard, *old(state), *final(state), *final(enabled), r),
    {
        let lock = guard.lock;
        pop_off(state, enabled);
        SpinLock { locked: false, value: lock.value, cpuid: usize::MAX }
    }

    /// Gives the lock back while `f` runs, and takes it again. `f` stands for all that happens
    /// to the lock meanwhile. `Err` means that somebody else holds the lock then.
    pub fn unlock_temporarily<R, F: FnOnce(SpinLock<T>) -> (SpinLock<T>, R)>(
        guard: SpinLockGuard<T>,
        cpu: usize,
        state: &mut InterruptState,
        enabled: &mut bool,
        f: F,
    ) -> (r: (Result<SpinLockGuard<T>, SpinLock<T>>, R))
        requires
            guard.lock.held_by(cpu),
            old(state).depth_of_disable > 0,
            !*old(enabled),
            f.requires((SpinLock { locked: false, value: guard.lock.value, cpuid: Self::nobody() },)),
            forall|free: SpinLock<T>, l: SpinLock<T>, x: R| #[trigger] f.ensures((free,), (l, x)) ==> !l.held_by(cpu),
        ensures
            ({
                let free = SpinLock { locked: false, value: guard.lock.value, cpuid: Self::nobody() };
                match r.0 {
                    Ok(g) => {
                        &&& g.lock.held_by(cpu)
                        &&& gave_free(f, free, g.lock.value, r.1)
                        &&& *final(state) == *old(state)
                        &&& !*final(enabled)
                    },
                    Err(l) => {
                        &&& l.locked
                        &&& gave(f, free, l, r.1)
                        &&& *final(state) == (InterruptState { depth_of_disable: (old(state).depth_of_disable - 1) as usize, ..*old(state) })
                        &&& *final(enabled) == (old(state).depth_of_disable == 1 && old(state).is_enabled_before)
                    },
                }
            }),
    {
        let free = SpinLock::unlock(guard, cpu, state, enabled);
        let ghost free0 = free;
        let (lock, ret) = f(free);
        let ghost lock0 = lock;
        let guard = lock.lock(cpu, state, enabled);
        assert(gave(f, free0, lock0, ret));
        assert(guard matches Ok(g) ==> gave_free(f, free0, g.lock.value, ret));
        (guard, ret)
    }

    pub fn get(&self) -> (r: &T)
        ensures
            *r == self.value,
    {
        &self.value
    }

    pub fn get_mut(&mut self) -> (r: &mut T)
        ensures
            *r == old(self).value,
            *final(self) == (SpinLock { value: *final(r), ..*old(self) }),
    {
        &mut self.value
    }
}

impl<T> SpinLockGuard<T> {
    /// The value behind the lock.
    pub fn value(&self) -> (r: &T)
        ensures
            *r == self.lock.value,
    {
        &self.lock.value
    }

    /// The value behind the lock, to be changed.
    pub fn value_mut(&mut self) -> (r: &mut T)
        ensures
            *r == old(self).lock.value,
            final(self).lock == (SpinLock { value: *final(r), ..old(self).lock }),
    {
        &mut self.lock.value
    }
}

/// What a function made of a value: another value, and a result.
pub open spec fn gave<L, R, F: FnOnce(L) -> (L, R)>(f: F, before: L, after: L, result: R) -> bool {
    f.ensures((before,), (after, result))
}

/// A function handed the lock on with `value` in it, and held by nobody.
pub open spec fn gave_free<T, R, F: FnOnce(SpinLock<T>) -> (SpinLock<T>, R)>(f: F, before: SpinLock<T>, value: T, result: R) -> bool {
    exists|l: SpinLock<T>| !l.locked && l.value == value && #[trigger] gave(f, before, l, result)
}

/// What trying to take a lock comes to.
pub open spec fn lock_came_to<T>(
    lock: SpinLock<T>,
    cpu: usize,
    s0: InterruptState,
    s1: InterruptState,
    on0: bool,
    on1: bool,
    r: Result<SpinLockGuard<T>, SpinLock<T>>,
) -> bool {
    match r {
        Ok(guard) => {
            &&& !lock.locked
            &&& guard.lock == (SpinLock { locked: true, value: lock.value, cpuid: cpu })
            &&& !on1
            &&& s1 == (InterruptState {
                depth_of_disable: (s0.depth_of_disable + 1) as usize,
                is_enabled_before: if s0.depth_of_disable == 0 { on0 } else { s0.is_enabled_before },
            })
        },
        Err(this) => {
            &&& lock.locked
            &&& this == lock
            &&& s1 == s0
            &&& on1 == on0
        },
    }
}

/// What giving a lock back comes to.
pub open spec fn unlock_came_to<T>(guard: SpinLockGuard<T>, s0: InterruptState, s1: InterruptState, on1: bool, r: SpinLock<T>) -> bool {
    &&& r == (SpinLock { locked: false, value: guard.lock.value, cpuid: usize::MAX })
    &&& s1 == (InterruptState { depth_of_disable: (s0.depth_of_disable - 1) as usize, ..s0 })
    &&& on1 == (s0.depth_of_disable == 1 && s0.is_enabled_before)
}

/// A lock that is taken cannot be taken again, by whichever CPU, until it is given back, and can be taken
/// then. What it protects is not changed by that. The CPU that holds it is known, its interrupts are off
/// as long, and then as they were.
pub proof fn lemma_lock_unlock<T>(
    lock: SpinLock<T>,
    guard: SpinLockGuard<T>,
    free: SpinLock<T>,
    cpu: usize,
    other: usize,
    s0: InterruptState,
    s1: InterruptState,
    s2: InterruptState,
    on0: bool,
    on1: bool,
    on2: bool,
    t0: InterruptState,
    t1: InterruptState,
    u0: bool,
    u1: bool,
    r: Result<SpinLockGuard<T>, SpinLock<T>>,
    t2: InterruptState,
    u2: bool,
    again: Result<SpinLockGuard<T>, SpinLock<T>>,
)
    requires
        s0.depth_of_disable < usize::MAX,
        s0.depth_of_disable > 0 ==> !on0,
        lock_came_to(lock, cpu, s0, s1, on0, on1, Ok(guard)),
        lock_came_to(guard.lock, other, t0, t1, u0, u1, r),
        unlock_came_to(guard, s1, s2, on2, free),
        lock_came_to(free, other, t0, t2, u0, u2, again),
    ensures
        !lock.locked,
        guard.lock.held_by(cpu),
        guard.lock.value == lock.value,
        !on1,
        r is Err,
        free.value == lock.value,
        !free.held_by(cpu),
        again is Ok,
        s2.depth_of_disable == s0.depth_of_disable,
        on2 == on0,
{
}

/// While one CPU holds a lock, no other CPU can take it.
pub proof fn lemma_one_holder<T>(lock: SpinLock<T>, a: usize, b: usize)
    requires
        lock.held_by(a),
        lock.held_by(b),
    ensures
        a == b,
{
}

} // verus!
