//! Locks of several kinds behind one interface.
use vstd::prelude::*;
use crate::spinlock::gave;

pub mod sleep;
pub mod spin;
pub mod spin_c;

verus! {

/// A lock that protects a value. `who` is the CPU, or the process, that uses it.
pub trait Lock: Sized {
    type Target;

    /// Somebody holds the lock.
    spec fn taken(&self) -> bool;

    /// `who` may give the lock back.
    spec fn may_unlock(&self, who: usize) -> bool;

    /// The value that the lock protects.
    spec fn protected(&self) -> Self::Target;

    fn get(&self) -> (r: &Self::Target)
        ensures
            *r == self.protected(),
    ;

    fn get_mut(&mut self) -> (r: &mut Self::Target)
        ensures
            *r == old(self).protected(),
            final(self).protected() == *final(r),
            final(self).taken() == old(self).taken(),
            forall|who: usize| #[trigger] final(self).may_unlock(who) == old(self).may_unlock(who),
    ;

    /// Tries to take the lock. `false` means that somebody else holds it.
    fn raw_lock(&mut self, who: usize) -> (r: bool)
        ensures
            r == !old(self).taken(),
            final(self).taken(),
            r ==> final(self).may_unlock(who),
            final(self).protected() == old(self).protected(),
    ;

    /// Gives the lock back.
    fn raw_unlock(&mut self, who: usize)
        requires
            old(self).taken(),
            old(self).may_unlock(who),
        ensures
            !final(self).taken(),
            final(self).protected() == old(self).protected(),
    ;
}

/// A function took a lock that nobody held, with `before` in it, and handed it on with `after` in
/// it, taken or not.
pub open spec fn gave_lock<L: Lock, R, F: FnOnce(L) -> (L, R)>(f: F, before: L::Target, after: L::Target, taken: bool, result: R) -> bool {
    exists|free: L, l: L| {
        &&& !free.taken()
        &&& free.protected() == before
        &&& #[trigger] gave(f, free, l, result)
        &&& l.taken() == taken
        &&& l.protected() == after
    }
}

/// A lock that is held.
pub struct LockGuard<L: Lock> {
    pub lock: L,
}

impl<L: Lock> LockGuard<L> {
    pub fn new(lock: L) -> (this: Self)
        requires
            lock.taken(),
        ensures
            this.lock == lock,
    {
        LockGuard { lock }
    }

    /// Takes a lock. `Err` means that somebody else holds it.
    pub fn lock(lock: L, who: usize) -> (r: Result<Self, L>)
        ensures
            match r {
                Ok(guard) => {
                    &&& !lock.taken()
                    &&& guard.lock.taken()
                    &&& guard.lock.may_unlock(who)
                    &&& guard.lock.protected() == lock.protected()
                },
                Err(l) => {
                    &&& lock.taken()
                    &&& l.taken()
                    &&& l.protected() == lock.protected()
                },
            },
    {
        let mut lock = lock;
        if lock.raw_lock(who) {
            Ok(LockGuard { lock })
        } else {
            Err(lock)
        }
    }

    /// Gives the lock back while `f` runs, and takes it again. `f` stands for all that happens
    /// to the lock meanwhile. `Err` means that somebody else holds the lock then.
    pub fn unlock_temporarily<R, F: FnOnce(L) -> (L, R)>(self, who: usize, f: F) -> (r: (Result<Self, L>, R))
        requires
            self.lock.taken(),
            self.lock.may_unlock(who),
            forall|l: L| !l.taken() && l.protected() == self.lock.protected() ==> #[trigger] f.requires((l,)),
        ensures
            match r.0 {
                Ok(guard) => {
                    &&& guard.lock.taken()
                    &&& guard.lock.may_unlock(who)
                    &&& gave_lock(f, self.lock.protected(), guard.lock.protected(), false, r.1)
                },
                Err(lock) => lock.taken() && gave_lock(f, self.lock.protected(), lock.protected(), true, r.1),
            },
    {
        let free = self.unlock(who);
        let ghost free0 = free;
        let (lock, ret) = f(free);
        let ghost lock0 = lock;
        let guard = LockGuard::lock(lock, who);
        assert(gave(f, free0, lock0, ret));
        assert(gave_lock(f, free0.protected(), lock0.protected(), lock0.taken(), ret));
        (guard, ret)
    }

    /// Gives the lock back.
    pub fn unlock(self, who: usize) -> (r: L)
        requires
            self.lock.taken(),
            self.lock.may_unlock(who),
        ensures
            !r.taken(),
            r.protected() == self.lock.protected(),
    {
        let mut lock = self.lock;
        lock.raw_unlock(who);
        lock
    }
}

} // verus!
