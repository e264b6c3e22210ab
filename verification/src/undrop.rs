//! Values that must be taken out or forgotten by hand.
use vstd::prelude::*;

verus! {

/// A value that must not go out of scope unnoticed.
pub struct Undroppable<T> {
    value: Option<T>,
}

impl<T> Undroppable<T> {
    /// The value, where it was not taken out yet.
    pub closed spec fn inner(&self) -> Option<T> {
        self.value
    }

    pub fn new(value: T) -> (this: Self)
        ensures
            this.inner() == Some(value),
    {
        Undroppable { value: Some(value) }
    }

    /// Lets the value go on purpose.
    pub fn forget(this: Self) {
        let _ = this;
    }

    /// Takes the value out for good.
    pub fn into_inner(this: Self) -> (r: T)
        requires
            this.inner() is Some,
        ensures
            Some(r) == this.inner(),
    {
        let mut this = this;
        let inner = Self::take(&mut this);
        Self::forget(this);
        inner
    }

    /// Takes the value out.
    pub fn take(this: &mut Self) -> (r: T)
        requires
            old(this).inner() is Some,
        ensures
            Some(r) == old(this).inner(),
            final(this).inner() is None,
    {
        let mut value: Option<T> = None;
        core::mem::swap(&mut this.value, &mut value);
        value.unwrap()
    }
}

} // verus!
