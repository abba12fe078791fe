//! A binary lock around a value: one holder at a time, released by hand.
use vstd::prelude::*;

verus! {

pub struct Mutex<T> {
    target: T,
    free: bool,
}

impl<T> Mutex<T> {
    /// Nobody holds the lock.
    pub closed spec fn is_free(&self) -> bool {
        self.free
    }

    /// The guarded value.
    pub closed spec fn value(&self) -> T {
        self.target
    }

    /// A free lock around `value`.
    pub fn new(value: T) -> (r: Mutex<T>)
        ensures
            r.is_free(),
            r.value() == value,
    {
        Mutex { target: value, free: true }
    }

    /// Takes the lock and hands out the value for change. Waiting on a held
    /// lock would never end here, so the lock must be free.
    pub fn acquire_mut(&mut self) -> (r: &mut T)
        requires
            old(self).is_free(),
        ensures
            *r == old(self).value(),
            !final(self).is_free(),
            final(self).value() == *final(r),
    {
        self.free = false;
        &mut self.target
    }

    /// Takes the lock and hands out the value for reading. The lock must be
    /// free.
    pub fn acquire(&mut self) -> (r: &T)
        requires
            old(self).is_free(),
        ensures
            *r == old(self).value(),
            !final(self).is_free(),
            final(self).value() == old(self).value(),
    {
        self.free = false;
        &self.target
    }

    /// Releases the lock.
    pub fn free(&mut self)
        ensures
            final(self).is_free(),
            final(self).value() == old(self).value(),
    {
        self.free = true;
    }

    /// Whether nobody holds the lock.
    pub fn is_available(&self) -> (r: bool)
        ensures
            r == self.is_free(),
    {
        self.free
    }
}

} // verus!
