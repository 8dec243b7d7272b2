//! Exclusive access to state that one core owns.
use vstd::prelude::*;

verus! {

/// Holds a value that one owner at a time may change. Handing out the value
/// takes `&mut self`, so a second access while the first is live is refused
/// when the crate is compiled rather than when it runs.
pub struct UPSafeCell<T> {
    inner: T,
}

impl<T> UPSafeCell<T> {
    /// The value held.
    pub closed spec fn value(&self) -> T {
        self.inner
    }

    pub fn new(value: T) -> (r: Self)
        ensures
            r.value() == value,
    {
        UPSafeCell { inner: value }
    }

    /// The value, for reading and changing it.
    pub fn exclusive_access(&mut self) -> (r: &mut T)
        ensures
            *r == old(self).value(),
            final(self).value() == *final(r),
    {
        &mut self.inner
    }

    /// The value, for reading it.
    pub fn access(&self) -> (r: &T)
        ensures
            *r == self.value(),
    {
        &self.inner
    }
}

} // verus!
