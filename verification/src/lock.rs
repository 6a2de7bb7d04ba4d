//! The lock token: type-level proof that a value corresponds to a record that
//! has already received a write inside the active transaction, so a competing
//! transaction touching the same record must conflict at commit. Only the
//! operations that themselves perform the locking write construct one.

use vstd::prelude::*;

verus! {

/// A value that rode along with a locking write. There is no public
/// constructor: holding a `Lock<T>` proves the write happened.
#[derive(Debug)]
pub struct Lock<T>(T);

impl<T> Lock<T> {
    /// The wrapped value.
    pub closed spec fn value(&self) -> T {
        self.0
    }

    /// Wraps a value that a locking write covered. Only this crate's
    /// transactional operations call this.
    pub(crate) fn lock_new(v: T) -> (r: Lock<T>)
        ensures
            r.value() == v,
    {
        Lock(v)
    }

    /// Gives the wrapped value up; the proof of locking is gone with the
    /// token.
    pub fn into_inner(self) -> (r: T)
        ensures
            r == self.value(),
    {
        self.0
    }

    /// Reads the wrapped value without giving the token up.
    pub fn inner(&self) -> (r: &T)
        ensures
            r == self.value(),
    {
        &self.0
    }
}

} // verus!
