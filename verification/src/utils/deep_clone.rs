//! A wrapper whose clone copies the shared value rather than the handle.

use vstd::prelude::*;

verus! {

/// A value held by a wrapper that clones deeply.
#[derive(Debug, PartialEq, Eq)]
pub struct DeepClone<T>(pub T);

impl<T> DeepClone<T> {
    pub fn new(inner: T) -> (r: Self)
        ensures
            r.0 == inner,
    {
        DeepClone(inner)
    }

    /// The wrapped value.
    pub fn into_inner(self) -> (r: T)
        ensures
            r == self.0,
    {
        self.0
    }
}

} // verus!
