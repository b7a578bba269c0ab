//! The durable commit cursor.

use vstd::prelude::*;

verus! {

/// Ordinal of a commit within one store: zero before any commit, one for
/// the first, advancing by one.
#[derive(Debug, Clone, Copy, PartialEq, Eq, PartialOrd, Ord, Hash, Structural)]
pub struct CommitSequence {
    value: u64,
}

impl View for CommitSequence {
    type V = u64;

    closed spec fn view(&self) -> u64 {
        self.value
    }
}

impl CommitSequence {
    pub fn new(value: u64) -> (made: Self)
        ensures
            made@ == value,
    {
        CommitSequence { value }
    }

    pub fn genesis() -> (made: Self)
        ensures
            made@ == 0,
    {
        CommitSequence { value: 0 }
    }

    pub fn value(self) -> (value: u64)
        ensures
            value == self@,
    {
        self.value
    }

    pub fn next(self) -> (made: Self)
        requires
            self@ < u64::MAX,
        ensures
            made@ == self@ + 1,
    {
        CommitSequence { value: self.value + 1 }
    }
}

} // verus!
