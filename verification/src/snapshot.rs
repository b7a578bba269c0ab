//! The committed states a reader can name.

use vstd::prelude::*;

use crate::sequence::CommitSequence;

verus! {

/// Ordinal of a committed state: zero before any commit, advancing by one
/// with each.
#[derive(Debug, Clone, Copy, PartialEq, Eq, PartialOrd, Ord, Hash, Structural)]
pub struct SnapshotIdentifier {
    value: u64,
}

impl View for SnapshotIdentifier {
    type V = u64;

    closed spec fn view(&self) -> u64 {
        self.value
    }
}

impl SnapshotIdentifier {
    pub fn new(value: u64) -> (made: Self)
        ensures
            made@ == value,
    {
        SnapshotIdentifier { value }
    }

    pub fn genesis() -> (made: Self)
        ensures
            made@ == 0,
    {
        SnapshotIdentifier { value: 0 }
    }

    pub fn value(self) -> (value: u64)
        ensures
            value == self@,
    {
        self.value
    }

    pub fn next(self) -> (made: Self)
        requires
            self@ < u64::MAX,
        ensures
            made@ == self@ + 1,
    {
        SnapshotIdentifier { value: self.value + 1 }
    }
}

/// The commit cursor and the committed state it left, read together.
#[derive(Debug, Clone, Copy, PartialEq, Eq, PartialOrd, Ord, Hash, Structural)]
pub struct DatabaseMarker {
    commit_sequence: CommitSequence,
    snapshot: SnapshotIdentifier,
}

/// A database marker as plain numbers.
pub struct MarkerModel {
    pub commit_sequence: u64,
    pub snapshot: u64,
}

impl View for DatabaseMarker {
    type V = MarkerModel;

    closed spec fn view(&self) -> MarkerModel {
        MarkerModel { commit_sequence: self.commit_sequence@, snapshot: self.snapshot@ }
    }
}

impl DatabaseMarker {
    pub fn new(commit_sequence: CommitSequence, snapshot: SnapshotIdentifier) -> (marker: Self)
        ensures
            marker@.commit_sequence == commit_sequence@,
            marker@.snapshot == snapshot@,
    {
        DatabaseMarker { commit_sequence, snapshot }
    }

    pub fn genesis() -> (marker: Self)
        ensures
            marker@.commit_sequence == 0,
            marker@.snapshot == 0,
    {
        DatabaseMarker::new(CommitSequence::genesis(), SnapshotIdentifier::genesis())
    }

    pub fn commit_sequence(self) -> (sequence: CommitSequence)
        ensures
            sequence@ == self@.commit_sequence,
    {
        self.commit_sequence
    }

    pub fn snapshot(self) -> (snapshot: SnapshotIdentifier)
        ensures
            snapshot@ == self@.snapshot,
    {
        self.snapshot
    }
}

} // verus!
