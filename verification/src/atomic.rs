//! Groups of writes over several tables that share one commit.

use vstd::prelude::*;

use crate::mutation::{write_model, WriteModel, WriteOperation};
use crate::record::{EncodedRecord, RecordKey};
use crate::sequence::CommitSequence;
use crate::snapshot::SnapshotIdentifier;
use crate::table::{TableName, TableReference};

verus! {

/// A group of writes over any registered tables, committed together or
/// not at all.
#[derive(Debug)]
pub struct AtomicCommit {
    writes: Vec<(TableName, WriteOperation<EncodedRecord>)>,
}

/// The models of a group's writes.
pub open spec fn group_models(writes: Seq<(TableName, WriteOperation<EncodedRecord>)>) -> Seq<
    (Seq<char>, WriteModel),
> {
    Seq::new(writes.len(), |i: int| (writes[i].0@, write_model(writes[i].1)))
}

impl View for AtomicCommit {
    type V = Seq<(Seq<char>, WriteModel)>;

    closed spec fn view(&self) -> Seq<(Seq<char>, WriteModel)> {
        group_models(self.writes@)
    }
}

impl AtomicCommit {
    pub fn new() -> (group: Self)
        ensures
            group@ == Seq::<(Seq<char>, WriteModel)>::empty(),
    {
        let group = AtomicCommit { writes: Vec::new() };
        assert(group@ =~= Seq::empty());
        group
    }

    fn with_write(self, table: TableName, write: WriteOperation<EncodedRecord>) -> (group: Self)
        ensures
            group@ == self@.push((table@, write_model(write))),
    {
        let mut writes: Vec<(TableName, WriteOperation<EncodedRecord>)> = self.writes;
        writes.push((table, write));
        let group = AtomicCommit { writes };
        assert(group@ =~= self@.push((table@, write_model(write))));
        group
    }

    pub fn assert_record(self, table: TableReference<EncodedRecord>, record: EncodedRecord) -> (group: Self)
        ensures
            group@ == self@.push((table@, WriteModel::Assert(record@))),
    {
        self.with_write(*table.name(), WriteOperation::Assert(record))
    }

    pub fn mutate(self, table: TableReference<EncodedRecord>, record: EncodedRecord) -> (group: Self)
        ensures
            group@ == self@.push((table@, WriteModel::Mutate(record@))),
    {
        self.with_write(*table.name(), WriteOperation::Mutate(record))
    }

    pub fn retract(self, table: TableReference<EncodedRecord>, key: RecordKey) -> (group: Self)
        ensures
            group@ == self@.push((table@, WriteModel::Retract(key@))),
    {
        self.with_write(*table.name(), WriteOperation::Retract(key))
    }

    pub fn operation_count(&self) -> (count: usize)
        ensures
            count == self@.len(),
    {
        self.writes.len()
    }

    pub fn writes(&self) -> (writes: &Vec<(TableName, WriteOperation<EncodedRecord>)>)
        ensures
            group_models(writes@) == self@,
    {
        &self.writes
    }
}

/// Receipt of a group of writes: the one commit that they share.
#[derive(Debug, Clone, Copy, PartialEq, Eq)]
pub struct AtomicCommitReceipt {
    commit_sequence: CommitSequence,
    snapshot: SnapshotIdentifier,
    operation_count: usize,
}

/// A receipt of a group of writes as plain values.
pub struct AtomicReceiptModel {
    pub commit_sequence: u64,
    pub snapshot: u64,
    pub operation_count: usize,
}

impl View for AtomicCommitReceipt {
    type V = AtomicReceiptModel;

    closed spec fn view(&self) -> AtomicReceiptModel {
        AtomicReceiptModel {
            commit_sequence: self.commit_sequence@,
            snapshot: self.snapshot@,
            operation_count: self.operation_count,
        }
    }
}

impl AtomicCommitReceipt {
    pub fn new(
        commit_sequence: CommitSequence,
        snapshot: SnapshotIdentifier,
        operation_count: usize,
    ) -> (made: Self)
        ensures
            made@ == (AtomicReceiptModel {
                commit_sequence: commit_sequence@,
                snapshot: snapshot@,
                operation_count: operation_count,
            }),
    {
        AtomicCommitReceipt { commit_sequence, snapshot, operation_count }
    }

    pub fn commit_sequence(&self) -> (found: CommitSequence)
        ensures
            found@ == self@.commit_sequence,
    {
        self.commit_sequence
    }

    pub fn snapshot(&self) -> (found: SnapshotIdentifier)
        ensures
            found@ == self@.snapshot,
    {
        self.snapshot
    }

    pub fn operation_count(&self) -> (found: usize)
        ensures
            found == self@.operation_count,
    {
        self.operation_count
    }
}

} // verus!
