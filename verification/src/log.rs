//! The metadata commit log: what each commit did, without payloads.

use vstd::prelude::*;
use vstd::std_specs::convert::FromSpecImpl;

use crate::models::{lemma_views_push, option_view, views, Duplicate};
use crate::operation::{NonEmpty, SemaOperation};
use crate::record::{KeyModel, RecordKey};
use crate::sequence::CommitSequence;
use crate::snapshot::SnapshotIdentifier;
use crate::table::TableName;
use crate::versioning::{EntryModel, OperationModel, VersionedCommitLogEntry, VersionedLogOperation};

verus! {

/// One operation of a commit: what it did, where, and to which key.
#[derive(Debug, PartialEq, Eq)]
pub struct CommitLogOperation {
    operation: SemaOperation,
    table_name: String,
    key: Option<RecordKey>,
}

/// A metadata log operation as plain values.
pub struct LogOperationModel {
    pub operation: SemaOperation,
    pub table: Seq<char>,
    pub key: Option<KeyModel>,
}

/// The metadata of a versioned operation: its payload dropped.
pub open spec fn operation_metadata(operation: OperationModel) -> LogOperationModel {
    LogOperationModel {
        operation: operation.operation,
        table: operation.family.table,
        key: operation.key,
    }
}

impl View for CommitLogOperation {
    type V = LogOperationModel;

    closed spec fn view(&self) -> LogOperationModel {
        LogOperationModel {
            operation: self.operation,
            table: self.table_name@,
            key: option_view(self.key),
        }
    }
}

impl Clone for CommitLogOperation {
    fn clone(&self) -> (copy: Self)
        ensures
            copy@ == self@,
    {
        let key: Option<RecordKey> = match &self.key {
            Some(key) => Some(key.clone()),
            None => None,
        };
        CommitLogOperation { operation: self.operation, table_name: self.table_name.clone(), key }
    }
}

impl CommitLogOperation {
    pub fn new(operation: SemaOperation, table: TableName, key: Option<RecordKey>) -> (logged: Self)
        ensures
            logged@ == (LogOperationModel { operation, table: table@, key: option_view(key) }),
    {
        CommitLogOperation { operation, table_name: table.as_str().to_owned(), key }
    }

    /// An operation read back from storage, its table name as it was
    /// stored.
    pub fn stored(operation: SemaOperation, table_name: String, key: Option<RecordKey>) -> (logged:
        Self)
        ensures
            logged@ == (LogOperationModel { operation, table: table_name@, key: option_view(key) }),
    {
        CommitLogOperation { operation, table_name, key }
    }

    pub fn operation(&self) -> (operation: SemaOperation)
        ensures
            operation == self@.operation,
    {
        self.operation
    }

    pub fn table_name(&self) -> (name: &str)
        ensures
            name@ == self@.table,
    {
        self.table_name.as_str()
    }

    pub fn key(&self) -> (key: Option<&RecordKey>)
        ensures
            option_view(key) == self@.key,
    {
        self.key.as_ref()
    }
}

/// The metadata of a versioned operation: its payload dropped.
impl<'a> From<&'a VersionedLogOperation> for CommitLogOperation {
    fn from(operation: &'a VersionedLogOperation) -> (logged: Self)
        ensures
            logged@ == operation_metadata(operation@),
    {
        let key: Option<RecordKey> = match operation.key() {
            Some(key) => Some(key.clone()),
            None => None,
        };
        CommitLogOperation {
            operation: operation.operation(),
            table_name: operation.family().table_name().to_owned(),
            key,
        }
    }
}

impl<'a> FromSpecImpl<&'a VersionedLogOperation> for CommitLogOperation {
    open spec fn obeys_from_spec() -> bool {
        false
    }

    open spec fn from_spec(operation: &'a VersionedLogOperation) -> CommitLogOperation {
        arbitrary()
    }
}

/// Durable record of one commit: a request that committed all its
/// effects under a single snapshot. A single-operation write is a
/// commit of length one.
#[derive(Debug, PartialEq, Eq)]
pub struct CommitLogEntry {
    commit_sequence: CommitSequence,
    snapshot: SnapshotIdentifier,
    operations: NonEmpty<CommitLogOperation>,
}

/// A metadata log entry as plain values.
pub struct LogEntryModel {
    pub commit_sequence: u64,
    pub snapshot: u64,
    pub operations: Seq<LogOperationModel>,
}

pub open spec fn operations_metadata(operations: Seq<OperationModel>) -> Seq<LogOperationModel> {
    Seq::new(operations.len(), |i: int| operation_metadata(operations[i]))
}

/// The metadata of a versioned entry: same sequence and snapshot, the
/// payloads dropped.
pub open spec fn entry_metadata(entry: EntryModel) -> LogEntryModel {
    LogEntryModel {
        commit_sequence: entry.commit_sequence,
        snapshot: entry.snapshot,
        operations: operations_metadata(entry.operations),
    }
}

impl View for CommitLogEntry {
    type V = LogEntryModel;

    closed spec fn view(&self) -> LogEntryModel {
        LogEntryModel {
            commit_sequence: self.commit_sequence@,
            snapshot: self.snapshot@,
            operations: views(self.operations@),
        }
    }
}

impl Clone for CommitLogEntry {
    fn clone(&self) -> (copy: Self)
        ensures
            copy@ == self@,
    {
        let copy = CommitLogEntry {
            commit_sequence: self.commit_sequence,
            snapshot: self.snapshot,
            operations: self.operations.clone(),
        };
        assert(copy@.operations =~= self@.operations);
        copy
    }
}

impl Duplicate for CommitLogEntry {
    fn duplicate(&self) -> (copy: Self) {
        self.clone()
    }
}

impl CommitLogEntry {
    pub fn new(
        commit_sequence: CommitSequence,
        snapshot: SnapshotIdentifier,
        operations: NonEmpty<CommitLogOperation>,
    ) -> (entry: Self)
        ensures
            entry@ == (LogEntryModel {
                commit_sequence: commit_sequence@,
                snapshot: snapshot@,
                operations: views(operations@),
            }),
    {
        CommitLogEntry { commit_sequence, snapshot, operations }
    }

    pub fn single(
        commit_sequence: CommitSequence,
        snapshot: SnapshotIdentifier,
        operation: CommitLogOperation,
    ) -> (entry: Self)
        ensures
            entry@ == (LogEntryModel {
                commit_sequence: commit_sequence@,
                snapshot: snapshot@,
                operations: seq![operation@],
            }),
    {
        let entry = CommitLogEntry {
            commit_sequence,
            snapshot,
            operations: NonEmpty::single(operation),
        };
        assert(entry@.operations =~= seq![operation@]);
        entry
    }

    pub fn commit_sequence(&self) -> (sequence: CommitSequence)
        ensures
            sequence@ == self@.commit_sequence,
    {
        self.commit_sequence
    }

    pub fn snapshot(&self) -> (snapshot: SnapshotIdentifier)
        ensures
            snapshot@ == self@.snapshot,
    {
        self.snapshot
    }

    pub fn operations(&self) -> (operations: &NonEmpty<CommitLogOperation>)
        ensures
            views(operations@) == self@.operations,
    {
        &self.operations
    }

    pub fn operation_count(&self) -> (count: usize)
        ensures
            count == self@.operations.len(),
    {
        self.operations.len()
    }
}

/// The metadata of a versioned entry: its payloads dropped.
impl<'a> From<&'a VersionedCommitLogEntry> for CommitLogEntry {
    fn from(entry: &'a VersionedCommitLogEntry) -> (logged: Self)
        ensures
            logged@ == entry_metadata(entry@),
    {
        let operations = entry.operations();
        let head: CommitLogOperation = CommitLogOperation::from(operations.head());
        let rest = operations.tail();
        let mut tail: Vec<CommitLogOperation> = Vec::new();
        let mut at: usize = 0;
        let ghost logged_operations = operations_metadata(entry@.operations);
        while at < rest.len()
            invariant
                at <= rest.len(),
                operations@.len() >= 1,
                rest@ == operations@.skip(1),
                views(operations@) == entry@.operations,
                logged_operations == operations_metadata(entry@.operations),
                views(tail@) == logged_operations.subrange(1, at + 1),
            decreases rest.len() - at,
        {
            let operation: CommitLogOperation = CommitLogOperation::from(&rest[at]);
            proof {
                assert(views(operations@)[at + 1] == rest@[at as int]@);
                lemma_views_push(tail@, operation);
                assert(logged_operations.subrange(1, at + 2) =~= logged_operations.subrange(
                    1,
                    at + 1,
                ).push(operation@));
            }
            tail.push(operation);
            at = at + 1;
        }
        let logged = CommitLogEntry {
            commit_sequence: entry.commit_sequence(),
            snapshot: entry.snapshot(),
            operations: NonEmpty::from_head_and_tail(head, tail),
        };
        assert(views(operations@)[0] == operations@[0]@);
        assert(views(logged.operations@) =~= seq![head@] + views(tail@));
        assert(logged@.operations =~= logged_operations);
        logged
    }
}

impl<'a> FromSpecImpl<&'a VersionedCommitLogEntry> for CommitLogEntry {
    open spec fn obeys_from_spec() -> bool {
        false
    }

    open spec fn from_spec(entry: &'a VersionedCommitLogEntry) -> CommitLogEntry {
        arbitrary()
    }
}

} // verus!
