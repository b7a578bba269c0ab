//! Write requests and the receipts of committed writes.

use vstd::prelude::*;

use crate::operation::SemaOperation;
use crate::record::{EncodedRecord, EngineRecord, KeyModel, RecordIdentifier, RecordKey, RecordModel};
use crate::sequence::CommitSequence;
use crate::snapshot::SnapshotIdentifier;
use crate::table::{IdentifiedTableReference, TableName, TableReference};

verus! {

/// A request to store a new record under the key it names.
#[derive(Debug)]
pub struct Assertion<RecordValue> {
    table: TableReference<RecordValue>,
    record: RecordValue,
}

/// An assertion as plain values.
pub struct AssertionModel<RecordValue> {
    pub table: Seq<char>,
    pub record: RecordValue,
}

impl<RecordValue> View for Assertion<RecordValue> {
    type V = AssertionModel<RecordValue>;

    closed spec fn view(&self) -> AssertionModel<RecordValue> {
        AssertionModel {
            table: self.table@,
            record: self.record,
        }
    }
}

impl<RecordValue> Assertion<RecordValue> {
    pub fn new(table: TableReference<RecordValue>, record: RecordValue) -> (made: Self)
        ensures
            made@ == (AssertionModel {
                table: table@,
                record: record,
            }),
    {
        Assertion { table, record }
    }

    pub fn table(&self) -> (found: &TableReference<RecordValue>)
        ensures
            found@ == self@.table,
    {
        &self.table
    }

    pub fn record(&self) -> (found: &RecordValue)
        ensures
            *found == self@.record,
    {
        &self.record
    }
}

impl<RecordValue: EngineRecord> Assertion<RecordValue> {
    pub fn record_key(&self) -> (key: RecordKey)
        ensures
            key@ == self@.record.key_model(),
    {
        self.record.record_key()
    }
}

/// A request to replace the record stored under the key it names.
#[derive(Debug)]
pub struct Mutation<RecordValue> {
    table: TableReference<RecordValue>,
    record: RecordValue,
}

/// A mutation as plain values.
pub struct MutationModel<RecordValue> {
    pub table: Seq<char>,
    pub record: RecordValue,
}

impl<RecordValue> View for Mutation<RecordValue> {
    type V = MutationModel<RecordValue>;

    closed spec fn view(&self) -> MutationModel<RecordValue> {
        MutationModel {
            table: self.table@,
            record: self.record,
        }
    }
}

impl<RecordValue> Mutation<RecordValue> {
    pub fn new(table: TableReference<RecordValue>, record: RecordValue) -> (made: Self)
        ensures
            made@ == (MutationModel {
                table: table@,
                record: record,
            }),
    {
        Mutation { table, record }
    }

    pub fn table(&self) -> (found: &TableReference<RecordValue>)
        ensures
            found@ == self@.table,
    {
        &self.table
    }

    pub fn record(&self) -> (found: &RecordValue)
        ensures
            *found == self@.record,
    {
        &self.record
    }
}

impl<RecordValue: EngineRecord> Mutation<RecordValue> {
    pub fn record_key(&self) -> (key: RecordKey)
        ensures
            key@ == self@.record.key_model(),
    {
        self.record.record_key()
    }
}

/// A request to remove the record stored under a key.
#[derive(Debug)]
pub struct Retraction<RecordValue> {
    table: TableReference<RecordValue>,
    key: RecordKey,
}

/// A retraction as plain values.
pub struct RetractionModel {
    pub table: Seq<char>,
    pub key: KeyModel,
}

impl<RecordValue> View for Retraction<RecordValue> {
    type V = RetractionModel;

    closed spec fn view(&self) -> RetractionModel {
        RetractionModel {
            table: self.table@,
            key: self.key@,
        }
    }
}

impl<RecordValue> Retraction<RecordValue> {
    pub fn new(table: TableReference<RecordValue>, key: RecordKey) -> (made: Self)
        ensures
            made@ == (RetractionModel {
                table: table@,
                key: key@,
            }),
    {
        Retraction { table, key }
    }

    pub fn table(&self) -> (found: &TableReference<RecordValue>)
        ensures
            found@ == self@.table,
    {
        &self.table
    }

    pub fn key(&self) -> (found: &RecordKey)
        ensures
            found@ == self@.key,
    {
        &self.key
    }
}

/// A request to store a new record under a given key.
#[derive(Debug)]
pub struct KeyedAssertion<RecordValue> {
    table: TableReference<RecordValue>,
    key: RecordKey,
    record: RecordValue,
}

/// A keyed assertion as plain values.
pub struct KeyedAssertionModel<RecordValue> {
    pub table: Seq<char>,
    pub key: KeyModel,
    pub record: RecordValue,
}

impl<RecordValue> View for KeyedAssertion<RecordValue> {
    type V = KeyedAssertionModel<RecordValue>;

    closed spec fn view(&self) -> KeyedAssertionModel<RecordValue> {
        KeyedAssertionModel {
            table: self.table@,
            key: self.key@,
            record: self.record,
        }
    }
}

impl<RecordValue> KeyedAssertion<RecordValue> {
    pub fn new(
        table: TableReference<RecordValue>,
        key: RecordKey,
        record: RecordValue,
    ) -> (made: Self)
        ensures
            made@ == (KeyedAssertionModel {
                table: table@,
                key: key@,
                record: record,
            }),
    {
        KeyedAssertion { table, key, record }
    }

    pub fn table(&self) -> (found: &TableReference<RecordValue>)
        ensures
            found@ == self@.table,
    {
        &self.table
    }

    pub fn key(&self) -> (found: &RecordKey)
        ensures
            found@ == self@.key,
    {
        &self.key
    }

    pub fn record(&self) -> (found: &RecordValue)
        ensures
            *found == self@.record,
    {
        &self.record
    }
}

/// A request to replace the record stored under a given key.
#[derive(Debug)]
pub struct KeyedMutation<RecordValue> {
    table: TableReference<RecordValue>,
    key: RecordKey,
    record: RecordValue,
}

/// A keyed mutation as plain values.
pub struct KeyedMutationModel<RecordValue> {
    pub table: Seq<char>,
    pub key: KeyModel,
    pub record: RecordValue,
}

impl<RecordValue> View for KeyedMutation<RecordValue> {
    type V = KeyedMutationModel<RecordValue>;

    closed spec fn view(&self) -> KeyedMutationModel<RecordValue> {
        KeyedMutationModel {
            table: self.table@,
            key: self.key@,
            record: self.record,
        }
    }
}

impl<RecordValue> KeyedMutation<RecordValue> {
    pub fn new(
        table: TableReference<RecordValue>,
        key: RecordKey,
        record: RecordValue,
    ) -> (made: Self)
        ensures
            made@ == (KeyedMutationModel {
                table: table@,
                key: key@,
                record: record,
            }),
    {
        KeyedMutation { table, key, record }
    }

    pub fn table(&self) -> (found: &TableReference<RecordValue>)
        ensures
            found@ == self@.table,
    {
        &self.table
    }

    pub fn key(&self) -> (found: &RecordKey)
        ensures
            found@ == self@.key,
    {
        &self.key
    }

    pub fn record(&self) -> (found: &RecordValue)
        ensures
            *found == self@.record,
    {
        &self.record
    }
}

/// A request to store a new record under an identifier that the engine
/// mints.
#[derive(Debug)]
pub struct IdentifiedAssertion<RecordValue> {
    table: IdentifiedTableReference<RecordValue>,
    record: RecordValue,
}

/// An identified assertion as plain values.
pub struct IdentifiedAssertionModel<RecordValue> {
    pub table: Seq<char>,
    pub record: RecordValue,
}

impl<RecordValue> View for IdentifiedAssertion<RecordValue> {
    type V = IdentifiedAssertionModel<RecordValue>;

    closed spec fn view(&self) -> IdentifiedAssertionModel<RecordValue> {
        IdentifiedAssertionModel {
            table: self.table@,
            record: self.record,
        }
    }
}

impl<RecordValue> IdentifiedAssertion<RecordValue> {
    pub fn new(table: IdentifiedTableReference<RecordValue>, record: RecordValue) -> (made: Self)
        ensures
            made@ == (IdentifiedAssertionModel {
                table: table@,
                record: record,
            }),
    {
        IdentifiedAssertion { table, record }
    }

    pub fn table(&self) -> (found: &IdentifiedTableReference<RecordValue>)
        ensures
            found@ == self@.table,
    {
        &self.table
    }

    pub fn record(&self) -> (found: &RecordValue)
        ensures
            *found == self@.record,
    {
        &self.record
    }
}

/// A request to replace the record stored under an identifier.
#[derive(Debug)]
pub struct IdentifiedMutation<RecordValue> {
    table: IdentifiedTableReference<RecordValue>,
    identifier: RecordIdentifier,
    record: RecordValue,
}

/// An identified mutation as plain values.
pub struct IdentifiedMutationModel<RecordValue> {
    pub table: Seq<char>,
    pub identifier: u64,
    pub record: RecordValue,
}

impl<RecordValue> View for IdentifiedMutation<RecordValue> {
    type V = IdentifiedMutationModel<RecordValue>;

    closed spec fn view(&self) -> IdentifiedMutationModel<RecordValue> {
        IdentifiedMutationModel {
            table: self.table@,
            identifier: self.identifier@,
            record: self.record,
        }
    }
}

impl<RecordValue> IdentifiedMutation<RecordValue> {
    pub fn new(
        table: IdentifiedTableReference<RecordValue>,
        identifier: RecordIdentifier,
        record: RecordValue,
    ) -> (made: Self)
        ensures
            made@ == (IdentifiedMutationModel {
                table: table@,
                identifier: identifier@,
                record: record,
            }),
    {
        IdentifiedMutation { table, identifier, record }
    }

    pub fn table(&self) -> (found: &IdentifiedTableReference<RecordValue>)
        ensures
            found@ == self@.table,
    {
        &self.table
    }

    pub fn identifier(&self) -> (found: RecordIdentifier)
        ensures
            found@ == self@.identifier,
    {
        self.identifier
    }

    pub fn record(&self) -> (found: &RecordValue)
        ensures
            *found == self@.record,
    {
        &self.record
    }
}

/// A request to remove the record stored under an identifier.
#[derive(Debug)]
pub struct IdentifiedRetraction<RecordValue> {
    table: IdentifiedTableReference<RecordValue>,
    identifier: RecordIdentifier,
}

/// An identified retraction as plain values.
pub struct IdentifiedRetractionModel {
    pub table: Seq<char>,
    pub identifier: u64,
}

impl<RecordValue> View for IdentifiedRetraction<RecordValue> {
    type V = IdentifiedRetractionModel;

    closed spec fn view(&self) -> IdentifiedRetractionModel {
        IdentifiedRetractionModel {
            table: self.table@,
            identifier: self.identifier@,
        }
    }
}

impl<RecordValue> IdentifiedRetraction<RecordValue> {
    pub fn new(
        table: IdentifiedTableReference<RecordValue>,
        identifier: RecordIdentifier,
    ) -> (made: Self)
        ensures
            made@ == (IdentifiedRetractionModel {
                table: table@,
                identifier: identifier@,
            }),
    {
        IdentifiedRetraction { table, identifier }
    }

    pub fn table(&self) -> (found: &IdentifiedTableReference<RecordValue>)
        ensures
            found@ == self@.table,
    {
        &self.table
    }

    pub fn identifier(&self) -> (found: RecordIdentifier)
        ensures
            found@ == self@.identifier,
    {
        self.identifier
    }
}

/// Receipt of one committed write.
#[derive(Debug, PartialEq, Eq)]
pub struct MutationReceipt {
    operation: SemaOperation,
    table: TableName,
    key: RecordKey,
    commit_sequence: CommitSequence,
    snapshot: SnapshotIdentifier,
}

/// A mutation receipt as plain values.
pub struct MutationReceiptModel {
    pub operation: SemaOperation,
    pub table: Seq<char>,
    pub key: KeyModel,
    pub commit_sequence: u64,
    pub snapshot: u64,
}

impl View for MutationReceipt {
    type V = MutationReceiptModel;

    closed spec fn view(&self) -> MutationReceiptModel {
        MutationReceiptModel {
            operation: self.operation,
            table: self.table@,
            key: self.key@,
            commit_sequence: self.commit_sequence@,
            snapshot: self.snapshot@,
        }
    }
}

impl MutationReceipt {
    pub fn new(
        operation: SemaOperation,
        table: TableName,
        key: RecordKey,
        commit_sequence: CommitSequence,
        snapshot: SnapshotIdentifier,
    ) -> (made: Self)
        ensures
            made@ == (MutationReceiptModel {
                operation: operation,
                table: table@,
                key: key@,
                commit_sequence: commit_sequence@,
                snapshot: snapshot@,
            }),
    {
        MutationReceipt { operation, table, key, commit_sequence, snapshot }
    }

    pub fn operation(&self) -> (found: SemaOperation)
        ensures
            found == self@.operation,
    {
        self.operation
    }

    pub fn table(&self) -> (found: &TableName)
        ensures
            found@ == self@.table,
    {
        &self.table
    }

    pub fn key(&self) -> (found: &RecordKey)
        ensures
            found@ == self@.key,
    {
        &self.key
    }

    pub fn commit_sequence(&self) -> (found: CommitSequence)
        ensures
            found@ == self@.commit_sequence,
    {
        self.commit_sequence
    }

    pub fn snapshot(&self) -> (found: SnapshotIdentifier)
        ensures
            found@ == self@.snapshot,
    {
        self.snapshot
    }
}

/// Receipt of one committed write to an identified table.
#[derive(Debug, PartialEq, Eq)]
pub struct IdentifiedMutationReceipt {
    operation: SemaOperation,
    table: TableName,
    identifier: RecordIdentifier,
    commit_sequence: CommitSequence,
    snapshot: SnapshotIdentifier,
}

/// An identified receipt as plain values.
pub struct IdentifiedReceiptModel {
    pub operation: SemaOperation,
    pub table: Seq<char>,
    pub identifier: u64,
    pub commit_sequence: u64,
    pub snapshot: u64,
}

impl View for IdentifiedMutationReceipt {
    type V = IdentifiedReceiptModel;

    closed spec fn view(&self) -> IdentifiedReceiptModel {
        IdentifiedReceiptModel {
            operation: self.operation,
            table: self.table@,
            identifier: self.identifier@,
            commit_sequence: self.commit_sequence@,
            snapshot: self.snapshot@,
        }
    }
}

impl IdentifiedMutationReceipt {
    pub fn new(
        operation: SemaOperation,
        table: TableName,
        identifier: RecordIdentifier,
        commit_sequence: CommitSequence,
        snapshot: SnapshotIdentifier,
    ) -> (made: Self)
        ensures
            made@ == (IdentifiedReceiptModel {
                operation: operation,
                table: table@,
                identifier: identifier@,
                commit_sequence: commit_sequence@,
                snapshot: snapshot@,
            }),
    {
        IdentifiedMutationReceipt { operation, table, identifier, commit_sequence, snapshot }
    }

    pub fn operation(&self) -> (found: SemaOperation)
        ensures
            found == self@.operation,
    {
        self.operation
    }

    pub fn table(&self) -> (found: &TableName)
        ensures
            found@ == self@.table,
    {
        &self.table
    }

    pub fn identifier(&self) -> (found: RecordIdentifier)
        ensures
            found@ == self@.identifier,
    {
        self.identifier
    }

    pub fn commit_sequence(&self) -> (found: CommitSequence)
        ensures
            found@ == self@.commit_sequence,
    {
        self.commit_sequence
    }

    pub fn snapshot(&self) -> (found: SnapshotIdentifier)
        ensures
            found@ == self@.snapshot,
    {
        self.snapshot
    }
}

/// One write effect inside a [`CommitRequest`].
#[derive(Debug)]
pub enum WriteOperation<RecordValue> {
    Assert(RecordValue),
    Mutate(RecordValue),
    Retract(RecordKey),
}

impl<RecordValue> WriteOperation<RecordValue> {
    pub fn operation(&self) -> (operation: SemaOperation)
        ensures
            operation == (match *self {
                WriteOperation::Assert(_) => SemaOperation::Assert,
                WriteOperation::Mutate(_) => SemaOperation::Mutate,
                WriteOperation::Retract(_) => SemaOperation::Retract,
            }),
    {
        match self {
            WriteOperation::Assert(_) => SemaOperation::Assert,
            WriteOperation::Mutate(_) => SemaOperation::Mutate,
            WriteOperation::Retract(_) => SemaOperation::Retract,
        }
    }
}

/// One write of encoded records as plain values.
pub enum WriteModel {
    Assert(RecordModel),
    Mutate(RecordModel),
    Retract(KeyModel),
}

/// The model of one write of encoded records.
pub open spec fn write_model(operation: WriteOperation<EncodedRecord>) -> WriteModel {
    match operation {
        WriteOperation::Assert(record) => WriteModel::Assert(record@),
        WriteOperation::Mutate(record) => WriteModel::Mutate(record@),
        WriteOperation::Retract(key) => WriteModel::Retract(key@),
    }
}

/// The models of writes of encoded records.
pub open spec fn write_models(operations: Seq<WriteOperation<EncodedRecord>>) -> Seq<WriteModel> {
    Seq::new(operations.len(), |i: int| write_model(operations[i]))
}

/// A request to commit write operations on one table as one commit.
#[derive(Debug)]
pub struct CommitRequest<RecordValue> {
    table: TableReference<RecordValue>,
    operations: Vec<WriteOperation<RecordValue>>,
}

/// A commit request as plain values.
pub struct RequestModel<RecordValue> {
    pub table: Seq<char>,
    pub operations: Seq<WriteOperation<RecordValue>>,
}

impl<RecordValue> View for CommitRequest<RecordValue> {
    type V = RequestModel<RecordValue>;

    closed spec fn view(&self) -> RequestModel<RecordValue> {
        RequestModel { table: self.table@, operations: self.operations@ }
    }
}

impl<RecordValue> CommitRequest<RecordValue> {
    pub fn new(table: TableReference<RecordValue>) -> (request: Self)
        ensures
            request@.table == table@,
            request@.operations == Seq::<WriteOperation<RecordValue>>::empty(),
    {
        CommitRequest { table, operations: Vec::new() }
    }

    pub fn assert_record(self, record: RecordValue) -> (request: Self)
        ensures
            request@ == (RequestModel {
                table: self@.table,
                operations: self@.operations.push(WriteOperation::Assert(record)),
            }),
    {
        let mut operations: Vec<WriteOperation<RecordValue>> = self.operations;
        operations.push(WriteOperation::Assert(record));
        CommitRequest { table: self.table, operations }
    }

    pub fn mutate(self, record: RecordValue) -> (request: Self)
        ensures
            request@ == (RequestModel {
                table: self@.table,
                operations: self@.operations.push(WriteOperation::Mutate(record)),
            }),
    {
        let mut operations: Vec<WriteOperation<RecordValue>> = self.operations;
        operations.push(WriteOperation::Mutate(record));
        CommitRequest { table: self.table, operations }
    }

    pub fn retract(self, key: RecordKey) -> (request: Self)
        ensures
            request@ == (RequestModel {
                table: self@.table,
                operations: self@.operations.push(WriteOperation::Retract(key)),
            }),
    {
        let mut operations: Vec<WriteOperation<RecordValue>> = self.operations;
        operations.push(WriteOperation::Retract(key));
        CommitRequest { table: self.table, operations }
    }

    pub fn table(&self) -> (table: &TableReference<RecordValue>)
        ensures
            table@ == self@.table,
    {
        &self.table
    }

    pub fn operations(&self) -> (operations: &[WriteOperation<RecordValue>])
        ensures
            operations@ == self@.operations,
    {
        self.operations.as_slice()
    }

    pub fn operation_count(&self) -> (count: usize)
        ensures
            count == self@.operations.len(),
    {
        self.operations.len()
    }
}

/// Receipt of a commit: the committed state it left, and how many effects
/// it had. The effects themselves are in the commit log entry.
#[derive(Debug, PartialEq, Eq)]
pub struct CommitReceipt {
    table: TableName,
    commit_sequence: CommitSequence,
    snapshot: SnapshotIdentifier,
    operation_count: usize,
}

/// A commit receipt as plain values.
pub struct CommitReceiptModel {
    pub table: Seq<char>,
    pub commit_sequence: u64,
    pub snapshot: u64,
    pub operation_count: usize,
}

impl View for CommitReceipt {
    type V = CommitReceiptModel;

    closed spec fn view(&self) -> CommitReceiptModel {
        CommitReceiptModel {
            table: self.table@,
            commit_sequence: self.commit_sequence@,
            snapshot: self.snapshot@,
            operation_count: self.operation_count,
        }
    }
}

impl CommitReceipt {
    pub fn new(
        table: TableName,
        commit_sequence: CommitSequence,
        snapshot: SnapshotIdentifier,
        operation_count: usize,
    ) -> (made: Self)
        ensures
            made@ == (CommitReceiptModel {
                table: table@,
                commit_sequence: commit_sequence@,
                snapshot: snapshot@,
                operation_count: operation_count,
            }),
    {
        CommitReceipt { table, commit_sequence, snapshot, operation_count }
    }

    pub fn table(&self) -> (found: &TableName)
        ensures
            found@ == self@.table,
    {
        &self.table
    }

    pub fn commit_sequence(&self) -> (found: CommitSequence)
        ensures
            found@ == self@.commit_sequence,
    {
        self.commit_sequence
    }

    pub fn snapshot(&self) -> (found: SnapshotIdentifier)
        ensures
            found@ == self@.snapshot,
    {
        self.snapshot
    }

    pub fn operation_count(&self) -> (found: usize)
        ensures
            found == self@.operation_count,
    {
        self.operation_count
    }
}

} // verus!
