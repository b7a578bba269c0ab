//! A typed database engine whose versioned commit log is the source of
//! truth.
//!
//! `Engine` runs database operations over registered record families. The
//! record tables are a view that the log folds to: they can be rebuilt
//! from it, checkpointed, exported and imported. Every durable write goes
//! through one logged path, and the store is handed out for reading only.
//!
//! Records are bytes here. What turns them into typed values, and what
//! keeps a store on disk, stands around this library.

pub mod atomic;
pub mod catalog;
pub mod checkpoint;
pub mod commit_log;
pub mod compaction;
pub mod digest;
pub mod engine;
pub mod engine_model;
pub mod error;
pub mod fold;
pub mod import;
pub mod laws;
pub mod listing;
pub mod log;
pub mod models;
pub mod mutation;
pub mod operation;
pub mod order;
pub mod ordered_table;
pub mod outbox;
pub mod query;
pub mod record;
pub mod sequence;
pub mod snapshot;
pub mod specification;
pub mod staging;
pub mod store;
pub mod subscribe;
pub mod table;
pub mod tables;
pub mod text;
pub mod versioned;
pub mod versioning;

pub use atomic::{AtomicCommit, AtomicCommitReceipt};
pub use catalog::{Catalog, TableRegistration};
pub use checkpoint::{
    Checkpoint, CheckpointDigest, CheckpointMetadata, CheckpointReceipt, CheckpointSegment,
    CheckpointSequence, CommitSequenceRange, FamilyInventory, IdentifiedCounter,
    PortableCheckpoint, SegmentDigest, SegmentReference,
};
pub use compaction::{CompactionFault, CompactionIntent, CompactionPhase};
pub use engine::{Engine, EngineOpen, StorageReader};
pub use error::Error;
pub use fold::{
    CanonicalView, FamilyDirectory, MaterializeRows, RebuildReceipt, RowLanding, RowMaterializer,
    ViewDigest, ViewRow,
};
pub use import::{ImportReceipt, ImportSession};
pub use log::{CommitLogEntry, CommitLogOperation};
pub use mutation::{
    Assertion, CommitReceipt, CommitRequest, IdentifiedAssertion, IdentifiedMutation,
    IdentifiedMutationReceipt, IdentifiedRetraction, KeyedAssertion, KeyedMutation, Mutation,
    MutationReceipt, Retraction, WriteOperation,
};
pub use operation::{NonEmpty, SemaOperation};
pub use outbox::{Durability, MirrorAcknowledgement, MirrorHead, OutboxEntry};
pub use query::{
    AggregatePlan, FieldSelection, IdentifiedQueryPlan, IdentifiedQuerySnapshot,
    IdentifiedReadPlan, IdentifiedReadPlanNode, KeyRange, PredicatePlan, QueryFilter, QueryPlan,
    QuerySnapshot, ReadOperator, ReadPlan, ReadPlanNode, RecordIdentifierRange, RecursionMode,
    RuleSetRef, UnificationPlan, ValidationReceipt,
};
pub use record::{
    EncodedRecord, EngineRecord, EngineStoredValue, RecordIdentifier, RecordKey, RecordKeyKind,
};
pub use sequence::CommitSequence;
pub use snapshot::{DatabaseMarker, SnapshotIdentifier};
pub use specification::{DomainRecordKey, TableSpecification};
pub use staging::{
    DeltaAnnouncer, DiscardStagedReceipt, MaterializeStagedReceipt, StageReceipt,
    StagedGroupSummary, StagedOperationGroup,
};
pub use store::Store;
pub use subscribe::{
    DeltaKind, InitialSnapshot, SequenceRange, SinkError, SubscriptionDeliveryFailure,
    SubscriptionDeliveryMode, SubscriptionDelta, SubscriptionEvent, SubscriptionHandle,
    SubscriptionId, SubscriptionIdentifier, SubscriptionReceipt, SubscriptionRegistration,
    SubscriptionSink,
};
pub use table::{
    IdentifiedRecord, IdentifiedTableDescriptor, IdentifiedTableReference, NoPrior, PriorCarry,
    PriorGenerations, TableDescriptor, TableName, TableReference, WithPrior,
};
pub use versioning::{
    EntryDigest, FamilyIdentity, FamilyName, ReplayReceipt, SchemaHash, StoreSchemaHash,
    VersionedCommitLogEntry, VersionedHistoryAcknowledgement, VersionedHistoryCompaction,
    VersionedHistoryRetention, VersionedLogOperation, VersionedPayload, VersionedRecoveryTopology,
    VersionedReplay, VersionedStoreName, VersioningPolicy,
};
