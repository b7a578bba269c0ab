//! Every way an engine call is refused.

use vstd::prelude::*;

use crate::checkpoint::{CheckpointDigest, SegmentDigest};
use crate::compaction::CompactionPhase;
use crate::fold::ViewDigest;
use crate::query::ReadOperator;
use crate::sequence::CommitSequence;
use crate::versioning::{EntryDigest, StoreSchemaHash};

verus! {

/// A typed refusal. `Sema` carries a failure of the storage below the
/// engine.
#[allow(inconsistent_fields)]
#[derive(Debug, PartialEq, Eq)]
pub enum Error {
    Sema { message: String },
    StorageLayoutMismatch { stored: u64, expected: u64 },
    TableAlreadyRegistered { table: String },
    FamilyIdentityMismatch { table: String, stored: String, declared: String },
    FamilyAlreadyBound { family: String, existing: String, table: String },
    TableNotRegistered { table: String },
    RecordNotFound { table: String, key: String },
    EmptyCommit { table: String },
    EmptyAtomicCommit,
    DuplicateWriteKey { table: String, key: String },
    DuplicateAssertKey { table: String, key: String },
    VersionedPayloadEncode { table: String, message: String },
    VersionedPayloadDecode { table: String, message: String },
    DomainKeyArchive { message: String },
    ReplayMissingKey { family: String },
    ReplayUnsupportedOperation { operation: String },
    ReplayTombstonePayload { table: String },
    VersioningNotEnabled { surface: String },
    VersionedLogIncomplete { commits: u64, versioned: u64 },
    VersionedChainBroken { sequence: u64 },
    CheckpointNothingToCover,
    CheckpointEncode { message: String },
    CheckpointDecode { message: String },
    CheckpointDigestMismatch { stored: CheckpointDigest, computed: CheckpointDigest },
    SegmentDigestMismatch { referenced: SegmentDigest, computed: SegmentDigest },
    SegmentMissing { digest: SegmentDigest },
    SegmentSurplus { referenced: usize, supplied: usize },
    CheckpointRowMissing { sequence: u64 },
    ViewDigestMismatch { expected: ViewDigest, computed: ViewDigest },
    CheckpointSchemaMismatch { checkpoint: StoreSchemaHash, current: StoreSchemaHash },
    ImportStoreNotFresh,
    ImportMissingCheckpoint,
    ImportCheckpointAlreadyIngested,
    ImportStoreNameMismatch { checkpoint: String, policy: String },
    FamilyUnknown { family: String },
    MaterializeTableMismatch { family: String, expected: String, supplied: String },
    MaterializeKeyKindMismatch { table: String, key: String, expected: &'static str, found: &'static str },
    UnknownCommitSequence { sequence: u64 },
    OutboxEntryMismatch { sequence: u64 },
    MirrorHeadUnknown { sequence: u64 },
    HistoryCompactionUnacknowledged { required: u64, acknowledged: Option<u64> },
    HistoryCompactionTopologyMismatch { topology: &'static str, acknowledgement: &'static str },
    VersioningPolicyRequired,
    VersioningPolicyMismatch,
    CompactionRecoveryRequired { phase: CompactionPhase },
    MirrorHeadForked { sequence: u64, recorded: EntryDigest, acknowledged: EntryDigest },
    StagingSessionEngaged,
    CompactionIntentOccupied,
    CompactionIntentMissingSequence,
    CompactionCheckpointBehind { checkpoint: u64, plan: u64 },
    CompactionInterrupted { phase: &'static str },
    StagingSessionNotEngaged { surface: &'static str },
    StagingSlotOccupied,
    StagingSlotEmpty { surface: &'static str },
    StagingBaseMoved { sequence: u64 },
    StagedGroupDigestMismatch { sequence: u64, staged: EntryDigest, computed: EntryDigest },
    StagedHeadMismatch { staged: EntryDigest, produced: EntryDigest },
    SubscriptionRegistryPoisoned,
    SubscriptionFailureLogPoisoned,
    SubscriptionSink { message: String },
    UnsupportedReadPlan { operator: ReadOperator },
}

/// A refusal as plain values.
#[allow(inconsistent_fields)]
pub enum Failure {
    Sema { message: Seq<char> },
    StorageLayoutMismatch { stored: u64, expected: u64 },
    TableAlreadyRegistered { table: Seq<char> },
    FamilyIdentityMismatch { table: Seq<char>, stored: Seq<char>, declared: Seq<char> },
    FamilyAlreadyBound { family: Seq<char>, existing: Seq<char>, table: Seq<char> },
    TableNotRegistered { table: Seq<char> },
    RecordNotFound { table: Seq<char>, key: Seq<char> },
    EmptyCommit { table: Seq<char> },
    EmptyAtomicCommit,
    DuplicateWriteKey { table: Seq<char>, key: Seq<char> },
    DuplicateAssertKey { table: Seq<char>, key: Seq<char> },
    VersionedPayloadEncode { table: Seq<char>, message: Seq<char> },
    VersionedPayloadDecode { table: Seq<char>, message: Seq<char> },
    DomainKeyArchive { message: Seq<char> },
    ReplayMissingKey { family: Seq<char> },
    ReplayUnsupportedOperation { operation: Seq<char> },
    ReplayTombstonePayload { table: Seq<char> },
    VersioningNotEnabled { surface: Seq<char> },
    VersionedLogIncomplete { commits: u64, versioned: u64 },
    VersionedChainBroken { sequence: u64 },
    CheckpointNothingToCover,
    CheckpointEncode { message: Seq<char> },
    CheckpointDecode { message: Seq<char> },
    CheckpointDigestMismatch { stored: Seq<u8>, computed: Seq<u8> },
    SegmentDigestMismatch { referenced: Seq<u8>, computed: Seq<u8> },
    SegmentMissing { digest: Seq<u8> },
    SegmentSurplus { referenced: usize, supplied: usize },
    CheckpointRowMissing { sequence: u64 },
    ViewDigestMismatch { expected: Seq<u8>, computed: Seq<u8> },
    CheckpointSchemaMismatch { checkpoint: Seq<u8>, current: Seq<u8> },
    ImportStoreNotFresh,
    ImportMissingCheckpoint,
    ImportCheckpointAlreadyIngested,
    ImportStoreNameMismatch { checkpoint: Seq<char>, policy: Seq<char> },
    FamilyUnknown { family: Seq<char> },
    MaterializeTableMismatch { family: Seq<char>, expected: Seq<char>, supplied: Seq<char> },
    MaterializeKeyKindMismatch { table: Seq<char>, key: Seq<char>, expected: Seq<char>, found: Seq<char> },
    UnknownCommitSequence { sequence: u64 },
    OutboxEntryMismatch { sequence: u64 },
    MirrorHeadUnknown { sequence: u64 },
    HistoryCompactionUnacknowledged { required: u64, acknowledged: Option<u64> },
    HistoryCompactionTopologyMismatch { topology: Seq<char>, acknowledgement: Seq<char> },
    VersioningPolicyRequired,
    VersioningPolicyMismatch,
    CompactionRecoveryRequired { phase: CompactionPhase },
    MirrorHeadForked { sequence: u64, recorded: Seq<u8>, acknowledged: Seq<u8> },
    StagingSessionEngaged,
    CompactionIntentOccupied,
    CompactionIntentMissingSequence,
    CompactionCheckpointBehind { checkpoint: u64, plan: u64 },
    CompactionInterrupted { phase: Seq<char> },
    StagingSessionNotEngaged { surface: Seq<char> },
    StagingSlotOccupied,
    StagingSlotEmpty { surface: Seq<char> },
    StagingBaseMoved { sequence: u64 },
    StagedGroupDigestMismatch { sequence: u64, staged: Seq<u8>, computed: Seq<u8> },
    StagedHeadMismatch { staged: Seq<u8>, produced: Seq<u8> },
    SubscriptionRegistryPoisoned,
    SubscriptionFailureLogPoisoned,
    SubscriptionSink { message: Seq<char> },
    UnsupportedReadPlan { operator: ReadOperator },
}

impl View for Error {
    type V = Failure;

    open spec fn view(&self) -> Failure {
        match *self {
            Error::Sema { message } => Failure::Sema { message: message@ },
            Error::StorageLayoutMismatch { stored, expected } => Failure::StorageLayoutMismatch { stored, expected },
            Error::TableAlreadyRegistered { table } => Failure::TableAlreadyRegistered { table: table@ },
            Error::FamilyIdentityMismatch { table, stored, declared } => Failure::FamilyIdentityMismatch { table: table@, stored: stored@, declared: declared@ },
            Error::FamilyAlreadyBound { family, existing, table } => Failure::FamilyAlreadyBound { family: family@, existing: existing@, table: table@ },
            Error::TableNotRegistered { table } => Failure::TableNotRegistered { table: table@ },
            Error::RecordNotFound { table, key } => Failure::RecordNotFound { table: table@, key: key@ },
            Error::EmptyCommit { table } => Failure::EmptyCommit { table: table@ },
            Error::EmptyAtomicCommit => Failure::EmptyAtomicCommit,
            Error::DuplicateWriteKey { table, key } => Failure::DuplicateWriteKey { table: table@, key: key@ },
            Error::DuplicateAssertKey { table, key } => Failure::DuplicateAssertKey { table: table@, key: key@ },
            Error::VersionedPayloadEncode { table, message } => Failure::VersionedPayloadEncode { table: table@, message: message@ },
            Error::VersionedPayloadDecode { table, message } => Failure::VersionedPayloadDecode { table: table@, message: message@ },
            Error::DomainKeyArchive { message } => Failure::DomainKeyArchive { message: message@ },
            Error::ReplayMissingKey { family } => Failure::ReplayMissingKey { family: family@ },
            Error::ReplayUnsupportedOperation { operation } => Failure::ReplayUnsupportedOperation { operation: operation@ },
            Error::ReplayTombstonePayload { table } => Failure::ReplayTombstonePayload { table: table@ },
            Error::VersioningNotEnabled { surface } => Failure::VersioningNotEnabled { surface: surface@ },
            Error::VersionedLogIncomplete { commits, versioned } => Failure::VersionedLogIncomplete { commits, versioned },
            Error::VersionedChainBroken { sequence } => Failure::VersionedChainBroken { sequence },
            Error::CheckpointNothingToCover => Failure::CheckpointNothingToCover,
            Error::CheckpointEncode { message } => Failure::CheckpointEncode { message: message@ },
            Error::CheckpointDecode { message } => Failure::CheckpointDecode { message: message@ },
            Error::CheckpointDigestMismatch { stored, computed } => Failure::CheckpointDigestMismatch { stored: stored@, computed: computed@ },
            Error::SegmentDigestMismatch { referenced, computed } => Failure::SegmentDigestMismatch { referenced: referenced@, computed: computed@ },
            Error::SegmentMissing { digest } => Failure::SegmentMissing { digest: digest@ },
            Error::SegmentSurplus { referenced, supplied } => Failure::SegmentSurplus { referenced, supplied },
            Error::CheckpointRowMissing { sequence } => Failure::CheckpointRowMissing { sequence },
            Error::ViewDigestMismatch { expected, computed } => Failure::ViewDigestMismatch { expected: expected@, computed: computed@ },
            Error::CheckpointSchemaMismatch { checkpoint, current } => Failure::CheckpointSchemaMismatch { checkpoint: checkpoint@, current: current@ },
            Error::ImportStoreNotFresh => Failure::ImportStoreNotFresh,
            Error::ImportMissingCheckpoint => Failure::ImportMissingCheckpoint,
            Error::ImportCheckpointAlreadyIngested => Failure::ImportCheckpointAlreadyIngested,
            Error::ImportStoreNameMismatch { checkpoint, policy } => Failure::ImportStoreNameMismatch { checkpoint: checkpoint@, policy: policy@ },
            Error::FamilyUnknown { family } => Failure::FamilyUnknown { family: family@ },
            Error::MaterializeTableMismatch { family, expected, supplied } => Failure::MaterializeTableMismatch { family: family@, expected: expected@, supplied: supplied@ },
            Error::MaterializeKeyKindMismatch { table, key, expected, found } => Failure::MaterializeKeyKindMismatch { table: table@, key: key@, expected: expected@, found: found@ },
            Error::UnknownCommitSequence { sequence } => Failure::UnknownCommitSequence { sequence },
            Error::OutboxEntryMismatch { sequence } => Failure::OutboxEntryMismatch { sequence },
            Error::MirrorHeadUnknown { sequence } => Failure::MirrorHeadUnknown { sequence },
            Error::HistoryCompactionUnacknowledged { required, acknowledged } => Failure::HistoryCompactionUnacknowledged { required, acknowledged },
            Error::HistoryCompactionTopologyMismatch { topology, acknowledgement } => Failure::HistoryCompactionTopologyMismatch { topology: topology@, acknowledgement: acknowledgement@ },
            Error::VersioningPolicyRequired => Failure::VersioningPolicyRequired,
            Error::VersioningPolicyMismatch => Failure::VersioningPolicyMismatch,
            Error::CompactionRecoveryRequired { phase } => Failure::CompactionRecoveryRequired { phase },
            Error::MirrorHeadForked { sequence, recorded, acknowledged } => Failure::MirrorHeadForked { sequence, recorded: recorded@, acknowledged: acknowledged@ },
            Error::StagingSessionEngaged => Failure::StagingSessionEngaged,
            Error::CompactionIntentOccupied => Failure::CompactionIntentOccupied,
            Error::CompactionIntentMissingSequence => Failure::CompactionIntentMissingSequence,
            Error::CompactionCheckpointBehind { checkpoint, plan } => Failure::CompactionCheckpointBehind { checkpoint, plan },
            Error::CompactionInterrupted { phase } => Failure::CompactionInterrupted { phase: phase@ },
            Error::StagingSessionNotEngaged { surface } => Failure::StagingSessionNotEngaged { surface: surface@ },
            Error::StagingSlotOccupied => Failure::StagingSlotOccupied,
            Error::StagingSlotEmpty { surface } => Failure::StagingSlotEmpty { surface: surface@ },
            Error::StagingBaseMoved { sequence } => Failure::StagingBaseMoved { sequence },
            Error::StagedGroupDigestMismatch { sequence, staged, computed } => Failure::StagedGroupDigestMismatch { sequence, staged: staged@, computed: computed@ },
            Error::StagedHeadMismatch { staged, produced } => Failure::StagedHeadMismatch { staged: staged@, produced: produced@ },
            Error::SubscriptionRegistryPoisoned => Failure::SubscriptionRegistryPoisoned,
            Error::SubscriptionFailureLogPoisoned => Failure::SubscriptionFailureLogPoisoned,
            Error::SubscriptionSink { message } => Failure::SubscriptionSink { message: message@ },
            Error::UnsupportedReadPlan { operator } => Failure::UnsupportedReadPlan { operator },
        }
    }
}

impl Error {
    pub fn versioning_not_enabled(surface: &str) -> (error: Self)
        ensures
            error@ == (Failure::VersioningNotEnabled { surface: surface@ }),
    {
        Error::VersioningNotEnabled { surface: surface.to_owned() }
    }

    pub fn unknown_commit_sequence(sequence: CommitSequence) -> (error: Self)
        ensures
            error@ == (Failure::UnknownCommitSequence { sequence: sequence@ }),
    {
        Error::UnknownCommitSequence { sequence: sequence.value() }
    }
}

} // verus!
