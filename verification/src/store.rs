//! The tables and slots of one store.

use vstd::prelude::*;

use crate::catalog::TableRegistration;
use crate::checkpoint::{CheckpointMetadata, CheckpointSegment, MetadataModel, SegmentDigest};
use crate::fold::RowModel;
use crate::log::{CommitLogEntry, LogEntryModel};
use crate::models::option_view;
use crate::ordered_table::OrderedTable;
use crate::outbox::{HeadModel, MirrorHead, OutboxEntry};
use crate::sequence::CommitSequence;
use crate::snapshot::SnapshotIdentifier;
use crate::staging::{GroupModel, StagedOperationGroup};
use crate::subscribe::{RegistrationModel, SubscriptionRegistration};
use crate::tables::{no_tables, RecordTables, TablesModel};
use crate::versioning::{EntryDigest, EntryModel, FamilyModel, VersionedCommitLogEntry};

verus! {

/// Everything that one store keeps. Whoever persists a store writes these
/// rows and reads them back; the engine alone gives them meaning.
#[derive(Debug, PartialEq, Eq)]
pub struct Store {
    pub catalog: OrderedTable<String, TableRegistration>,
    pub latest_commit_sequence: Option<u64>,
    pub latest_snapshot: Option<u64>,
    pub next_subscription: Option<u64>,
    pub latest_checkpoint: Option<u64>,
    pub storage_layout: Option<u64>,
    pub commit_log_count: Option<u64>,
    pub versioned_log_count: Option<u64>,
    pub chain_head: Option<EntryDigest>,
    pub commit_log: OrderedTable<u64, CommitLogEntry>,
    pub versioned_commit_log: OrderedTable<u64, VersionedCommitLogEntry>,
    pub subscriptions: OrderedTable<u64, SubscriptionRegistration>,
    pub checkpoints: OrderedTable<u64, CheckpointMetadata>,
    pub checkpoint_segments: OrderedTable<SegmentDigest, CheckpointSegment>,
    pub outbox: OrderedTable<u64, OutboxEntry>,
    pub mirror_cursor: Option<MirrorHead>,
    pub staging_slot: Option<StagedOperationGroup>,
    pub tables: RecordTables,
}

/// A store as plain values.
#[verifier::ext_equal]
pub struct StoreModel {
    pub catalog: Map<Seq<char>, FamilyModel>,
    pub commit_sequence: Option<u64>,
    pub snapshot: Option<u64>,
    pub next_subscription: Option<u64>,
    pub latest_checkpoint: Option<u64>,
    pub layout: Option<u64>,
    pub commit_count: Option<u64>,
    pub versioned_count: Option<u64>,
    pub chain_head: Option<Seq<u8>>,
    pub commit_log: Map<u64, LogEntryModel>,
    pub versioned_log: Map<u64, EntryModel>,
    pub subscriptions: Map<u64, RegistrationModel>,
    pub checkpoints: Map<u64, MetadataModel>,
    pub segments: Map<Seq<u8>, Seq<RowModel>>,
    pub outbox: Map<u64, HeadModel>,
    pub mirror: Option<HeadModel>,
    pub staged: Option<GroupModel>,
    pub tables: TablesModel,
}

/// A store that nothing was ever written to.
pub open spec fn virgin_store() -> StoreModel {
    StoreModel {
        catalog: Map::empty(),
        commit_sequence: None,
        snapshot: None,
        next_subscription: None,
        latest_checkpoint: None,
        layout: None,
        commit_count: None,
        versioned_count: None,
        chain_head: None,
        commit_log: Map::empty(),
        versioned_log: Map::empty(),
        subscriptions: Map::empty(),
        checkpoints: Map::empty(),
        segments: Map::empty(),
        outbox: Map::empty(),
        mirror: None,
        staged: None,
        tables: no_tables(),
    }
}

/// A counter slot's value: zero until it is written.
pub open spec fn counted_so_far(slot: Option<u64>) -> u64 {
    match slot {
        Some(value) => value,
        None => 0,
    }
}

/// Read a counter slot: zero until it is written.
pub fn read_counter(slot: Option<u64>) -> (value: u64)
    ensures
        value == counted_so_far(slot),
{
    match slot {
        Some(value) => value,
        None => 0,
    }
}

impl View for Store {
    type V = StoreModel;

    open spec fn view(&self) -> StoreModel {
        StoreModel {
            catalog: self.catalog@,
            commit_sequence: self.latest_commit_sequence,
            snapshot: self.latest_snapshot,
            next_subscription: self.next_subscription,
            latest_checkpoint: self.latest_checkpoint,
            layout: self.storage_layout,
            commit_count: self.commit_log_count,
            versioned_count: self.versioned_log_count,
            chain_head: option_view(self.chain_head),
            commit_log: self.commit_log@,
            versioned_log: self.versioned_commit_log@,
            subscriptions: self.subscriptions@,
            checkpoints: self.checkpoints@,
            segments: self.checkpoint_segments@,
            outbox: self.outbox@,
            mirror: option_view(self.mirror_cursor),
            staged: option_view(self.staging_slot),
            tables: self.tables@,
        }
    }
}

impl Store {
    pub fn new() -> (store: Self)
        ensures
            store@ == virgin_store(),
    {
        Store {
            catalog: OrderedTable::new(),
            latest_commit_sequence: None,
            latest_snapshot: None,
            next_subscription: None,
            latest_checkpoint: None,
            storage_layout: None,
            commit_log_count: None,
            versioned_log_count: None,
            chain_head: None,
            commit_log: OrderedTable::new(),
            versioned_commit_log: OrderedTable::new(),
            subscriptions: OrderedTable::new(),
            checkpoints: OrderedTable::new(),
            checkpoint_segments: OrderedTable::new(),
            outbox: OrderedTable::new(),
            mirror_cursor: None,
            staging_slot: None,
            tables: RecordTables::new(),
        }
    }

    pub fn commit_sequence(&self) -> (sequence: CommitSequence)
        ensures
            sequence@ == counted_so_far(self@.commit_sequence),
    {
        CommitSequence::new(read_counter(self.latest_commit_sequence))
    }

    pub fn snapshot(&self) -> (snapshot: SnapshotIdentifier)
        ensures
            snapshot@ == counted_so_far(self@.snapshot),
    {
        SnapshotIdentifier::new(read_counter(self.latest_snapshot))
    }
}

} // verus!
