//! The engine: the verbs over one store. Every durable write goes through
//! one landing place, so the logs stay complete.

use std::marker::PhantomData;

use vstd::prelude::*;
use vstd::string::*;

use crate::atomic::{group_models, AtomicCommit, AtomicCommitReceipt, AtomicReceiptModel};
use crate::catalog::{family_at, lemma_registered, registered, Catalog, TableRegistration};
use crate::checkpoint::{
    lemma_chunked, Checkpoint, CheckpointDigest, CheckpointMetadata, CheckpointModel,
    CheckpointReceipt, CheckpointSegment, CheckpointSequence, CommitSequenceRange,
    FamilyInventory, IdentifiedCounter, ReferenceModel, SegmentDigest, SegmentReference,
};
use crate::commit_log::{entries_within, CommitLog, LogCounts};
use crate::engine_model::{
    compacted, history_compaction, replay_record, replay_write, root_metadata, rooted,
    announced, atomic_outcome, checked, checkpoint_receipt, checkpointed, commit_operations,
    checkpoint_restored, commit_outcome, counters_advanced, counters_stored, covering_metadata,
    entries_logged, families_stored, fresh, gathered, has_checkpoint_room, has_log_room, history,
    import_plan, import_refusal, imported, inventoried, loaded, log_gap, all_operations,
    evolution_operations, evolved, evolves_from, operations_landed, rows_to_carry, with_rebound,
    announcements, answered, entry_announcements, group_flaw, group_landed, group_rows, landable,
    landed_receipt, operation_rows, parked_group, rebuild_plan, staging_begun, staging_landed,
    staging_parked, read_at, reads_record, references_of, replay_outcome, replayed, replayed_once, segments_stored,
    twice_bound, with_checkpoint, with_rows, has_room, identified_absence, identified_assertion,
    identified_listed, identified_matched, identified_mutation, identified_retraction,
    identified_within, landed, listed, logged, matched, named_already, next_commit, next_handle,
    next_versioned, opened, subscribed, planned, planned_across, records_within, registration_state,
    standing_marker, standing_sequence, standing_snapshot, standing_tables, stored_catalog,
    versioned_operations, with_counter, with_family, write_key, write_outcome, EngineModel,
    HistoryModel, IdentifiedFact, ImportPlanModel, RebuildPlanModel, ReplayModel,
    LAYOUT_BEFORE_SLOT, STORAGE_LAYOUT,
};
use crate::error::{Error, Failure};
use crate::fold::{
    head_after, landed_rows, same_head, CanonicalView, FamilyDirectory, RebuildReceipt, RowLanding,
    RowMaterializer, RowModel, ViewDigest, ViewRow,
};
use crate::import::{ImportReceipt, ImportSession};
use crate::listing::{
    from_number, lemma_lettered, lemma_number_rising, lemma_numbered, lettered, log_values,
    number_listed, numbered, row_values, text_listed, values, values_after,
};
use crate::log::{operations_metadata, CommitLogEntry, CommitLogOperation};
use crate::models::{lemma_views_push, option_view, views, Duplicate};
use crate::mutation::{
    write_model, write_models, Assertion, CommitReceipt, CommitReceiptModel, CommitRequest,
    IdentifiedAssertion, IdentifiedMutation, IdentifiedMutationReceipt, IdentifiedReceiptModel,
    IdentifiedRetraction, KeyedAssertion, KeyedMutation, Mutation, MutationReceipt,
    MutationReceiptModel, Retraction, WriteModel, WriteOperation,
};
use crate::operation::{NonEmpty, SemaOperation};
use crate::order::{same_text, Relation};
use crate::ordered_table::{keyed_at, lemma_map_take, map_of, rising, OrderedTable};
use crate::outbox::{
    acknowledgement, acknowledgement_model, commit_durability, mirrored_durability, shipped_through,
    unshipped_rows, Durability, MirrorAcknowledgement, MirrorHead, Outbox, OutboxEntry,
};
use crate::query::{
    IdentifiedPlanModel, IdentifiedQueryPlan, IdentifiedQuerySnapshot, IdentifiedReadPlanNode,
    KeyRange, PlanModel, QueryFilter, QueryPlan, QuerySnapshot, ReadPlanNode, RecordIdentifierRange,
    ValidationModel, ValidationReceipt,
};
use crate::record::{
    key_text, message_view, read_as, read_stored, relate_keys, EncodedRecord, EngineRecord,
    EngineStoredValue, RecordIdentifier, RecordKey, RecordModel,
};
use crate::sequence::CommitSequence;
use crate::snapshot::{DatabaseMarker, SnapshotIdentifier};
use crate::staging::{
    AnnouncementModel, DeltaAnnouncer, DiscardReceiptModel, DiscardStagedReceipt,
    GroupSummaryModel, MaterializeStagedReceipt, StageReceipt, StageReceiptModel,
    StagedGroupSummary, StagedOperationGroup, StagingBase, StagingSession,
};
use crate::store::{counted_so_far, Store, StoreModel};
use crate::subscribe::{
    delta_facts, ActiveSubscription, DeltaKind, InitialModel, InitialSnapshot, SequenceRange,
    SinkError, SubscriptionDelta, SubscriptionEvent, SubscriptionHandle, SubscriptionId,
    SubscriptionReceipt, SubscriptionRegistration, SubscriptionRegistry, SubscriptionSink,
};
use crate::table::{
    table_of_counter, DescriptorModel, IdentifiedRecord, IdentifiedTableDescriptor,
    IdentifiedTableReference, PriorGenerations, TableDescriptor, TableName, TableReference,
};
use crate::tables::{
    applied_all, countable, domain_removal, domain_rows, identified_removal, identified_rows,
    next_identifier, RecordTables, Write, WriteFact,
};
use crate::text::decimal;
use crate::versioning::{
    store_schema, versions, EntryDigest, EntryModel, FamilyIdentity, FamilyModel, OperationModel,
    ReplayReceipt, SchemaHash, StoreSchemaHash, VersionedCommitLogEntry,
    VersionedHistoryAcknowledgement, VersionedHistoryCompaction, VersionedHistoryRetention,
    VersionedLogOperation, VersionedPayload, VersionedRecoveryTopology, VersionedReplay,
    VersionedStoreName, VersioningPolicy,
};

verus! {

/// A request to open an engine over a store.
#[derive(Debug)]
pub struct EngineOpen {
    store: Store,
    versioning_policy: Option<VersioningPolicy>,
}

/// The topology of a policy. Without one a store recovers from its own
/// checkpoints.
pub open spec fn policy_topology(policy: Option<VersioningPolicy>) -> VersionedRecoveryTopology {
    match policy {
        Some(found) => found.topology(),
        None => VersionedRecoveryTopology::LocalCheckpoint,
    }
}

impl View for EngineOpen {
    type V = (StoreModel, Option<Seq<char>>, VersionedRecoveryTopology);

    closed spec fn view(&self) -> (StoreModel, Option<Seq<char>>, VersionedRecoveryTopology) {
        (
            self.store@,
            option_view(self.versioning_policy),
            policy_topology(self.versioning_policy),
        )
    }
}

impl EngineOpen {
    pub fn new(store: Store) -> (request: Self)
        ensures
            request@ == (
                store@,
                None::<Seq<char>>,
                VersionedRecoveryTopology::LocalCheckpoint,
            ),
    {
        EngineOpen { store, versioning_policy: None }
    }

    pub fn with_versioning(self, policy: VersioningPolicy) -> (request: Self)
        ensures
            request@ == (self@.0, Some(policy@), policy.topology()),
    {
        EngineOpen { store: self.store, versioning_policy: Some(policy) }
    }

    pub fn versioning_policy(&self) -> (policy: Option<&VersioningPolicy>)
        ensures
            match policy {
                Some(found) => self@.1 == Some(found@) && self@.2 == found.topology(),
                None => self@.1 is None,
            },
    {
        match &self.versioning_policy {
            Some(policy) => Some(policy),
            None => None,
        }
    }
}

/// The engine over one store.
#[derive(Debug)]
pub struct Engine {
    store: Store,
    catalog: Catalog,
    subscriptions: SubscriptionRegistry,
    versioning_policy: Option<VersioningPolicy>,
    deltas: Vec<SubscriptionDelta<EncodedRecord>>,
    session: Option<StagingSession>,
}

impl View for Engine {
    type V = EngineModel;

    closed spec fn view(&self) -> EngineModel {
        EngineModel {
            store: self.store@,
            catalog: self.catalog@,
            subscriptions: self.subscriptions@,
            policy: option_view(self.versioning_policy),
            topology: policy_topology(self.versioning_policy),
            deltas: delta_facts(self.deltas@),
            session: option_view(self.session),
        }
    }
}

/// Read access to an engine's store.
pub struct StorageReader<'engine> {
    store: &'engine Store,
}

impl<'engine> View for StorageReader<'engine> {
    type V = StoreModel;

    closed spec fn view(&self) -> StoreModel {
        self.store@
    }
}

impl<'engine> StorageReader<'engine> {
    /// The store as it now stands.
    pub fn read(&self) -> (store: &'engine Store)
        ensures
            store@ == self@,
    {
        self.store
    }
}

/// The outcome of a call that changes the engine or refuses to.
pub open spec fn settles<T>(
    before: EngineModel,
    after: EngineModel,
    outcome: Result<T, Error>,
    expected: Result<EngineModel, Failure>,
) -> bool {
    match (outcome, expected) {
        (Ok(_), Ok(state)) => after == state,
        (Err(error), Err(failure)) => error@ == failure && after == before,
        _ => false,
    }
}

/// The outcome of a single write to a domain-keyed table: the engine
/// settles as the write is due, and the receipt names where it now stands.
pub open spec fn writes_once(
    before: EngineModel,
    after: EngineModel,
    outcome: Result<MutationReceipt, Error>,
    table: Seq<char>,
    operation: SemaOperation,
    write: WriteModel,
) -> bool {
    &&& settles(before, after, outcome, write_outcome(before, table, write))
    &&& outcome matches Ok(receipt) ==> receipt@ == (MutationReceiptModel {
        operation,
        table,
        key: write_key(write),
        commit_sequence: standing_sequence(after),
        snapshot: standing_snapshot(after),
    })
}

/// The receipt of a write to an engine-identified table.
pub open spec fn identified_receipt(
    after: EngineModel,
    table: Seq<char>,
    operation: SemaOperation,
    identifier: u64,
) -> IdentifiedReceiptModel {
    IdentifiedReceiptModel {
        operation,
        table,
        identifier,
        commit_sequence: standing_sequence(after),
        snapshot: standing_snapshot(after),
    }
}

/// Where an engine stands after a commit.
pub proof fn lemma_landed_stands(engine: EngineModel, writes: Seq<WriteFact>)
    requires
        has_room(engine, 1),
    ensures
        standing_sequence(landed(engine, writes)) == standing_sequence(engine) + 1,
        standing_snapshot(landed(engine, writes)) == standing_snapshot(engine) + 1,
        standing_tables(landed(engine, writes)) == applied_all(standing_tables(engine), writes),
{
}

impl Engine {
    /// Open an engine over a store. A refused store was not changed.
    pub fn open(request: EngineOpen) -> (outcome: Result<Self, Error>)
        ensures
            match (outcome, opened(request@.0)) {
                (Ok(engine), Ok(store)) => engine@ == (EngineModel {
                    store,
                    catalog: stored_catalog(store.catalog),
                    subscriptions: Seq::empty(),
                    policy: request@.1,
                    topology: request@.2,
                    deltas: Seq::empty(),
                    session: None,
                }),
                (Err(error), Err(failure)) => error@ == failure,
                _ => false,
            },
            request@.0.catalog == Map::<Seq<char>, FamilyModel>::empty() ==> (outcome matches Ok(
                engine,
            ) ==> engine@.catalog == Seq::<FamilyModel>::empty()),
            outcome matches Ok(engine) ==> text_listed(engine@.store.catalog),
    {
        let mut store: Store = request.store;
        match Engine::ensure_storage_layout(&mut store) {
            Ok(()) => {},
            Err(error) => {
                return Err(error);
            },
        }
        let mut registrations: Vec<TableRegistration> = Vec::new();
        let count: usize = store.catalog.len();
        let ghost listing = store.catalog.listing();
        let ghost families = row_values(listing);
        proof {
            lemma_lettered(listing);
        }
        let mut at: usize = 0;
        assert(views(registrations@) =~= families.take(0));
        while at < count
            invariant
                at <= count,
                count == listing.len(),
                listing == store.catalog.listing(),
                families == row_values(listing),
                views(registrations@) == families.take(at as int),
            decreases count - at,
        {
            let registration: TableRegistration = store.catalog.value_at(at).clone();
            proof {
                lemma_views_push(registrations@, registration);
                assert(families.take(at + 1) =~= families.take(at as int).push(registration@));
            }
            registrations.push(registration);
            at = at + 1;
        }
        assert(families.take(at as int) =~= families);
        proof {
            if listing.len() > 0 {
                assert(keyed_at(listing, listing[0].0, 0));
                assert(store.catalog@.dom().contains(listing[0].0));
            }
        }
        let engine = Engine {
            store,
            catalog: Catalog::new(registrations),
            subscriptions: SubscriptionRegistry::new(),
            versioning_policy: request.versioning_policy,
            deltas: Vec::new(),
            session: None,
        };
        assert(engine@.deltas =~= Seq::empty());
        Ok(engine)
    }

    /// Hold a store's layout against the engine's: stamp a virgin store,
    /// bring an older one forward from its versioned log, or refuse.
    fn ensure_storage_layout(store: &mut Store) -> (outcome: Result<(), Error>)
        ensures
            match (outcome, opened(old(store)@)) {
                (Ok(()), Ok(expected)) => final(store)@ == expected,
                (Err(error), Err(failure)) => error@ == failure && final(store)@ == old(store)@,
                _ => false,
            },
    {
        match store.storage_layout {
            Some(layout) => {
                if layout == STORAGE_LAYOUT {
                    Ok(())
                } else if layout < STORAGE_LAYOUT && CommitLog::versioned_log_present(&*store) {
                    CommitLog::rebuild_derived_slots(store, STORAGE_LAYOUT)
                } else {
                    Err(
                        Error::StorageLayoutMismatch { stored: layout, expected: STORAGE_LAYOUT },
                    )
                }
            },
            None => {
                if store.latest_commit_sequence.is_some() || store.latest_snapshot.is_some()
                    || store.next_subscription.is_some() {
                    Err(
                        Error::StorageLayoutMismatch {
                            stored: LAYOUT_BEFORE_SLOT,
                            expected: STORAGE_LAYOUT,
                        },
                    )
                } else {
                    store.storage_layout = Some(STORAGE_LAYOUT);
                    Ok(())
                }
            },
        }
    }

    /// Give up the engine and keep its store.
    pub fn into_store(self) -> (store: Store)
        ensures
            store@ == self@.store,
    {
        self.store
    }

    /// Read access to the store. There is no write counterpart: every
    /// durable write goes through the engine's logged path.
    pub fn storage_reader(&self) -> (reader: StorageReader<'_>)
        ensures
            reader@ == self@.store,
    {
        StorageReader { store: &self.store }
    }

    /// Bind a declared family to its table. A binding that already exists
    /// with the same identity is kept.
    fn bind_declared<RecordValue, Priors>(
        &mut self,
        descriptor: TableDescriptor<RecordValue, Priors>,
    ) -> (outcome: Result<TableReference<RecordValue>, Error>)
        ensures
            registers(old(self)@, final(self)@, descriptor@, registration_model(outcome)),
    {
        let identity: FamilyIdentity = descriptor.family_identity();
        match self.family_registration_state(&identity) {
            Err(error) => Err(error),
            Ok(fresh) => {
                if fresh {
                    self.bind_family(identity);
                }
                Ok(TableReference::new(*descriptor.name()))
            },
        }
    }

    /// Register an engine-identified family, its identifiers counting
    /// from one.
    pub fn register_identified_table<RecordValue>(
        &mut self,
        descriptor: IdentifiedTableDescriptor<RecordValue>,
    ) -> (outcome: Result<IdentifiedTableReference<RecordValue>, Error>)
        ensures
            match (outcome, registration_state(old(self)@.catalog, descriptor@)) {
                (Ok(reference), Ok(fresh)) => {
                    &&& reference@ == descriptor@.table
                    &&& final(self)@ == if fresh {
                        with_counter(with_family(old(self)@, descriptor@), descriptor@.table)
                    } else {
                        old(self)@
                    }
                },
                (Err(error), Err(failure)) => error@ == failure && final(self)@ == old(self)@,
                _ => false,
            },
    {
        let identity: FamilyIdentity = descriptor.family_identity();
        let name: TableName = *descriptor.name();
        match self.family_registration_state(&identity) {
            Err(error) => Err(error),
            Ok(fresh) => {
                if fresh {
                    self.bind_family(identity);
                    self.store.tables.counters.insert(
                        name.identified_counter_key(),
                        RecordIdentifier::first().value(),
                    );
                }
                Ok(IdentifiedTableReference::new(name))
            },
        }
    }

    fn bind_family(&mut self, identity: FamilyIdentity)
        requires
            registration_state(old(self)@.catalog, identity@) == Ok::<bool, Failure>(true),
        ensures
            final(self)@ == with_family(old(self)@, identity@),
    {
        let registration: TableRegistration = TableRegistration::new(identity);
        proof {
            lemma_registered(self@.catalog, registration@.table);
        }
        self.store.catalog.insert(registration.table_name().to_owned(), registration.clone());
        let _inserted = self.catalog.insert(registration);
    }

    /// Whether a declared family is new to the catalog.
    fn family_registration_state(&self, identity: &FamilyIdentity) -> (outcome: Result<
        bool,
        Error,
    >)
        ensures
            match outcome {
                Ok(fresh) => registration_state(self@.catalog, identity@) == Ok::<bool, Failure>(
                    fresh,
                ),
                Err(error) => registration_state(self@.catalog, identity@) == Err::<bool, Failure>(
                    error@,
                ),
            },
    {
        match self.catalog.registration_for_table(identity.table_name()) {
            Some(stored) => {
                if *stored.identity() != *identity {
                    return Err(
                        Error::FamilyIdentityMismatch {
                            table: identity.table_name().to_owned(),
                            stored: stored.identity().to_text(),
                            declared: identity.to_text(),
                        },
                    );
                }
                return Ok(false);
            },
            None => {},
        }
        match self.catalog.registration_for_family(identity) {
            Some(bound) => Err(
                Error::FamilyAlreadyBound {
                    family: identity.family().as_str().to_owned(),
                    existing: bound.table_name().to_owned(),
                    table: identity.table_name().to_owned(),
                },
            ),
            None => Ok(true),
        }
    }

    fn ensure_registered(&self, table: &TableName) -> (outcome: Result<(), Error>)
        ensures
            match outcome {
                Ok(()) => registered(self@.catalog, table@),
                Err(error) => {
                    &&& !registered(self@.catalog, table@)
                    &&& error@ == (Failure::TableNotRegistered { table: table@ })
                },
            },
    {
        if self.catalog.is_registered(table) {
            Ok(())
        } else {
            Err(Error::TableNotRegistered { table: table.as_str().to_owned() })
        }
    }

    /// The record tables that reads and checks see.
    fn tables(&self) -> (tables: &RecordTables)
        ensures
            tables@ == standing_tables(self@),
    {
        match &self.session {
            Some(session) => session.tables(),
            None => &self.store.tables,
        }
    }

    /// The deltas that wait to be delivered, handed over in commit order.
    pub fn take_deltas(&mut self) -> (deltas: Vec<SubscriptionDelta<EncodedRecord>>)
        ensures
            delta_facts(deltas@) == old(self)@.deltas,
            final(self)@ == (EngineModel { deltas: Seq::empty(), ..old(self)@ }),
    {
        let mut taken: Vec<SubscriptionDelta<EncodedRecord>> = Vec::new();
        std::mem::swap(&mut taken, &mut self.deltas);
        assert(self@.deltas =~= Seq::empty());
        taken
    }

    /// The versioned operations of a commit's writes.
    fn operations_of(&self, writes: &Vec<Write>) -> (operations: Vec<VersionedLogOperation>)
        requires
            forall|i: int|
                0 <= i < writes@.len() ==> registered(
                    self@.catalog,
                    (#[trigger] writes@[i])@.table,
                ),
        ensures
            views(operations@) == versioned_operations(self@.catalog, views(writes@)),
    {
        let mut operations: Vec<VersionedLogOperation> = Vec::new();
        let ghost facts = views(writes@);
        let ghost expected = versioned_operations(self@.catalog, facts);
        let mut at: usize = 0;
        assert(views(operations@) =~= expected.take(0));
        while at < writes.len()
            invariant
                at <= writes.len(),
                facts == views(writes@),
                expected == versioned_operations(self@.catalog, facts),
                views(operations@) == expected.take(at as int),
                forall|i: int|
                    0 <= i < writes@.len() ==> registered(
                        self@.catalog,
                        (#[trigger] writes@[i])@.table,
                    ),
            decreases writes.len() - at,
        {
            let write = &writes[at];
            proof {
                lemma_registered(self@.catalog, write@.table);
            }
            match self.catalog.family_identity(write.table()) {
                Some(family) => {
                    let operation: VersionedLogOperation = VersionedLogOperation::new(
                        write.operation(),
                        family.clone(),
                        Some(write.key().clone()),
                        write.payload().clone(),
                    );
                    proof {
                        lemma_views_push(operations@, operation);
                        assert(facts[at as int] == write@);
                        assert(expected[at as int] == operation@);
                        assert(expected.take(at + 1) =~= expected.take(at as int).push(
                            operation@,
                        ));
                    }
                    operations.push(operation);
                },
                None => {
                    assert(registered(self@.catalog, writes@[at as int]@.table));
                },
            }
            at = at + 1;
        }
        assert(expected.take(at as int) =~= expected);
        operations
    }

    /// The metadata operations of a commit's writes.
    fn metadata_of(writes: &Vec<Write>) -> (operations: Vec<CommitLogOperation>)
        ensures
            views(operations@) == commit_operations(views(writes@)),
    {
        let mut operations: Vec<CommitLogOperation> = Vec::new();
        let ghost facts = views(writes@);
        let ghost expected = commit_operations(facts);
        let mut at: usize = 0;
        assert(views(operations@) =~= expected.take(0));
        while at < writes.len()
            invariant
                at <= writes.len(),
                facts == views(writes@),
                expected == commit_operations(facts),
                views(operations@) == expected.take(at as int),
            decreases writes.len() - at,
        {
            let write = &writes[at];
            let operation: CommitLogOperation = CommitLogOperation::new(
                write.operation(),
                *write.table(),
                Some(write.key().clone()),
            );
            proof {
                lemma_views_push(operations@, operation);
                assert(facts[at as int] == write@);
                assert(expected[at as int] == operation@);
                assert(expected.take(at + 1) =~= expected.take(at as int).push(operation@));
            }
            operations.push(operation);
            at = at + 1;
        }
        assert(expected.take(at as int) =~= expected);
        operations
    }

    /// Log a commit: its metadata row, its versioned row with the outbox
    /// row beside it, and the counters.
    fn log_commit(
        store: &mut Store,
        commit: CommitLogEntry,
        versioned: Option<VersionedCommitLogEntry>,
    )
        requires
            counted_so_far(old(store)@.commit_count) < u64::MAX,
            counted_so_far(old(store)@.versioned_count) < u64::MAX,
        ensures
            final(store)@ == logged(old(store)@, commit@, option_view(versioned)),
    {
        let counts: LogCounts = CommitLog::new(&*store).counts();
        let sequence: u64 = commit.commit_sequence().value();
        let snapshot: u64 = commit.snapshot().value();
        CommitLog::append_commit(store, commit, counts.next_commit());
        match versioned {
            Some(entry) => {
                let copy: VersionedCommitLogEntry = entry.clone();
                CommitLog::append_versioned(store, entry, counts.next_versioned());
                Outbox::record(store, &copy);
            },
            None => {},
        }
        store.latest_commit_sequence = Some(sequence);
        store.latest_snapshot = Some(snapshot);
    }

    /// Queue the deltas of a commit's writes.
    fn announce(&mut self, writes: &Vec<Write>, snapshot: SnapshotIdentifier)
        ensures
            final(self)@ == (EngineModel {
                deltas: old(self)@.deltas + announced(
                    old(self)@.subscriptions,
                    views(writes@),
                    snapshot@,
                ),
                ..old(self)@
            }),
    {
        let ghost before = self@;
        let ghost facts = views(writes@);
        let mut at: usize = 0;
        assert(facts.take(0) =~= Seq::empty());
        assert(self@.deltas =~= before.deltas + announced(
            before.subscriptions,
            facts.take(0),
            snapshot@,
        ));
        while at < writes.len()
            invariant
                at <= writes.len(),
                facts == views(writes@),
                self@ == (EngineModel {
                    deltas: before.deltas + announced(
                        before.subscriptions,
                        facts.take(at as int),
                        snapshot@,
                    ),
                    ..before
                }),
            decreases writes.len() - at,
        {
            let write = &writes[at];
            assert(facts.take(at + 1).drop_last() =~= facts.take(at as int));
            assert(facts.take(at + 1).last() == write@);
            if write.is_domain() {
                let record: EncodedRecord = EncodedRecord::new(
                    write.key().clone(),
                    write.record().duplicate(),
                );
                let kind: DeltaKind = match write.operation() {
                    SemaOperation::Mutate => DeltaKind::Mutate,
                    SemaOperation::Retract => DeltaKind::Retract,
                    _ => DeltaKind::Assert,
                };
                self.subscriptions.deliver_delta(
                    &mut self.deltas,
                    kind,
                    *write.table(),
                    write.key(),
                    snapshot,
                    &record,
                );
            }
            at = at + 1;
            assert(self@.deltas =~= before.deltas + announced(
                before.subscriptions,
                facts.take(at as int),
                snapshot@,
            ));
        }
        assert(facts.take(at as int) =~= facts);
    }

    /// The one landing place of every write: commit checked writes, or
    /// buffer them while a session is engaged.
    fn land(&mut self, writes: Vec<Write>) -> (stood: (CommitSequence, SnapshotIdentifier))
        requires
            writes@.len() >= 1,
            has_room(old(self)@, 1),
            forall|i: int|
                0 <= i < writes@.len() ==> registered(
                    old(self)@.catalog,
                    (#[trigger] writes@[i])@.table,
                ),
            forall|i: int| 0 <= i < writes@.len() ==> countable((#[trigger] writes@[i])@),
        ensures
            final(self)@ == landed(old(self)@, views(writes@)),
            stood.0@ == standing_sequence(old(self)@) + 1,
            stood.1@ == standing_snapshot(old(self)@) + 1,
    {
        let ghost before = self@;
        let operations: Vec<VersionedLogOperation> = self.operations_of(&writes);
        assert(operations@.len() == views(operations@).len());
        let mut session: Option<StagingSession> = None;
        std::mem::swap(&mut session, &mut self.session);
        match session {
            Some(engaged) => {
                let mut buffering: StagingSession = engaged;
                match NonEmpty::try_from_vec(operations) {
                    Some(group) => {
                        let stood = buffering.buffer(group, &writes);
                        self.session = Some(buffering);
                        assert(self@ =~= landed(before, views(writes@)));
                        stood
                    },
                    None => {
                        assert(false);
                        (CommitSequence::genesis(), SnapshotIdentifier::genesis())
                    },
                }
            },
            None => {
                let commit_sequence: CommitSequence = self.store.commit_sequence().next();
                let snapshot: SnapshotIdentifier = self.store.snapshot().next();
                let metadata: Vec<CommitLogOperation> = Engine::metadata_of(&writes);
                assert(metadata@.len() == views(metadata@).len());
                match (NonEmpty::try_from_vec(metadata), NonEmpty::try_from_vec(operations)) {
                    (Some(logged_operations), Some(group)) => {
                        let commit: CommitLogEntry = CommitLogEntry::new(
                            commit_sequence,
                            snapshot,
                            logged_operations,
                        );
                        let versioned: Option<VersionedCommitLogEntry> =
                            match &self.versioning_policy {
                            Some(policy) => Some(
                                VersionedCommitLogEntry::new(
                                    policy.store_name().clone(),
                                    StoreSchemaHash::from(&self.catalog),
                                    commit_sequence,
                                    snapshot,
                                    self.store.chain_head,
                                    group,
                                ),
                            ),
                            None => None,
                        };
                        self.store.tables.apply_all(&writes);
                        Engine::log_commit(&mut self.store, commit, versioned);
                        self.announce(&writes, snapshot);
                        assert(self@ =~= landed(before, views(writes@)));
                    },
                    _ => {
                        assert(false);
                    },
                }
                (commit_sequence, snapshot)
            },
        }
    }
}


impl Engine {
    /// Hold one write against the rows that stand.
    fn check_write(&self, table: TableName, write: &WriteOperation<EncodedRecord>) -> (outcome:
        Result<Write, Error>)
        ensures
            match outcome {
                Ok(fact) => checked(standing_tables(self@), table@, write_model(*write)) == Ok::<
                    WriteFact,
                    Failure,
                >(fact@),
                Err(error) => checked(standing_tables(self@), table@, write_model(*write))
                    == Err::<WriteFact, Failure>(error@),
            },
    {
        match write {
            WriteOperation::Assert(record) => {
                let key: RecordKey = record.record_key();
                match self.tables().record(&table, &key) {
                    Some(_) => Err(
                        Error::DuplicateAssertKey {
                            table: table.as_str().to_owned(),
                            key: key.to_owned_string(),
                        },
                    ),
                    None => Ok(Write::domain(SemaOperation::Assert, table, key, record.bytes())),
                }
            },
            WriteOperation::Mutate(record) => {
                let key: RecordKey = record.record_key();
                match self.tables().record(&table, &key) {
                    Some(_) => Ok(
                        Write::domain(SemaOperation::Mutate, table, key, record.bytes()),
                    ),
                    None => Err(self.record_not_found(&table, &key)),
                }
            },
            WriteOperation::Retract(key) => match self.tables().record(&table, key) {
                Some(removed) => Ok(Write::domain_removal(table, key.clone(), removed)),
                None => Err(self.record_not_found(&table, key)),
            },
        }
    }

    fn record_not_found(&self, table: &TableName, key: &RecordKey) -> (error: Error)
        ensures
            error@ == (Failure::RecordNotFound { table: table@, key: key_text(key@) }),
    {
        Error::RecordNotFound { table: table.as_str().to_owned(), key: key.to_owned_string() }
    }

    /// Check and land a single write to a domain-keyed table.
    fn write_once(&mut self, table: TableName, write: WriteOperation<EncodedRecord>) -> (outcome:
        Result<MutationReceipt, Error>)
        requires
            has_room(old(self)@, 1),
        ensures
            writes_once(
                old(self)@,
                final(self)@,
                outcome,
                table@,
                match write {
                    WriteOperation::Assert(_) => SemaOperation::Assert,
                    WriteOperation::Mutate(_) => SemaOperation::Mutate,
                    WriteOperation::Retract(_) => SemaOperation::Retract,
                },
                write_model(write),
            ),
    {
        match self.ensure_registered(&table) {
            Ok(()) => {},
            Err(error) => {
                return Err(error);
            },
        }
        let fact: Write = match self.check_write(table, &write) {
            Ok(fact) => fact,
            Err(error) => {
                return Err(error);
            },
        };
        let operation: SemaOperation = fact.operation();
        let key: RecordKey = fact.key().clone();
        let mut writes: Vec<Write> = Vec::new();
        writes.push(fact);
        proof {
            assert(views(writes@) =~= seq![fact@]);
            lemma_landed_stands(self@, views(writes@));
        }
        let stood = self.land(writes);
        Ok(MutationReceipt::new(operation, table, key, stood.0, stood.1))
    }

    /// Store a new record under the key it names.
    pub fn assert_record(&mut self, assertion: Assertion<EncodedRecord>) -> (outcome: Result<
        MutationReceipt,
        Error,
    >)
        requires
            has_room(old(self)@, 1),
        ensures
            writes_once(
                old(self)@,
                final(self)@,
                outcome,
                assertion@.table,
                SemaOperation::Assert,
                WriteModel::Assert(assertion@.record@),
            ),
    {
        let table: TableName = *assertion.table().name();
        self.write_once(table, WriteOperation::Assert(assertion.record().clone()))
    }

    /// Store a new record under a given key.
    pub fn assert_keyed(&mut self, assertion: KeyedAssertion<EncodedRecord>) -> (outcome: Result<
        MutationReceipt,
        Error,
    >)
        requires
            has_room(old(self)@, 1),
        ensures
            writes_once(
                old(self)@,
                final(self)@,
                outcome,
                assertion@.table,
                SemaOperation::Assert,
                WriteModel::Assert(
                    RecordModel { key: assertion@.key, bytes: assertion@.record@.bytes },
                ),
            ),
    {
        let table: TableName = *assertion.table().name();
        let record: EncodedRecord = EncodedRecord::new(
            assertion.key().clone(),
            assertion.record().bytes().duplicate(),
        );
        self.write_once(table, WriteOperation::Assert(record))
    }

    /// Replace the record stored under the key it names.
    pub fn mutate(&mut self, mutation: Mutation<EncodedRecord>) -> (outcome: Result<
        MutationReceipt,
        Error,
    >)
        requires
            has_room(old(self)@, 1),
        ensures
            writes_once(
                old(self)@,
                final(self)@,
                outcome,
                mutation@.table,
                SemaOperation::Mutate,
                WriteModel::Mutate(mutation@.record@),
            ),
    {
        let table: TableName = *mutation.table().name();
        self.write_once(table, WriteOperation::Mutate(mutation.record().clone()))
    }

    /// Replace the record stored under a given key.
    pub fn mutate_keyed(&mut self, mutation: KeyedMutation<EncodedRecord>) -> (outcome: Result<
        MutationReceipt,
        Error,
    >)
        requires
            has_room(old(self)@, 1),
        ensures
            writes_once(
                old(self)@,
                final(self)@,
                outcome,
                mutation@.table,
                SemaOperation::Mutate,
                WriteModel::Mutate(
                    RecordModel { key: mutation@.key, bytes: mutation@.record@.bytes },
                ),
            ),
    {
        let table: TableName = *mutation.table().name();
        let record: EncodedRecord = EncodedRecord::new(
            mutation.key().clone(),
            mutation.record().bytes().duplicate(),
        );
        self.write_once(table, WriteOperation::Mutate(record))
    }

    /// Remove the record stored under a key.
    pub fn retract<RecordValue>(&mut self, retraction: Retraction<RecordValue>) -> (outcome: Result<
        MutationReceipt,
        Error,
    >)
        requires
            has_room(old(self)@, 1),
        ensures
            writes_once(
                old(self)@,
                final(self)@,
                outcome,
                retraction@.table,
                SemaOperation::Retract,
                WriteModel::Retract(retraction@.key),
            ),
    {
        let table: TableName = *retraction.table().name();
        self.write_once(table, WriteOperation::Retract(retraction.key().clone()))
    }

    /// Store a new record under an identifier that the engine mints.
    pub fn assert_identified(&mut self, assertion: IdentifiedAssertion<EncodedRecord>) -> (outcome:
        Result<IdentifiedMutationReceipt, Error>)
        requires
            has_room(old(self)@, 1),
            next_identifier(standing_tables(old(self)@), assertion@.table) < u64::MAX,
        ensures
            settles(
                old(self)@,
                final(self)@,
                outcome,
                identified_assertion(old(self)@, assertion@.table, assertion@.record@.bytes),
            ),
            outcome matches Ok(receipt) ==> receipt@ == identified_receipt(
                final(self)@,
                assertion@.table,
                SemaOperation::Assert,
                next_identifier(standing_tables(old(self)@), assertion@.table),
            ),
    {
        let table: TableName = *assertion.table().name();
        match self.ensure_registered(&table) {
            Ok(()) => {},
            Err(error) => {
                return Err(error);
            },
        }
        let identifier: RecordIdentifier = self.tables().next_record_identifier(&table);
        let fact: Write = Write::identified(
            SemaOperation::Assert,
            table,
            identifier,
            assertion.record().bytes(),
        );
        let mut writes: Vec<Write> = Vec::new();
        writes.push(fact);
        proof {
            assert(views(writes@) =~= seq![fact@]);
            lemma_landed_stands(self@, views(writes@));
        }
        let stood = self.land(writes);
        Ok(
            IdentifiedMutationReceipt::new(
                SemaOperation::Assert,
                table,
                identifier,
                stood.0,
                stood.1,
            ),
        )
    }

    /// The record under an identifier, or why there is none.
    fn standing_identified(&self, table: &TableName, identifier: RecordIdentifier) -> (outcome:
        Result<Vec<u8>, Error>)
        ensures
            match outcome {
                Ok(bytes) => {
                    &&& identified_absence(self@, table@, identifier@) is None
                    &&& bytes@ == standing_tables(self@).identified[(table@, identifier@)]
                },
                Err(error) => identified_absence(self@, table@, identifier@) == Some(error@),
            },
    {
        match self.ensure_registered(table) {
            Ok(()) => {},
            Err(error) => {
                return Err(error);
            },
        }
        match self.tables().identified_record(table, identifier) {
            Some(bytes) => Ok(bytes),
            None => Err(
                Error::RecordNotFound {
                    table: table.as_str().to_owned(),
                    key: decimal(identifier.value()),
                },
            ),
        }
    }

    /// Replace the record stored under an identifier.
    pub fn mutate_identified(&mut self, mutation: IdentifiedMutation<EncodedRecord>) -> (outcome:
        Result<IdentifiedMutationReceipt, Error>)
        requires
            has_room(old(self)@, 1),
        ensures
            settles(
                old(self)@,
                final(self)@,
                outcome,
                identified_mutation(
                    old(self)@,
                    mutation@.table,
                    mutation@.identifier,
                    mutation@.record@.bytes,
                ),
            ),
            outcome matches Ok(receipt) ==> receipt@ == identified_receipt(
                final(self)@,
                mutation@.table,
                SemaOperation::Mutate,
                mutation@.identifier,
            ),
    {
        let table: TableName = *mutation.table().name();
        let identifier: RecordIdentifier = mutation.identifier();
        match self.standing_identified(&table, identifier) {
            Ok(_) => {},
            Err(error) => {
                return Err(error);
            },
        }
        let fact: Write = Write::identified(
            SemaOperation::Mutate,
            table,
            identifier,
            mutation.record().bytes(),
        );
        let mut writes: Vec<Write> = Vec::new();
        writes.push(fact);
        proof {
            assert(views(writes@) =~= seq![fact@]);
            lemma_landed_stands(self@, views(writes@));
        }
        let stood = self.land(writes);
        Ok(
            IdentifiedMutationReceipt::new(
                SemaOperation::Mutate,
                table,
                identifier,
                stood.0,
                stood.1,
            ),
        )
    }

    /// Remove the record stored under an identifier.
    pub fn retract_identified<RecordValue>(
        &mut self,
        retraction: IdentifiedRetraction<RecordValue>,
    ) -> (outcome: Result<IdentifiedMutationReceipt, Error>)
        requires
            has_room(old(self)@, 1),
        ensures
            settles(
                old(self)@,
                final(self)@,
                outcome,
                identified_retraction(old(self)@, retraction@.table, retraction@.identifier),
            ),
            outcome matches Ok(receipt) ==> receipt@ == identified_receipt(
                final(self)@,
                retraction@.table,
                SemaOperation::Retract,
                retraction@.identifier,
            ),
    {
        let table: TableName = *retraction.table().name();
        let identifier: RecordIdentifier = retraction.identifier();
        let removed: Vec<u8> = match self.standing_identified(&table, identifier) {
            Ok(bytes) => bytes,
            Err(error) => {
                return Err(error);
            },
        };
        let fact: Write = Write::identified_removal(table, identifier, removed);
        let mut writes: Vec<Write> = Vec::new();
        writes.push(fact);
        proof {
            assert(views(writes@) =~= seq![fact@]);
            lemma_landed_stands(self@, views(writes@));
        }
        let stood = self.land(writes);
        Ok(
            IdentifiedMutationReceipt::new(
                SemaOperation::Retract,
                table,
                identifier,
                stood.0,
                stood.1,
            ),
        )
    }

    /// Earlier writes of a group already name a table's key.
    fn names_already(writes: &Vec<Write>, table: &TableName, key: &RecordKey) -> (named: bool)
        ensures
            named == named_already(views(writes@), table@, key@),
    {
        let mut at: usize = 0;
        while at < writes.len()
            invariant
                at <= writes.len(),
                forall|i: int|
                    0 <= i < at ==> !((#[trigger] views(writes@)[i]).table == table@ && views(
                        writes@,
                    )[i].key == key@),
            decreases writes.len() - at,
        {
            assert(views(writes@)[at as int] == writes@[at as int]@);
            if *writes[at].table() == *table && relate_keys(writes[at].key(), key)
                == Relation::Same {
                return true;
            }
            at = at + 1;
        }
        false
    }

    fn duplicate_write_key(table: &TableName, key: &RecordKey) -> (error: Error)
        ensures
            error@ == (Failure::DuplicateWriteKey { table: table@, key: key_text(key@) }),
    {
        Error::DuplicateWriteKey { table: table.as_str().to_owned(), key: key.to_owned_string() }
    }

    fn key_of(write: &WriteOperation<EncodedRecord>) -> (key: RecordKey)
        ensures
            key@ == write_key(write_model(*write)),
    {
        match write {
            WriteOperation::Assert(record) => record.record_key(),
            WriteOperation::Mutate(record) => record.record_key(),
            WriteOperation::Retract(key) => key.clone(),
        }
    }

    /// Commit the write operations of a request together, or none of them.
    pub fn commit(&mut self, request: CommitRequest<EncodedRecord>) -> (outcome: Result<
        CommitReceipt,
        Error,
    >)
        requires
            has_room(old(self)@, 1),
        ensures
            settles(
                old(self)@,
                final(self)@,
                outcome,
                commit_outcome(old(self)@, request@.table, write_models(request@.operations)),
            ),
            outcome matches Ok(receipt) ==> receipt@ == (CommitReceiptModel {
                table: request@.table,
                commit_sequence: standing_sequence(final(self)@),
                snapshot: standing_snapshot(final(self)@),
                operation_count: request@.operations.len() as usize,
            }),
    {
        let table: TableName = *request.table().name();
        match self.ensure_registered(&table) {
            Ok(()) => {},
            Err(error) => {
                return Err(error);
            },
        }
        let operations = request.operations();
        if operations.len() == 0 {
            return Err(Error::EmptyCommit { table: table.as_str().to_owned() });
        }
        let ghost tables = standing_tables(self@);
        let ghost models = write_models(operations@);
        let mut writes: Vec<Write> = Vec::new();
        let mut at: usize = 0;
        assert(models.take(0) =~= Seq::empty());
        assert(views(writes@) =~= Seq::empty());
        while at < operations.len()
            invariant
                at <= operations.len(),
                self@ == old(self)@,
                tables == standing_tables(self@),
                models == write_models(operations@),
                models == write_models(request@.operations),
                table@ == request@.table,
                models.len() >= 1,
                registered(self@.catalog, table@),
                planned(tables, table@, models.take(at as int)) == Ok::<Seq<WriteFact>, Failure>(
                    views(writes@),
                ),
                writes@.len() == at,
                forall|i: int|
                    0 <= i < writes@.len() ==> (#[trigger] writes@[i])@.table == table@
                        && writes@[i]@.slot is Domain,
            decreases operations.len() - at,
        {
            let operation = &operations[at];
            assert(models.take(at + 1).drop_last() =~= models.take(at as int));
            assert(models.take(at + 1).last() == write_model(*operation));
            let key: RecordKey = Engine::key_of(operation);
            if Engine::names_already(&writes, &table, &key) {
                let error = Engine::duplicate_write_key(&table, &key);
                proof {
                    lemma_planned_fails(tables, table@, models, at + 1, error@);
                }
                return Err(error);
            }
            match self.check_write(table, operation) {
                Ok(fact) => {
                    proof {
                        lemma_views_push(writes@, fact);
                    }
                    writes.push(fact);
                },
                Err(error) => {
                    proof {
                        lemma_planned_fails(tables, table@, models, at + 1, error@);
                    }
                    return Err(error);
                },
            }
            at = at + 1;
        }
        assert(models.take(at as int) =~= models);
        proof {
            lemma_landed_stands(self@, views(writes@));
        }
        let count: usize = request.operation_count();
        let stood = self.land(writes);
        Ok(CommitReceipt::new(table, stood.0, stood.1, count))
    }
}

proof fn lemma_planned_fails(
    tables: crate::tables::TablesModel,
    table: Seq<char>,
    writes: Seq<WriteModel>,
    at: int,
    failure: Failure,
)
    requires
        0 <= at <= writes.len(),
        planned(tables, table, writes.take(at)) == Err::<Seq<WriteFact>, Failure>(failure),
    ensures
        planned(tables, table, writes) == Err::<Seq<WriteFact>, Failure>(failure),
    decreases writes.len() - at,
{
    if at == writes.len() {
        assert(writes.take(at) =~= writes);
    } else {
        assert(writes.take(at + 1).drop_last() =~= writes.take(at));
        lemma_planned_fails(tables, table, writes, at + 1, failure);
    }
}

/// The outcome of a query: the records due, and the committed state they
/// were read from.
pub open spec fn answers(
    engine: EngineModel,
    plan: PlanModel,
    outcome: Result<QuerySnapshot<EncodedRecord>, Error>,
) -> bool {
    match (outcome, matched(engine, plan)) {
        (Ok(snapshot), Ok(records)) => {
            &&& snapshot@.operation == SemaOperation::Match
            &&& snapshot@.table == plan.table
            &&& snapshot@.database_marker == standing_marker(engine)
            &&& views(snapshot@.records) == records
        },
        (Err(error), Err(failure)) => error@ == failure,
        _ => false,
    }
}

/// Identified records as plain values.
pub open spec fn identified_facts(records: Seq<IdentifiedRecord<EncodedRecord>>) -> Seq<
    IdentifiedFact,
> {
    Seq::new(records.len(), |i: int| (records[i]@.0, records[i]@.1@))
}

/// The outcome of a query over an engine-identified table.
pub open spec fn identified_answers(
    engine: EngineModel,
    plan: IdentifiedPlanModel,
    outcome: Result<IdentifiedQuerySnapshot<EncodedRecord>, Error>,
) -> bool {
    match (outcome, identified_matched(engine, plan)) {
        (Ok(snapshot), Ok(records)) => {
            &&& snapshot@.operation == SemaOperation::Match
            &&& snapshot@.table == plan.table
            &&& snapshot@.database_marker == standing_marker(engine)
            &&& identified_facts(snapshot@.records) == records
        },
        (Err(error), Err(failure)) => error@ == failure,
        _ => false,
    }
}

/// A read plan that lists rows of a table.
pub open spec fn lists_rows(node: ReadPlanNode) -> bool {
    node is AllRows || node is ByKeyRange
}

/// A read plan that lists rows of an engine-identified table.
pub open spec fn lists_identified_rows(node: IdentifiedReadPlanNode) -> bool {
    node is AllRows || node is ByIdentifierRange
}

impl Engine {
    /// The records of a table's rows, in key order.
    fn records_of(rows: &OrderedTable<String, Vec<u8>>) -> (records: Vec<EncodedRecord>)
        ensures
            views(records@) == listed(rows@),
            text_listed(rows@),
    {
        let count: usize = rows.len();
        let ghost listing = rows.listing();
        let ghost expected = listed(rows@);
        proof {
            lemma_lettered(listing);
        }
        let mut records: Vec<EncodedRecord> = Vec::new();
        let mut at: usize = 0;
        assert(views(records@) =~= expected.take(0));
        while at < count
            invariant
                at <= count,
                count == listing.len(),
                listing == rows.listing(),
                listing == lettered(rows@),
                expected == listed(rows@),
                views(records@) == expected.take(at as int),
            decreases count - at,
        {
            let record: EncodedRecord = EncodedRecord::new(
                RecordKey::new(rows.key_at(at).as_str()),
                rows.value_at(at).duplicate(),
            );
            proof {
                lemma_views_push(records@, record);
                assert(expected[at as int] == record@);
                assert(expected.take(at + 1) =~= expected.take(at as int).push(record@));
            }
            records.push(record);
            at = at + 1;
        }
        assert(expected.take(at as int) =~= expected);
        records
    }

    /// The records whose keys lie in a range.
    fn records_in(records: Vec<EncodedRecord>, range: &KeyRange) -> (found: Vec<EncodedRecord>)
        ensures
            views(found@) == records_within(views(records@), range@),
    {
        let ghost models = views(records@);
        let mut found: Vec<EncodedRecord> = Vec::new();
        let mut at: usize = 0;
        assert(models.take(0) =~= Seq::empty());
        assert(views(found@) =~= Seq::empty());
        while at < records.len()
            invariant
                at <= records.len(),
                models == views(records@),
                views(found@) == records_within(models.take(at as int), range@),
            decreases records.len() - at,
        {
            assert(models.take(at + 1).drop_last() =~= models.take(at as int));
            assert(models.take(at + 1).last() == records@[at as int]@);
            if range.contains(records[at].key()) {
                let record: EncodedRecord = records[at].clone();
                proof {
                    lemma_views_push(found@, record);
                }
                found.push(record);
            }
            at = at + 1;
        }
        assert(models.take(at as int) =~= models);
        found
    }

    fn query<RecordValue>(&self, query: &QueryPlan<RecordValue>) -> (outcome: Result<
        QuerySnapshot<EncodedRecord>,
        Error,
    >)
        ensures
            answers(self@, query@, outcome),
            outcome is Ok && lists_rows(query@.node) ==> text_listed(
                domain_rows(standing_tables(self@).records, query@.table),
            ),
    {
        let table: TableName = *query.table().name();
        match self.ensure_registered(&table) {
            Ok(()) => {},
            Err(error) => {
                return Err(error);
            },
        }
        let records: Vec<EncodedRecord> = match query.read_plan().node() {
            ReadPlanNode::AllRows => Engine::records_of(&self.tables().rows_of(&table)),
            ReadPlanNode::ByKey(key) => {
                let mut found: Vec<EncodedRecord> = Vec::new();
                match self.tables().record(&table, key) {
                    Some(bytes) => {
                        let text: String = key.to_owned_string();
                        let record: EncodedRecord = EncodedRecord::new(
                            RecordKey::new(text.as_str()),
                            bytes,
                        );
                        found.push(record);
                        assert(views(found@) =~= seq![record@]);
                    },
                    None => {
                        assert(views(found@) =~= Seq::empty());
                    },
                }
                found
            },
            ReadPlanNode::ByKeyRange(range) => Engine::records_in(
                Engine::records_of(&self.tables().rows_of(&table)),
                range,
            ),
            node => {
                return Err(Error::UnsupportedReadPlan { operator: node.operator() });
            },
        };
        Ok(
            QuerySnapshot::new(
                SemaOperation::Match,
                table,
                self.current_database_marker(),
                records,
            ),
        )
    }

    /// Read the records that a query speaks of: every record of the table
    /// that it asks for, once, by rising key.
    pub fn match_records<RecordValue>(&self, query: QueryPlan<RecordValue>) -> (outcome: Result<
        QuerySnapshot<EncodedRecord>,
        Error,
    >)
        ensures
            answers(self@, query@, outcome),
            outcome is Ok && lists_rows(query@.node) ==> text_listed(
                domain_rows(standing_tables(self@).records, query@.table),
            ),
    {
        self.query(&query)
    }

    /// The records of an identified table's rows, by rising identifier.
    fn identified_records_of(rows: &OrderedTable<u64, Vec<u8>>) -> (records: Vec<
        IdentifiedRecord<EncodedRecord>,
    >)
        ensures
            identified_facts(records@) == identified_listed(rows@),
            number_listed(rows@),
    {
        let count: usize = rows.len();
        let ghost listing = rows.listing();
        let ghost expected = identified_listed(rows@);
        proof {
            lemma_number_rising(listing);
            lemma_numbered(listing);
        }
        let mut records: Vec<IdentifiedRecord<EncodedRecord>> = Vec::new();
        let mut at: usize = 0;
        assert(identified_facts(records@) =~= expected.take(0));
        while at < count
            invariant
                at <= count,
                count == listing.len(),
                listing == rows.listing(),
                listing == numbered(rows@),
                expected == identified_listed(rows@),
                identified_facts(records@) == expected.take(at as int),
            decreases count - at,
        {
            let identifier: RecordIdentifier = RecordIdentifier::new(*rows.key_at(at));
            let record: IdentifiedRecord<EncodedRecord> = IdentifiedRecord::new(
                identifier,
                EncodedRecord::new(
                    RecordKey::identifier(identifier),
                    rows.value_at(at).duplicate(),
                ),
            );
            proof {
                assert(expected[at as int] == (record@.0, record@.1@));
                assert(identified_facts(records@.push(record)) =~= identified_facts(
                    records@,
                ).push((record@.0, record@.1@)));
                assert(expected.take(at + 1) =~= expected.take(at as int).push(
                    (record@.0, record@.1@),
                ));
            }
            records.push(record);
            at = at + 1;
        }
        assert(expected.take(at as int) =~= expected);
        records
    }

    /// The records whose identifiers lie in a range.
    fn identified_records_in(
        records: Vec<IdentifiedRecord<EncodedRecord>>,
        range: &RecordIdentifierRange,
    ) -> (found: Vec<IdentifiedRecord<EncodedRecord>>)
        ensures
            identified_facts(found@) == identified_within(identified_facts(records@), range@),
    {
        let ghost models = identified_facts(records@);
        let mut found: Vec<IdentifiedRecord<EncodedRecord>> = Vec::new();
        let mut at: usize = 0;
        assert(models.take(0) =~= Seq::empty());
        assert(identified_facts(found@) =~= Seq::empty());
        while at < records.len()
            invariant
                at <= records.len(),
                models == identified_facts(records@),
                identified_facts(found@) == identified_within(models.take(at as int), range@),
            decreases records.len() - at,
        {
            assert(models.take(at + 1).drop_last() =~= models.take(at as int));
            let identifier: RecordIdentifier = records[at].identifier();
            if range.contains(identifier) {
                let record: IdentifiedRecord<EncodedRecord> = IdentifiedRecord::new(
                    identifier,
                    records[at].value().clone(),
                );
                proof {
                    assert(models[at as int] == (record@.0, record@.1@));
                    assert(identified_facts(found@.push(record)) =~= identified_facts(
                        found@,
                    ).push((record@.0, record@.1@)));
                }
                found.push(record);
            }
            at = at + 1;
        }
        assert(models.take(at as int) =~= models);
        found
    }

    /// Read the records of an engine-identified table that a query speaks
    /// of: every record that it asks for, once, by rising identifier.
    pub fn match_identified<RecordValue>(&self, query: IdentifiedQueryPlan<RecordValue>) -> (
        outcome: Result<IdentifiedQuerySnapshot<EncodedRecord>, Error>)
        ensures
            identified_answers(self@, query@, outcome),
            outcome is Ok && lists_identified_rows(query@.node) ==> number_listed(
                identified_rows(standing_tables(self@).identified, query@.table),
            ),
    {
        let table: TableName = *query.table().name();
        match self.ensure_registered(&table) {
            Ok(()) => {},
            Err(error) => {
                return Err(error);
            },
        }
        let records: Vec<IdentifiedRecord<EncodedRecord>> = match query.read_plan().node() {
            IdentifiedReadPlanNode::AllRows => Engine::identified_records_of(
                &self.tables().identified_rows_of(&table),
            ),
            IdentifiedReadPlanNode::ByIdentifier(identifier) => {
                let mut found: Vec<IdentifiedRecord<EncodedRecord>> = Vec::new();
                match self.tables().identified_record(&table, *identifier) {
                    Some(bytes) => {
                        let record: IdentifiedRecord<EncodedRecord> = IdentifiedRecord::new(
                            *identifier,
                            EncodedRecord::new(RecordKey::identifier(*identifier), bytes),
                        );
                        found.push(record);
                        assert(identified_facts(found@) =~= seq![(record@.0, record@.1@)]);
                    },
                    None => {
                        assert(identified_facts(found@) =~= Seq::empty());
                    },
                }
                found
            },
            IdentifiedReadPlanNode::ByIdentifierRange(range) => Engine::identified_records_in(
                Engine::identified_records_of(&self.tables().identified_rows_of(&table)),
                range,
            ),
        };
        Ok(
            IdentifiedQuerySnapshot::new(
                SemaOperation::Match,
                table,
                self.current_database_marker(),
                records,
            ),
        )
    }

    /// Count the records that a query speaks of.
    pub fn validate<RecordValue>(&self, query: QueryPlan<RecordValue>) -> (outcome: Result<
        ValidationReceipt,
        Error,
    >)
        ensures
            match (outcome, matched(self@, query@)) {
                (Ok(receipt), Ok(records)) => receipt@ == (ValidationModel {
                    operation: SemaOperation::Validate,
                    table: query@.table,
                    database_marker: standing_marker(self@),
                    record_count: records.len() as usize,
                }),
                (Err(error), Err(failure)) => error@ == failure,
                _ => false,
            },
    {
        match self.query(&query) {
            Ok(snapshot) => {
                assert(views(snapshot@.records).len() == snapshot@.records.len());
                Ok(
                    ValidationReceipt::new(
                        SemaOperation::Validate,
                        *query.table().name(),
                        snapshot.database_marker(),
                        snapshot.records().len(),
                    ),
                )
            },
            Err(error) => Err(error),
        }
    }

    pub fn latest_snapshot(&self) -> (snapshot: SnapshotIdentifier)
        ensures
            snapshot@ == standing_snapshot(self@),
    {
        match &self.session {
            Some(session) => session.engaged_snapshot(),
            None => self.store.snapshot(),
        }
    }

    pub fn current_commit_sequence(&self) -> (sequence: CommitSequence)
        ensures
            sequence@ == standing_sequence(self@),
    {
        match &self.session {
            Some(session) => session.engaged_commit_sequence(),
            None => self.store.commit_sequence(),
        }
    }

    pub fn current_database_marker(&self) -> (marker: DatabaseMarker)
        ensures
            marker@ == standing_marker(self@),
    {
        DatabaseMarker::new(self.current_commit_sequence(), self.latest_snapshot())
    }

    /// Every commit log entry, in commit order.
    pub fn commit_log(&self) -> (entries: Vec<CommitLogEntry>)
        ensures
            views(entries@) == log_values(self@.store.commit_log),
            number_listed(self@.store.commit_log),
    {
        CommitLog::new(&self.store).entries()
    }

    /// Every versioned log entry, in commit order.
    pub fn versioned_commit_log(&self) -> (entries: Vec<VersionedCommitLogEntry>)
        ensures
            views(entries@) == log_values(self@.store.versioned_log),
            number_listed(self@.store.versioned_log),
    {
        CommitLog::new(&self.store).versioned_entries()
    }

    /// The digest that the next versioned entry will name.
    pub fn versioned_chain_head(&self) -> (head: Option<EntryDigest>)
        ensures
            option_view(head) == self@.store.chain_head,
    {
        CommitLog::new(&self.store).chain_head()
    }

    /// Commit log entries from a commit sequence on.
    pub fn replay_from_sequence(&self, start: CommitSequence) -> (entries: Vec<CommitLogEntry>)
        ensures
            views(entries@) == log_values(from_number(self@.store.commit_log, start@ as int)),
            number_listed(from_number(self@.store.commit_log, start@ as int)),
    {
        CommitLog::new(&self.store).entries_from(start)
    }

    /// Versioned log entries from a commit sequence on.
    pub fn versioned_replay_from_sequence(&self, start: CommitSequence) -> (entries: Vec<
        VersionedCommitLogEntry,
    >)
        ensures
            views(entries@) == log_values(from_number(self@.store.versioned_log, start@ as int)),
            number_listed(from_number(self@.store.versioned_log, start@ as int)),
    {
        CommitLog::new(&self.store).versioned_entries_from(start)
    }

    /// Commit log entries whose committed state lies in a range.
    pub fn commit_log_range(&self, range: SequenceRange) -> (entries: Vec<CommitLogEntry>)
        ensures
            views(entries@) == entries_within(log_values(self@.store.commit_log), range@),
            number_listed(self@.store.commit_log),
    {
        CommitLog::new(&self.store).entries_in(range)
    }

    /// The registrations, in catalog order.
    pub fn list_tables(&self) -> (registrations: Vec<TableRegistration>)
        ensures
            views(registrations@) == self@.catalog,
    {
        let found = self.catalog.registrations();
        let mut registrations: Vec<TableRegistration> = Vec::new();
        let mut at: usize = 0;
        assert(views(registrations@) =~= self@.catalog.take(0));
        while at < found.len()
            invariant
                at <= found.len(),
                views(found@) == self@.catalog,
                views(registrations@) == self@.catalog.take(at as int),
            decreases found.len() - at,
        {
            let registration: TableRegistration = found[at].clone();
            proof {
                lemma_views_push(registrations@, registration);
                assert(self@.catalog[at as int] == views(found@)[at as int]);
                assert(self@.catalog.take(at + 1) =~= self@.catalog.take(at as int).push(
                    registration@,
                ));
            }
            registrations.push(registration);
            at = at + 1;
        }
        assert(self@.catalog.take(at as int) =~= self@.catalog);
        registrations
    }

    pub fn catalog(&self) -> (catalog: &Catalog)
        ensures
            catalog@ == self@.catalog,
    {
        &self.catalog
    }

    /// The schema identity of the store as its families now stand.
    pub fn store_schema_hash(&self) -> (hash: StoreSchemaHash)
        ensures
            hash@ == store_schema(versions(self@.catalog)),
    {
        StoreSchemaHash::from(&self.catalog)
    }

    /// The outbox rows past the shipped cursor, in commit order.
    pub fn unshipped_outbox(&self) -> (rows: Vec<OutboxEntry>)
        ensures
            views(rows@) == unshipped_rows(self@.store),
            number_listed(
                from_number(self@.store.outbox, shipped_through(self@.store) + 1),
            ),
    {
        Outbox::new(&self.store).unshipped()
    }

    /// The last head that a mirror confirmed.
    pub fn mirror_head(&self) -> (head: Option<MirrorHead>)
        ensures
            option_view(head) == self@.store.mirror,
    {
        Outbox::new(&self.store).mirror_head()
    }

    /// Record a head that a mirror confirmed.
    pub fn acknowledge_mirror(&mut self, head: MirrorHead) -> (outcome: Result<
        MirrorAcknowledgement,
        Error,
    >)
        ensures
            match (
                outcome,
                acknowledgement(
                    old(self)@.store,
                    head@,
                    logged_digest(old(self)@.store, head@.commit_sequence),
                ),
            ) {
                (Ok(made), Ok(expected)) => {
                    &&& acknowledgement_model(made) == expected
                    &&& final(self)@ == (EngineModel {
                        store: StoreModel { mirror: Some(expected.cursor), ..old(self)@.store },
                        ..old(self)@
                    })
                },
                (Err(error), Err(failure)) => error@ == failure && final(self)@ == old(self)@,
                _ => false,
            },
    {
        let digest: Option<EntryDigest> = match CommitLog::new(&self.store).versioned_entry_at(
            head.commit_sequence(),
        ) {
            Some(entry) => Some(entry.entry_digest()),
            None => None,
        };
        Outbox::acknowledge(&mut self.store, head, digest)
    }

    /// How durable one committed write is.
    pub fn durability_of(&self, sequence: CommitSequence) -> (outcome: Result<Durability, Error>)
        ensures
            match outcome {
                Ok(durability) => {
                    &&& self@.store.commit_log.dom().contains(sequence@)
                    &&& durability == commit_durability(self@.store, sequence@)
                },
                Err(error) => {
                    &&& !self@.store.commit_log.dom().contains(sequence@)
                    &&& error@ == (Failure::UnknownCommitSequence { sequence: sequence@ })
                },
            },
    {
        if !CommitLog::new(&self.store).entry_present(sequence) {
            return Err(Error::unknown_commit_sequence(sequence));
        }
        Ok(Outbox::new(&self.store).durability_of(sequence))
    }

    /// How durable the store's whole state is.
    pub fn store_durability(&self) -> (durability: Durability)
        ensures
            durability == (if self@.policy is None {
                Durability::LocalCommitted
            } else {
                mirrored_durability(self@.store)
            }),
            self@.policy is Some ==> number_listed(
                from_number(self@.store.outbox, shipped_through(self@.store) + 1),
            ),
    {
        if self.versioning_policy.is_none() {
            return Durability::LocalCommitted;
        }
        Outbox::new(&self.store).store_durability()
    }

    /// The durable subscription records, by rising identifier.
    pub fn subscription_registrations(&self) -> (registrations: Vec<SubscriptionRegistration>)
        ensures
            views(registrations@) == log_values(self@.store.subscriptions),
            number_listed(self@.store.subscriptions),
    {
        values(&self.store.subscriptions)
    }
}

/// The digest of the versioned entry logged at a sequence.
pub open spec fn logged_digest(store: StoreModel, sequence: u64) -> Option<Seq<u8>> {
    if store.versioned_log.dom().contains(sequence) {
        Some(store.versioned_log[sequence].digest)
    } else {
        None
    }
}

/// The store's history, folded.
struct History {
    latest: Option<Checkpoint>,
    entries: Vec<VersionedCommitLogEntry>,
    view: CanonicalView,
}

impl View for History {
    type V = HistoryModel;

    closed spec fn view(&self) -> HistoryModel {
        HistoryModel {
            latest: option_view(self.latest),
            entries: views(self.entries@),
            view: self.view@,
        }
    }
}

impl Engine {
    /// The latest stored checkpoint, every content address verified.
    pub fn latest_checkpoint(&self) -> (outcome: Result<Option<Checkpoint>, Error>)
        ensures
            match (outcome, loaded(self@.store)) {
                (Ok(found), Ok(expected)) => option_view(found) == expected,
                (Err(error), Err(failure)) => error@ == failure,
                _ => false,
            },
    {
        let sequence: u64 = match self.store.latest_checkpoint {
            Some(sequence) => sequence,
            None => {
                return Ok(None);
            },
        };
        let metadata: CheckpointMetadata = match self.store.checkpoints.get(&sequence) {
            Some(metadata) => metadata.clone(),
            None => {
                return Err(Error::CheckpointRowMissing { sequence });
            },
        };
        let segments: Vec<CheckpointSegment> = match self.gather_segments(metadata.segments()) {
            Ok(segments) => segments,
            Err(error) => {
                return Err(error);
            },
        };
        let checkpoint: Checkpoint = Checkpoint::new(metadata, segments);
        match checkpoint.verify() {
            Ok(()) => Ok(Some(checkpoint)),
            Err(error) => Err(error),
        }
    }

    /// The stored segments that references name.
    fn gather_segments(&self, references: &[SegmentReference]) -> (outcome: Result<
        Vec<CheckpointSegment>,
        Error,
    >)
        ensures
            match outcome {
                Ok(segments) => gathered(self@.store.segments, views(references@)) == Ok::<
                    Seq<Seq<RowModel>>,
                    Failure,
                >(views(segments@)),
                Err(error) => gathered(self@.store.segments, views(references@)) == Err::<
                    Seq<Seq<RowModel>>,
                    Failure,
                >(error@),
            },
    {
        let ghost stored = self@.store.segments;
        let ghost models = views(references@);
        let mut segments: Vec<CheckpointSegment> = Vec::new();
        let mut at: usize = 0;
        assert(models.take(0) =~= Seq::empty());
        assert(views(segments@) =~= Seq::empty());
        while at < references.len()
            invariant
                at <= references.len(),
                stored == self@.store.segments,
                models == views(references@),
                gathered(stored, models.take(at as int)) == Ok::<Seq<Seq<RowModel>>, Failure>(
                    views(segments@),
                ),
            decreases references.len() - at,
        {
            assert(models.take(at + 1).drop_last() =~= models.take(at as int));
            assert(models.take(at + 1).last() == references@[at as int]@);
            let digest: SegmentDigest = references[at].digest();
            match self.store.checkpoint_segments.get(&digest) {
                Some(segment) => {
                    let copy: CheckpointSegment = segment.clone();
                    proof {
                        lemma_views_push(segments@, copy);
                    }
                    segments.push(copy);
                },
                None => {
                    let error = Error::SegmentMissing { digest };
                    proof {
                        lemma_gathered_fails(stored, models, at + 1, error@);
                    }
                    return Err(error);
                },
            }
            at = at + 1;
        }
        assert(models.take(at as int) =~= models);
        Ok(segments)
    }

    /// Every commit must have a versioned entry for the fold to be the
    /// whole state.
    fn ensure_versioned_log_complete(&self) -> (outcome: Result<(), Error>)
        ensures
            match outcome {
                Ok(()) => log_gap(self@.store) is None,
                Err(error) => log_gap(self@.store) == Some(error@),
            },
    {
        let counts: LogCounts = CommitLog::new(&self.store).counts();
        if counts.commits() != counts.versioned() {
            Err(
                Error::VersionedLogIncomplete {
                    commits: counts.commits(),
                    versioned: counts.versioned(),
                },
            )
        } else {
            Ok(())
        }
    }

    /// Fold the latest checkpoint and the log that continues it.
    fn fold_history(&self, surface: &str, required: bool) -> (outcome: Result<History, Error>)
        ensures
            match (outcome, history(self@, surface@, required)) {
                (Ok(found), Ok(expected)) => found@ == expected,
                (Err(error), Err(failure)) => error@ == failure,
                _ => false,
            },
    {
        if self.versioning_policy.is_none() {
            return Err(Error::versioning_not_enabled(surface));
        }
        match self.ensure_versioned_log_complete() {
            Ok(()) => {},
            Err(error) => {
                return Err(error);
            },
        }
        let latest: Option<Checkpoint> = match self.latest_checkpoint() {
            Ok(latest) => latest,
            Err(error) => {
                return Err(error);
            },
        };
        let (rows, head, after): (Vec<ViewRow>, Option<EntryDigest>, u64) = match &latest {
            Some(checkpoint) => (
                checkpoint.rows(),
                Some(checkpoint.metadata().covered_entry_digest()),
                checkpoint.metadata().covered().last().value(),
            ),
            None => {
                let rows: Vec<ViewRow> = Vec::new();
                assert(views(rows@) =~= Seq::empty());
                (rows, None, 0)
            },
        };
        let entries: Vec<VersionedCommitLogEntry> = values_after(
            &self.store.versioned_commit_log,
            after,
        );
        assert(entries@.len() == views(entries@).len());
        if required && entries.len() == 0 {
            return Err(Error::CheckpointNothingToCover);
        }
        match CanonicalView::fold(rows.as_slice(), entries.as_slice(), head) {
            Ok(view) => Ok(History { latest, entries, view }),
            Err(error) => Err(error),
        }
    }

    /// The registered family identities, in catalog order.
    fn family_inventory(&self) -> (families: Vec<FamilyIdentity>)
        ensures
            views(families@) == self@.catalog,
    {
        let found = self.catalog.registrations();
        let mut families: Vec<FamilyIdentity> = Vec::new();
        let mut at: usize = 0;
        assert(views(families@) =~= self@.catalog.take(0));
        while at < found.len()
            invariant
                at <= found.len(),
                views(found@) == self@.catalog,
                views(families@) == self@.catalog.take(at as int),
            decreases found.len() - at,
        {
            let family: FamilyIdentity = found[at].identity().clone();
            proof {
                lemma_views_push(families@, family);
                assert(self@.catalog[at as int] == views(found@)[at as int]);
                assert(self@.catalog.take(at + 1) =~= self@.catalog.take(at as int).push(
                    family@,
                ));
            }
            families.push(family);
            at = at + 1;
        }
        assert(self@.catalog.take(at as int) =~= self@.catalog);
        families
    }

    /// The identifier counters of every engine-identified table.
    fn identified_counter_inventory(&self) -> (counters: Vec<IdentifiedCounter>)
        ensures
            views(counters@) == inventoried(lettered(self@.store.tables.counters)),
    {
        let table = &self.store.tables.counters;
        let count: usize = table.len();
        let ghost listing = table.listing();
        proof {
            lemma_lettered(listing);
        }
        let mut counters: Vec<IdentifiedCounter> = Vec::new();
        let mut at: usize = 0;
        assert(listing.take(0) =~= Seq::empty());
        assert(views(counters@) =~= Seq::empty());
        while at < count
            invariant
                at <= count,
                count == listing.len(),
                listing == table.listing(),
                views(counters@) == inventoried(listing.take(at as int)),
            decreases count - at,
        {
            assert(listing.take(at + 1).drop_last() =~= listing.take(at as int));
            assert(listing.take(at + 1).last() == listing[at as int]);
            match table_of_counter(table.key_at(at).as_str()) {
                Some(name) => {
                    let counter: IdentifiedCounter = IdentifiedCounter::new(
                        name.as_str(),
                        *table.value_at(at),
                    );
                    proof {
                        lemma_views_push(counters@, counter);
                    }
                    counters.push(counter);
                },
                None => {},
            }
            at = at + 1;
        }
        assert(listing.take(at as int) =~= listing);
        counters
    }

    /// The references to segments, in view order.
    fn references_to(segments: &Vec<CheckpointSegment>) -> (references: Vec<SegmentReference>)
        ensures
            views(references@) == references_of(views(segments@)),
    {
        let ghost expected = references_of(views(segments@));
        let mut references: Vec<SegmentReference> = Vec::new();
        let mut at: usize = 0;
        assert(views(references@) =~= expected.take(0));
        while at < segments.len()
            invariant
                at <= segments.len(),
                expected == references_of(views(segments@)),
                views(references@) == expected.take(at as int),
            decreases segments.len() - at,
        {
            let reference: SegmentReference = segments[at].reference();
            proof {
                lemma_views_push(references@, reference);
                assert(expected[at as int] == reference@);
                assert(expected.take(at + 1) =~= expected.take(at as int).push(reference@));
            }
            references.push(reference);
            at = at + 1;
        }
        assert(expected.take(at as int) =~= expected);
        references
    }

    /// Keep a checkpoint as the store's latest.
    fn store_checkpoint(
        store: &mut Store,
        metadata: CheckpointMetadata,
        segments: Vec<CheckpointSegment>,
    )
        ensures
            final(store)@ == with_checkpoint(
                old(store)@,
                CheckpointModel { metadata: metadata@, segments: views(segments@) },
            ),
    {
        let ghost before = store@;
        let ghost models = views(segments@);
        let sequence: u64 = metadata.sequence().value();
        store.checkpoints.insert(sequence, metadata);
        let mut at: usize = 0;
        assert(models.take(0) =~= Seq::empty());
        while at < segments.len()
            invariant
                at <= segments.len(),
                models == views(segments@),
                store@ == (StoreModel {
                    checkpoints: before.checkpoints.insert(sequence, metadata@),
                    segments: segments_stored(before.segments, models.take(at as int)),
                    ..before
                }),
            decreases segments.len() - at,
        {
            assert(models.take(at + 1).drop_last() =~= models.take(at as int));
            assert(models.take(at + 1).last() == segments@[at as int]@);
            let segment: CheckpointSegment = segments[at].clone();
            store.checkpoint_segments.insert(segment.digest(), segment);
            at = at + 1;
        }
        assert(models.take(at as int) =~= models);
        store.latest_checkpoint = Some(sequence);
    }

    /// Write a checkpoint: fold the log over the latest checkpoint, chunk
    /// the records into segments, and keep them with their metadata. A
    /// checkpoint is derived from the log, so it logs nothing itself.
    pub fn checkpoint(&mut self) -> (outcome: Result<CheckpointReceipt, Error>)
        requires
            has_checkpoint_room(old(self)@.store),
        ensures
            match (outcome, checkpointed(old(self)@)) {
                (Ok(receipt), Ok(made)) => {
                    &&& receipt@ == checkpoint_receipt(made)
                    &&& final(self)@ == (EngineModel {
                        store: with_checkpoint(old(self)@.store, made),
                        ..old(self)@
                    })
                },
                (Err(error), Err(failure)) => error@ == failure && final(self)@ == old(self)@,
                _ => false,
            },
    {
        let found: History = match self.fold_history("checkpoint", true) {
            Ok(found) => found,
            Err(error) => {
                return Err(error);
            },
        };
        let ghost expected = found@;
        let store_name: VersionedStoreName = match &self.versioning_policy {
            Some(policy) => policy.store_name().clone(),
            None => {
                return Err(Error::versioning_not_enabled("checkpoint"));
            },
        };
        let History { latest, entries, view } = found;
        let first_entry = &entries[0];
        let last_entry = &entries[entries.len() - 1];
        let (sequence, first, previous): (
            CheckpointSequence,
            CommitSequence,
            Option<CheckpointDigest>,
        ) = match &latest {
            Some(checkpoint) => (
                checkpoint.metadata().sequence().next(),
                checkpoint.metadata().covered().first(),
                Some(checkpoint.metadata().checkpoint_digest()),
            ),
            None => (CheckpointSequence::first(), first_entry.commit_sequence(), None),
        };
        let covered: CommitSequenceRange = CommitSequenceRange::new(
            first,
            last_entry.commit_sequence(),
        );
        let view_digest: ViewDigest = view.digest();
        let families: Vec<FamilyIdentity> = self.family_inventory();
        let rows = match view.into_rows(families.as_slice()) {
            Ok(rows) => rows,
            Err(error) => {
                return Err(error);
            },
        };
        let segments: Vec<CheckpointSegment> = CheckpointSegment::chunk(rows.rows());
        let segment_count: usize = segments.len();
        let row_count: usize = rows.rows().len();
        let metadata: CheckpointMetadata = CheckpointMetadata::new(
            sequence,
            store_name,
            StoreSchemaHash::from(&self.catalog),
            FamilyInventory::new(families, self.identified_counter_inventory()),
            covered,
            last_entry.snapshot(),
            last_entry.entry_digest(),
            view_digest,
            previous,
            Engine::references_to(&segments),
        );
        let checkpoint_digest: CheckpointDigest = metadata.checkpoint_digest();
        proof {
            let made = CheckpointModel { metadata: metadata@, segments: views(segments@) };
            assert(metadata@ == covering_metadata(self@, expected, views(segments@)));
            lemma_chunked(rows@.rows);
            assert(checkpointed(self@) == Ok::<CheckpointModel, Failure>(made));
        }
        Engine::store_checkpoint(&mut self.store, metadata, segments);
        Ok(
            CheckpointReceipt::new(
                sequence,
                covered,
                view_digest,
                checkpoint_digest,
                segment_count,
                row_count,
            ),
        )
    }
}

impl Engine {
    /// The one checkpoint that a compaction leaves.
    fn root_checkpoint(&self) -> (outcome: Result<
        (CheckpointMetadata, Vec<CheckpointSegment>),
        Error,
    >)
        requires
            has_checkpoint_room(self@.store),
        ensures
            match (outcome, rooted(self@)) {
                (Ok(made), Ok(expected)) => expected == (CheckpointModel {
                    metadata: made.0@,
                    segments: views(made.1@),
                }),
                (Err(error), Err(failure)) => error@ == failure,
                _ => false,
            },
    {
        let found: History = match self.fold_history("compact_versioned_history", false) {
            Ok(found) => found,
            Err(error) => {
                return Err(error);
            },
        };
        let ghost expected = found@;
        let store_name: VersionedStoreName = match &self.versioning_policy {
            Some(policy) => policy.store_name().clone(),
            None => {
                return Err(Error::versioning_not_enabled("compact_versioned_history"));
            },
        };
        let History { latest, entries, view } = found;
        let count: usize = entries.len();
        assert(count == expected.entries.len());
        let (sequence, first): (CheckpointSequence, CommitSequence) = match &latest {
            Some(checkpoint) => (
                checkpoint.metadata().sequence().next(),
                checkpoint.metadata().covered().first(),
            ),
            None => {
                if count == 0 {
                    return Err(Error::CheckpointNothingToCover);
                }
                (CheckpointSequence::first(), entries[0].commit_sequence())
            },
        };
        let (last, snapshot, digest): (CommitSequence, SnapshotIdentifier, EntryDigest) = if count
            == 0 {
            match &latest {
                Some(checkpoint) => (
                    checkpoint.metadata().covered().last(),
                    checkpoint.metadata().covered_snapshot(),
                    checkpoint.metadata().covered_entry_digest(),
                ),
                None => {
                    return Err(Error::CheckpointNothingToCover);
                },
            }
        } else {
            let entry = &entries[count - 1];
            (entry.commit_sequence(), entry.snapshot(), entry.entry_digest())
        };
        let view_digest: ViewDigest = view.digest();
        let families: Vec<FamilyIdentity> = self.family_inventory();
        let rows = match view.into_rows(families.as_slice()) {
            Ok(rows) => rows,
            Err(error) => {
                return Err(error);
            },
        };
        let segments: Vec<CheckpointSegment> = CheckpointSegment::chunk(rows.rows());
        let metadata: CheckpointMetadata = CheckpointMetadata::new(
            sequence,
            store_name,
            StoreSchemaHash::from(&self.catalog),
            FamilyInventory::new(families, self.identified_counter_inventory()),
            CommitSequenceRange::new(first, last),
            snapshot,
            digest,
            view_digest,
            None,
            Engine::references_to(&segments),
        );
        assert(metadata@ == root_metadata(self@, expected, views(segments@)));
        Ok((metadata, segments))
    }

    /// The rows of a numbered table past a number.
    fn rows_past<W: Duplicate>(table: &OrderedTable<u64, W>, floor: u64) -> (rest: OrderedTable<
        u64,
        W,
    >)
        ensures
            rest@ == from_number(table@, floor + 1),
            log_values(rest@).len() == rest.listing().len(),
    {
        let mut rest: OrderedTable<u64, W> = OrderedTable::new();
        let count: usize = table.len();
        let ghost listing = table.listing();
        let mut at: usize = 0;
        assert(listing.take(0) =~= Seq::empty());
        assert(map_of(listing.take(0)) =~= Map::empty());
        assert(rest@ =~= from_number(map_of(listing.take(0)), floor + 1));
        while at < count
            invariant
                at <= count,
                count == listing.len(),
                listing == table.listing(),
                rising::<u64, W::V>(listing),
                rest@ == from_number(map_of(listing.take(at as int)), floor + 1),
            decreases count - at,
        {
            let ghost before = map_of(listing.take(at as int));
            let ghost row = listing[at as int];
            proof {
                lemma_map_take::<u64, W::V>(listing, at as int);
            }
            let number: u64 = *table.key_at(at);
            if number > floor {
                rest.insert(number, table.value_at(at).duplicate());
                assert(rest@ =~= from_number(before.insert(row.0, row.1), floor + 1));
            } else {
                assert(rest@ =~= from_number(before.insert(row.0, row.1), floor + 1));
            }
            at = at + 1;
        }
        assert(listing.take(at as int) =~= listing);
        let _left: usize = rest.len();
        proof {
            lemma_number_rising(rest.listing());
            lemma_numbered(rest.listing());
        }
        rest
    }

    /// Let the entries up to a commit leave the logs and the outbox.
    fn drop_history(store: &mut Store, floor: u64)
        ensures
            final(store)@ == compacted(old(store)@, floor),
    {
        let ghost before = store@;
        let commits: OrderedTable<u64, CommitLogEntry> = Engine::rows_past(
            &store.commit_log,
            floor,
        );
        let entries: OrderedTable<u64, VersionedCommitLogEntry> = Engine::rows_past(
            &store.versioned_commit_log,
            floor,
        );
        let outbox: OrderedTable<u64, OutboxEntry> = Engine::rows_past(&store.outbox, floor);
        store.commit_log_count = Some(commits.len() as u64);
        store.versioned_log_count = Some(entries.len() as u64);
        store.commit_log = commits;
        store.versioned_commit_log = entries;
        store.outbox = outbox;
        assert(store@ =~= compacted(before, floor));
    }

    /// Compact the version history down to a budget of entries: keep one
    /// checkpoint of all of it, and let the entries beyond the budget leave
    /// the logs and the outbox. A refused compaction changes nothing.
    pub fn compact_versioned_history(
        &mut self,
        retention: VersionedHistoryRetention,
        acknowledgement: VersionedHistoryAcknowledgement,
    ) -> (outcome: Result<VersionedHistoryCompaction, Error>)
        requires
            has_checkpoint_room(old(self)@.store),
        ensures
            match (outcome, history_compaction(old(self)@, retention@, acknowledgement)) {
                (Ok(made), Ok(expected)) => {
                    &&& made@ == expected.1
                    &&& final(self)@ == (EngineModel { store: expected.0, ..old(self)@ })
                },
                (Err(error), Err(failure)) => error@ == failure && final(self)@ == old(self)@,
                _ => false,
            },
    {
        let ghost before = self@;
        let topology: VersionedRecoveryTopology = match &self.versioning_policy {
            Some(policy) => policy.recovery_topology(),
            None => {
                return Err(Error::versioning_not_enabled("compact_versioned_history"));
            },
        };
        if acknowledgement.topology() != topology {
            return Err(
                Error::HistoryCompactionTopologyMismatch {
                    topology: topology.as_str(),
                    acknowledgement: acknowledgement.topology().as_str(),
                },
            );
        }
        let entries: Vec<VersionedCommitLogEntry> = values(&self.store.versioned_commit_log);
        let live: usize = entries.len();
        let budget: u64 = retention.maximum_live_entries();
        assert(live == views(entries@).len());
        if live as u64 <= budget {
            assert(self@ =~= (EngineModel { store: before.store, ..before }));
            return Ok(VersionedHistoryCompaction::new(0, live as u64, None));
        }
        let count: usize = live - budget as usize;
        assert(views(entries@)[count - 1] == entries@[count - 1]@);
        let floor: CommitSequence = entries[count - 1].commit_sequence();
        match acknowledgement {
            VersionedHistoryAcknowledgement::LocalCheckpoint => {},
            VersionedHistoryAcknowledgement::Mirror(head) => {
                if !self.is_confirmed(head) || head.commit_sequence().value() < floor.value() {
                    return Err(
                        Error::HistoryCompactionUnacknowledged {
                            required: floor.value(),
                            acknowledged: match &self.store.mirror_cursor {
                                Some(cursor) => Some(cursor.commit_sequence().value()),
                                None => None,
                            },
                        },
                    );
                }
            },
        }
        let (metadata, segments): (CheckpointMetadata, Vec<CheckpointSegment>) =
            match self.root_checkpoint() {
            Ok(made) => made,
            Err(error) => {
                return Err(error);
            },
        };
        let sequence: CheckpointSequence = metadata.sequence();
        self.store.checkpoints = OrderedTable::new();
        self.store.checkpoint_segments = OrderedTable::new();
        Engine::store_checkpoint(&mut self.store, metadata, segments);
        Engine::drop_history(&mut self.store, floor.value());
        Ok(VersionedHistoryCompaction::new(count as u64, budget, Some(sequence)))
    }

    /// Whether a head is the one that the mirror confirmed last.
    fn is_confirmed(&self, head: MirrorHead) -> (confirmed: bool)
        ensures
            confirmed == (self@.store.mirror == Some(head@)),
    {
        match &self.store.mirror_cursor {
            Some(cursor) => cursor.commit_sequence().value() == head.commit_sequence().value()
                && cursor.entry_digest() == head.entry_digest(),
            None => false,
        }
    }
}

proof fn lemma_gathered_fails(
    segments: Map<Seq<u8>, Seq<RowModel>>,
    references: Seq<ReferenceModel>,
    at: int,
    failure: Failure,
)
    requires
        0 <= at <= references.len(),
        gathered(segments, references.take(at)) == Err::<Seq<Seq<RowModel>>, Failure>(failure),
    ensures
        gathered(segments, references) == Err::<Seq<Seq<RowModel>>, Failure>(failure),
    decreases references.len() - at,
{
    if at == references.len() {
        assert(references.take(at) =~= references);
    } else {
        assert(references.take(at + 1).drop_last() =~= references.take(at));
        lemma_gathered_fails(segments, references, at + 1, failure);
    }
}

/// A rebuild of the record tables that may land.
struct RebuildPlan {
    rows: Vec<ViewRow>,
    receipt: RebuildReceipt,
}

impl View for RebuildPlan {
    type V = RebuildPlanModel;

    closed spec fn view(&self) -> RebuildPlanModel {
        RebuildPlanModel { rows: views(self.rows@), receipt: self.receipt@ }
    }
}

/// A directory gave this answer when it was handed the row.
pub open spec fn ruled<Directory: FamilyDirectory>(
    directory: &Directory,
    row: RowModel,
    answer: Result<RowLanding, Error>,
) -> bool {
    exists|handed: RowMaterializer|
        handed@ == row && #[trigger] call_ensures(
            Directory::materialize,
            (directory, handed),
            answer,
        )
}

/// A directory applied the row that it was handed (`lands`), or left it
/// out.
pub open spec fn took<Directory: FamilyDirectory>(
    directory: &Directory,
    row: RowModel,
    lands: bool,
) -> bool {
    exists|landing: RowLanding|
        (landing@ is Some) == lands && #[trigger] ruled(directory, row, Ok(landing))
}

/// A directory applied the row or left it out.
pub open spec fn accepted<Directory: FamilyDirectory>(
    directory: &Directory,
    row: RowModel,
) -> bool {
    took(directory, row, true) || took(directory, row, false)
}

/// A directory was handed the rows in order until it refused one: it said
/// of every row whether it lands, or it refused the last that it was
/// handed with this error.
pub open spec fn consulted<Directory: FamilyDirectory>(
    directory: &Directory,
    rows: Seq<RowModel>,
    verdict: Result<Seq<bool>, Error>,
) -> bool {
    match verdict {
        Ok(taken) => {
            &&& taken.len() == rows.len()
            &&& forall|i: int|
                0 <= i < rows.len() ==> took(directory, #[trigger] rows[i], taken[i])
        },
        Err(error) => exists|at: int|
            {
                &&& 0 <= at < rows.len()
                &&& ruled(directory, #[trigger] rows[at], Err(error))
                &&& forall|i: int|
                    0 <= i < at ==> accepted(directory, #[trigger] rows[i])
            },
    }
}

/// The outcome of a rebuild that a directory had its say in.
pub open spec fn rebuilds<Directory: FamilyDirectory>(
    before: EngineModel,
    after: EngineModel,
    directory: &Directory,
    outcome: Result<RebuildReceipt, Error>,
) -> bool {
    match rebuild_plan(before) {
        Err(failure) => {
            &&& outcome matches Err(error) && error@ == failure
            &&& after == before
        },
        Ok(plan) => match outcome {
            Ok(receipt) => {
                &&& receipt@ == plan.receipt
                &&& exists|taken: Seq<bool>|
                    {
                        &&& consulted(directory, plan.rows, Ok(taken))
                        &&& after == with_rows(before, #[trigger] landed_rows(plan.rows, taken))
                    }
            },
            Err(error) => consulted(directory, plan.rows, Err(error)) && after == before,
        },
    }
}

impl Engine {
    fn plan_rebuild(&self) -> (outcome: Result<RebuildPlan, Error>)
        ensures
            match (outcome, rebuild_plan(self@)) {
                (Ok(plan), Ok(expected)) => plan@ == expected,
                (Err(error), Err(failure)) => error@ == failure,
                _ => false,
            },
    {
        let found: History = match self.fold_history("rebuild_from_log", false) {
            Ok(found) => found,
            Err(error) => {
                return Err(error);
            },
        };
        let History { latest: _, entries, view } = found;
        let view_digest: ViewDigest = view.digest();
        let families: Vec<FamilyIdentity> = self.family_inventory();
        match view.into_rows(families.as_slice()) {
            Ok(rows) => {
                assert(entries@.len() == views(entries@).len());
                let receipt: RebuildReceipt = RebuildReceipt::new(
                    view_digest,
                    rows.rows().len(),
                    rows.cleared().len(),
                    entries.len(),
                );
                Ok(RebuildPlan { rows: rows.iter(), receipt })
            },
            Err(error) => Err(error),
        }
    }

    /// Ask a directory about every row, until it refuses one: whether each
    /// row lands.
    fn consult<Directory: FamilyDirectory>(directory: &Directory, rows: &Vec<ViewRow>) -> (verdict:
        Result<Vec<bool>, Error>)
        ensures
            match verdict {
                Ok(taken) => consulted(directory, views(rows@), Ok(taken@)),
                Err(error) => consulted(directory, views(rows@), Err(error)),
            },
    {
        let ghost models = views(rows@);
        let mut taken: Vec<bool> = Vec::new();
        let mut at: usize = 0;
        while at < rows.len()
            invariant
                at <= rows.len(),
                taken@.len() == at,
                models == views(rows@),
                forall|i: int| 0 <= i < at ==> took(directory, #[trigger] models[i], taken@[i]),
            decreases rows.len() - at,
        {
            let row: RowMaterializer = RowMaterializer::new(rows[at].clone());
            let ghost handed = row;
            let answer: Result<RowLanding, Error> = directory.materialize(row);
            assert(call_ensures(Directory::materialize, (directory, handed), answer));
            assert(ruled(directory, models[at as int], answer));
            match answer {
                Ok(landing) => {
                    let lands: bool = landing.lands();
                    assert(took(directory, models[at as int], lands));
                    taken.push(lands);
                },
                Err(error) => {
                    assert forall|i: int| 0 <= i < at implies accepted(
                        directory,
                        #[trigger] models[i],
                    ) by {
                        assert(took(directory, models[i], taken@[i]));
                    }
                    assert(ruled(directory, models[at as int], Err(error)));
                    return Err(error);
                },
            }
            at = at + 1;
        }
        Ok(taken)
    }

    /// The rows that land. A row without a word on it does not.
    fn landing_of(rows: &Vec<ViewRow>, taken: &Vec<bool>) -> (landed: Vec<ViewRow>)
        ensures
            views(landed@) == landed_rows(views(rows@), taken@),
    {
        let ghost models = views(rows@);
        let mut landed: Vec<ViewRow> = Vec::new();
        let mut at: usize = 0;
        assert(models.take(0) =~= Seq::empty());
        assert(views(landed@) =~= Seq::empty());
        while at < rows.len()
            invariant
                at <= rows.len(),
                models == views(rows@),
                views(landed@) == landed_rows(models.take(at as int), taken@),
            decreases rows.len() - at,
        {
            assert(models.take(at + 1).drop_last() =~= models.take(at as int));
            assert(models.take(at + 1).last() == rows@[at as int]@);
            if at < taken.len() && taken[at] {
                let row: ViewRow = rows[at].clone();
                proof {
                    lemma_views_push(landed@, row);
                }
                landed.push(row);
            }
            at = at + 1;
        }
        assert(models.take(at as int) =~= models);
        landed
    }

    /// Rebuild the record tables from the log: clear every key that the
    /// fold touched and did not keep, and land the rows it kept, each where
    /// the directory applies it. The rebuild logs nothing. A row that the
    /// directory refuses leaves the store as it was.
    pub fn rebuild_from_log<Directory: FamilyDirectory>(
        &mut self,
        directory: &Directory,
    ) -> (outcome: Result<RebuildReceipt, Error>)
        ensures
            rebuilds(old(self)@, final(self)@, directory, outcome),
    {
        let plan: RebuildPlan = match self.plan_rebuild() {
            Ok(plan) => plan,
            Err(error) => {
                return Err(error);
            },
        };
        let taken: Vec<bool> = match Engine::consult(directory, &plan.rows) {
            Ok(taken) => taken,
            Err(error) => {
                return Err(error);
            },
        };
        let landed: Vec<ViewRow> = Engine::landing_of(&plan.rows, &taken);
        self.store.tables.place_rows(landed.as_slice());
        Ok(plan.receipt)
    }

    /// Rebuild the record tables from the log, given the directory's word
    /// on which rows land.
    pub fn rebuild_with(&mut self, verdict: Result<Vec<bool>, Error>) -> (outcome: Result<
        RebuildReceipt,
        Error,
    >)
        ensures
            match (rebuild_plan(old(self)@), verdict) {
                (Err(failure), _) => {
                    &&& outcome matches Err(error) && error@ == failure
                    &&& final(self)@ == old(self)@
                },
                (Ok(_), Err(refusal)) => {
                    &&& outcome == Err::<RebuildReceipt, Error>(refusal)
                    &&& final(self)@ == old(self)@
                },
                (Ok(plan), Ok(taken)) => {
                    &&& outcome matches Ok(receipt) && receipt@ == plan.receipt
                    &&& final(self)@ == with_rows(old(self)@, landed_rows(plan.rows, taken@))
                },
            },
    {
        let plan: RebuildPlan = match self.plan_rebuild() {
            Ok(plan) => plan,
            Err(error) => {
                return Err(error);
            },
        };
        match verdict {
            Ok(taken) => {
                let landed: Vec<ViewRow> = Engine::landing_of(&plan.rows, &taken);
                self.store.tables.place_rows(landed.as_slice());
                Ok(plan.receipt)
            },
            Err(refusal) => Err(refusal),
        }
    }
}

/// An import that may land.
struct ImportPlan {
    checkpoint: Checkpoint,
    suffix: Vec<VersionedCommitLogEntry>,
    rows: Vec<ViewRow>,
    receipt: ImportReceipt,
}

impl View for ImportPlan {
    type V = ImportPlanModel;

    closed spec fn view(&self) -> ImportPlanModel {
        ImportPlanModel {
            checkpoint: self.checkpoint@,
            suffix: views(self.suffix@),
            rows: views(self.rows@),
            receipt: self.receipt@,
        }
    }
}

/// The outcome of an import that a directory had its say in.
pub open spec fn imports<Directory: FamilyDirectory>(
    before: EngineModel,
    after: EngineModel,
    checkpoint: CheckpointModel,
    suffix: Seq<EntryModel>,
    directory: &Directory,
    outcome: Result<ImportReceipt, Error>,
) -> bool {
    match import_plan(before, checkpoint, suffix) {
        Err(failure) => {
            &&& outcome matches Err(error) && error@ == failure
            &&& after == before
        },
        Ok(plan) => match outcome {
            Ok(receipt) => {
                &&& receipt@ == plan.receipt
                &&& exists|taken: Seq<bool>|
                    {
                        &&& consulted(directory, plan.rows, Ok(taken))
                        &&& after == imported(
                            before,
                            plan,
                            #[trigger] landed_rows(plan.rows, taken),
                        )
                    }
            },
            Err(error) => consulted(directory, plan.rows, Err(error)) && after == before,
        },
    }
}

impl Engine {
    fn is_fresh(&self) -> (found: bool)
        ensures
            found == fresh(self@),
    {
        self.catalog.registrations().len() == 0 && self.store.latest_commit_sequence.is_none()
            && self.store.latest_snapshot.is_none() && self.store.latest_checkpoint.is_none()
            && self.store.catalog.is_empty() && CommitLog::new(&self.store).logs_empty()
    }

    /// Begin an import into a fresh store.
    pub fn begin_import(&self) -> (outcome: Result<ImportSession, Error>)
        ensures
            match outcome {
                Ok(session) => {
                    &&& import_refusal(self@) is None
                    &&& session@ == (None::<CheckpointModel>, Seq::<EntryModel>::empty())
                },
                Err(error) => import_refusal(self@) == Some(error@),
            },
    {
        if self.versioning_policy.is_none() {
            return Err(Error::versioning_not_enabled("import"));
        }
        if !self.is_fresh() {
            return Err(Error::ImportStoreNotFresh);
        }
        Ok(ImportSession::new())
    }

    /// The first table that a list of families binds twice.
    fn ensure_bound_once(families: &[FamilyIdentity]) -> (outcome: Result<(), Error>)
        ensures
            match outcome {
                Ok(()) => twice_bound(views(families@)) is None,
                Err(error) => twice_bound(views(families@)) == Some(error@),
            },
    {
        let ghost models = views(families@);
        let mut bound: Catalog = Catalog::new(Vec::new());
        let mut at: usize = 0;
        assert(models.take(0) =~= Seq::empty());
        assert(bound@ =~= models.take(0));
        while at < families.len()
            invariant
                at <= families.len(),
                models == views(families@),
                bound@ == models.take(at as int),
                twice_bound(models.take(at as int)) is None,
            decreases families.len() - at,
        {
            assert(models.take(at + 1).drop_last() =~= models.take(at as int));
            assert(models.take(at + 1).last() == families@[at as int]@);
            match bound.insert(TableRegistration::new(families[at].clone())) {
                Ok(()) => {
                    assert(bound@ =~= models.take(at + 1));
                },
                Err(error) => {
                    proof {
                        lemma_twice_bound(models, at + 1, error@);
                    }
                    return Err(error);
                },
            }
            at = at + 1;
        }
        assert(models.take(at as int) =~= models);
        Ok(())
    }

    fn plan_import(
        &self,
        checkpoint: Checkpoint,
        suffix: Vec<VersionedCommitLogEntry>,
    ) -> (outcome: Result<ImportPlan, Error>)
        ensures
            match (outcome, import_plan(self@, checkpoint@, views(suffix@))) {
                (Ok(plan), Ok(expected)) => plan@ == expected,
                (Err(error), Err(failure)) => error@ == failure,
                _ => false,
            },
            outcome matches Ok(plan) ==> {
                &&& self@.catalog.len() == 0
                &&& twice_bound(plan@.checkpoint.metadata.inventory.families) is None
                &&& plan@.suffix == views(suffix@)
            },
    {
        let policy: &VersioningPolicy = match &self.versioning_policy {
            Some(policy) => policy,
            None => {
                return Err(Error::versioning_not_enabled("import"));
            },
        };
        let metadata: &CheckpointMetadata = checkpoint.metadata();
        if *metadata.store_name() != *policy.store_name() {
            return Err(
                Error::ImportStoreNameMismatch {
                    checkpoint: metadata.store_name().as_str().to_owned(),
                    policy: policy.store_name().as_str().to_owned(),
                },
            );
        }
        // The stamped schema hash must derive from the carried families:
        // an artifact cannot bring in another identity.
        let families = metadata.family_inventory().families();
        let derived: StoreSchemaHash = StoreSchemaHash::from(families);
        if derived != metadata.store_schema_hash() {
            return Err(
                Error::CheckpointSchemaMismatch {
                    checkpoint: metadata.store_schema_hash(),
                    current: derived,
                },
            );
        }
        if !self.is_fresh() {
            return Err(Error::ImportStoreNotFresh);
        }
        let checkpoint_rows: Vec<ViewRow> = checkpoint.rows();
        let view: CanonicalView = match CanonicalView::fold(
            checkpoint_rows.as_slice(),
            suffix.as_slice(),
            Some(metadata.covered_entry_digest()),
        ) {
            Ok(view) => view,
            Err(error) => {
                return Err(error);
            },
        };
        let view_digest: ViewDigest = view.digest();
        let rows = match view.into_rows(families) {
            Ok(rows) => rows,
            Err(error) => {
                return Err(error);
            },
        };
        match Engine::ensure_bound_once(families) {
            Ok(()) => {},
            Err(error) => {
                return Err(error);
            },
        }
        assert(suffix@.len() == views(suffix@).len());
        let (commit_sequence, snapshot): (CommitSequence, SnapshotIdentifier) = if suffix.len()
            == 0 {
            (metadata.covered().last(), metadata.covered_snapshot())
        } else {
            let last = &suffix[suffix.len() - 1];
            (last.commit_sequence(), last.snapshot())
        };
        let receipt: ImportReceipt = ImportReceipt::new(
            metadata.covered(),
            suffix.len(),
            view_digest,
            rows.rows().len(),
            commit_sequence,
            snapshot,
        );
        Ok(ImportPlan { checkpoint, suffix, rows: rows.iter(), receipt })
    }

    /// Move the counters past the identifiers that operations minted.
    fn advance_counters(
        counters: &mut OrderedTable<String, u64>,
        operations: &NonEmpty<VersionedLogOperation>,
    )
        ensures
            final(counters)@ == counters_advanced(old(counters)@, views(operations@)),
    {
        let ghost base = counters@;
        let ghost models = views(operations@);
        let mut at: usize = 0;
        assert(models.take(0) =~= Seq::empty());
        while at < operations.len()
            invariant
                at <= operations@.len(),
                models == views(operations@),
                counters@ == counters_advanced(base, models.take(at as int)),
            decreases operations@.len() - at,
        {
            let operation = operations.get(at);
            assert(models.take(at + 1).drop_last() =~= models.take(at as int));
            assert(models.take(at + 1).last() == operation@);
            if operation.operation() == SemaOperation::Assert {
                match operation.key() {
                    Some(key) => match key.identifier_value() {
                        Some(identifier) => {
                            let value: u64 = identifier.value();
                            let next: u64 = if value < u64::MAX {
                                value + 1
                            } else {
                                value
                            };
                            let counter: String = operation.family().identified_counter_key();
                            let standing: Option<u64> = match counters.get(&counter) {
                                Some(found) => Some(*found),
                                None => None,
                            };
                            match standing {
                                Some(found) => {
                                    if found < next {
                                        counters.insert(counter, next);
                                    }
                                },
                                None => {
                                    counters.insert(counter, next);
                                },
                            }
                        },
                        None => {},
                    },
                    None => {},
                }
            }
            at = at + 1;
        }
        assert(models.take(at as int) =~= models);
    }

    /// Take over logged entries.
    fn log_entries(store: &mut Store, entries: &Vec<VersionedCommitLogEntry>)
        requires
            has_log_room(old(store)@, entries@.len() as int),
        ensures
            final(store)@ == entries_logged(old(store)@, views(entries@)),
    {
        let ghost base = store@;
        let ghost models = views(entries@);
        let mut at: usize = 0;
        assert(models.take(0) =~= Seq::empty());
        while at < entries.len()
            invariant
                at <= entries.len(),
                models == views(entries@),
                store@ == entries_logged(base, models.take(at as int)),
                has_log_room(store@, entries@.len() - at),
            decreases entries.len() - at,
        {
            assert(models.take(at + 1).drop_last() =~= models.take(at as int));
            assert(models.take(at + 1).last() == entries@[at as int]@);
            let entry: VersionedCommitLogEntry = entries[at].clone();
            let commit: CommitLogEntry = CommitLogEntry::from(&entries[at]);
            Engine::log_commit(store, commit, Some(entry));
            Engine::advance_counters(&mut store.tables.counters, entries[at].operations());
            at = at + 1;
        }
        assert(models.take(at as int) =~= models);
    }

    /// Restore a checkpoint's inventory, the checkpoint itself, and the
    /// cursors it covers.
    fn restore_checkpoint(store: &mut Store, checkpoint: &Checkpoint)
        ensures
            final(store)@ == checkpoint_restored(old(store)@, checkpoint@),
    {
        let ghost before = store@;
        let metadata = checkpoint.metadata();
        let families = metadata.family_inventory().families();
        let ghost family_models = views(families@);
        let mut at: usize = 0;
        assert(family_models.take(0) =~= Seq::empty());
        while at < families.len()
            invariant
                at <= families.len(),
                family_models == views(families@),
                store@ == (StoreModel {
                    catalog: families_stored(before.catalog, family_models.take(at as int)),
                    ..before
                }),
            decreases families.len() - at,
        {
            assert(family_models.take(at + 1).drop_last() =~= family_models.take(at as int));
            assert(family_models.take(at + 1).last() == families@[at as int]@);
            let registration: TableRegistration = TableRegistration::new(families[at].clone());
            store.catalog.insert(registration.table_name().to_owned(), registration);
            at = at + 1;
        }
        assert(family_models.take(at as int) =~= family_models);
        let ghost middle = store@;
        let counters = metadata.family_inventory().identified_counters();
        let ghost counter_models = views(counters@);
        let mut next: usize = 0;
        assert(counter_models.take(0) =~= Seq::empty());
        while next < counters.len()
            invariant
                next <= counters.len(),
                counter_models == views(counters@),
                store@ == (StoreModel {
                    tables: crate::tables::TablesModel {
                        counters: counters_stored(
                            middle.tables.counters,
                            counter_models.take(next as int),
                        ),
                        ..middle.tables
                    },
                    ..middle
                }),
            decreases counters.len() - next,
        {
            assert(counter_models.take(next + 1).drop_last() =~= counter_models.take(
                next as int,
            ));
            assert(counter_models.take(next + 1).last() == counters@[next as int]@);
            let counter = &counters[next];
            store.tables.counters.insert(counter.counter_key(), counter.next_identifier());
            next = next + 1;
        }
        assert(counter_models.take(next as int) =~= counter_models);
        store.latest_commit_sequence = Some(metadata.covered().last().value());
        store.latest_snapshot = Some(metadata.covered_snapshot().value());
        store.chain_head = Some(metadata.covered_entry_digest());
        let held = checkpoint.segments();
        let mut segments: Vec<CheckpointSegment> = Vec::new();
        let mut position: usize = 0;
        assert(views(segments@) =~= checkpoint@.segments.take(0));
        while position < held.len()
            invariant
                position <= held.len(),
                views(held@) == checkpoint@.segments,
                views(segments@) == checkpoint@.segments.take(position as int),
            decreases held.len() - position,
        {
            let segment: CheckpointSegment = held[position].clone();
            proof {
                lemma_views_push(segments@, segment);
                assert(views(held@)[position as int] == segment@);
                assert(checkpoint@.segments.take(position + 1) =~= checkpoint@.segments.take(
                    position as int,
                ).push(segment@));
            }
            segments.push(segment);
            position = position + 1;
        }
        assert(checkpoint@.segments.take(position as int) =~= checkpoint@.segments);
        Engine::store_checkpoint(store, metadata.clone(), segments);
    }

    fn land_import(&mut self, plan: ImportPlan, rows: Vec<ViewRow>)
        requires
            has_log_room(old(self)@.store, plan@.suffix.len() as int),
            old(self)@.catalog.len() == 0,
            twice_bound(plan@.checkpoint.metadata.inventory.families) is None,
        ensures
            final(self)@ == imported(old(self)@, plan@, views(rows@)),
    {
        let ghost before = self@;
        Engine::restore_checkpoint(&mut self.store, &plan.checkpoint);
        Engine::log_entries(&mut self.store, &plan.suffix);
        self.store.tables.place_rows(rows.as_slice());
        let families = plan.checkpoint.metadata().family_inventory().families();
        let ghost models = views(families@);
        let ghost store = self@.store;
        let mut at: usize = 0;
        assert(self@.catalog =~= before.catalog + models.take(0));
        while at < families.len()
            invariant
                at <= families.len(),
                models == views(families@),
                before.catalog.len() == 0,
                twice_bound(models) is None,
                self@ == (EngineModel {
                    store,
                    catalog: before.catalog + models.take(at as int),
                    ..before
                }),
            decreases families.len() - at,
        {
            proof {
                lemma_bound_once(models, at + 1);
                assert(models.take(at + 1).drop_last() =~= models.take(at as int));
                assert(before.catalog + models.take(at as int) =~= models.take(at as int));
            }
            let registration: TableRegistration = TableRegistration::new(families[at].clone());
            assert(models.take(at + 1).last() == registration@);
            let _inserted = self.catalog.insert(registration);
            at = at + 1;
            assert(self@.catalog =~= before.catalog + models.take(at as int));
        }
        assert(models.take(at as int) =~= models);
    }

    /// Restore a fresh store from a checkpoint and the log that continues
    /// it. Nothing is committed anew: the checkpoint and the entries are
    /// taken over as they are. A row that the directory refuses leaves
    /// the store fresh.
    pub fn apply_import<Directory: FamilyDirectory>(
        &mut self,
        checkpoint: Checkpoint,
        suffix: Vec<VersionedCommitLogEntry>,
        directory: &Directory,
    ) -> (outcome: Result<ImportReceipt, Error>)
        requires
            has_log_room(old(self)@.store, suffix@.len() as int),
        ensures
            imports(old(self)@, final(self)@, checkpoint@, views(suffix@), directory, outcome),
    {
        let plan: ImportPlan = match self.plan_import(checkpoint, suffix) {
            Ok(plan) => plan,
            Err(error) => {
                return Err(error);
            },
        };
        let ghost before = self@;
        match Engine::consult(directory, &plan.rows) {
            Ok(taken) => {
                let receipt: ImportReceipt = plan.receipt;
                self.land_taken(plan, &taken);
                proof {
                    lemma_import_taken(
                        before,
                        self@,
                        checkpoint@,
                        views(suffix@),
                        directory,
                        taken@,
                        receipt,
                    );
                }
                Ok(receipt)
            },
            Err(error) => Err(error),
        }
    }

    /// Land the rows of an import that were taken.
    fn land_taken(&mut self, plan: ImportPlan, taken: &Vec<bool>)
        requires
            has_log_room(old(self)@.store, plan@.suffix.len() as int),
            old(self)@.catalog.len() == 0,
            twice_bound(plan@.checkpoint.metadata.inventory.families) is None,
        ensures
            final(self)@ == imported(old(self)@, plan@, landed_rows(plan@.rows, taken@)),
    {
        let landed: Vec<ViewRow> = Engine::landing_of(&plan.rows, taken);
        self.land_import(plan, landed);
    }

    /// Restore a fresh store, given the directory's word on which rows land.
    pub fn import_with(
        &mut self,
        checkpoint: Checkpoint,
        suffix: Vec<VersionedCommitLogEntry>,
        verdict: Result<Vec<bool>, Error>,
    ) -> (outcome: Result<ImportReceipt, Error>)
        requires
            has_log_room(old(self)@.store, suffix@.len() as int),
        ensures
            match (import_plan(old(self)@, checkpoint@, views(suffix@)), verdict) {
                (Err(failure), _) => {
                    &&& outcome matches Err(error) && error@ == failure
                    &&& final(self)@ == old(self)@
                },
                (Ok(_), Err(refusal)) => {
                    &&& outcome == Err::<ImportReceipt, Error>(refusal)
                    &&& final(self)@ == old(self)@
                },
                (Ok(plan), Ok(taken)) => {
                    &&& outcome matches Ok(receipt) && receipt@ == plan.receipt
                    &&& final(self)@ == imported(
                        old(self)@,
                        plan,
                        landed_rows(plan.rows, taken@),
                    )
                },
            },
    {
        let plan: ImportPlan = match self.plan_import(checkpoint, suffix) {
            Ok(plan) => plan,
            Err(error) => {
                return Err(error);
            },
        };
        match verdict {
            Ok(taken) => {
                let receipt: ImportReceipt = plan.receipt;
                self.land_taken(plan, &taken);
                Ok(receipt)
            },
            Err(refusal) => Err(refusal),
        }
    }
}

/// An import that landed what a directory took.
proof fn lemma_import_taken<Directory: FamilyDirectory>(
    before: EngineModel,
    after: EngineModel,
    checkpoint: CheckpointModel,
    suffix: Seq<EntryModel>,
    directory: &Directory,
    taken: Seq<bool>,
    receipt: ImportReceipt,
)
    requires
        import_plan(before, checkpoint, suffix) is Ok,
        ({
            let plan = import_plan(before, checkpoint, suffix)->Ok_0;
            &&& consulted(directory, plan.rows, Ok(taken))
            &&& receipt@ == plan.receipt
            &&& after == imported(before, plan, landed_rows(plan.rows, taken))
        }),
    ensures
        imports(before, after, checkpoint, suffix, directory, Ok(receipt)),
{
    let plan = import_plan(before, checkpoint, suffix)->Ok_0;
    let rows = landed_rows(plan.rows, taken);
    assert(after == imported(before, plan, rows));
}

proof fn lemma_twice_bound(families: Seq<FamilyModel>, at: int, failure: Failure)
    requires
        0 <= at <= families.len(),
        twice_bound(families.take(at)) == Some(failure),
    ensures
        twice_bound(families) == Some(failure),
    decreases families.len() - at,
{
    if at == families.len() {
        assert(families.take(at) =~= families);
    } else {
        assert(families.take(at + 1).drop_last() =~= families.take(at));
        lemma_twice_bound(families, at + 1, failure);
    }
}

proof fn lemma_bound_once(families: Seq<FamilyModel>, at: int)
    requires
        0 <= at <= families.len(),
        twice_bound(families) is None,
    ensures
        twice_bound(families.take(at)) is None,
{
    if twice_bound(families.take(at)) is Some {
        lemma_twice_bound(families, at, twice_bound(families.take(at))->0);
    }
}

/// A single write takes the room of one commit and leaves the catalog.
proof fn lemma_write_room(
    engine: EngineModel,
    table: Seq<char>,
    write: WriteModel,
    commits: int,
)
    requires
        has_room(engine, commits),
        commits >= 1,
    ensures
        write_outcome(engine, table, write) matches Ok(after) ==> has_room(after, commits - 1)
            && after.catalog == engine.catalog,
{
}

proof fn lemma_replay_stops(
    engine: EngineModel,
    table: Seq<char>,
    family: FamilyModel,
    operations: Seq<OperationModel>,
    reads: Seq<Option<Seq<char>>>,
    at: int,
)
    requires
        0 <= at <= operations.len(),
        replayed(engine, table, family, operations.take(at), reads).refusal is Some,
    ensures
        replayed(engine, table, family, operations, reads) == replayed(
            engine,
            table,
            family,
            operations.take(at),
            reads,
        ),
    decreases operations.len() - at,
{
    if at == operations.len() {
        assert(operations.take(at) =~= operations);
    } else {
        assert(operations.take(at + 1).drop_last() =~= operations.take(at));
        lemma_replay_stops(engine, table, family, operations, reads, at + 1);
    }
}

proof fn lemma_operations_split(entries: Seq<EntryModel>, at: int)
    requires
        0 <= at <= entries.len(),
    ensures
        all_operations(entries.take(at)).len() <= all_operations(entries).len(),
        all_operations(entries).take(all_operations(entries.take(at)).len() as int)
            == all_operations(entries.take(at)),
    decreases entries.len() - at,
{
    if at == entries.len() {
        assert(entries.take(at) =~= entries);
        assert(all_operations(entries).take(all_operations(entries).len() as int)
            =~= all_operations(entries));
    } else {
        assert(entries.take(at + 1).drop_last() =~= entries.take(at));
        lemma_operations_split(entries, at + 1);
        let less = all_operations(entries.take(at));
        let more = all_operations(entries.take(at + 1));
        assert(more.take(less.len() as int) =~= less);
        assert(all_operations(entries).take(less.len() as int) =~= more.take(less.len() as int));
    }
}

impl Engine {
    /// Replay one operation of the registered family into its table.
    fn replay_once(
        &mut self,
        table: TableName,
        family: &FamilyIdentity,
        operation: &VersionedLogOperation,
        read: Result<(), String>,
    ) -> (outcome: Result<(), Error>)
        requires
            has_room(old(self)@, 1),
        ensures
            settles(
                old(self)@,
                final(self)@,
                outcome,
                replayed_once(old(self)@, table@, family@, operation@, message_view(read)),
            ),
    {
        match Engine::replayed_write(table, family, operation, read) {
            Ok(write) => match self.write_once(table, write) {
                Ok(_) => Ok(()),
                Err(error) => Err(error),
            },
            Err(error) => Err(error),
        }
    }

    /// The write that a replayed operation comes to, given what reading its
    /// record back came to.
    fn replayed_write(
        table: TableName,
        family: &FamilyIdentity,
        operation: &VersionedLogOperation,
        read: Result<(), String>,
    ) -> (outcome: Result<WriteOperation<EncodedRecord>, Error>)
        ensures
            match (outcome, replay_write(table@, family@, operation@, message_view(read))) {
                (Ok(write), Ok(expected)) => write_model(write) == expected,
                (Err(error), Err(failure)) => error@ == failure,
                _ => false,
            },
    {
        let key: RecordKey = match operation.key() {
            Some(key) => key.clone(),
            None => {
                return Err(
                    Error::ReplayMissingKey { family: family.family().as_str().to_owned() },
                );
            },
        };
        match operation.operation() {
            SemaOperation::Assert => match Engine::replayed_record(table, operation, read) {
                Ok(bytes) => Ok(WriteOperation::Assert(EncodedRecord::new(key, bytes))),
                Err(error) => Err(error),
            },
            SemaOperation::Mutate => match Engine::replayed_record(table, operation, read) {
                Ok(bytes) => Ok(WriteOperation::Mutate(EncodedRecord::new(key, bytes))),
                Err(error) => Err(error),
            },
            SemaOperation::Retract => Ok(WriteOperation::Retract(key)),
            other => Err(
                Error::ReplayUnsupportedOperation { operation: other.as_record_head().to_owned() },
            ),
        }
    }

    /// The record of a replayed operation, given what reading it back came
    /// to.
    fn replayed_record(
        table: TableName,
        operation: &VersionedLogOperation,
        read: Result<(), String>,
    ) -> (outcome: Result<Vec<u8>, Error>)
        ensures
            match (outcome, replay_record(table@, operation@, message_view(read))) {
                (Ok(found), Ok(bytes)) => found@ == bytes,
                (Err(error), Err(failure)) => error@ == failure,
                _ => false,
            },
    {
        match operation.payload() {
            VersionedPayload::Tombstone => Err(
                Error::ReplayTombstonePayload { table: table.as_str().to_owned() },
            ),
            VersionedPayload::Record { bytes } => match read {
                Ok(_) => Ok(bytes.duplicate()),
                Err(message) => Err(
                    Error::VersionedPayloadDecode { table: table.as_str().to_owned(), message },
                ),
            },
        }
    }

    /// Replay versioned entries, reading each record back through `reader`
    /// before it is written.
    fn replay_through<RecordValue, Reader: RecordReader>(
        &mut self,
        replay: VersionedReplay<RecordValue>,
        reader: &Reader,
    ) -> (outcome: (Result<ReplayReceipt, Error>, Ghost<Seq<Option<Seq<char>>>>))
        requires
            has_room(old(self)@, all_operations(replay@.1).len() as int),
            all_operations(replay@.1).len() <= usize::MAX,
        ensures
            replays(
                old(self)@,
                final(self)@,
                replay@.0,
                replay@.1,
                outcome.1@,
                outcome.0,
            ),
            family_at(old(self)@.catalog, replay@.0) matches Some(family) ==> read_through(
                reader,
                family,
                all_operations(replay@.1),
                outcome.1@,
            ),
    {
        let table: TableName = *replay.table().name();
        let ghost mut reads: Seq<Option<Seq<char>>> = Seq::empty();
        let family: FamilyIdentity = match self.catalog.family_identity(&table) {
            Some(family) => family.clone(),
            None => {
                return (
                    Err(Error::TableNotRegistered { table: table.as_str().to_owned() }),
                    Ghost(reads),
                );
            },
        };
        let entries = replay.entries();
        let ghost before = self@;
        let ghost logged_entries = views(entries@);
        let ghost all = all_operations(logged_entries);
        let mut applied: usize = 0;
        let mut skipped: usize = 0;
        let mut at: usize = 0;
        assert(logged_entries.take(0) =~= Seq::empty());
        while at < entries.len()
            invariant
                at <= entries.len(),
                logged_entries == views(entries@),
                all == all_operations(logged_entries),
                all.len() <= usize::MAX,
                replayed(
                    before,
                    table@,
                    family@,
                    all_operations(logged_entries.take(at as int)),
                    reads,
                ) == (ReplayModel {
                    engine: self@,
                    applied: applied as nat,
                    skipped: skipped as nat,
                    refusal: None,
                }),
                applied + skipped == all_operations(logged_entries.take(at as int)).len(),
                reads.len() == applied + skipped,
                read_through(reader, family@, all, reads),
                has_room(self@, all.len() - all_operations(logged_entries.take(at as int)).len()),
                before == old(self)@,
                replay@.0 == table@,
                replay@.1 == logged_entries,
                family_at(before.catalog, table@) == Some(family@),
            decreases entries.len() - at,
        {
            let operations = entries[at].operations();
            let ghost done = all_operations(logged_entries.take(at as int));
            let ghost models = views(operations@);
            proof {
                assert(logged_entries.take(at + 1).drop_last() =~= logged_entries.take(at as int));
                assert(logged_entries.take(at + 1).last() == entries@[at as int]@);
                lemma_operations_split(logged_entries, at + 1);
                assert(models.take(0) =~= Seq::empty());
                assert(done + models.take(0) =~= done);
            }
            let mut position: usize = 0;
            while position < operations.len()
                invariant
                    position <= operations@.len(),
                    models == views(operations@),
                    all == all_operations(logged_entries),
                    all.len() <= usize::MAX,
                    done.len() + models.len() <= all.len(),
                    all.take((done.len() + models.len()) as int) == done + models,
                    replayed(before, table@, family@, done + models.take(position as int), reads)
                        == (ReplayModel {
                        engine: self@,
                        applied: applied as nat,
                        skipped: skipped as nat,
                        refusal: None,
                    }),
                    applied + skipped == done.len() + position,
                    reads.len() == applied + skipped,
                    read_through(reader, family@, all, reads),
                    has_room(self@, all.len() - done.len() - position),
                    before == old(self)@,
                    replay@.0 == table@,
                    replay@.1 == logged_entries,
                    family_at(before.catalog, table@) == Some(family@),
                decreases operations@.len() - position,
            {
                let operation = operations.get(position);
                let ghost reached = done + models.take(position + 1);
                let ghost earlier = reads;
                proof {
                    assert(reached.drop_last() =~= done + models.take(position as int));
                    assert(reached.last() == operation@);
                    assert(all.take(done.len() + position + 1) =~= reached) by {
                        assert((done + models).take(done.len() + position + 1) =~= reached);
                    }
                    assert(all[done.len() + position] == operation@) by {
                        assert(all.take(done.len() + position + 1).last() == reached.last());
                    }
                }
                let read: Result<(), String> = Engine::read_operation(
                    reader,
                    &family,
                    operation,
                    applied + skipped,
                );
                proof {
                    reads = reads.push(message_view(read));
                    lemma_reads_alike(
                        before,
                        table@,
                        family@,
                        reached.drop_last(),
                        earlier,
                        reads,
                    );
                    assert(read_at(reads, reached.len() - 1) == message_view(read));
                    assert(read_through(reader, family@, all, reads)) by {
                        assert forall|i: int| 0 <= i < reads.len() implies read_for(
                            reader,
                            family@,
                            i,
                            all[i],
                            #[trigger] reads[i],
                        ) by {
                            if i < earlier.len() {
                                assert(reads[i] == earlier[i]);
                            }
                        }
                    }
                }
                if !operation.family().shares_family(&family) {
                    skipped = skipped + 1;
                } else {
                    let ghost standing = self@;
                    match self.replay_once(table, &family, operation, read) {
                        Ok(()) => {
                            proof {
                                lemma_replay_room(
                                    standing,
                                    table@,
                                    family@,
                                    operation@,
                                    message_view(read),
                                    all.len() - done.len() - position,
                                );
                            }
                            applied = applied + 1;
                        },
                        Err(error) => {
                            proof {
                                lemma_replay_stops(
                                    before,
                                    table@,
                                    family@,
                                    all,
                                    reads,
                                    done.len() + position + 1,
                                );
                            }
                            return (Err(error), Ghost(reads));
                        },
                    }
                }
                position = position + 1;
            }
            assert(models.take(position as int) =~= models);
            at = at + 1;
        }
        assert(logged_entries.take(at as int) =~= logged_entries);
        (Ok(ReplayReceipt::new(applied, skipped)), Ghost(reads))
    }

    /// Read the record of a replayed operation back, where it has one to
    /// read.
    fn read_operation<Reader: RecordReader>(
        reader: &Reader,
        family: &FamilyIdentity,
        operation: &VersionedLogOperation,
        at: usize,
    ) -> (read: Result<(), String>)
        ensures
            read_for(reader, family@, at as int, operation@, message_view(read)),
    {
        if !operation.family().shares_family(family) || operation.key().is_none() {
            return Ok(());
        }
        match operation.operation() {
            SemaOperation::Assert | SemaOperation::Mutate => match operation.payload() {
                VersionedPayload::Record { bytes } => reader.read(at, bytes.as_slice()),
                VersionedPayload::Tombstone => Ok(()),
            },
            _ => Ok(()),
        }
    }

    /// Replay versioned entries into the registered family of a table.
    /// Operations are told apart by family identity, so entries logged
    /// under an earlier table name land in the family's current table.
    /// Each record is read back before it is written, and each operation is
    /// a write of its own, so the store logs its own complete history; what
    /// was applied before a refusal stands.
    pub fn replay_versioned<RecordValue: EngineStoredValue>(
        &mut self,
        replay: VersionedReplay<RecordValue>,
    ) -> (outcome: Result<ReplayReceipt, Error>)
        requires
            has_room(old(self)@, all_operations(replay@.1).len() as int),
            all_operations(replay@.1).len() <= usize::MAX,
        ensures
            exists|reads: Seq<Option<Seq<char>>>|
                {
                    &&& #[trigger] replays(
                        old(self)@,
                        final(self)@,
                        replay@.0,
                        replay@.1,
                        reads,
                        outcome,
                    )
                    &&& family_at(old(self)@.catalog, replay@.0) matches Some(family)
                        ==> reads_back::<RecordValue>(family, all_operations(replay@.1), reads)
                },
    {
        let reader: TypedReader<RecordValue> = TypedReader { record: PhantomData };
        let (outcome, Ghost(reads)) = self.replay_through(replay, &reader);
        proof {
            let all = all_operations(replay@.1);
            if let Some(family) = family_at(old(self)@.catalog, replay@.0) {
                assert forall|i: int| 0 <= i < reads.len() implies if reads_record(
                    family,
                    all[i],
                ) {
                    read_as::<RecordValue>(all[i].payload->0, #[trigger] reads[i])
                } else {
                    reads[i] is None
                } by {
                    assert(read_for(&reader, family, i, all[i], reads[i]));
                }
            }
        }
        outcome
    }

    /// Replay versioned entries, given what reading the record of each of
    /// their operations back came to. A record without a word on it read
    /// back.
    pub fn replay_versioned_read<RecordValue>(
        &mut self,
        replay: VersionedReplay<RecordValue>,
        reads: Vec<Result<(), String>>,
    ) -> (outcome: Result<ReplayReceipt, Error>)
        requires
            has_room(old(self)@, all_operations(replay@.1).len() as int),
            all_operations(replay@.1).len() <= usize::MAX,
        ensures
            ({
                let expected = replay_outcome(
                    old(self)@,
                    replay@.0,
                    replay@.1,
                    message_views(reads@),
                );
                &&& final(self)@ == expected.engine
                &&& match outcome {
                    Ok(receipt) => {
                        &&& expected.refusal is None
                        &&& receipt@.0 == expected.applied
                        &&& receipt@.1 == expected.skipped
                    },
                    Err(error) => expected.refusal == Some(error@),
                }
            }),
    {
        let ghost given = message_views(reads@);
        let reader: GivenReads = GivenReads { reads };
        let (outcome, Ghost(found)) = self.replay_through(replay, &reader);
        proof {
            let all = all_operations(replay@.1);
            if let Some(family) = family_at(old(self)@.catalog, replay@.0) {
                assert forall|i: int|
                    0 <= i < found.len() && reads_record(family, #[trigger] all[i]) implies read_at(
                    found,
                    i,
                ) == read_at(given, i) by {
                    assert(read_for(&reader, family, i, all[i], found[i]));
                }
                lemma_reads_given(old(self)@, replay@.0, family, all, found, given);
            }
        }
        outcome
    }
}

/// Reads the records of replayed operations back.
trait RecordReader {
    /// Reading the record of an operation back came to this.
    spec fn found(&self, at: int, payload: Seq<u8>, unread: Option<Seq<char>>) -> bool;

    fn read(&self, at: usize, bytes: &[u8]) -> (answer: Result<(), String>)
        ensures
            self.found(at as int, bytes@, message_view(answer)),
    ;
}

/// Reads records back as one type.
struct TypedReader<RecordValue> {
    record: PhantomData<RecordValue>,
}

impl<RecordValue: EngineStoredValue> RecordReader for TypedReader<RecordValue> {
    closed spec fn found(&self, at: int, payload: Seq<u8>, unread: Option<Seq<char>>) -> bool {
        read_as::<RecordValue>(payload, unread)
    }

    fn read(&self, _at: usize, bytes: &[u8]) -> (answer: Result<(), String>) {
        read_stored::<RecordValue>(bytes)
    }
}

/// What reading came to, operation by operation.
struct GivenReads {
    reads: Vec<Result<(), String>>,
}

impl RecordReader for GivenReads {
    closed spec fn found(&self, at: int, payload: Seq<u8>, unread: Option<Seq<char>>) -> bool {
        unread == read_at(message_views(self.reads@), at)
    }

    fn read(&self, at: usize, _bytes: &[u8]) -> (answer: Result<(), String>) {
        if at < self.reads.len() {
            match &self.reads[at] {
                Ok(_) => Ok(()),
                Err(message) => Err(message.clone()),
            }
        } else {
            Ok(())
        }
    }
}

/// Why records did not read back, one for one.
pub open spec fn message_views(reads: Seq<Result<(), String>>) -> Seq<Option<Seq<char>>> {
    Seq::new(reads.len(), |i: int| message_view(reads[i]))
}

/// A reader had its say on an operation: nothing is read where there is no
/// record to write.
spec fn read_for<Reader: RecordReader>(
    reader: &Reader,
    family: FamilyModel,
    at: int,
    operation: OperationModel,
    unread: Option<Seq<char>>,
) -> bool {
    if reads_record(family, operation) {
        reader.found(at, operation.payload->0, unread)
    } else {
        unread is None
    }
}

/// A reader had its say on operations, one after the other.
spec fn read_through<Reader: RecordReader>(
    reader: &Reader,
    family: FamilyModel,
    operations: Seq<OperationModel>,
    reads: Seq<Option<Seq<char>>>,
) -> bool {
    &&& reads.len() <= operations.len()
    &&& forall|i: int|
        0 <= i < reads.len() ==> read_for(reader, family, i, operations[i], #[trigger] reads[i])
}

/// The records of operations were read back as one type, one after the
/// other: every assertion and mutation of the family, and nothing else.
pub open spec fn reads_back<RecordValue: EngineStoredValue>(
    family: FamilyModel,
    operations: Seq<OperationModel>,
    reads: Seq<Option<Seq<char>>>,
) -> bool {
    &&& reads.len() <= operations.len()
    &&& forall|i: int|
        0 <= i < reads.len() ==> if reads_record(family, operations[i]) {
            read_as::<RecordValue>(operations[i].payload->0, #[trigger] reads[i])
        } else {
            reads[i] is None
        }
}

/// The outcome of a replay that read this of the records: every operation
/// was read up to the one that was refused, or all of them.
pub open spec fn replays(
    before: EngineModel,
    after: EngineModel,
    table: Seq<char>,
    entries: Seq<EntryModel>,
    reads: Seq<Option<Seq<char>>>,
    outcome: Result<ReplayReceipt, Error>,
) -> bool {
    let expected = replay_outcome(before, table, entries, reads);
    &&& after == expected.engine
    &&& match outcome {
        Ok(receipt) => {
            &&& expected.refusal is None
            &&& receipt@.0 == expected.applied
            &&& receipt@.1 == expected.skipped
            &&& reads.len() == all_operations(entries).len()
        },
        Err(error) => {
            &&& expected.refusal == Some(error@)
            &&& family_at(before.catalog, table) is Some ==> reads.len() == expected.applied
                + expected.skipped + 1
        },
    }
}

/// Only what is said of the operations at hand counts.
proof fn lemma_reads_alike(
    engine: EngineModel,
    table: Seq<char>,
    family: FamilyModel,
    operations: Seq<OperationModel>,
    a: Seq<Option<Seq<char>>>,
    b: Seq<Option<Seq<char>>>,
)
    requires
        forall|i: int| 0 <= i < operations.len() ==> read_at(a, i) == #[trigger] read_at(b, i),
    ensures
        replayed(engine, table, family, operations, a) == replayed(
            engine,
            table,
            family,
            operations,
            b,
        ),
    decreases operations.len(),
{
    if operations.len() > 0 {
        lemma_reads_alike(engine, table, family, operations.drop_last(), a, b);
        assert(read_at(a, operations.len() - 1) == read_at(b, operations.len() - 1));
    }
}

/// Only what is said of records that are read counts.
proof fn lemma_reads_matter(
    engine: EngineModel,
    table: Seq<char>,
    family: FamilyModel,
    operations: Seq<OperationModel>,
    a: Seq<Option<Seq<char>>>,
    b: Seq<Option<Seq<char>>>,
)
    requires
        forall|i: int|
            0 <= i < operations.len() && reads_record(family, #[trigger] operations[i])
                ==> read_at(a, i) == read_at(b, i),
    ensures
        replayed(engine, table, family, operations, a) == replayed(
            engine,
            table,
            family,
            operations,
            b,
        ),
    decreases operations.len(),
{
    if operations.len() > 0 {
        let less = operations.drop_last();
        assert forall|i: int|
            0 <= i < less.len() && reads_record(family, #[trigger] less[i]) implies read_at(a, i)
            == read_at(b, i) by {
            assert(less[i] == operations[i]);
        }
        lemma_reads_matter(engine, table, family, less, a, b);
        let operation = operations[operations.len() - 1];
        if reads_record(family, operation) {
            assert(read_at(a, operations.len() - 1) == read_at(b, operations.len() - 1));
        }
    }
}

/// A replay that read what was given of every operation it walked comes to
/// what is given.
proof fn lemma_reads_given(
    engine: EngineModel,
    table: Seq<char>,
    family: FamilyModel,
    operations: Seq<OperationModel>,
    found: Seq<Option<Seq<char>>>,
    given: Seq<Option<Seq<char>>>,
)
    requires
        found.len() <= operations.len(),
        ({
            let made = replayed(engine, table, family, operations, found);
            &&& made.refusal is None ==> found.len() == operations.len()
            &&& made.refusal is Some ==> found.len() == made.applied + made.skipped + 1
        }),
        forall|i: int|
            0 <= i < found.len() && reads_record(family, #[trigger] operations[i]) ==> read_at(
                found,
                i,
            ) == read_at(given, i),
    ensures
        replayed(engine, table, family, operations, given) == replayed(
            engine,
            table,
            family,
            operations,
            found,
        ),
{
    let count = found.len() as int;
    let walked = operations.take(count);
    assert forall|i: int|
        0 <= i < walked.len() && reads_record(family, #[trigger] walked[i]) implies read_at(
        found,
        i,
    ) == read_at(given, i) by {
        assert(walked[i] == operations[i]);
    }
    lemma_reads_matter(engine, table, family, walked, found, given);
    if replayed(engine, table, family, operations, found).refusal is Some {
        lemma_replay_stops_at(engine, table, family, operations, found, count);
        lemma_replay_stops(engine, table, family, operations, given, count);
        lemma_replay_stops(engine, table, family, operations, found, count);
    } else {
        assert(walked =~= operations);
    }
}

/// A replay walks every operation, or all up to the one that is refused.
proof fn lemma_replay_walks(
    engine: EngineModel,
    table: Seq<char>,
    family: FamilyModel,
    operations: Seq<OperationModel>,
    reads: Seq<Option<Seq<char>>>,
)
    ensures
        ({
            let made = replayed(engine, table, family, operations, reads);
            &&& made.refusal is None ==> made.applied + made.skipped == operations.len()
            &&& made.refusal is Some ==> made.applied + made.skipped < operations.len()
        }),
    decreases operations.len(),
{
    if operations.len() > 0 {
        lemma_replay_walks(engine, table, family, operations.drop_last(), reads);
    }
}

/// A refused replay stopped right after the operations it walked.
proof fn lemma_replay_stops_at(
    engine: EngineModel,
    table: Seq<char>,
    family: FamilyModel,
    operations: Seq<OperationModel>,
    reads: Seq<Option<Seq<char>>>,
    count: int,
)
    requires
        ({
            let made = replayed(engine, table, family, operations, reads);
            made.refusal is Some && count == made.applied + made.skipped + 1
        }),
    ensures
        0 < count <= operations.len(),
        replayed(engine, table, family, operations.take(count), reads).refusal is Some,
    decreases operations.len(),
{
    lemma_replay_walks(engine, table, family, operations, reads);
    let less = operations.drop_last();
    lemma_replay_walks(engine, table, family, less, reads);
    if replayed(engine, table, family, less, reads).refusal is Some {
        lemma_replay_stops_at(engine, table, family, less, reads, count);
        assert(operations.take(count) =~= less.take(count));
    } else {
        assert(operations.take(count) =~= operations);
    }
}

proof fn lemma_replay_room(
    engine: EngineModel,
    table: Seq<char>,
    family: FamilyModel,
    operation: OperationModel,
    unread: Option<Seq<char>>,
    commits: int,
)
    requires
        has_room(engine, commits),
        commits >= 1,
    ensures
        replayed_once(engine, table, family, operation, unread) matches Ok(after) ==> has_room(
            after,
            commits - 1,
        ),
{
    if let Ok(write) = replay_write(table, family, operation, unread) {
        lemma_write_room(engine, table, write, commits);
    }
}

/// What a subscriber is handed first holds the records due.
pub open spec fn starts_with(
    engine: EngineModel,
    table: Seq<char>,
    records: Seq<RecordModel>,
    initial: InitialModel<EncodedRecord>,
) -> bool {
    &&& initial.handle == next_handle(engine, table)
    &&& initial.snapshot.operation == SemaOperation::Match
    &&& initial.snapshot.table == table
    &&& initial.snapshot.database_marker == standing_marker(engine)
    &&& views(initial.snapshot.records) == records
}

/// A subscription that was taken up: recorded, live, and its receipt
/// carrying what the subscriber was handed first.
pub open spec fn taken_up(
    before: EngineModel,
    after: EngineModel,
    plan: PlanModel,
    records: Seq<RecordModel>,
    receipt: SubscriptionReceipt<EncodedRecord>,
) -> bool {
    &&& after == subscribed(before, next_handle(before, plan.table), plan.filter)
    &&& receipt@.handle == next_handle(before, plan.table)
    &&& starts_with(before, plan.table, records, receipt@.initial)
}

/// A sink gave this answer when it was handed the records due.
pub open spec fn greeted<Sink: SubscriptionSink<EncodedRecord>>(
    engine: EngineModel,
    table: Seq<char>,
    records: Seq<RecordModel>,
    sink: &Sink,
    answer: Result<(), SinkError>,
) -> bool {
    exists|initial: InitialSnapshot<EncodedRecord>|
        starts_with(engine, table, records, initial@) && #[trigger] call_ensures(
            Sink::deliver,
            (sink, SubscriptionEvent::InitialSnapshot(initial)),
            answer,
        )
}

/// A subscription identifier can be minted.
pub open spec fn has_subscription_room(engine: EngineModel) -> bool {
    engine.store.next_subscription matches Some(id) ==> id < u64::MAX
}

impl Engine {
    /// What the subscriber of a plan is handed first.
    fn initial_snapshot<RecordValue>(&self, plan: &QueryPlan<RecordValue>) -> (outcome: Result<
        InitialSnapshot<EncodedRecord>,
        Error,
    >)
        ensures
            match (outcome, matched(self@, plan@)) {
                (Ok(initial), Ok(records)) => starts_with(
                    self@,
                    plan@.table,
                    records,
                    initial@,
                ),
                (Err(error), Err(failure)) => error@ == failure,
                _ => false,
            },
            outcome is Ok && lists_rows(plan@.node) ==> text_listed(
                domain_rows(standing_tables(self@).records, plan@.table),
            ),
    {
        match self.query(plan) {
            Ok(snapshot) => {
                let id: SubscriptionId = match self.store.next_subscription {
                    Some(id) => SubscriptionId::new(id),
                    None => SubscriptionId::first(),
                };
                let handle: SubscriptionHandle = SubscriptionHandle::new(
                    id,
                    *plan.table().name(),
                    snapshot.snapshot(),
                );
                Ok(InitialSnapshot::new(handle, snapshot))
            },
            Err(error) => Err(error),
        }
    }

    /// A second copy of what a subscriber is handed first.
    fn copy_initial(initial: &InitialSnapshot<EncodedRecord>) -> (copy: InitialSnapshot<
        EncodedRecord,
    >)
        ensures
            copy@.handle == initial@.handle,
            copy@.snapshot.operation == initial@.snapshot.operation,
            copy@.snapshot.table == initial@.snapshot.table,
            copy@.snapshot.database_marker == initial@.snapshot.database_marker,
            views(copy@.snapshot.records) == views(initial@.snapshot.records),
    {
        let snapshot = initial.snapshot();
        let held = snapshot.records();
        let ghost expected = views(held@);
        let mut records: Vec<EncodedRecord> = Vec::new();
        let mut at: usize = 0;
        assert(views(records@) =~= expected.take(0));
        while at < held.len()
            invariant
                at <= held.len(),
                expected == views(held@),
                views(records@) == expected.take(at as int),
            decreases held.len() - at,
        {
            let record: EncodedRecord = held[at].clone();
            proof {
                lemma_views_push(records@, record);
                assert(expected.take(at + 1) =~= expected.take(at as int).push(record@));
            }
            records.push(record);
            at = at + 1;
        }
        assert(expected.take(at as int) =~= expected);
        InitialSnapshot::new(
            initial.handle(),
            QuerySnapshot::new(
                snapshot.operation(),
                *snapshot.table(),
                snapshot.database_marker(),
                records,
            ),
        )
    }

    /// Record a subscription and make it live.
    fn persist_subscription(&mut self, handle: SubscriptionHandle, filter: QueryFilter)
        requires
            handle@.id < u64::MAX,
        ensures
            final(self)@ == subscribed(old(self)@, handle@, filter@),
    {
        let registration: SubscriptionRegistration = SubscriptionRegistration::new(
            handle,
            filter.clone(),
        );
        self.store.subscriptions.insert(handle.id().value(), registration);
        self.store.next_subscription = Some(handle.id().next().value());
        self.subscriptions.add_subscription(ActiveSubscription::new(handle, filter));
    }

    /// Subscribe a sink to the writes that a plan's filter accepts. The
    /// sink is handed the records that stand; if it does not take them,
    /// there is no subscription.
    pub fn subscribe<RecordValue, Sink: SubscriptionSink<EncodedRecord>>(
        &mut self,
        plan: QueryPlan<RecordValue>,
        sink: &Sink,
    ) -> (outcome: Result<SubscriptionReceipt<EncodedRecord>, Error>)
        requires
            has_subscription_room(old(self)@),
        ensures
            match matched(old(self)@, plan@) {
                Err(failure) => {
                    &&& outcome matches Err(error) && error@ == failure
                    &&& final(self)@ == old(self)@
                },
                Ok(records) => match outcome {
                    Ok(receipt) => {
                        &&& greeted(old(self)@, plan@.table, records, sink, Ok(()))
                        &&& taken_up(old(self)@, final(self)@, plan@, records, receipt)
                    },
                    Err(error) => {
                        &&& exists|refusal: SinkError|
                            {
                                &&& #[trigger] greeted(
                                    old(self)@,
                                    plan@.table,
                                    records,
                                    sink,
                                    Err(refusal),
                                )
                                &&& error@ == (Failure::SubscriptionSink { message: refusal@ })
                            }
                        &&& final(self)@ == old(self)@
                    },
                },
            },
            outcome is Ok && lists_rows(plan@.node) ==> text_listed(
                domain_rows(standing_tables(old(self)@).records, plan@.table),
            ),
    {
        let initial: InitialSnapshot<EncodedRecord> = match self.initial_snapshot(&plan) {
            Ok(initial) => initial,
            Err(error) => {
                return Err(error);
            },
        };
        let copy: InitialSnapshot<EncodedRecord> = Engine::copy_initial(&initial);
        let ghost handed = copy;
        let delivered: Result<(), SinkError> = sink.deliver(
            SubscriptionEvent::InitialSnapshot(copy),
        );
        assert(call_ensures(
            Sink::deliver,
            (sink, SubscriptionEvent::InitialSnapshot(handed)),
            delivered,
        ));
        match delivered {
            Ok(unit) => {
                assert(unit == ());
            },
            Err(error) => {
                assert(greeted(
                    old(self)@,
                    plan@.table,
                    matched(old(self)@, plan@)->Ok_0,
                    sink,
                    Err(error),
                ));
                return Err(Error::SubscriptionSink { message: error.message().to_owned() });
            },
        }
        let handle: SubscriptionHandle = initial.handle();
        self.persist_subscription(handle, plan.filter().clone());
        Ok(SubscriptionReceipt::new(handle, initial))
    }

    /// Subscribe, given what the sink said to the records that stand.
    pub fn subscribe_with<RecordValue>(
        &mut self,
        plan: QueryPlan<RecordValue>,
        delivered: Result<(), SinkError>,
    ) -> (outcome: Result<SubscriptionReceipt<EncodedRecord>, Error>)
        requires
            has_subscription_room(old(self)@),
        ensures
            match (matched(old(self)@, plan@), delivered) {
                (Err(failure), _) => {
                    &&& outcome matches Err(error) && error@ == failure
                    &&& final(self)@ == old(self)@
                },
                (Ok(_), Err(refusal)) => {
                    &&& outcome matches Err(error) && error@ == (Failure::SubscriptionSink {
                        message: refusal@,
                    })
                    &&& final(self)@ == old(self)@
                },
                (Ok(records), Ok(())) => {
                    outcome matches Ok(receipt) && taken_up(
                        old(self)@,
                        final(self)@,
                        plan@,
                        records,
                        receipt,
                    )
                },
            },
            outcome is Ok && lists_rows(plan@.node) ==> text_listed(
                domain_rows(standing_tables(old(self)@).records, plan@.table),
            ),
    {
        let initial: InitialSnapshot<EncodedRecord> = match self.initial_snapshot(&plan) {
            Ok(initial) => initial,
            Err(error) => {
                return Err(error);
            },
        };
        match delivered {
            Ok(()) => {},
            Err(error) => {
                return Err(Error::SubscriptionSink { message: error.message().to_owned() });
            },
        }
        let handle: SubscriptionHandle = initial.handle();
        self.persist_subscription(handle, plan.filter().clone());
        Ok(SubscriptionReceipt::new(handle, initial))
    }

    /// Begin a group of writes over several tables.
    pub fn begin_atomic_commit(&self) -> (group: AtomicCommit)
        ensures
            group@ == Seq::<(Seq<char>, WriteModel)>::empty(),
    {
        AtomicCommit::new()
    }

    /// Commit a group of writes over several tables together, or none of
    /// them.
    pub fn commit_atomic(&mut self, commit: AtomicCommit) -> (outcome: Result<
        AtomicCommitReceipt,
        Error,
    >)
        requires
            has_room(old(self)@, 1),
        ensures
            settles(
                old(self)@,
                final(self)@,
                outcome,
                atomic_outcome(old(self)@, commit@),
            ),
            outcome matches Ok(receipt) ==> receipt@ == (AtomicReceiptModel {
                commit_sequence: standing_sequence(final(self)@),
                snapshot: standing_snapshot(final(self)@),
                operation_count: commit@.len() as usize,
            }),
    {
        let group = commit.writes();
        if group.len() == 0 {
            return Err(Error::EmptyAtomicCommit);
        }
        let ghost tables = standing_tables(self@);
        let ghost models = group_models(group@);
        let mut writes: Vec<Write> = Vec::new();
        let mut at: usize = 0;
        assert(models.take(0) =~= Seq::empty());
        assert(views(writes@) =~= Seq::empty());
        while at < group.len()
            invariant
                at <= group.len(),
                self@ == old(self)@,
                tables == standing_tables(self@),
                models == group_models(group@),
                models == commit@,
                models.len() >= 1,
                planned_across(self@.catalog, tables, models.take(at as int)) == Ok::<
                    Seq<WriteFact>,
                    Failure,
                >(views(writes@)),
                writes@.len() == at,
                forall|i: int|
                    0 <= i < writes@.len() ==> registered(
                        self@.catalog,
                        (#[trigger] writes@[i])@.table,
                    ) && writes@[i]@.slot is Domain,
            decreases group.len() - at,
        {
            let table: TableName = group[at].0;
            let operation = &group[at].1;
            assert(models.take(at + 1).drop_last() =~= models.take(at as int));
            assert(models.take(at + 1).last() == (table@, write_model(*operation)));
            let key: RecordKey = Engine::key_of(operation);
            if Engine::names_already(&writes, &table, &key) {
                let error = Engine::duplicate_write_key(&table, &key);
                proof {
                    lemma_planned_across_fails(self@.catalog, tables, models, at + 1, error@);
                }
                return Err(error);
            }
            match self.ensure_registered(&table) {
                Ok(()) => {},
                Err(error) => {
                    proof {
                        lemma_planned_across_fails(self@.catalog, tables, models, at + 1, error@);
                    }
                    return Err(error);
                },
            }
            match self.check_write(table, operation) {
                Ok(fact) => {
                    proof {
                        lemma_views_push(writes@, fact);
                    }
                    writes.push(fact);
                },
                Err(error) => {
                    proof {
                        lemma_planned_across_fails(self@.catalog, tables, models, at + 1, error@);
                    }
                    return Err(error);
                },
            }
            at = at + 1;
        }
        assert(models.take(at as int) =~= models);
        proof {
            lemma_landed_stands(self@, views(writes@));
        }
        let count: usize = commit.operation_count();
        let stood = self.land(writes);
        Ok(AtomicCommitReceipt::new(stood.0, stood.1, count))
    }
}

proof fn lemma_planned_across_fails(
    catalog: Seq<FamilyModel>,
    tables: crate::tables::TablesModel,
    writes: Seq<(Seq<char>, WriteModel)>,
    at: int,
    failure: Failure,
)
    requires
        0 <= at <= writes.len(),
        planned_across(catalog, tables, writes.take(at)) == Err::<Seq<WriteFact>, Failure>(failure),
    ensures
        planned_across(catalog, tables, writes) == Err::<Seq<WriteFact>, Failure>(failure),
    decreases writes.len() - at,
{
    if at == writes.len() {
        assert(writes.take(at) =~= writes);
    } else {
        assert(writes.take(at + 1).drop_last() =~= writes.take(at));
        lemma_planned_across_fails(catalog, tables, writes, at + 1, failure);
    }
}

/// The tables that a directory named for announcements, as plain values.
pub open spec fn answer_models(answers: Seq<Option<TableName>>) -> Seq<Option<Seq<char>>> {
    Seq::new(answers.len(), |i: int| option_view(answers[i]))
}

/// A directory named this table when it was told of a staged write, or
/// gave no table.
pub open spec fn named<Directory: FamilyDirectory>(
    directory: &Directory,
    told: AnnouncementModel,
    table: Option<Seq<char>>,
) -> bool {
    exists|handed: DeltaAnnouncer, answer: Result<Option<TableName>, Error>|
        {
            &&& handed@ == told
            &&& #[trigger] call_ensures(Directory::announce, (directory, handed), answer)
            &&& match answer {
                Ok(found) => table == option_view(found),
                Err(_) => table is None,
            }
        }
}

/// A directory was told of every staged write and named these tables.
pub open spec fn asked<Directory: FamilyDirectory>(
    directory: &Directory,
    told: Seq<AnnouncementModel>,
    answers: Seq<Option<Seq<char>>>,
) -> bool {
    &&& answers.len() == told.len()
    &&& forall|i: int| 0 <= i < told.len() ==> named(directory, told[i], #[trigger] answers[i])
}

/// The parked group can be logged without running out of counts.
pub open spec fn has_group_room(store: StoreModel) -> bool {
    store.staged matches Some(group) ==> has_log_room(store, group.entries.len() as int)
}

impl Engine {
    /// Engage a staging session: until it is parked or abandoned, writes
    /// are buffered and reads see what they would leave.
    pub fn begin_staged_group(&mut self) -> (outcome: Result<(), Error>)
        ensures
            settles(old(self)@, final(self)@, outcome, staging_begun(old(self)@)),
    {
        if self.session.is_some() {
            return Err(Error::StagingSessionEngaged);
        }
        let store_name: VersionedStoreName = match &self.versioning_policy {
            Some(policy) => policy.store_name().clone(),
            None => {
                return Err(Error::versioning_not_enabled("begin_staged_group"));
            },
        };
        if self.store.staging_slot.is_some() {
            return Err(Error::StagingSlotOccupied);
        }
        let base: StagingBase = StagingBase::new(
            self.store.chain_head,
            self.store.commit_sequence(),
            self.store.snapshot(),
        );
        let tables: RecordTables = self.store.tables.duplicate();
        self.session = Some(
            StagingSession::new(base, store_name, StoreSchemaHash::from(&self.catalog), tables),
        );
        Ok(())
    }

    /// Park the group that the engaged session built, and disengage. An
    /// empty session parks nothing.
    pub fn park_staged_group(&mut self) -> (outcome: Result<Option<StageReceipt>, Error>)
        ensures
            settles(old(self)@, final(self)@, outcome, staging_parked(old(self)@)),
            outcome matches Ok(receipt) ==> match parked_receipt(old(self)@) {
                Some(expected) => receipt matches Some(made) && made@ == expected,
                None => receipt is None,
            },
    {
        let ghost before = self@;
        let mut session: Option<StagingSession> = None;
        std::mem::swap(&mut session, &mut self.session);
        match session {
            None => Err(Error::StagingSessionNotEngaged { surface: "park_staged_group" }),
            Some(built) => {
                if built.entry_count() == 0 {
                    return Ok(None);
                }
                if !built.base().is_current(
                    self.store.chain_head,
                    self.store.commit_sequence(),
                    self.store.snapshot(),
                ) {
                    let sequence: u64 = self.store.commit_sequence().value();
                    self.session = Some(built);
                    assert(self@ =~= before);
                    return Err(Error::StagingBaseMoved { sequence });
                }
                if self.store.staging_slot.is_some() {
                    self.session = Some(built);
                    assert(self@ =~= before);
                    return Err(Error::StagingSlotOccupied);
                }
                let group: StagedOperationGroup = built.into_group();
                let receipt: Option<StageReceipt> = match (
                    group.prospective_head(),
                    group.first_commit_sequence(),
                    group.last_commit_sequence(),
                ) {
                    (Some(head), Some(first), Some(last)) => Some(
                        StageReceipt::new(head, group.entry_count(), first, last),
                    ),
                    _ => None,
                };
                self.store.staging_slot = Some(group);
                Ok(receipt)
            },
        }
    }

    /// Drop the engaged session and all it buffered, if there is one.
    pub fn abandon_staged_group(&mut self)
        ensures
            final(self)@ == (EngineModel { session: None, ..old(self)@ }),
    {
        self.session = None;
    }

    /// What the staging slot holds.
    pub fn staged_group(&self) -> (summary: Option<StagedGroupSummary>)
        ensures
            match (summary, parked_group(self@.store)) {
                (Some(found), Some(group)) => found@ == (GroupSummaryModel {
                    prospective_head: group.entries.last().digest,
                    base_predecessor: group.entries[0].previous,
                    entry_count: group.entries.len() as usize,
                    first_commit_sequence: group.entries[0].commit_sequence,
                    last_commit_sequence: group.entries.last().commit_sequence,
                }),
                (None, None) => true,
                _ => false,
            },
    {
        match &self.store.staging_slot {
            Some(group) => match (
                group.prospective_head(),
                group.first_commit_sequence(),
                group.last_commit_sequence(),
            ) {
                (Some(head), Some(first), Some(last)) => Some(
                    StagedGroupSummary::new(
                        head,
                        group.base_predecessor(),
                        group.entry_count(),
                        first,
                        last,
                    ),
                ),
                _ => None,
            },
            None => None,
        }
    }

    /// Discard the parked group. Nothing else changes.
    pub fn discard_staged_group(&mut self) -> (outcome: Result<DiscardStagedReceipt, Error>)
        ensures
            match (outcome, parked_group(old(self)@.store)) {
                (Ok(receipt), Some(group)) => {
                    &&& receipt@ == (DiscardReceiptModel {
                        prospective_head: group.entries.last().digest,
                        entry_count: group.entries.len() as usize,
                    })
                    &&& final(self)@ == (EngineModel {
                        store: StoreModel { staged: None, ..old(self)@.store },
                        ..old(self)@
                    })
                },
                (Err(error), None) => {
                    &&& error@ == (Failure::StagingSlotEmpty { surface: "discard_staged_group"@ })
                    &&& final(self)@ == old(self)@
                },
                _ => false,
            },
    {
        match self.staged_group() {
            Some(summary) => {
                self.store.staging_slot = None;
                Ok(DiscardStagedReceipt::new(summary.prospective_head(), summary.entry_count()))
            },
            None => Err(Error::StagingSlotEmpty { surface: "discard_staged_group" }),
        }
    }

    /// The first flaw in a group's entries, if there is one.
    fn check_group(head: Option<EntryDigest>, entries: &[VersionedCommitLogEntry]) -> (outcome:
        Result<(), Error>)
        ensures
            match outcome {
                Ok(()) => group_flaw(option_view(head), views(entries@)) is None,
                Err(error) => group_flaw(option_view(head), views(entries@)) == Some(error@),
            },
    {
        let ghost models = views(entries@);
        let mut previous: Option<EntryDigest> = head;
        let mut at: usize = 0;
        assert(models.take(0) =~= Seq::empty());
        while at < entries.len()
            invariant
                at <= entries.len(),
                models == views(entries@),
                option_view(previous) == head_after(option_view(head), models.take(at as int)),
                group_flaw(option_view(head), models.take(at as int)) is None,
            decreases entries.len() - at,
        {
            let entry = &entries[at];
            assert(models.take(at + 1).drop_last() =~= models.take(at as int));
            assert(models.take(at + 1).last() == entry@);
            let computed: EntryDigest = entry.computed_digest();
            if computed != entry.entry_digest() {
                let error = Error::StagedGroupDigestMismatch {
                    sequence: entry.commit_sequence().value(),
                    staged: entry.entry_digest(),
                    computed,
                };
                proof {
                    lemma_group_flaw(option_view(head), models, at + 1, error@);
                }
                return Err(error);
            }
            if !same_head(entry.previous_entry_digest(), previous) {
                let error = Error::VersionedChainBroken {
                    sequence: entry.commit_sequence().value(),
                };
                proof {
                    lemma_group_flaw(option_view(head), models, at + 1, error@);
                }
                return Err(error);
            }
            previous = Some(entry.entry_digest());
            at = at + 1;
        }
        assert(models.take(at as int) =~= models);
        Ok(())
    }

    /// The parked group, checked against the store as it stands.
    fn landable_group(&self) -> (outcome: Result<StagedOperationGroup, Error>)
        ensures
            match (outcome, landable(self@.store)) {
                (Ok(group), Ok(expected)) => group@ == expected,
                (Err(error), Err(failure)) => error@ == failure,
                _ => false,
            },
    {
        let group: &StagedOperationGroup = match &self.store.staging_slot {
            Some(group) => group,
            None => {
                return Err(Error::StagingSlotEmpty { surface: "materialize_staged_group" });
            },
        };
        let entries = group.entries();
        assert(entries@.len() == views(entries@).len());
        if entries.len() == 0 {
            return Err(Error::StagingSlotEmpty { surface: "materialize_staged_group" });
        }
        let sequence: u64 = self.store.commit_sequence().value();
        let snapshot: u64 = self.store.snapshot().value();
        let first = &entries[0];
        assert(views(entries@)[0] == first@);
        if !same_head(first.previous_entry_digest(), self.store.chain_head)
            || first.commit_sequence().value() == 0 || first.commit_sequence().value() - 1
            != sequence || first.snapshot().value() == 0 || first.snapshot().value() - 1
            != snapshot {
            return Err(Error::StagingBaseMoved { sequence });
        }
        match Engine::check_group(self.store.chain_head, entries) {
            Ok(()) => Ok(group.clone()),
            Err(error) => Err(error),
        }
    }

    /// The rows that a group's operations leave, in order.
    fn rows_of_group(group: &StagedOperationGroup) -> (rows: Vec<ViewRow>)
        ensures
            views(rows@) == operation_rows(all_operations(group@.entries)),
    {
        let entries = group.entries();
        let ghost models = views(entries@);
        let mut rows: Vec<ViewRow> = Vec::new();
        let mut at: usize = 0;
        assert(models.take(0) =~= Seq::empty());
        assert(views(rows@) =~= Seq::empty());
        while at < entries.len()
            invariant
                at <= entries.len(),
                models == views(entries@),
                views(rows@) == operation_rows(all_operations(models.take(at as int))),
            decreases entries.len() - at,
        {
            let operations = entries[at].operations();
            let ghost done = all_operations(models.take(at as int));
            let ghost held = views(operations@);
            proof {
                assert(models.take(at + 1).drop_last() =~= models.take(at as int));
                assert(models.take(at + 1).last() == entries@[at as int]@);
                assert(done + held.take(0) =~= done);
            }
            let mut position: usize = 0;
            while position < operations.len()
                invariant
                    position <= operations@.len(),
                    held == views(operations@),
                    views(rows@) == operation_rows(done + held.take(position as int)),
                decreases operations@.len() - position,
            {
                let operation = operations.get(position);
                let ghost reached = done + held.take(position + 1);
                assert(reached.drop_last() =~= done + held.take(position as int));
                assert(reached.last() == operation@);
                match operation.key() {
                    Some(key) => {
                        let row: ViewRow = ViewRow::new(
                            operation.family().clone(),
                            key.clone(),
                            operation.payload().clone(),
                        );
                        proof {
                            lemma_views_push(rows@, row);
                        }
                        rows.push(row);
                    },
                    None => {},
                }
                position = position + 1;
            }
            assert(held.take(position as int) =~= held);
            at = at + 1;
        }
        assert(models.take(at as int) =~= models);
        rows
    }

    /// The announcements of a group's operations, in order.
    fn announcements_of(group: &StagedOperationGroup) -> (told: Vec<DeltaAnnouncer>)
        ensures
            views(told@) == announcements(group@, group@.entries.len() as int),
    {
        let entries = group.entries();
        let ghost models = group@.entries;
        let mut told: Vec<DeltaAnnouncer> = Vec::new();
        let mut at: usize = 0;
        assert(views(told@) =~= Seq::empty());
        while at < entries.len()
            invariant
                at <= entries.len(),
                models == group@.entries,
                models == views(entries@),
                views(told@) == announcements(group@, at as int),
            decreases entries.len() - at,
        {
            let operations = entries[at].operations();
            let snapshot: SnapshotIdentifier = entries[at].snapshot();
            let ghost done = announcements(group@, at as int);
            let ghost held = views(operations@);
            assert(models[at as int] == entries@[at as int]@);
            assert(held.take(0) =~= Seq::empty());
            assert(views(told@) =~= done + entry_announcements(group@, at as int, held.take(0)));
            let mut position: usize = 0;
            while position < operations.len()
                invariant
                    position <= operations@.len(),
                    held == views(operations@),
                    snapshot@ == group@.entries[at as int].snapshot,
                    views(told@) == done + entry_announcements(
                        group@,
                        at as int,
                        held.take(position as int),
                    ),
                decreases operations@.len() - position,
            {
                let operation = operations.get(position);
                let ghost reached = held.take(position + 1);
                assert(reached.drop_last() =~= held.take(position as int));
                assert(reached.last() == operation@);
                let bytes: Option<Vec<u8>> = match operation.payload() {
                    VersionedPayload::Record { bytes } => Some(bytes.duplicate()),
                    VersionedPayload::Tombstone => match group.retract_pre_image(at, position) {
                        Some(removed) => Some(vstd::slice::slice_to_vec(removed)),
                        None => None,
                    },
                };
                match (operation.key(), bytes) {
                    (Some(key), Some(record)) => {
                        let kind: DeltaKind = match operation.operation() {
                            SemaOperation::Mutate => DeltaKind::Mutate,
                            SemaOperation::Retract => DeltaKind::Retract,
                            _ => DeltaKind::Assert,
                        };
                        let announcement: DeltaAnnouncer = DeltaAnnouncer::new(
                            kind,
                            operation.family().clone(),
                            key.clone(),
                            snapshot,
                            record,
                        );
                        proof {
                            lemma_views_push(told@, announcement);
                        }
                        told.push(announcement);
                    },
                    _ => {},
                }
                position = position + 1;
                assert(views(told@) =~= done + entry_announcements(
                    group@,
                    at as int,
                    held.take(position as int),
                ));
            }
            assert(held.take(position as int) =~= held);
            at = at + 1;
        }
        told
    }

    /// Queue the deltas of announcements for the tables that a directory
    /// named.
    fn tell(&mut self, told: &Vec<DeltaAnnouncer>, answers: &Vec<Option<TableName>>)
        requires
            answers@.len() == told@.len(),
        ensures
            final(self)@ == (EngineModel {
                deltas: old(self)@.deltas + answered(
                    old(self)@.subscriptions,
                    views(told@),
                    answer_models(answers@),
                ),
                ..old(self)@
            }),
    {
        let ghost before = self@;
        let ghost facts = views(told@);
        let ghost named = answer_models(answers@);
        let mut at: usize = 0;
        assert(facts.take(0) =~= Seq::empty());
        assert(self@.deltas =~= before.deltas + answered(
            before.subscriptions,
            facts.take(0),
            named.take(0),
        ));
        while at < told.len()
            invariant
                at <= told.len(),
                answers@.len() == told@.len(),
                facts == views(told@),
                named == answer_models(answers@),
                self@ == (EngineModel {
                    deltas: before.deltas + answered(
                        before.subscriptions,
                        facts.take(at as int),
                        named.take(at as int),
                    ),
                    ..before
                }),
            decreases told.len() - at,
        {
            let announcement = &told[at];
            assert(facts.take(at + 1).drop_last() =~= facts.take(at as int));
            assert(facts.take(at + 1).last() == announcement@);
            assert(named.take(at + 1).drop_last() =~= named.take(at as int));
            match answers[at] {
                Some(name) => {
                    if same_text(name.as_str(), announcement.family().table_name()) {
                        let record: EncodedRecord = EncodedRecord::new(
                            announcement.key().clone(),
                            announcement.bytes().duplicate(),
                        );
                        self.subscriptions.deliver_delta(
                            &mut self.deltas,
                            announcement.kind(),
                            name,
                            announcement.key(),
                            announcement.snapshot(),
                            &record,
                        );
                    }
                },
                None => {},
            }
            at = at + 1;
            assert(self@.deltas =~= before.deltas + answered(
                before.subscriptions,
                facts.take(at as int),
                named.take(at as int),
            ));
        }
        assert(facts.take(at as int) =~= facts);
        assert(named.take(at as int) =~= named);
    }

    /// Land a checked group's rows and log rows, and free the slot.
    fn land_group(&mut self, group: &StagedOperationGroup, rows: &Vec<ViewRow>)
        requires
            has_log_room(old(self)@.store, group@.entries.len() as int),
        ensures
            final(self)@ == (EngineModel {
                store: group_landed(old(self)@.store, group@, views(rows@)),
                ..old(self)@
            }),
    {
        let entries: Vec<VersionedCommitLogEntry> = {
            let held = group.entries();
            let mut copied: Vec<VersionedCommitLogEntry> = Vec::new();
            let mut at: usize = 0;
            assert(views(copied@) =~= group@.entries.take(0));
            while at < held.len()
                invariant
                    at <= held.len(),
                    views(held@) == group@.entries,
                    views(copied@) == group@.entries.take(at as int),
                decreases held.len() - at,
            {
                let entry: VersionedCommitLogEntry = held[at].clone();
                proof {
                    lemma_views_push(copied@, entry);
                    assert(views(held@)[at as int] == entry@);
                    assert(group@.entries.take(at + 1) =~= group@.entries.take(at as int).push(
                        entry@,
                    ));
                }
                copied.push(entry);
                at = at + 1;
            }
            assert(group@.entries.take(at as int) =~= group@.entries);
            copied
        };
        assert(entries@.len() == group@.entries.len());
        Engine::log_entries(&mut self.store, &entries);
        self.store.tables.place_rows(rows.as_slice());
        self.store.staging_slot = None;
    }

    /// Ask a directory which table's subscribers to tell.
    fn ask<Directory: FamilyDirectory>(directory: &Directory, told: &Vec<DeltaAnnouncer>) -> (
        answers: Vec<Option<TableName>>)
        ensures
            asked(directory, views(told@), answer_models(answers@)),
    {
        let mut answers: Vec<Option<TableName>> = Vec::new();
        let mut at: usize = 0;
        while at < told.len()
            invariant
                at <= told.len(),
                answers@.len() == at,
                forall|i: int|
                    0 <= i < at ==> named(
                        directory,
                        views(told@)[i],
                        option_view(#[trigger] answers@[i]),
                    ),
            decreases told.len() - at,
        {
            let delta: DeltaAnnouncer = told[at].clone();
            let ghost handed = delta;
            let said: Result<Option<TableName>, Error> = directory.announce(delta);
            assert(call_ensures(Directory::announce, (directory, handed), said));
            let answer: Option<TableName> = match said {
                Ok(answer) => answer,
                Err(_) => None,
            };
            assert(named(directory, views(told@)[at as int], option_view(answer)));
            answers.push(answer);
            at = at + 1;
        }
        answers
    }

    fn receipt_of(group: &StagedOperationGroup) -> (receipt: MaterializeStagedReceipt)
        requires
            group@.entries.len() >= 1,
        ensures
            receipt@ == landed_receipt(group@),
    {
        let entries = group.entries();
        assert(views(entries@).len() == entries@.len());
        let last = &entries[entries.len() - 1];
        assert(views(entries@)[entries@.len() - 1] == last@);
        MaterializeStagedReceipt::new(
            last.entry_digest(),
            last.commit_sequence(),
            last.snapshot(),
            group.entry_count(),
        )
    }

    /// Land the parked group: every entry and row of it, or nothing.
    /// Subscribers are told once it has landed.
    pub fn materialize_staged_group<Directory: FamilyDirectory>(
        &mut self,
        directory: &Directory,
    ) -> (outcome: Result<MaterializeStagedReceipt, Error>)
        requires
            has_group_room(old(self)@.store),
        ensures
            match landable(old(self)@.store) {
                Err(failure) => {
                    &&& outcome matches Err(error) && error@ == failure
                    &&& final(self)@ == old(self)@
                },
                Ok(group) => match outcome {
                    Ok(receipt) => {
                        &&& receipt@ == landed_receipt(group)
                        &&& exists|taken: Seq<bool>, answers: Seq<Option<Seq<char>>>|
                            {
                                &&& consulted(directory, group_rows(group), Ok(taken))
                                &&& asked(
                                    directory,
                                    announcements(group, group.entries.len() as int),
                                    answers,
                                )
                                &&& final(self)@ == #[trigger] staging_landed(
                                    old(self)@,
                                    group,
                                    landed_rows(group_rows(group), taken),
                                    answers,
                                )
                            }
                    },
                    Err(error) => {
                        &&& consulted(directory, group_rows(group), Err(error))
                        &&& final(self)@ == old(self)@
                    },
                },
            },
    {
        let group: StagedOperationGroup = match self.landable_group() {
            Ok(group) => group,
            Err(error) => {
                return Err(error);
            },
        };
        let rows: Vec<ViewRow> = Engine::rows_of_group(&group);
        let taken: Vec<bool> = match Engine::consult(directory, &rows) {
            Ok(taken) => taken,
            Err(error) => {
                return Err(error);
            },
        };
        let landed: Vec<ViewRow> = Engine::landing_of(&rows, &taken);
        let told: Vec<DeltaAnnouncer> = Engine::announcements_of(&group);
        self.land_group(&group, &landed);
        let answers: Vec<Option<TableName>> = Engine::ask(directory, &told);
        self.tell(&told, &answers);
        assert(self@ =~= staging_landed(
            old(self)@,
            group@,
            landed_rows(group_rows(group@), taken@),
            answer_models(answers@),
        ));
        Ok(Engine::receipt_of(&group))
    }

    /// Land the parked group, given the directory's word on which rows land
    /// and which table it named for each announcement. A missing answer
    /// tells no one.
    pub fn materialize_staged_with(
        &mut self,
        verdict: Result<Vec<bool>, Error>,
        answers: Vec<Option<TableName>>,
    ) -> (outcome: Result<MaterializeStagedReceipt, Error>)
        requires
            has_group_room(old(self)@.store),
        ensures
            match (landable(old(self)@.store), verdict) {
                (Err(failure), _) => {
                    &&& outcome matches Err(error) && error@ == failure
                    &&& final(self)@ == old(self)@
                },
                (Ok(_), Err(refusal)) => {
                    &&& outcome == Err::<MaterializeStagedReceipt, Error>(refusal)
                    &&& final(self)@ == old(self)@
                },
                (Ok(group), Ok(taken)) => {
                    &&& outcome matches Ok(receipt) && receipt@ == landed_receipt(group)
                    &&& final(self)@ == staging_landed(
                        old(self)@,
                        group,
                        landed_rows(group_rows(group), taken@),
                        given_answers(
                            answer_models(answers@),
                            announcements(group, group.entries.len() as int).len(),
                        ),
                    )
                },
            },
    {
        let group: StagedOperationGroup = match self.landable_group() {
            Ok(group) => group,
            Err(error) => {
                return Err(error);
            },
        };
        let taken: Vec<bool> = match verdict {
            Ok(taken) => taken,
            Err(refusal) => {
                return Err(refusal);
            },
        };
        let rows: Vec<ViewRow> = Engine::rows_of_group(&group);
        let landed: Vec<ViewRow> = Engine::landing_of(&rows, &taken);
        let told: Vec<DeltaAnnouncer> = Engine::announcements_of(&group);
        let ghost count = views(told@).len();
        let mut given: Vec<Option<TableName>> = Vec::new();
        let mut at: usize = 0;
        while at < told.len()
            invariant
                at <= told.len(),
                given@.len() == at,
                forall|i: int|
                    0 <= i < at ==> #[trigger] given@[i] == (if i < answers@.len() {
                        answers@[i]
                    } else {
                        None
                    }),
            decreases told.len() - at,
        {
            let answer: Option<TableName> = if at < answers.len() {
                answers[at]
            } else {
                None
            };
            given.push(answer);
            at = at + 1;
        }
        assert(answer_models(given@) =~= given_answers(answer_models(answers@), count));
        self.land_group(&group, &landed);
        self.tell(&told, &given);
        assert(self@ =~= staging_landed(
            old(self)@,
            group@,
            landed_rows(group_rows(group@), taken@),
            answer_models(given@),
        ));
        Ok(Engine::receipt_of(&group))
    }
}

/// Answers for `count` announcements: those given, and none for the rest.
pub open spec fn given_answers(
    answers: Seq<Option<Seq<char>>>,
    count: nat,
) -> Seq<Option<Seq<char>>> {
    Seq::new(
        count,
        |i: int|
            if i < answers.len() {
                answers[i]
            } else {
                None
            },
    )
}

/// The receipt of parking the engaged session, if it has built anything.
pub open spec fn parked_receipt(engine: EngineModel) -> Option<StageReceiptModel> {
    match engine.session {
        Some(session) => if session.entries.len() == 0 {
            None
        } else {
            Some(
                StageReceiptModel {
                    prospective_head: session.entries.last().digest,
                    entry_count: session.entries.len() as usize,
                    first_commit_sequence: session.entries[0].commit_sequence,
                    last_commit_sequence: session.entries.last().commit_sequence,
                },
            )
        },
        None => None,
    }
}

proof fn lemma_group_flaw(
    head: Option<Seq<u8>>,
    entries: Seq<EntryModel>,
    at: int,
    failure: Failure,
)
    requires
        0 <= at <= entries.len(),
        group_flaw(head, entries.take(at)) == Some(failure),
    ensures
        group_flaw(head, entries) == Some(failure),
    decreases entries.len() - at,
{
    if at == entries.len() {
        assert(entries.take(at) =~= entries);
    } else {
        assert(entries.take(at + 1).drop_last() =~= entries.take(at));
        lemma_group_flaw(head, entries, at + 1, failure);
    }
}

/// The carries of a family's prior generations made this of the row.
pub open spec fn carried_as<Priors: PriorGenerations>(
    generations: Priors,
    prior: Seq<u8>,
    row: (Seq<char>, Seq<u8>),
    made: Seq<u8>,
) -> bool {
    exists|bytes: Vec<u8>| bytes@ == made && #[trigger] generations.answers(prior, row, Ok(bytes))
}

/// The carries made these of the rows, one for one.
pub open spec fn carried_all<Priors: PriorGenerations>(
    generations: Priors,
    prior: Seq<u8>,
    rows: Seq<(Seq<char>, Seq<u8>)>,
    carried: Seq<Seq<u8>>,
) -> bool {
    &&& carried.len() == rows.len()
    &&& forall|i: int|
        0 <= i < rows.len() ==> carried_as(generations, prior, rows[i], #[trigger] carried[i])
}

/// The outcome of registering a family whose stored generation is no
/// declared prior.
pub open spec fn registers(
    before: EngineModel,
    after: EngineModel,
    descriptor: DescriptorModel,
    outcome: Result<Seq<char>, Failure>,
) -> bool {
    match (outcome, registration_state(before.catalog, descriptor.identity)) {
        (Ok(table), Ok(fresh)) => {
            &&& table == descriptor.identity.table
            &&& after == if fresh {
                with_family(before, descriptor.identity)
            } else {
                before
            }
        },
        (Err(error), Err(failure)) => error == failure && after == before,
        _ => false,
    }
}

/// The model of a registration's outcome.
pub open spec fn registration_model<RecordValue>(
    outcome: Result<TableReference<RecordValue>, Error>,
) -> Result<Seq<char>, Failure> {
    match outcome {
        Ok(reference) => Ok(reference@),
        Err(error) => Err(error@),
    }
}

impl Engine {
    /// The stored identity that a declaration evolves from.
    fn evolving_identity<RecordValue, Priors>(
        &self,
        descriptor: &TableDescriptor<RecordValue, Priors>,
    ) -> (identity: Option<FamilyIdentity>)
        ensures
            option_view(identity) == evolves_from(self@.catalog, descriptor@),
    {
        match self.catalog.registration_for_table(descriptor.name().as_str()) {
            Some(stored) => {
                if *stored.identity() != descriptor.family_identity() {
                    match descriptor.evolution_step_for(stored.identity()) {
                        Some(_) => Some(stored.identity().clone()),
                        None => None,
                    }
                } else {
                    None
                }
            },
            None => None,
        }
    }

    /// The operations that log an evolution.
    fn evolution_of(
        stored: &FamilyIdentity,
        declared: &FamilyIdentity,
        rows: &OrderedTable<String, Vec<u8>>,
        carried: &Vec<Vec<u8>>,
    ) -> (operations: Vec<VersionedLogOperation>)
        requires
            carried@.len() == lettered(rows@).len(),
        ensures
            views(operations@) == evolution_operations(
                stored@,
                declared@,
                lettered(rows@),
                views(carried@),
            ),
            operations@.len() == 2 * lettered(rows@).len(),
    {
        let count: usize = rows.len();
        let ghost listing = rows.listing();
        let ghost bytes = views(carried@);
        proof {
            lemma_lettered(listing);
        }
        let mut operations: Vec<VersionedLogOperation> = Vec::new();
        let mut at: usize = 0;
        assert(listing.take(0) =~= Seq::empty());
        assert(views(operations@) =~= Seq::empty());
        while at < count
            invariant
                at <= count,
                count == listing.len(),
                count == carried@.len(),
                listing == rows.listing(),
                bytes == views(carried@),
                operations@.len() == 2 * at,
                views(operations@) == evolution_operations(
                    stored@,
                    declared@,
                    listing.take(at as int),
                    bytes.take(at as int),
                ),
            decreases count - at,
        {
            assert(listing.take(at + 1).drop_last() =~= listing.take(at as int));
            assert(bytes.take(at + 1).drop_last() =~= bytes.take(at as int));
            let key: RecordKey = RecordKey::new(rows.key_at(at).as_str());
            let removal: VersionedLogOperation = VersionedLogOperation::new(
                SemaOperation::Retract,
                stored.clone(),
                Some(key.clone()),
                VersionedPayload::tombstone(),
            );
            let arrival: VersionedLogOperation = VersionedLogOperation::new(
                SemaOperation::Assert,
                declared.clone(),
                Some(key),
                VersionedPayload::record(carried[at].duplicate()),
            );
            proof {
                lemma_views_push(operations@, removal);
                lemma_views_push(operations@.push(removal), arrival);
            }
            operations.push(removal);
            operations.push(arrival);
            at = at + 1;
        }
        assert(listing.take(at as int) =~= listing);
        assert(bytes.take(at as int) =~= bytes);
        operations
    }

    /// The metadata of versioned operations.
    fn metadata_from(operations: &NonEmpty<VersionedLogOperation>) -> (metadata: Vec<
        CommitLogOperation,
    >)
        ensures
            views(metadata@) == operations_metadata(views(operations@)),
            metadata@.len() == operations@.len(),
    {
        let ghost expected = operations_metadata(views(operations@));
        let mut metadata: Vec<CommitLogOperation> = Vec::new();
        let mut at: usize = 0;
        assert(views(metadata@) =~= expected.take(0));
        while at < operations.len()
            invariant
                at <= operations@.len(),
                metadata@.len() == at,
                expected == operations_metadata(views(operations@)),
                views(metadata@) == expected.take(at as int),
            decreases operations@.len() - at,
        {
            let operation: CommitLogOperation = CommitLogOperation::from(operations.get(at));
            proof {
                lemma_views_push(metadata@, operation);
                assert(expected[at as int] == operation@);
                assert(expected.take(at + 1) =~= expected.take(at as int).push(operation@));
            }
            metadata.push(operation);
            at = at + 1;
        }
        assert(expected.take(at as int) =~= expected);
        metadata
    }

    /// The rows that versioned operations leave, in order.
    fn rows_from(operations: &NonEmpty<VersionedLogOperation>) -> (rows: Vec<ViewRow>)
        ensures
            views(rows@) == operation_rows(views(operations@)),
    {
        let ghost held = views(operations@);
        let mut rows: Vec<ViewRow> = Vec::new();
        let mut position: usize = 0;
        assert(held.take(0) =~= Seq::empty());
        assert(views(rows@) =~= Seq::empty());
        while position < operations.len()
            invariant
                position <= operations@.len(),
                held == views(operations@),
                views(rows@) == operation_rows(held.take(position as int)),
            decreases operations@.len() - position,
        {
            let operation = operations.get(position);
            assert(held.take(position + 1).drop_last() =~= held.take(position as int));
            assert(held.take(position + 1).last() == operation@);
            match operation.key() {
                Some(key) => {
                    let row: ViewRow = ViewRow::new(
                        operation.family().clone(),
                        key.clone(),
                        operation.payload().clone(),
                    );
                    proof {
                        lemma_views_push(rows@, row);
                    }
                    rows.push(row);
                },
                None => {},
            }
            position = position + 1;
        }
        assert(held.take(position as int) =~= held);
        rows
    }

    /// Log operations as one commit, and place their rows.
    fn land_operations(&mut self, operations: NonEmpty<VersionedLogOperation>)
        requires
            has_room(old(self)@, 1),
            old(self)@.session is None,
        ensures
            final(self)@ == operations_landed(old(self)@, views(operations@)),
    {
        let ghost before = self@;
        let commit_sequence: CommitSequence = self.store.commit_sequence().next();
        let snapshot: SnapshotIdentifier = self.store.snapshot().next();
        let rows: Vec<ViewRow> = Engine::rows_from(&operations);
        let metadata: Vec<CommitLogOperation> = Engine::metadata_from(&operations);
        let count: usize = operations.len();
        match NonEmpty::try_from_vec(metadata) {
            Some(logged_operations) => {
                let commit: CommitLogEntry = CommitLogEntry::new(
                    commit_sequence,
                    snapshot,
                    logged_operations,
                );
                let versioned: Option<VersionedCommitLogEntry> = match &self.versioning_policy {
                    Some(policy) => Some(
                        VersionedCommitLogEntry::new(
                            policy.store_name().clone(),
                            StoreSchemaHash::from(&self.catalog),
                            commit_sequence,
                            snapshot,
                            self.store.chain_head,
                            operations,
                        ),
                    ),
                    None => None,
                };
                self.store.tables.place_rows(rows.as_slice());
                Engine::log_commit(&mut self.store, commit, versioned);
                assert(self@ =~= operations_landed(before, views(operations@)));
            },
            None => {
                assert(count >= 1);
                assert(false);
            },
        }
    }

    /// Carry a family's rows forward and bind its table anew.
    fn evolve(&mut self, stored: &FamilyIdentity, declared: FamilyIdentity, carried: Vec<Vec<u8>>)
        requires
            has_room(old(self)@, 1),
            old(self)@.session is None,
            carried@.len() == rows_to_carry(old(self)@, declared@.table).len(),
        ensures
            final(self)@ == evolved(old(self)@, stored@, declared@, views(carried@)),
    {
        let ghost before = self@;
        let rows: OrderedTable<String, Vec<u8>> = self.store.tables.rows_named(
            declared.table_name(),
        );
        let operations: Vec<VersionedLogOperation> = Engine::evolution_of(
            stored,
            &declared,
            &rows,
            &carried,
        );
        let registration: TableRegistration = TableRegistration::new(declared);
        self.store.catalog.insert(registration.table_name().to_owned(), registration.clone());
        self.catalog.rebind(registration);
        assert(self@ =~= with_rebound(before, declared@));
        match NonEmpty::try_from_vec(operations) {
            Some(group) => {
                self.land_operations(group);
            },
            None => {},
        }
    }

    /// Register a domain-keyed family whose stored generation is a
    /// declared prior, given its rows carried forward in key order. Where
    /// no declared prior is stored, the family is registered as ever.
    pub fn register_carried_table<RecordValue, Priors>(
        &mut self,
        descriptor: TableDescriptor<RecordValue, Priors>,
        carried: Result<Vec<Vec<u8>>, Error>,
    ) -> (outcome: Result<TableReference<RecordValue>, Error>)
        requires
            evolves_from(old(self)@.catalog, descriptor@) is Some ==> has_room(old(self)@, 1),
            evolves_from(old(self)@.catalog, descriptor@) is Some ==> (carried matches Ok(rows)
                ==> rows@.len() == rows_to_carry(
                old(self)@,
                descriptor@.identity.table,
            ).len()),
        ensures
            match evolves_from(old(self)@.catalog, descriptor@) {
                None => registers(
                    old(self)@,
                    final(self)@,
                    descriptor@,
                    registration_model(outcome),
                ),
                Some(stored) => if old(self)@.session is Some {
                    &&& outcome matches Err(error) && error@ == Failure::StagingSessionEngaged
                    &&& final(self)@ == old(self)@
                } else {
                    match carried {
                        Ok(rows) => {
                            &&& outcome matches Ok(reference) && reference@
                                == descriptor@.identity.table
                            &&& final(self)@ == evolved(
                                old(self)@,
                                stored,
                                descriptor@.identity,
                                views(rows@),
                            )
                        },
                        Err(refusal) => {
                            &&& outcome == Err::<TableReference<RecordValue>, Error>(refusal)
                            &&& final(self)@ == old(self)@
                        },
                    }
                },
            },
    {
        let stored: FamilyIdentity = match self.evolving_identity(&descriptor) {
            Some(stored) => stored,
            None => {
                return self.bind_declared(descriptor);
            },
        };
        if self.session.is_some() {
            return Err(Error::StagingSessionEngaged);
        }
        match carried {
            Ok(rows) => {
                let name: TableName = *descriptor.name();
                self.evolve(&stored, descriptor.family_identity(), rows);
                Ok(TableReference::new(name))
            },
            Err(refusal) => Err(refusal),
        }
    }

    /// Register a domain-keyed family. A binding that already exists with
    /// the same identity is kept. Where a declared prior generation is
    /// stored, its rows are carried forward and the table is bound anew, as
    /// one commit; a row that does not carry leaves the store as it was.
    pub fn register_table<RecordValue, Priors: PriorGenerations>(
        &mut self,
        descriptor: TableDescriptor<RecordValue, Priors>,
    ) -> (outcome: Result<TableReference<RecordValue>, Error>)
        requires
            evolves_from(old(self)@.catalog, descriptor@) is Some ==> has_room(old(self)@, 1),
        ensures
            match evolves_from(old(self)@.catalog, descriptor@) {
                None => registers(
                    old(self)@,
                    final(self)@,
                    descriptor@,
                    registration_model(outcome),
                ),
                Some(stored) => if old(self)@.session is Some {
                    &&& outcome matches Err(error) && error@ == Failure::StagingSessionEngaged
                    &&& final(self)@ == old(self)@
                } else {
                    let rows = rows_to_carry(old(self)@, descriptor@.identity.table);
                    &&& text_listed(
                        domain_rows(old(self)@.store.tables.records, descriptor@.identity.table),
                    )
                    &&& match outcome {
                        Ok(reference) => {
                            &&& reference@ == descriptor@.identity.table
                            &&& exists|carried: Seq<Seq<u8>>|
                                {
                                    &&& carried_all(
                                        descriptor.generations(),
                                        stored.schema_hash,
                                        rows,
                                        carried,
                                    )
                                    &&& final(self)@ == #[trigger] evolved(
                                        old(self)@,
                                        stored,
                                        descriptor@.identity,
                                        carried,
                                    )
                                }
                        },
                        Err(error) => {
                            &&& exists|at: int|
                                0 <= at < rows.len() && descriptor.generations().answers(
                                    stored.schema_hash,
                                    #[trigger] rows[at],
                                    Err(error),
                                )
                            &&& final(self)@ == old(self)@
                        },
                    }
                },
            },
    {
        let stored: FamilyIdentity = match self.evolving_identity(&descriptor) {
            Some(stored) => stored,
            None => {
                return self.bind_declared(descriptor);
            },
        };
        if self.session.is_some() {
            return Err(Error::StagingSessionEngaged);
        }
        let rows: OrderedTable<String, Vec<u8>> = self.store.tables.rows_of(descriptor.name());
        let count: usize = rows.len();
        let ghost listing = rows.listing();
        proof {
            lemma_lettered(listing);
        }
        let mut carried: Vec<Vec<u8>> = Vec::new();
        let mut at: usize = 0;
        while at < count
            invariant
                at <= count,
                count == listing.len(),
                listing == rows.listing(),
                carried@.len() == at,
                self@ == old(self)@,
                old(self)@.session is None,
                evolves_from(old(self)@.catalog, descriptor@) == Some(stored@),
                listing == rows_to_carry(old(self)@, descriptor@.identity.table),
                text_listed(
                    domain_rows(old(self)@.store.tables.records, descriptor@.identity.table),
                ),
                forall|i: int|
                    0 <= i < at ==> carried_as(
                        descriptor.generations(),
                        stored@.schema_hash,
                        listing[i],
                        (#[trigger] carried@[i])@,
                    ),
            decreases count - at,
        {
            let hash: SchemaHash = stored.schema_hash();
            let key: &str = rows.key_at(at).as_str();
            let bytes: &[u8] = rows.value_at(at).as_slice();
            let made: Result<Vec<u8>, Error> = descriptor.carry_row(hash, key, bytes);
            assert(descriptor.generations().answers(
                stored@.schema_hash,
                listing[at as int],
                made,
            ));
            match made {
                Ok(bytes) => {
                    assert(carried_as(
                        descriptor.generations(),
                        stored@.schema_hash,
                        listing[at as int],
                        bytes@,
                    ));
                    carried.push(bytes);
                },
                Err(error) => {
                    return Err(error);
                },
            }
            at = at + 1;
        }
        assert(carried_all(
            descriptor.generations(),
            stored@.schema_hash,
            listing,
            views(carried@),
        ));
        let name: TableName = *descriptor.name();
        self.evolve(&stored, descriptor.family_identity(), carried);
        Ok(TableReference::new(name))
    }
}

} // verus!
