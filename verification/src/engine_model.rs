//! The engine's state as plain values, and what each call makes of it.

use vstd::prelude::*;

use crate::catalog::{family_at, family_of, rebound, registered};
use crate::checkpoint::{
    all_rows, chunked, sealed_metadata, segment_digest, segment_reference, verification,
    CheckpointModel, CheckpointReceiptModel, CounterModel, InventoryModel, MetadataModel,
    RangeModel, ReferenceModel,
};
use crate::commit_log::{commit_appended, derived_slots, versioned_appended};
use crate::error::Failure;
use crate::fold::{folded, head_after, materialized, view_digest, FoldModel, RebuildModel, RowModel};
use crate::import::ImportReceiptModel;
use crate::listing::{from_number, lettered, log_values, numbered};
use crate::log::{entry_metadata, operations_metadata, LogEntryModel, LogOperationModel};
use crate::mutation::WriteModel;
use crate::operation::{record_head, SemaOperation};
use crate::outbox::queued;
use crate::query::{
    identifier_range_contains, node_operator, range_contains, FilterModel, IdentifiedPlanModel,
    IdentifiedReadPlanNode, IdentifierRangeModel, KeyRangeModel, PlanModel, ReadPlanNode,
};
use crate::record::{key_text, KeyModel, RecordModel};
use crate::snapshot::MarkerModel;
use crate::staging::{
    buffered, pre_image_at, AnnouncementModel, BaseModel, GroupModel, MaterializeReceiptModel,
    SessionModel,
};
use crate::store::{counted_so_far, StoreModel};
use crate::subscribe::{
    fanned, ActiveModel, DeltaKind, DeltaModel, HandleModel, RegistrationModel,
};
use crate::table::{counter_key_text, counter_table, DescriptorModel};
use crate::tables::{
    applied_all, domain_removal, domain_rows, domain_write, identified_removal, identified_rows,
    identified_write, next_identifier, rows_placed, TablesModel, WriteFact,
};
use crate::text::decimal_text;
use crate::versioning::{
    acknowledged_head, family_text, sealed, store_schema, topology_text, versions, CompactionModel,
    EntryModel, FamilyModel, OperationModel, VersionedHistoryAcknowledgement,
    VersionedRecoveryTopology,
};

verus! {

/// The storage layout that this engine writes.
pub const STORAGE_LAYOUT: u64 = 7;

/// The layout of stores written before the layout slot existed.
pub const LAYOUT_BEFORE_SLOT: u64 = 1;

/// An engine as plain values: its store, the catalog in registration
/// order, the live subscriptions, the name it logs versions under if it
/// does, the deltas that wait to be delivered, and the staging session
/// that buffers its writes if one is engaged.
#[verifier::ext_equal]
pub struct EngineModel {
    pub store: StoreModel,
    pub catalog: Seq<FamilyModel>,
    pub subscriptions: Seq<ActiveModel>,
    pub policy: Option<Seq<char>>,
    pub topology: VersionedRecoveryTopology,
    pub deltas: Seq<DeltaModel<RecordModel>>,
    pub session: Option<SessionModel>,
}

/// The commit sequence that reads report: the session's while one is
/// engaged, else the store's.
pub open spec fn standing_sequence(engine: EngineModel) -> u64 {
    match engine.session {
        Some(session) => session.commit_sequence,
        None => counted_so_far(engine.store.commit_sequence),
    }
}

/// The committed state that reads report.
pub open spec fn standing_snapshot(engine: EngineModel) -> u64 {
    match engine.session {
        Some(session) => session.snapshot,
        None => counted_so_far(engine.store.snapshot),
    }
}

/// The record tables that reads and checks see.
pub open spec fn standing_tables(engine: EngineModel) -> TablesModel {
    match engine.session {
        Some(session) => session.tables,
        None => engine.store.tables,
    }
}

/// The marker that reads report.
pub open spec fn standing_marker(engine: EngineModel) -> MarkerModel {
    MarkerModel {
        commit_sequence: standing_sequence(engine),
        snapshot: standing_snapshot(engine),
    }
}

/// The engine's counters can advance `commits` times more.
pub open spec fn has_room(engine: EngineModel, commits: int) -> bool {
    &&& standing_sequence(engine) + commits <= u64::MAX
    &&& standing_snapshot(engine) + commits <= u64::MAX
    &&& engine.session is None ==> counted_so_far(engine.store.commit_count) + commits <= u64::MAX
    &&& engine.session is None ==> counted_so_far(engine.store.versioned_count) + commits
        <= u64::MAX
}

/// What opening a store makes of it. A current layout is left as it is; a
/// virgin store is stamped; an older layout is brought forward if the
/// store has a versioned log to recompute the derived slots from; any
/// other is refused.
pub open spec fn opened(store: StoreModel) -> Result<StoreModel, Failure> {
    match store.layout {
        Some(layout) => if layout == STORAGE_LAYOUT {
            Ok(store)
        } else if layout < STORAGE_LAYOUT && store.versioned_log != Map::<
            u64,
            EntryModel,
        >::empty() {
            match folded(Seq::empty(), log_values(store.versioned_log), None) {
                Ok(_) => Ok(derived_slots(store, STORAGE_LAYOUT)),
                Err(failure) => Err(failure),
            }
        } else {
            Err(Failure::StorageLayoutMismatch { stored: layout, expected: STORAGE_LAYOUT })
        },
        None => if store.commit_sequence is Some || store.snapshot is Some
            || store.next_subscription is Some {
            Err(
                Failure::StorageLayoutMismatch {
                    stored: LAYOUT_BEFORE_SLOT,
                    expected: STORAGE_LAYOUT,
                },
            )
        } else {
            Ok(StoreModel { layout: Some(STORAGE_LAYOUT), ..store })
        },
    }
}

/// The catalog of a stored inventory, by rising table name.
pub open spec fn stored_catalog(catalog: Map<Seq<char>, FamilyModel>) -> Seq<FamilyModel> {
    crate::listing::row_values(lettered(catalog))
}

/// Whether a declared identity is new to a catalog, or why it is refused.
pub open spec fn registration_state(
    catalog: Seq<FamilyModel>,
    declared: FamilyModel,
) -> Result<bool, Failure> {
    match family_at(catalog, declared.table) {
        Some(stored) => if stored == declared {
            Ok(false)
        } else {
            Err(
                Failure::FamilyIdentityMismatch {
                    table: declared.table,
                    stored: family_text(stored),
                    declared: family_text(declared),
                },
            )
        },
        None => match family_of(catalog, declared.version()) {
            Some(bound) => Err(
                Failure::FamilyAlreadyBound {
                    family: declared.family,
                    existing: bound.table,
                    table: declared.table,
                },
            ),
            None => Ok(true),
        },
    }
}

/// The engine after a new family was registered.
pub open spec fn with_family(engine: EngineModel, declared: FamilyModel) -> EngineModel {
    EngineModel {
        store: StoreModel {
            catalog: engine.store.catalog.insert(declared.table, declared),
            ..engine.store
        },
        catalog: engine.catalog.push(declared),
        ..engine
    }
}

/// The engine after a table's identifier counter was started at one.
pub open spec fn with_counter(engine: EngineModel, table: Seq<char>) -> EngineModel {
    EngineModel {
        store: StoreModel {
            tables: TablesModel {
                counters: engine.store.tables.counters.insert(
                    counter_key_text(table),
                    1,
                ),
                ..engine.store.tables
            },
            ..engine.store
        },
        ..engine
    }
}

/// The operations that a commit's metadata logs.
pub open spec fn commit_operations(writes: Seq<WriteFact>) -> Seq<LogOperationModel> {
    Seq::new(
        writes.len(),
        |i: int|
            LogOperationModel {
                operation: writes[i].operation,
                table: writes[i].table,
                key: Some(writes[i].key),
            },
    )
}

/// The operations that a commit's versioned entry logs, each under its
/// table's registered family.
pub open spec fn versioned_operations(
    catalog: Seq<FamilyModel>,
    writes: Seq<WriteFact>,
) -> Seq<OperationModel> {
    Seq::new(
        writes.len(),
        |i: int|
            OperationModel {
                operation: writes[i].operation,
                family: family_at(catalog, writes[i].table)->0,
                key: Some(writes[i].key),
                payload: writes[i].payload,
            },
    )
}

/// The metadata entry of the next commit.
pub open spec fn next_commit(engine: EngineModel, writes: Seq<WriteFact>) -> LogEntryModel {
    LogEntryModel {
        commit_sequence: (standing_sequence(engine) + 1) as u64,
        snapshot: (standing_snapshot(engine) + 1) as u64,
        operations: commit_operations(writes),
    }
}

/// The versioned entry of the next commit under a store name.
pub open spec fn next_versioned(
    engine: EngineModel,
    store_name: Seq<char>,
    operations: Seq<OperationModel>,
) -> EntryModel {
    sealed(
        EntryModel {
            store_name,
            schema_hash: store_schema(versions(engine.catalog)),
            commit_sequence: (standing_sequence(engine) + 1) as u64,
            snapshot: (standing_snapshot(engine) + 1) as u64,
            previous: engine.store.chain_head,
            digest: Seq::empty(),
            operations,
        },
    )
}

/// The store after a commit: the metadata row, the versioned row with its
/// outbox row if there is one, and the counters.
pub open spec fn logged(
    store: StoreModel,
    commit: LogEntryModel,
    versioned: Option<EntryModel>,
) -> StoreModel {
    let appended = commit_appended(
        store,
        commit,
        (counted_so_far(store.commit_count) + 1) as u64,
    );
    let recorded = match versioned {
        Some(entry) => queued(
            versioned_appended(
                appended,
                entry,
                (counted_so_far(appended.versioned_count) + 1) as u64,
            ),
            entry,
        ),
        None => appended,
    };
    StoreModel {
        commit_sequence: Some(commit.commit_sequence),
        snapshot: Some(commit.snapshot),
        ..recorded
    }
}

/// The kind of delta that an operation puts out.
pub open spec fn delta_kind(operation: SemaOperation) -> DeltaKind {
    match operation {
        SemaOperation::Mutate => DeltaKind::Mutate,
        SemaOperation::Retract => DeltaKind::Retract,
        _ => DeltaKind::Assert,
    }
}

/// The deltas that a commit's writes put out, write by write. Writes to
/// engine-identified tables put out none.
pub open spec fn announced(
    subscriptions: Seq<ActiveModel>,
    writes: Seq<WriteFact>,
    snapshot: u64,
) -> Seq<DeltaModel<RecordModel>>
    decreases writes.len(),
{
    if writes.len() == 0 {
        Seq::empty()
    } else {
        let before = announced(subscriptions, writes.drop_last(), snapshot);
        let write = writes.last();
        if write.slot is Domain {
            before + fanned(
                subscriptions,
                delta_kind(write.operation),
                write.table,
                write.key,
                snapshot,
                RecordModel { key: write.key, bytes: write.record },
            )
        } else {
            before
        }
    }
}

/// The engine after checked writes landed as one commit, or were buffered
/// as one entry of the engaged session.
pub open spec fn landed(engine: EngineModel, writes: Seq<WriteFact>) -> EngineModel {
    let operations = versioned_operations(engine.catalog, writes);
    match engine.session {
        Some(session) => EngineModel {
            session: Some(buffered(session, operations, writes)),
            ..engine
        },
        None => {
            let commit = next_commit(engine, writes);
            let versioned = match engine.policy {
                Some(store_name) => Some(next_versioned(engine, store_name, operations)),
                None => None,
            };
            EngineModel {
                store: logged(
                    StoreModel {
                        tables: applied_all(engine.store.tables, writes),
                        ..engine.store
                    },
                    commit,
                    versioned,
                ),
                deltas: engine.deltas + announced(engine.subscriptions, writes, commit.snapshot),
                ..engine
            }
        },
    }
}

/// A write to a domain-keyed table, held against the rows that stand: an
/// assertion needs its key free, a mutation or retraction needs it taken.
pub open spec fn checked(
    tables: TablesModel,
    table: Seq<char>,
    write: WriteModel,
) -> Result<WriteFact, Failure> {
    match write {
        WriteModel::Assert(record) => {
            let key = key_text(record.key);
            if tables.records.dom().contains((table, key)) {
                Err(Failure::DuplicateAssertKey { table, key })
            } else {
                Ok(domain_write(SemaOperation::Assert, table, record.key, record.bytes))
            }
        },
        WriteModel::Mutate(record) => {
            let key = key_text(record.key);
            if tables.records.dom().contains((table, key)) {
                Ok(domain_write(SemaOperation::Mutate, table, record.key, record.bytes))
            } else {
                Err(Failure::RecordNotFound { table, key })
            }
        },
        WriteModel::Retract(name) => {
            let key = key_text(name);
            if tables.records.dom().contains((table, key)) {
                Ok(domain_removal(table, name, tables.records[(table, key)]))
            } else {
                Err(Failure::RecordNotFound { table, key })
            }
        },
    }
}

/// The key that a write names.
pub open spec fn write_key(write: WriteModel) -> KeyModel {
    match write {
        WriteModel::Assert(record) => record.key,
        WriteModel::Mutate(record) => record.key,
        WriteModel::Retract(key) => key,
    }
}

/// A single write to one table.
pub open spec fn write_outcome(
    engine: EngineModel,
    table: Seq<char>,
    write: WriteModel,
) -> Result<EngineModel, Failure> {
    if !registered(engine.catalog, table) {
        Err(Failure::TableNotRegistered { table })
    } else {
        match checked(standing_tables(engine), table, write) {
            Ok(fact) => Ok(landed(engine, seq![fact])),
            Err(failure) => Err(failure),
        }
    }
}

/// Earlier writes of a group already name a table's key.
pub open spec fn named_already(writes: Seq<WriteFact>, table: Seq<char>, key: KeyModel) -> bool {
    exists|i: int|
        0 <= i < writes.len() && (#[trigger] writes[i]).table == table && writes[i].key == key
}

/// The checked writes of a one-table group, or the first refusal. No key
/// may be named twice; each write is held against the rows that stood
/// before the group.
pub open spec fn planned(
    tables: TablesModel,
    table: Seq<char>,
    writes: Seq<WriteModel>,
) -> Result<Seq<WriteFact>, Failure>
    decreases writes.len(),
{
    if writes.len() == 0 {
        Ok(Seq::empty())
    } else {
        match planned(tables, table, writes.drop_last()) {
            Err(failure) => Err(failure),
            Ok(before) => {
                let write = writes.last();
                if named_already(before, table, write_key(write)) {
                    Err(Failure::DuplicateWriteKey { table, key: key_text(write_key(write)) })
                } else {
                    match checked(tables, table, write) {
                        Ok(fact) => Ok(before.push(fact)),
                        Err(failure) => Err(failure),
                    }
                }
            },
        }
    }
}

/// A group of writes to one table, committed together or not at all.
pub open spec fn commit_outcome(
    engine: EngineModel,
    table: Seq<char>,
    writes: Seq<WriteModel>,
) -> Result<EngineModel, Failure> {
    if !registered(engine.catalog, table) {
        Err(Failure::TableNotRegistered { table })
    } else if writes.len() == 0 {
        Err(Failure::EmptyCommit { table })
    } else {
        match planned(standing_tables(engine), table, writes) {
            Ok(facts) => Ok(landed(engine, facts)),
            Err(failure) => Err(failure),
        }
    }
}

/// The checked writes of a group over several tables, or the first
/// refusal.
pub open spec fn planned_across(
    catalog: Seq<FamilyModel>,
    tables: TablesModel,
    writes: Seq<(Seq<char>, WriteModel)>,
) -> Result<Seq<WriteFact>, Failure>
    decreases writes.len(),
{
    if writes.len() == 0 {
        Ok(Seq::empty())
    } else {
        match planned_across(catalog, tables, writes.drop_last()) {
            Err(failure) => Err(failure),
            Ok(before) => {
                let (table, write) = writes.last();
                if named_already(before, table, write_key(write)) {
                    Err(Failure::DuplicateWriteKey { table, key: key_text(write_key(write)) })
                } else if !registered(catalog, table) {
                    Err(Failure::TableNotRegistered { table })
                } else {
                    match checked(tables, table, write) {
                        Ok(fact) => Ok(before.push(fact)),
                        Err(failure) => Err(failure),
                    }
                }
            },
        }
    }
}

/// A group of writes over several tables, committed together or not at
/// all.
pub open spec fn atomic_outcome(
    engine: EngineModel,
    writes: Seq<(Seq<char>, WriteModel)>,
) -> Result<EngineModel, Failure> {
    if writes.len() == 0 {
        Err(Failure::EmptyAtomicCommit)
    } else {
        match planned_across(engine.catalog, standing_tables(engine), writes) {
            Ok(facts) => Ok(landed(engine, facts)),
            Err(failure) => Err(failure),
        }
    }
}

/// A new record under the identifier that its table mints next.
pub open spec fn identified_assertion(
    engine: EngineModel,
    table: Seq<char>,
    bytes: Seq<u8>,
) -> Result<EngineModel, Failure> {
    if !registered(engine.catalog, table) {
        Err(Failure::TableNotRegistered { table })
    } else {
        let identifier = next_identifier(standing_tables(engine), table);
        Ok(
            landed(
                engine,
                seq![identified_write(SemaOperation::Assert, table, identifier, bytes)],
            ),
        )
    }
}

/// Why no record stands under an identifier, if none does.
pub open spec fn identified_absence(
    engine: EngineModel,
    table: Seq<char>,
    identifier: u64,
) -> Option<Failure> {
    if !registered(engine.catalog, table) {
        Some(Failure::TableNotRegistered { table })
    } else if !standing_tables(engine).identified.dom().contains((table, identifier)) {
        Some(Failure::RecordNotFound { table, key: decimal_text(identifier as nat) })
    } else {
        None
    }
}

/// A new record in place of the one under an identifier.
pub open spec fn identified_mutation(
    engine: EngineModel,
    table: Seq<char>,
    identifier: u64,
    bytes: Seq<u8>,
) -> Result<EngineModel, Failure> {
    match identified_absence(engine, table, identifier) {
        Some(failure) => Err(failure),
        None => Ok(
            landed(
                engine,
                seq![identified_write(SemaOperation::Mutate, table, identifier, bytes)],
            ),
        ),
    }
}

/// The removal of the record under an identifier.
pub open spec fn identified_retraction(
    engine: EngineModel,
    table: Seq<char>,
    identifier: u64,
) -> Result<EngineModel, Failure> {
    match identified_absence(engine, table, identifier) {
        Some(failure) => Err(failure),
        None => Ok(
            landed(
                engine,
                seq![
                    identified_removal(
                        table,
                        identifier,
                        standing_tables(engine).identified[(table, identifier)],
                    ),
                ],
            ),
        ),
    }
}

/// The records of a domain-keyed table, in key order.
pub open spec fn listed(rows: Map<Seq<char>, Seq<u8>>) -> Seq<RecordModel> {
    Seq::new(
        lettered(rows).len(),
        |i: int|
            RecordModel { key: KeyModel::Domain(lettered(rows)[i].0), bytes: lettered(rows)[i].1 },
    )
}

/// The records whose keys lie in a range.
pub open spec fn records_within(
    records: Seq<RecordModel>,
    range: KeyRangeModel,
) -> Seq<RecordModel>
    decreases records.len(),
{
    if records.len() == 0 {
        Seq::empty()
    } else {
        let before = records_within(records.drop_last(), range);
        if range_contains(range, records.last().key) {
            before.push(records.last())
        } else {
            before
        }
    }
}

/// What a query reads.
pub open spec fn matched(engine: EngineModel, plan: PlanModel) -> Result<
    Seq<RecordModel>,
    Failure,
> {
    let rows = domain_rows(standing_tables(engine).records, plan.table);
    if !registered(engine.catalog, plan.table) {
        Err(Failure::TableNotRegistered { table: plan.table })
    } else {
        match plan.node {
            ReadPlanNode::AllRows => Ok(listed(rows)),
            ReadPlanNode::ByKey(key) => {
                let text = key_text(key@);
                if rows.dom().contains(text) {
                    Ok(seq![RecordModel { key: KeyModel::Domain(text), bytes: rows[text] }])
                } else {
                    Ok(Seq::empty())
                }
            },
            ReadPlanNode::ByKeyRange(range) => Ok(records_within(listed(rows), range@)),
            node => Err(Failure::UnsupportedReadPlan { operator: node_operator(node) }),
        }
    }
}

/// One identified record as plain values.
pub type IdentifiedFact = (u64, RecordModel);

/// The records of an engine-identified table, by rising identifier.
pub open spec fn identified_listed(rows: Map<u64, Seq<u8>>) -> Seq<IdentifiedFact> {
    Seq::new(
        numbered(rows).len(),
        |i: int|
            (
                numbered(rows)[i].0,
                RecordModel {
                    key: KeyModel::Identifier(numbered(rows)[i].0),
                    bytes: numbered(rows)[i].1,
                },
            ),
    )
}

/// The records whose identifiers lie in a range.
pub open spec fn identified_within(
    records: Seq<IdentifiedFact>,
    range: IdentifierRangeModel,
) -> Seq<IdentifiedFact>
    decreases records.len(),
{
    if records.len() == 0 {
        Seq::empty()
    } else {
        let before = identified_within(records.drop_last(), range);
        if identifier_range_contains(range, records.last().0) {
            before.push(records.last())
        } else {
            before
        }
    }
}

/// What a query over an engine-identified table reads.
pub open spec fn identified_matched(engine: EngineModel, plan: IdentifiedPlanModel) -> Result<
    Seq<IdentifiedFact>,
    Failure,
> {
    let rows = identified_rows(standing_tables(engine).identified, plan.table);
    if !registered(engine.catalog, plan.table) {
        Err(Failure::TableNotRegistered { table: plan.table })
    } else {
        match plan.node {
            IdentifiedReadPlanNode::AllRows => Ok(identified_listed(rows)),
            IdentifiedReadPlanNode::ByIdentifier(identifier) => if rows.dom().contains(
                identifier@,
            ) {
                Ok(
                    seq![
                        (
                            identifier@,
                            RecordModel {
                                key: KeyModel::Identifier(identifier@),
                                bytes: rows[identifier@],
                            },
                        ),
                    ],
                )
            } else {
                Ok(Seq::empty())
            },
            IdentifiedReadPlanNode::ByIdentifierRange(range) => Ok(
                identified_within(identified_listed(rows), range@),
            ),
        }
    }
}

/// The counters of engine-identified tables among counter rows.
pub open spec fn inventoried(rows: Seq<(Seq<char>, u64)>) -> Seq<CounterModel>
    decreases rows.len(),
{
    if rows.len() == 0 {
        Seq::empty()
    } else {
        let before = inventoried(rows.drop_last());
        match counter_table(rows.last().0) {
            Some(table) => before.push(CounterModel { table, next: rows.last().1 }),
            None => before,
        }
    }
}

/// What a checkpoint records of the store's families and counters.
pub open spec fn inventory_of(engine: EngineModel) -> InventoryModel {
    InventoryModel {
        families: engine.catalog,
        counters: inventoried(lettered(engine.store.tables.counters)),
    }
}

/// The segments that references name, or the first that is missing.
pub open spec fn gathered(
    segments: Map<Seq<u8>, Seq<RowModel>>,
    references: Seq<ReferenceModel>,
) -> Result<Seq<Seq<RowModel>>, Failure>
    decreases references.len(),
{
    if references.len() == 0 {
        Ok(Seq::empty())
    } else {
        match gathered(segments, references.drop_last()) {
            Err(failure) => Err(failure),
            Ok(found) => {
                let digest = references.last().digest;
                if segments.dom().contains(digest) {
                    Ok(found.push(segments[digest]))
                } else {
                    Err(Failure::SegmentMissing { digest })
                }
            },
        }
    }
}

/// The latest stored checkpoint, verified.
pub open spec fn loaded(store: StoreModel) -> Result<Option<CheckpointModel>, Failure> {
    match store.latest_checkpoint {
        None => Ok(None),
        Some(sequence) => if !store.checkpoints.dom().contains(sequence) {
            Err(Failure::CheckpointRowMissing { sequence })
        } else {
            let metadata = store.checkpoints[sequence];
            match gathered(store.segments, metadata.segments) {
                Err(failure) => Err(failure),
                Ok(segments) => {
                    let checkpoint = CheckpointModel { metadata, segments };
                    match verification(checkpoint) {
                        Some(failure) => Err(failure),
                        None => Ok(Some(checkpoint)),
                    }
                },
            }
        },
    }
}

/// Where a fold of the store's history starts: the rows of the latest
/// checkpoint, the digest that the log must continue from, and the last
/// commit that the rows cover.
pub struct ResumeModel {
    pub rows: Seq<RowModel>,
    pub head: Option<Seq<u8>>,
    pub after: u64,
}

pub open spec fn resumed(latest: Option<CheckpointModel>) -> ResumeModel {
    match latest {
        Some(checkpoint) => ResumeModel {
            rows: all_rows(checkpoint.segments),
            head: Some(checkpoint.metadata.entry_digest),
            after: checkpoint.metadata.covered.last,
        },
        None => ResumeModel { rows: Seq::empty(), head: None, after: 0 },
    }
}

/// The versioned entries past a commit, in commit order.
pub open spec fn log_after(store: StoreModel, after: u64) -> Seq<EntryModel> {
    log_values(from_number(store.versioned_log, after + 1))
}

/// Commits without a versioned entry cannot be folded.
pub open spec fn log_gap(store: StoreModel) -> Option<Failure> {
    let commits = counted_so_far(store.commit_count);
    let versioned = counted_so_far(store.versioned_count);
    if commits != versioned {
        Some(Failure::VersionedLogIncomplete { commits, versioned })
    } else {
        None
    }
}

/// The store's history, folded: where the fold started, the entries it
/// applied, and the view it came to.
pub struct HistoryModel {
    pub latest: Option<CheckpointModel>,
    pub entries: Seq<EntryModel>,
    pub view: FoldModel,
}

/// Fold the latest checkpoint and the log that continues it. `required`
/// refuses a log that adds nothing.
pub open spec fn history(engine: EngineModel, surface: Seq<char>, required: bool) -> Result<
    HistoryModel,
    Failure,
> {
    if engine.policy is None {
        Err(Failure::VersioningNotEnabled { surface })
    } else {
        match log_gap(engine.store) {
            Some(failure) => Err(failure),
            None => match loaded(engine.store) {
                Err(failure) => Err(failure),
                Ok(latest) => {
                    let start = resumed(latest);
                    let entries = log_after(engine.store, start.after);
                    if required && entries.len() == 0 {
                        Err(Failure::CheckpointNothingToCover)
                    } else {
                        match folded(start.rows, entries, start.head) {
                            Err(failure) => Err(failure),
                            Ok(view) => Ok(HistoryModel { latest, entries, view }),
                        }
                    }
                },
            },
        }
    }
}

/// The metadata of the checkpoint that covers a folded history.
pub open spec fn covering_metadata(
    engine: EngineModel,
    found: HistoryModel,
    segments: Seq<Seq<RowModel>>,
) -> MetadataModel {
    let last = found.entries.last();
    sealed_metadata(
        MetadataModel {
            sequence: match found.latest {
                Some(previous) => (previous.metadata.sequence + 1) as u64,
                None => 1,
            },
            store_name: engine.policy->0,
            store_schema_hash: store_schema(versions(engine.catalog)),
            inventory: inventory_of(engine),
            covered: RangeModel {
                first: match found.latest {
                    Some(previous) => previous.metadata.covered.first,
                    None => found.entries[0].commit_sequence,
                },
                last: last.commit_sequence,
            },
            snapshot: last.snapshot,
            entry_digest: last.digest,
            view_digest: view_digest(found.view.cells),
            previous: match found.latest {
                Some(previous) => Some(previous.metadata.digest),
                None => None,
            },
            segments: references_of(segments),
            digest: Seq::empty(),
        },
    )
}

/// The references to a list of segments.
pub open spec fn references_of(segments: Seq<Seq<RowModel>>) -> Seq<ReferenceModel> {
    Seq::new(segments.len(), |i: int| segment_reference(segments[i]))
}

/// The checkpoint that the store's history comes to now.
pub open spec fn checkpointed(engine: EngineModel) -> Result<CheckpointModel, Failure> {
    match history(engine, "checkpoint"@, true) {
        Err(failure) => Err(failure),
        Ok(found) => match materialized(found.view, engine.catalog) {
            Err(failure) => Err(failure),
            Ok(rows) => {
                let segments = chunked(rows.rows);
                Ok(
                    CheckpointModel {
                        metadata: covering_metadata(engine, found, segments),
                        segments,
                    },
                )
            },
        },
    }
}

/// Segments stored under their content addresses.
pub open spec fn segments_stored(
    stored: Map<Seq<u8>, Seq<RowModel>>,
    segments: Seq<Seq<RowModel>>,
) -> Map<Seq<u8>, Seq<RowModel>>
    decreases segments.len(),
{
    if segments.len() == 0 {
        stored
    } else {
        segments_stored(stored, segments.drop_last()).insert(
            segment_digest(segments.last()),
            segments.last(),
        )
    }
}

/// The store after a checkpoint was kept as its latest.
pub open spec fn with_checkpoint(store: StoreModel, checkpoint: CheckpointModel) -> StoreModel {
    StoreModel {
        checkpoints: store.checkpoints.insert(checkpoint.metadata.sequence, checkpoint.metadata),
        segments: segments_stored(store.segments, checkpoint.segments),
        latest_checkpoint: Some(checkpoint.metadata.sequence),
        ..store
    }
}

/// The store after the entries up to a commit left the logs and the outbox.
pub open spec fn compacted(store: StoreModel, floor: u64) -> StoreModel {
    let commit_log = from_number(store.commit_log, floor + 1);
    let versioned_log = from_number(store.versioned_log, floor + 1);
    StoreModel {
        commit_log,
        versioned_log,
        outbox: from_number(store.outbox, floor + 1),
        commit_count: Some(log_values(commit_log).len() as u64),
        versioned_count: Some(log_values(versioned_log).len() as u64),
        ..store
    }
}

/// The metadata of a checkpoint that covers a folded history and continues
/// no other.
pub open spec fn root_metadata(
    engine: EngineModel,
    found: HistoryModel,
    segments: Seq<Seq<RowModel>>,
) -> MetadataModel {
    let (last, snapshot, digest) = if found.entries.len() == 0 {
        let covered = found.latest->0.metadata;
        (covered.covered.last, covered.snapshot, covered.entry_digest)
    } else {
        let entry = found.entries.last();
        (entry.commit_sequence, entry.snapshot, entry.digest)
    };
    sealed_metadata(
        MetadataModel {
            sequence: match found.latest {
                Some(previous) => (previous.metadata.sequence + 1) as u64,
                None => 1,
            },
            store_name: engine.policy->0,
            store_schema_hash: store_schema(versions(engine.catalog)),
            inventory: inventory_of(engine),
            covered: RangeModel {
                first: match found.latest {
                    Some(previous) => previous.metadata.covered.first,
                    None => found.entries[0].commit_sequence,
                },
                last,
            },
            snapshot,
            entry_digest: digest,
            view_digest: view_digest(found.view.cells),
            previous: None,
            segments: references_of(segments),
            digest: Seq::empty(),
        },
    )
}

/// The one checkpoint that a compaction leaves: it covers the whole history
/// and continues no other.
pub open spec fn rooted(engine: EngineModel) -> Result<CheckpointModel, Failure> {
    match history(engine, "compact_versioned_history"@, false) {
        Err(failure) => Err(failure),
        Ok(found) => if found.entries.len() == 0 && found.latest is None {
            Err(Failure::CheckpointNothingToCover)
        } else {
            match materialized(found.view, engine.catalog) {
                Err(failure) => Err(failure),
                Ok(rows) => {
                    let segments = chunked(rows.rows);
                    Ok(
                        CheckpointModel {
                            metadata: root_metadata(engine, found, segments),
                            segments,
                        },
                    )
                },
            }
        },
    }
}

/// The store with one checkpoint in place of all that it kept.
pub open spec fn with_root(store: StoreModel, checkpoint: CheckpointModel) -> StoreModel {
    with_checkpoint(
        StoreModel { checkpoints: Map::empty(), segments: Map::empty(), ..store },
        checkpoint,
    )
}

/// What compacting the version history down to a budget of entries comes to:
/// the store and the outcome, or why it is refused. An acknowledgement must
/// fit the store's topology; a mirror's must be the head that it confirmed
/// last, at or past every entry that leaves. Where the budget holds every
/// entry, nothing changes.
pub open spec fn history_compaction(
    engine: EngineModel,
    budget: u64,
    acknowledgement: VersionedHistoryAcknowledgement,
) -> Result<(StoreModel, CompactionModel), Failure> {
    let entries = log_values(engine.store.versioned_log);
    let head = acknowledged_head(acknowledgement);
    if engine.policy is None {
        Err(Failure::VersioningNotEnabled { surface: "compact_versioned_history"@ })
    } else if acknowledgement.kind() != engine.topology {
        Err(
            Failure::HistoryCompactionTopologyMismatch {
                topology: topology_text(engine.topology),
                acknowledgement: topology_text(acknowledgement.kind()),
            },
        )
    } else if entries.len() <= budget {
        Ok(
            (
                engine.store,
                CompactionModel {
                    compacted_entries: 0,
                    retained_entries: entries.len() as u64,
                    checkpoint_sequence: None,
                },
            ),
        )
    } else {
        let count = entries.len() - budget;
        let floor = entries[count - 1].commit_sequence;
        if head is Some && (engine.store.mirror != head || head->0.commit_sequence < floor) {
            Err(
                Failure::HistoryCompactionUnacknowledged {
                    required: floor,
                    acknowledged: match engine.store.mirror {
                        Some(cursor) => Some(cursor.commit_sequence),
                        None => None,
                    },
                },
            )
        } else {
            match rooted(engine) {
                Err(failure) => Err(failure),
                Ok(checkpoint) => Ok(
                    (
                        compacted(with_root(engine.store, checkpoint), floor),
                        CompactionModel {
                            compacted_entries: count as u64,
                            retained_entries: budget,
                            checkpoint_sequence: Some(checkpoint.metadata.sequence),
                        },
                    ),
                ),
            }
        }
    }
}

/// The receipt of a checkpoint.
pub open spec fn checkpoint_receipt(checkpoint: CheckpointModel) -> CheckpointReceiptModel {
    CheckpointReceiptModel {
        sequence: checkpoint.metadata.sequence,
        covered: checkpoint.metadata.covered,
        view_digest: checkpoint.metadata.view_digest,
        checkpoint_digest: checkpoint.metadata.digest,
        segment_count: checkpoint.segments.len(),
        row_count: all_rows(checkpoint.segments).len(),
    }
}

/// The latest stored metadata leaves room for one more checkpoint.
pub open spec fn has_checkpoint_room(store: StoreModel) -> bool {
    match store.latest_checkpoint {
        Some(sequence) => store.checkpoints.dom().contains(sequence)
            ==> store.checkpoints[sequence].sequence < u64::MAX,
        None => true,
    }
}

/// A rebuild of the record tables from the log: the rows to land, in
/// order, and the receipt.
pub struct RebuildPlanModel {
    pub rows: Seq<RowModel>,
    pub receipt: RebuildModel,
}

pub open spec fn rebuild_plan(engine: EngineModel) -> Result<RebuildPlanModel, Failure> {
    match history(engine, "rebuild_from_log"@, false) {
        Err(failure) => Err(failure),
        Ok(found) => match materialized(found.view, engine.catalog) {
            Err(failure) => Err(failure),
            Ok(rows) => Ok(
                RebuildPlanModel {
                    rows: rows.cleared + rows.rows,
                    receipt: RebuildModel {
                        view_digest: view_digest(found.view.cells),
                        row_count: rows.rows.len(),
                        cleared_count: rows.cleared.len(),
                        folded_entry_count: found.entries.len(),
                    },
                },
            ),
        },
    }
}

/// The engine after rows landed in its record tables.
pub open spec fn with_rows(engine: EngineModel, rows: Seq<RowModel>) -> EngineModel {
    EngineModel {
        store: StoreModel { tables: rows_placed(engine.store.tables, rows), ..engine.store },
        ..engine
    }
}

/// A store that an import may restore into.
pub open spec fn fresh(engine: EngineModel) -> bool {
    &&& engine.catalog.len() == 0
    &&& engine.store.commit_sequence is None
    &&& engine.store.snapshot is None
    &&& engine.store.latest_checkpoint is None
    &&& engine.store.catalog == Map::<Seq<char>, FamilyModel>::empty()
    &&& engine.store.commit_log == Map::<u64, LogEntryModel>::empty()
    &&& engine.store.versioned_log == Map::<u64, EntryModel>::empty()
}

/// Why an import may not begin, if it may not.
pub open spec fn import_refusal(engine: EngineModel) -> Option<Failure> {
    if engine.policy is None {
        Some(Failure::VersioningNotEnabled { surface: "import"@ })
    } else if !fresh(engine) {
        Some(Failure::ImportStoreNotFresh)
    } else {
        None
    }
}

/// The first table that a list of families binds twice.
pub open spec fn twice_bound(families: Seq<FamilyModel>) -> Option<Failure>
    decreases families.len(),
{
    if families.len() == 0 {
        None
    } else {
        match twice_bound(families.drop_last()) {
            Some(failure) => Some(failure),
            None => if registered(families.drop_last(), families.last().table) {
                Some(Failure::TableAlreadyRegistered { table: families.last().table })
            } else {
                None
            },
        }
    }
}

/// An import that may land: what it restores from, the rows to land, and
/// the receipt.
pub struct ImportPlanModel {
    pub checkpoint: CheckpointModel,
    pub suffix: Seq<EntryModel>,
    pub rows: Seq<RowModel>,
    pub receipt: ImportReceiptModel,
}

/// What importing a checkpoint and the log that continues it comes to.
pub open spec fn import_plan(
    engine: EngineModel,
    checkpoint: CheckpointModel,
    suffix: Seq<EntryModel>,
) -> Result<ImportPlanModel, Failure> {
    let metadata = checkpoint.metadata;
    let families = metadata.inventory.families;
    match engine.policy {
        None => Err(Failure::VersioningNotEnabled { surface: "import"@ }),
        Some(store_name) => if metadata.store_name != store_name {
            Err(
                Failure::ImportStoreNameMismatch {
                    checkpoint: metadata.store_name,
                    policy: store_name,
                },
            )
        } else if store_schema(versions(families)) != metadata.store_schema_hash {
            Err(
                Failure::CheckpointSchemaMismatch {
                    checkpoint: metadata.store_schema_hash,
                    current: store_schema(versions(families)),
                },
            )
        } else if !fresh(engine) {
            Err(Failure::ImportStoreNotFresh)
        } else {
            match folded(all_rows(checkpoint.segments), suffix, Some(metadata.entry_digest)) {
                Err(failure) => Err(failure),
                Ok(view) => match materialized(view, families) {
                    Err(failure) => Err(failure),
                    Ok(rows) => match twice_bound(families) {
                        Some(failure) => Err(failure),
                        None => Ok(
                            ImportPlanModel {
                                checkpoint,
                                suffix,
                                rows: rows.cleared + rows.rows,
                                receipt: ImportReceiptModel {
                                    covered: metadata.covered,
                                    suffix_count: suffix.len() as usize,
                                    view_digest: view_digest(view.cells),
                                    row_count: rows.rows.len() as usize,
                                    commit_sequence: if suffix.len() == 0 {
                                        metadata.covered.last
                                    } else {
                                        suffix.last().commit_sequence
                                    },
                                    snapshot: if suffix.len() == 0 {
                                        metadata.snapshot
                                    } else {
                                        suffix.last().snapshot
                                    },
                                },
                            },
                        ),
                    },
                },
            }
        },
    }
}

/// Registrations stored under their table names.
pub open spec fn families_stored(
    stored: Map<Seq<char>, FamilyModel>,
    families: Seq<FamilyModel>,
) -> Map<Seq<char>, FamilyModel>
    decreases families.len(),
{
    if families.len() == 0 {
        stored
    } else {
        families_stored(stored, families.drop_last()).insert(families.last().table, families.last())
    }
}

/// Identifier counters stored under their counter keys.
pub open spec fn counters_stored(
    stored: Map<Seq<char>, u64>,
    counters: Seq<CounterModel>,
) -> Map<Seq<char>, u64>
    decreases counters.len(),
{
    if counters.len() == 0 {
        stored
    } else {
        counters_stored(stored, counters.drop_last()).insert(
            counter_key_text(counters.last().table),
            counters.last().next,
        )
    }
}

/// The counter value past an identifier.
pub open spec fn past(identifier: u64) -> u64 {
    if identifier < u64::MAX {
        (identifier + 1) as u64
    } else {
        identifier
    }
}

/// The counters once one of them is moved up to a value. A counter never
/// moves back.
pub open spec fn counter_moved(
    counters: Map<Seq<char>, u64>,
    counter: Seq<char>,
    value: u64,
) -> Map<Seq<char>, u64> {
    if counters.dom().contains(counter) && counters[counter] >= value {
        counters
    } else {
        counters.insert(counter, value)
    }
}

/// The counters after logged operations: an identified assertion moves
/// its table's counter past the identifier it used.
pub open spec fn counters_advanced(
    counters: Map<Seq<char>, u64>,
    operations: Seq<OperationModel>,
) -> Map<Seq<char>, u64>
    decreases operations.len(),
{
    if operations.len() == 0 {
        counters
    } else {
        let before = counters_advanced(counters, operations.drop_last());
        let operation = operations.last();
        match (operation.operation, operation.key) {
            (SemaOperation::Assert, Some(KeyModel::Identifier(identifier))) => counter_moved(
                before,
                counter_key_text(operation.family.table),
                past(identifier),
            ),
            _ => before,
        }
    }
}

/// The store after logged entries were taken over: their metadata rows,
/// their versioned rows with the outbox rows beside them, and what they
/// minted.
pub open spec fn entries_logged(store: StoreModel, entries: Seq<EntryModel>) -> StoreModel
    decreases entries.len(),
{
    if entries.len() == 0 {
        store
    } else {
        let before = entries_logged(store, entries.drop_last());
        let entry = entries.last();
        let after = logged(before, entry_metadata(entry), Some(entry));
        StoreModel {
            tables: TablesModel {
                counters: counters_advanced(after.tables.counters, entry.operations),
                ..after.tables
            },
            ..after
        }
    }
}

/// The store's log counts can advance `entries` times more.
pub open spec fn has_log_room(store: StoreModel, entries: int) -> bool {
    &&& counted_so_far(store.commit_count) + entries <= u64::MAX
    &&& counted_so_far(store.versioned_count) + entries <= u64::MAX
}

/// The store with the checkpoint's inventory, the checkpoint, and the
/// cursors it covers.
pub open spec fn checkpoint_restored(
    store: StoreModel,
    checkpoint: CheckpointModel,
) -> StoreModel {
    let metadata = checkpoint.metadata;
    with_checkpoint(
        StoreModel {
            catalog: families_stored(store.catalog, metadata.inventory.families),
            tables: TablesModel {
                counters: counters_stored(store.tables.counters, metadata.inventory.counters),
                ..store.tables
            },
            commit_sequence: Some(metadata.covered.last),
            snapshot: Some(metadata.snapshot),
            chain_head: Some(metadata.entry_digest),
            ..store
        },
        checkpoint,
    )
}

/// The engine after an import landed with these rows: it stands where the
/// store that the checkpoint and the log came from stood.
pub open spec fn imported(
    engine: EngineModel,
    plan: ImportPlanModel,
    rows: Seq<RowModel>,
) -> EngineModel {
    let restored = entries_logged(
        checkpoint_restored(engine.store, plan.checkpoint),
        plan.suffix,
    );
    EngineModel {
        store: StoreModel { tables: rows_placed(restored.tables, rows), ..restored },
        catalog: engine.catalog + plan.checkpoint.metadata.inventory.families,
        ..engine
    }
}

/// The operations of logged entries, in log order.
pub open spec fn all_operations(entries: Seq<EntryModel>) -> Seq<OperationModel>
    decreases entries.len(),
{
    if entries.len() == 0 {
        Seq::empty()
    } else {
        all_operations(entries.drop_last()) + entries.last().operations
    }
}

/// A replay so far: where the engine stands, how many operations were
/// applied and skipped, and what stopped it.
#[verifier::ext_equal]
pub struct ReplayModel {
    pub engine: EngineModel,
    pub applied: nat,
    pub skipped: nat,
    pub refusal: Option<Failure>,
}

/// The write that a replayed operation of the registered family comes to,
/// given why its record did not read back, if it did not.
pub open spec fn replay_write(
    table: Seq<char>,
    family: FamilyModel,
    operation: OperationModel,
    unread: Option<Seq<char>>,
) -> Result<WriteModel, Failure> {
    match (operation.key, operation.operation) {
        (None, _) => Err(Failure::ReplayMissingKey { family: family.family }),
        (Some(key), SemaOperation::Assert) => match replay_record(table, operation, unread) {
            Ok(bytes) => Ok(WriteModel::Assert(RecordModel { key, bytes })),
            Err(failure) => Err(failure),
        },
        (Some(key), SemaOperation::Mutate) => match replay_record(table, operation, unread) {
            Ok(bytes) => Ok(WriteModel::Mutate(RecordModel { key, bytes })),
            Err(failure) => Err(failure),
        },
        (Some(key), SemaOperation::Retract) => Ok(WriteModel::Retract(key)),
        (Some(_), other) => Err(
            Failure::ReplayUnsupportedOperation { operation: record_head(other) },
        ),
    }
}

/// The record of a replayed operation, read back.
pub open spec fn replay_record(
    table: Seq<char>,
    operation: OperationModel,
    unread: Option<Seq<char>>,
) -> Result<Seq<u8>, Failure> {
    match (operation.payload, unread) {
        (None, _) => Err(Failure::ReplayTombstonePayload { table }),
        (Some(_), Some(message)) => Err(Failure::VersionedPayloadDecode { table, message }),
        (Some(bytes), None) => Ok(bytes),
    }
}

/// Replay one operation of the registered family into its table, given why
/// its record did not read back, if it did not.
pub open spec fn replayed_once(
    engine: EngineModel,
    table: Seq<char>,
    family: FamilyModel,
    operation: OperationModel,
    unread: Option<Seq<char>>,
) -> Result<EngineModel, Failure> {
    match replay_write(table, family, operation, unread) {
        Ok(write) => write_outcome(engine, table, write),
        Err(failure) => Err(failure),
    }
}

/// A replayed operation whose record is read back before it is written: an
/// assertion or mutation of the family that has a key and a record.
pub open spec fn reads_record(family: FamilyModel, operation: OperationModel) -> bool {
    &&& operation.family.version() == family.version()
    &&& operation.key is Some
    &&& operation.payload is Some
    &&& operation.operation == SemaOperation::Assert || operation.operation
        == SemaOperation::Mutate
}

/// What reading the record of an operation back came to. Where nothing is
/// said, the record read back.
pub open spec fn read_at(reads: Seq<Option<Seq<char>>>, at: int) -> Option<Seq<char>> {
    if 0 <= at < reads.len() {
        reads[at]
    } else {
        None
    }
}

/// Replay logged operations in order, each as a write of its own, given
/// what reading their records back came to. Operations of other families
/// are skipped; the first refusal stops the replay, and what was applied
/// before it stands.
pub open spec fn replayed(
    engine: EngineModel,
    table: Seq<char>,
    family: FamilyModel,
    operations: Seq<OperationModel>,
    reads: Seq<Option<Seq<char>>>,
) -> ReplayModel
    decreases operations.len(),
{
    if operations.len() == 0 {
        ReplayModel { engine, applied: 0, skipped: 0, refusal: None }
    } else {
        let before = replayed(engine, table, family, operations.drop_last(), reads);
        let operation = operations.last();
        if before.refusal is Some {
            before
        } else if operation.family.version() != family.version() {
            ReplayModel { skipped: before.skipped + 1, ..before }
        } else {
            match replayed_once(
                before.engine,
                table,
                family,
                operation,
                read_at(reads, operations.len() - 1),
            ) {
                Ok(after) => ReplayModel {
                    engine: after,
                    applied: before.applied + 1,
                    ..before
                },
                Err(failure) => ReplayModel { refusal: Some(failure), ..before },
            }
        }
    }
}

/// What replaying entries into a table comes to, given what reading their
/// records back came to.
pub open spec fn replay_outcome(
    engine: EngineModel,
    table: Seq<char>,
    entries: Seq<EntryModel>,
    reads: Seq<Option<Seq<char>>>,
) -> ReplayModel {
    match family_at(engine.catalog, table) {
        Some(family) => replayed(engine, table, family, all_operations(entries), reads),
        None => ReplayModel {
            engine,
            applied: 0,
            skipped: 0,
            refusal: Some(Failure::TableNotRegistered { table }),
        },
    }
}

/// The handle of the subscription that a plan would start.
pub open spec fn next_handle(engine: EngineModel, table: Seq<char>) -> HandleModel {
    HandleModel {
        id: match engine.store.next_subscription {
            Some(id) => id,
            None => 1,
        },
        table,
        snapshot: standing_snapshot(engine),
    }
}

/// The engine after a subscription was recorded and went live.
pub open spec fn subscribed(
    engine: EngineModel,
    handle: HandleModel,
    filter: FilterModel,
) -> EngineModel {
    EngineModel {
        store: StoreModel {
            subscriptions: engine.store.subscriptions.insert(
                handle.id,
                RegistrationModel {
                    id: handle.id,
                    table: handle.table,
                    filter,
                    snapshot: handle.snapshot,
                },
            ),
            next_subscription: Some((handle.id + 1) as u64),
            ..engine.store
        },
        subscriptions: engine.subscriptions.push(ActiveModel { handle, filter }),
        ..engine
    }
}

/// Where the store stands, as a staging session notes it.
pub open spec fn base_of(store: StoreModel) -> BaseModel {
    BaseModel {
        chain_head: store.chain_head,
        commit_sequence: counted_so_far(store.commit_sequence),
        snapshot: counted_so_far(store.snapshot),
    }
}

/// The session that begins over a store.
pub open spec fn begun_session(engine: EngineModel, store_name: Seq<char>) -> SessionModel {
    let base = base_of(engine.store);
    SessionModel {
        base,
        store_name,
        schema_hash: store_schema(versions(engine.catalog)),
        entries: Seq::empty(),
        commit_sequence: base.commit_sequence,
        snapshot: base.snapshot,
        chain_head: base.chain_head,
        tables: engine.store.tables,
        pre_images: Seq::empty(),
    }
}

/// The engine after a staging session was engaged.
pub open spec fn staging_begun(engine: EngineModel) -> Result<EngineModel, Failure> {
    if engine.session is Some {
        Err(Failure::StagingSessionEngaged)
    } else {
        match engine.policy {
            None => Err(Failure::VersioningNotEnabled { surface: "begin_staged_group"@ }),
            Some(store_name) => if engine.store.staged is Some {
                Err(Failure::StagingSlotOccupied)
            } else {
                Ok(
                    EngineModel {
                        session: Some(begun_session(engine, store_name)),
                        ..engine
                    },
                )
            },
        }
    }
}

/// The engine after the engaged session's group was parked. An empty
/// session parks nothing.
pub open spec fn staging_parked(engine: EngineModel) -> Result<EngineModel, Failure> {
    match engine.session {
        None => Err(Failure::StagingSessionNotEngaged { surface: "park_staged_group"@ }),
        Some(session) => if session.entries.len() == 0 {
            Ok(EngineModel { session: None, ..engine })
        } else if session.base != base_of(engine.store) {
            Err(
                Failure::StagingBaseMoved {
                    sequence: counted_so_far(engine.store.commit_sequence),
                },
            )
        } else if engine.store.staged is Some {
            Err(Failure::StagingSlotOccupied)
        } else {
            Ok(
                EngineModel {
                    store: StoreModel {
                        staged: Some(
                            GroupModel {
                                entries: session.entries,
                                pre_images: session.pre_images,
                            },
                        ),
                        ..engine.store
                    },
                    session: None,
                    ..engine
                },
            )
        },
    }
}

/// The parked group, if there is one with entries.
pub open spec fn parked_group(store: StoreModel) -> Option<GroupModel> {
    match store.staged {
        Some(group) => if group.entries.len() == 0 {
            None
        } else {
            Some(group)
        },
        None => None,
    }
}

/// The first entry of a group whose digest is not that of its own fields,
/// or that does not follow the entry before it.
pub open spec fn group_flaw(head: Option<Seq<u8>>, entries: Seq<EntryModel>) -> Option<Failure>
    decreases entries.len(),
{
    if entries.len() == 0 {
        None
    } else {
        match group_flaw(head, entries.drop_last()) {
            Some(failure) => Some(failure),
            None => {
                let entry = entries.last();
                if entry != sealed(entry) {
                    Some(
                        Failure::StagedGroupDigestMismatch {
                            sequence: entry.commit_sequence,
                            staged: entry.digest,
                            computed: sealed(entry).digest,
                        },
                    )
                } else if entry.previous != head_after(head, entries.drop_last()) {
                    Some(Failure::VersionedChainBroken { sequence: entry.commit_sequence })
                } else {
                    None
                }
            },
        }
    }
}

/// The group that may land on the store as it stands, or why none may.
pub open spec fn landable(store: StoreModel) -> Result<GroupModel, Failure> {
    match parked_group(store) {
        None => Err(Failure::StagingSlotEmpty { surface: "materialize_staged_group"@ }),
        Some(group) => {
            let first = group.entries[0];
            let base = base_of(store);
            if first.previous != base.chain_head || first.commit_sequence != base.commit_sequence
                + 1 || first.snapshot != base.snapshot + 1 {
                Err(Failure::StagingBaseMoved { sequence: base.commit_sequence })
            } else {
                match group_flaw(store.chain_head, group.entries) {
                    Some(failure) => Err(failure),
                    None => Ok(group),
                }
            }
        },
    }
}

/// The rows that operations leave, in order.
pub open spec fn operation_rows(operations: Seq<OperationModel>) -> Seq<RowModel>
    decreases operations.len(),
{
    if operations.len() == 0 {
        Seq::empty()
    } else {
        let before = operation_rows(operations.drop_last());
        let operation = operations.last();
        match operation.key {
            Some(key) => before.push(
                RowModel { family: operation.family, key, payload: operation.payload },
            ),
            None => before,
        }
    }
}

/// The announcements of one entry's operations: a removal tells of the
/// record that it removed.
pub open spec fn entry_announcements(
    group: GroupModel,
    entry_index: int,
    operations: Seq<OperationModel>,
) -> Seq<AnnouncementModel>
    decreases operations.len(),
{
    if operations.len() == 0 {
        Seq::empty()
    } else {
        let before = entry_announcements(group, entry_index, operations.drop_last());
        let operation = operations.last();
        let bytes = match operation.payload {
            Some(bytes) => Some(bytes),
            None => pre_image_at(group.pre_images, entry_index, operations.len() - 1),
        };
        match (operation.key, bytes) {
            (Some(key), Some(bytes)) => before.push(
                AnnouncementModel {
                    kind: delta_kind(operation.operation),
                    family: operation.family,
                    key,
                    snapshot: group.entries[entry_index].snapshot,
                    bytes,
                },
            ),
            _ => before,
        }
    }
}

/// The announcements of a group's first `entries` entries.
pub open spec fn announcements(group: GroupModel, entries: int) -> Seq<AnnouncementModel>
    decreases entries,
{
    if entries <= 0 {
        Seq::empty()
    } else {
        announcements(group, entries - 1) + entry_announcements(
            group,
            entries - 1,
            group.entries[entries - 1].operations,
        )
    }
}

/// The deltas of announcements, given the table that a directory named
/// for each. An announcement goes out only to its family's own table.
pub open spec fn answered(
    subscriptions: Seq<ActiveModel>,
    told: Seq<AnnouncementModel>,
    answers: Seq<Option<Seq<char>>>,
) -> Seq<DeltaModel<RecordModel>>
    decreases told.len(),
{
    if told.len() == 0 {
        Seq::empty()
    } else {
        let before = answered(subscriptions, told.drop_last(), answers.drop_last());
        let announcement = told.last();
        if answers.last() == Some(announcement.family.table) {
            before + fanned(
                subscriptions,
                announcement.kind,
                announcement.family.table,
                announcement.key,
                announcement.snapshot,
                RecordModel { key: announcement.key, bytes: announcement.bytes },
            )
        } else {
            before
        }
    }
}

/// The rows that a group leaves, in log order.
pub open spec fn group_rows(group: GroupModel) -> Seq<RowModel> {
    operation_rows(all_operations(group.entries))
}

/// The store after a group landed with these of its rows: the rows, the
/// log rows, and the slot free again.
pub open spec fn group_landed(
    store: StoreModel,
    group: GroupModel,
    rows: Seq<RowModel>,
) -> StoreModel {
    let after = entries_logged(store, group.entries);
    StoreModel {
        tables: rows_placed(after.tables, rows),
        staged: None,
        ..after
    }
}

/// The engine after a group landed with these of its rows and subscribers
/// were told of it.
pub open spec fn staging_landed(
    engine: EngineModel,
    group: GroupModel,
    rows: Seq<RowModel>,
    answers: Seq<Option<Seq<char>>>,
) -> EngineModel {
    EngineModel {
        store: group_landed(engine.store, group, rows),
        deltas: engine.deltas + answered(
            engine.subscriptions,
            announcements(group, group.entries.len() as int),
            answers,
        ),
        ..engine
    }
}

/// The receipt of a landed group.
pub open spec fn landed_receipt(group: GroupModel) -> MaterializeReceiptModel {
    MaterializeReceiptModel {
        head: group.entries.last().digest,
        commit_sequence: group.entries.last().commit_sequence,
        snapshot: group.entries.last().snapshot,
        entry_count: group.entries.len() as usize,
    }
}

/// The stored identity that a declaration evolves from: another
/// generation of the same family at the same table, and a declared prior.
pub open spec fn evolves_from(
    catalog: Seq<FamilyModel>,
    descriptor: DescriptorModel,
) -> Option<FamilyModel> {
    match family_at(catalog, descriptor.identity.table) {
        Some(stored) => if stored != descriptor.identity && stored.family
            == descriptor.identity.family && descriptor.priors.contains(stored.schema_hash) {
            Some(stored)
        } else {
            None
        },
        None => None,
    }
}

/// The rows that an evolution carries forward, in key order.
pub open spec fn rows_to_carry(engine: EngineModel, table: Seq<char>) -> Seq<
    (Seq<char>, Seq<u8>),
> {
    lettered(domain_rows(engine.store.tables.records, table))
}

/// An evolution as row history: each row retracted from the stored
/// generation and asserted in the declared one, in key order.
pub open spec fn evolution_operations(
    stored: FamilyModel,
    declared: FamilyModel,
    rows: Seq<(Seq<char>, Seq<u8>)>,
    carried: Seq<Seq<u8>>,
) -> Seq<OperationModel>
    decreases rows.len(),
{
    if rows.len() == 0 {
        Seq::empty()
    } else {
        let key = Some(KeyModel::Domain(rows.last().0));
        evolution_operations(stored, declared, rows.drop_last(), carried.drop_last()).push(
            OperationModel {
                operation: SemaOperation::Retract,
                family: stored,
                key,
                payload: None,
            },
        ).push(
            OperationModel {
                operation: SemaOperation::Assert,
                family: declared,
                key,
                payload: Some(carried.last()),
            },
        )
    }
}

/// The engine after a table was bound to another identity.
pub open spec fn with_rebound(engine: EngineModel, declared: FamilyModel) -> EngineModel {
    EngineModel {
        store: StoreModel {
            catalog: engine.store.catalog.insert(declared.table, declared),
            ..engine.store
        },
        catalog: rebound(engine.catalog, declared),
        ..engine
    }
}

/// The engine after logged operations that also placed their rows.
pub open spec fn operations_landed(
    engine: EngineModel,
    operations: Seq<OperationModel>,
) -> EngineModel {
    let versioned = match engine.policy {
        Some(store_name) => Some(next_versioned(engine, store_name, operations)),
        None => None,
    };
    EngineModel {
        store: logged(
            StoreModel {
                tables: rows_placed(engine.store.tables, operation_rows(operations)),
                ..engine.store
            },
            LogEntryModel {
                commit_sequence: (standing_sequence(engine) + 1) as u64,
                snapshot: (standing_snapshot(engine) + 1) as u64,
                operations: operations_metadata(operations),
            },
            versioned,
        ),
        ..engine
    }
}

/// The engine after a family evolved: the table bound to the declared
/// identity, and its rows carried forward as one commit. A table without
/// rows logs nothing.
pub open spec fn evolved(
    engine: EngineModel,
    stored: FamilyModel,
    declared: FamilyModel,
    carried: Seq<Seq<u8>>,
) -> EngineModel {
    let bound = with_rebound(engine, declared);
    let rows = rows_to_carry(engine, declared.table);
    if rows.len() == 0 {
        bound
    } else {
        operations_landed(bound, evolution_operations(stored, declared, rows, carried))
    }
}

} // verus!
