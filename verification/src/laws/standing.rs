//! What every operation keeps: whatever is done to an engine, its log goes
//! on telling of all of its records.

use vstd::prelude::*;

use crate::catalog::registered;
use crate::engine_model::{
    group_rows, has_room, landable, loaded, read_at, replayed, replayed_once, staging_begun, staging_landed,
    staging_parked, standing_sequence, standing_snapshot, with_counter, with_family, EngineModel,
    ResumeModel,
};
use crate::laws::history::lemma_coherent_elsewhere;
use crate::laws::rebuild::{
    held_at, lemma_commit_told, lemma_registration_told, lemma_writes_told, log_fold, log_tells_all,
    plain_write, stands_for, tables_match, told, unspoken,
};
use crate::laws::staging::{
    groups_in_turn, lemma_session_alone, lemma_staged_lands_as_direct, made_in_turn, ran,
};
use crate::mutation::WriteModel;
use crate::record::{KeyModel, RecordModel};
use crate::store::counted_so_far;
use crate::tables::{next_identifier, TablesModel, WriteFact};
use crate::versioning::{FamilyModel, OperationModel};

verus! {

/// Two engines whose catalogs, records and logs are the same, with the
/// checkpoints kept beside them.
pub open spec fn same_history(a: EngineModel, b: EngineModel) -> bool {
    &&& a.session == b.session
    &&& a.catalog == b.catalog
    &&& a.store.tables.records == b.store.tables.records
    &&& a.store.tables.identified == b.store.tables.identified
    &&& a.store.commit_log == b.store.commit_log
    &&& a.store.versioned_log == b.store.versioned_log
    &&& a.store.commit_sequence == b.store.commit_sequence
    &&& a.store.commit_count == b.store.commit_count
    &&& a.store.versioned_count == b.store.versioned_count
    &&& a.store.chain_head == b.store.chain_head
    &&& a.store.outbox == b.store.outbox
    &&& a.store.latest_checkpoint == b.store.latest_checkpoint
    &&& a.store.checkpoints == b.store.checkpoints
    &&& a.store.segments == b.store.segments
}

/// Subscriptions, acknowledgements, identifier counters and a parked group
/// are no part of what the log tells.
pub proof fn lemma_told_elsewhere(engine: EngineModel, after: EngineModel, start: ResumeModel)
    requires
        told(engine, start),
        same_history(engine, after),
    ensures
        told(after, start),
{
    lemma_coherent_elsewhere(engine.store, after.store, start.head);
    let view = log_fold(engine.store, start)->Ok_0;
    assert(tables_match(after.catalog, after.store.tables, view)) by {
        assert forall|table: Seq<char>, key: KeyModel| #[trigger]
            held_at(after.store.tables, table, key) == held_at(
                engine.store.tables,
                table,
                key,
            ) by {}
    }
    assert(log_tells_all(after, start));
    assert(loaded(after.store) == loaded(engine.store));
    if let Ok(Some(checkpoint)) = loaded(engine.store) {
        let count = choose|count: int| #[trigger] stands_for(engine, start, checkpoint, count);
        assert(stands_for(after, start, checkpoint, count));
    }
}

/// Registering an engine-identified family that the log never spoke of
/// keeps the log telling of all records, and its first identifier is one.
pub proof fn lemma_identified_registration_told(
    engine: EngineModel,
    start: ResumeModel,
    declared: FamilyModel,
)
    requires
        told(engine, start),
        !registered(engine.catalog, declared.table),
        forall|i: int|
            0 <= i < engine.catalog.len() ==> (#[trigger] engine.catalog[i]).version()
                != declared.version(),
        unspoken(engine, start, declared.version()),
    ensures
        ({
            let after = with_counter(with_family(engine, declared), declared.table);
            &&& told(after, start)
            &&& next_identifier(after.store.tables, declared.table) == 1
        }),
{
    lemma_registration_told(engine, start, declared);
    let bound = with_family(engine, declared);
    lemma_told_elsewhere(bound, with_counter(bound, declared.table), start);
}

/// Operations that a replay applies under domain keys.
pub open spec fn replays_domain_keys(
    family: FamilyModel,
    operations: Seq<OperationModel>,
) -> bool {
    forall|i: int|
        0 <= i < operations.len() && (#[trigger] operations[i]).family.version()
            == family.version() ==> (operations[i].key matches Some(key) ==> key is Domain)
}

/// One replayed operation keeps the log telling of all records, and takes
/// at most one commit.
proof fn lemma_replayed_once_told(
    engine: EngineModel,
    start: ResumeModel,
    table: Seq<char>,
    family: FamilyModel,
    operation: OperationModel,
    unread: Option<Seq<char>>,
)
    requires
        told(engine, start),
        engine.policy is Some,
        has_room(engine, 1),
        operation.key matches Some(key) ==> key is Domain,
    ensures
        replayed_once(engine, table, family, operation, unread) matches Ok(after) ==> {
            &&& told(after, start)
            &&& after.policy == engine.policy
            &&& standing_sequence(after) == standing_sequence(engine) + 1
            &&& standing_snapshot(after) == standing_snapshot(engine) + 1
            &&& counted_so_far(after.store.commit_count) == counted_so_far(
                engine.store.commit_count,
            ) + 1
            &&& counted_so_far(after.store.versioned_count) == counted_so_far(
                engine.store.versioned_count,
            ) + 1
        },
{
    if let Some(key) = operation.key {
        let bytes = operation.payload->0;
        let group = Seq::<WriteModel>::empty();
        let across = Seq::<(Seq<char>, WriteModel)>::empty();
        let asserted = WriteModel::Assert(RecordModel { key, bytes });
        let mutated = WriteModel::Mutate(RecordModel { key, bytes });
        lemma_writes_told(engine, start, table, asserted, group, across);
        lemma_writes_told(engine, start, table, mutated, group, across);
        lemma_writes_told(engine, start, table, WriteModel::Retract(key), group, across);
    }
}

/// A replay keeps the log telling of all records, however far it comes
/// before an operation is refused.
pub proof fn lemma_replay_told(
    engine: EngineModel,
    start: ResumeModel,
    table: Seq<char>,
    family: FamilyModel,
    operations: Seq<OperationModel>,
    reads: Seq<Option<Seq<char>>>,
)
    requires
        told(engine, start),
        engine.policy is Some,
        has_room(engine, operations.len() as int),
        replays_domain_keys(family, operations),
    ensures
        ({
            let after = replayed(engine, table, family, operations, reads).engine;
            &&& told(after, start)
            &&& after.policy == engine.policy
            &&& standing_sequence(after) <= standing_sequence(engine) + operations.len()
            &&& standing_snapshot(after) <= standing_snapshot(engine) + operations.len()
            &&& counted_so_far(after.store.commit_count) <= counted_so_far(
                engine.store.commit_count,
            ) + operations.len()
            &&& counted_so_far(after.store.versioned_count) <= counted_so_far(
                engine.store.versioned_count,
            ) + operations.len()
        }),
    decreases operations.len(),
{
    if operations.len() > 0 {
        let less = operations.drop_last();
        assert(replays_domain_keys(family, less)) by {
            assert forall|i: int|
                0 <= i < less.len() && (#[trigger] less[i]).family.version()
                    == family.version() implies (less[i].key matches Some(key) ==> key is Domain) by {
                assert(less[i] == operations[i]);
            }
        }
        lemma_replay_told(engine, start, table, family, less, reads);
        let before = replayed(engine, table, family, less, reads);
        let operation = operations[operations.len() - 1];
        if before.refusal is None && operation.family.version() == family.version() {
            let unread = read_at(reads, operations.len() - 1);
            lemma_replayed_once_told(before.engine, start, table, family, operation, unread);
        }
    }
}

/// Writes that are made in turn are plain.
pub proof fn lemma_made_plain(catalog: Seq<FamilyModel>, tables: TablesModel, writes: Seq<WriteFact>)
    requires
        made_in_turn(catalog, tables, writes),
    ensures
        forall|i: int| 0 <= i < writes.len() ==> plain_write(catalog, #[trigger] writes[i]),
    decreases writes.len(),
{
    if writes.len() > 0 {
        let less = writes.drop_last();
        lemma_made_plain(catalog, tables, less);
        assert forall|i: int| 0 <= i < writes.len() implies plain_write(
            catalog,
            #[trigger] writes[i],
        ) by {
            if i < less.len() {
                assert(less[i] == writes[i]);
            }
        }
    }
}

/// A run of groups keeps the log telling of all records.
proof fn lemma_run_told(engine: EngineModel, start: ResumeModel, groups: Seq<Seq<WriteFact>>)
    requires
        told(engine, start),
        engine.policy is Some,
        has_room(engine, groups.len() as int),
        groups_in_turn(engine, groups),
    ensures
        ({
            let after = ran(engine, groups);
            &&& told(after, start)
            &&& after.policy == engine.policy
            &&& after.catalog == engine.catalog
            &&& standing_sequence(after) == standing_sequence(engine) + groups.len()
            &&& standing_snapshot(after) == standing_snapshot(engine) + groups.len()
            &&& counted_so_far(after.store.commit_count) == counted_so_far(
                engine.store.commit_count,
            ) + groups.len()
            &&& counted_so_far(after.store.versioned_count) == counted_so_far(
                engine.store.versioned_count,
            ) + groups.len()
        }),
    decreases groups.len(),
{
    if groups.len() > 0 {
        let less = groups.drop_last();
        lemma_run_told(engine, start, less);
        let before = ran(engine, less);
        lemma_made_plain(engine.catalog, before.store.tables, groups.last());
        lemma_commit_told(before, start, groups.last());
    }
}

/// A staged group that was parked and landed with all of its rows keeps the
/// log telling of all records.
pub proof fn lemma_staging_told(
    engine: EngineModel,
    start: ResumeModel,
    groups: Seq<Seq<WriteFact>>,
    answers: Seq<Option<Seq<char>>>,
)
    requires
        told(engine, start),
        staging_begun(engine) is Ok,
        groups.len() > 0,
        has_room(engine, groups.len() as int),
        groups_in_turn(engine, groups),
    ensures
        staging_parked(ran(staging_begun(engine)->Ok_0, groups)) is Ok,
        ({
            let parked = staging_parked(ran(staging_begun(engine)->Ok_0, groups))->Ok_0;
            let group = landable(parked.store)->Ok_0;
            &&& landable(parked.store) is Ok
            &&& told(staging_landed(parked, group, group_rows(group), answers), start)
        }),
{
    lemma_staged_lands_as_direct(engine, groups);
    lemma_run_told(engine, start, groups);
    let begun = staging_begun(engine)->Ok_0;
    lemma_session_alone(begun, groups);
    let parked = staging_parked(ran(begun, groups))->Ok_0;
    let group = landable(parked.store)->Ok_0;
    let after = staging_landed(parked, group, group_rows(group), answers);
    lemma_told_elsewhere(ran(engine, groups), after, start);
}

} // verus!
