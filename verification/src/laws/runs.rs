//! Runs: what holds of the log and the outbox after any sequence of calls,
//! refused or not, under one policy.

use vstd::prelude::*;

use crate::catalog::{family_at, registered};
use crate::engine_model::{
    all_operations, atomic_outcome, checked, checkpointed, commit_outcome, entries_logged,
    evolution_operations, evolved, evolves_from, group_rows, has_log_room, has_room,
    identified_assertion, identified_mutation, identified_retraction, landable, landed, log_after,
    next_handle, operations_landed, parked_group, planned, planned_across, rebuild_plan,
    registration_state, replay_outcome, replayed, rows_to_carry, staging_begun,
    staging_landed, staging_parked, stored_catalog, standing_sequence, standing_snapshot, standing_tables,
    subscribed, with_checkpoint, with_counter, with_family, with_rebound, with_rows,
    write_outcome, EngineModel, STORAGE_LAYOUT,
};
use crate::error::Failure;
use crate::fold::landed_rows;
use crate::laws::history::{
    coherent, contiguous, follow_on, lemma_coherent_elsewhere, lemma_entries_coherent,
    lemma_entries_contiguous, lemma_landed_coherent, lemma_landed_contiguous,
    lemma_log_contiguous, lemma_operations_coherent, lemma_operations_contiguous,
    lemma_virgin_coherent,
};
use crate::laws::mirror::{acknowledged, lemma_unshipped_is_log};
use crate::laws::writes::reopened;
use crate::listing::log_values;
use crate::log::entry_metadata;
use crate::mutation::WriteModel;
use crate::operation::SemaOperation;
use crate::outbox::{entry_head, shipped_through, unshipped_rows, HeadModel};
use crate::query::FilterModel;
use crate::record::RecordModel;
use crate::store::{counted_so_far, virgin_store, StoreModel};
use crate::table::DescriptorModel;
use crate::tables::{
    identified_removal, identified_write, next_identifier, TablesModel, WriteFact,
};
use crate::versioning::{sealed, EntryModel, FamilyModel, OperationModel};

verus! {

/// One call of an engine, with what the outside had to say in it.
pub enum EngineStep {
    Register(FamilyModel),
    RegisterIdentified(FamilyModel),
    Evolve(DescriptorModel, Seq<Seq<u8>>),
    Write(Seq<char>, WriteModel),
    Commit(Seq<char>, Seq<WriteModel>),
    CommitAtomic(Seq<(Seq<char>, WriteModel)>),
    AssertIdentified(Seq<char>, Seq<u8>),
    MutateIdentified(Seq<char>, u64, Seq<u8>),
    RetractIdentified(Seq<char>, u64),
    Replay(Seq<char>, Seq<EntryModel>, Seq<Option<Seq<char>>>),
    Checkpoint,
    Rebuild(Seq<bool>),
    Subscribe(Seq<char>, FilterModel),
    Acknowledge(HeadModel),
    BeginStaging,
    ParkStaging,
    AbandonStaging,
    DiscardStaging,
    MaterializeStaging(Seq<bool>, Seq<Option<Seq<char>>>),
    Reopen,
}

/// What a call leaves where it may be refused.
pub open spec fn settled(engine: EngineModel, outcome: Result<EngineModel, Failure>) -> EngineModel {
    match outcome {
        Ok(after) => after,
        Err(_) => engine,
    }
}

/// The engine after a family was declared.
#[verifier::opaque]
pub open spec fn after_register(engine: EngineModel, declared: FamilyModel) -> EngineModel {
    match registration_state(engine.catalog, declared) {
        Ok(true) => with_family(engine, declared),
        _ => engine,
    }
}

/// The engine after an engine-identified family was declared.
#[verifier::opaque]
pub open spec fn after_register_identified(engine: EngineModel, declared: FamilyModel) -> EngineModel {
    match registration_state(engine.catalog, declared) {
        Ok(true) => with_counter(with_family(engine, declared), declared.table),
        _ => engine,
    }
}

/// The engine after a declared prior was carried forward.
#[verifier::opaque]
pub open spec fn after_evolve(engine: EngineModel, descriptor: DescriptorModel, carried: Seq<Seq<u8>>) -> EngineModel {
    match evolves_from(engine.catalog, descriptor) {
        Some(stored) => if engine.session is None {
            evolved(engine, stored, descriptor.identity, carried)
        } else {
            engine
        },
        None => engine,
    }
}

/// The engine after a lone write.
#[verifier::opaque]
pub open spec fn after_write(engine: EngineModel, table: Seq<char>, write: WriteModel) -> EngineModel {
    settled(engine, write_outcome(engine, table, write))
}

/// The engine after a group over one table.
#[verifier::opaque]
pub open spec fn after_commit(engine: EngineModel, table: Seq<char>, writes: Seq<WriteModel>) -> EngineModel {
    settled(engine, commit_outcome(engine, table, writes))
}

/// The engine after a group over several tables.
#[verifier::opaque]
pub open spec fn after_commit_atomic(engine: EngineModel, writes: Seq<(Seq<char>, WriteModel)>) -> EngineModel {
    settled(engine, atomic_outcome(engine, writes))
}

/// The engine after an identified assertion.
#[verifier::opaque]
pub open spec fn after_assert_identified(engine: EngineModel, table: Seq<char>, bytes: Seq<u8>) -> EngineModel {
    settled(engine, identified_assertion(engine, table, bytes))
}

/// The engine after an identified mutation.
#[verifier::opaque]
pub open spec fn after_mutate_identified(engine: EngineModel, table: Seq<char>, identifier: u64, bytes: Seq<u8>) -> EngineModel {
    settled(engine, identified_mutation(engine, table, identifier, bytes))
}

/// The engine after an identified retraction.
#[verifier::opaque]
pub open spec fn after_retract_identified(engine: EngineModel, table: Seq<char>, identifier: u64) -> EngineModel {
    settled(engine, identified_retraction(engine, table, identifier))
}

/// The engine after a replay.
#[verifier::opaque]
pub open spec fn after_replay(engine: EngineModel, table: Seq<char>, entries: Seq<EntryModel>, reads: Seq<Option<Seq<char>>>) -> EngineModel {
    replay_outcome(engine, table, entries, reads).engine
}

/// The engine after a checkpoint.
#[verifier::opaque]
pub open spec fn after_checkpoint(engine: EngineModel) -> EngineModel {
    match checkpointed(engine) {
        Ok(made) => EngineModel { store: with_checkpoint(engine.store, made), ..engine },
        Err(_) => engine,
    }
}

/// The engine after a rebuild of which these rows landed.
#[verifier::opaque]
pub open spec fn after_rebuild(engine: EngineModel, taken: Seq<bool>) -> EngineModel {
    match rebuild_plan(engine) {
        Ok(plan) => with_rows(engine, landed_rows(plan.rows, taken)),
        Err(_) => engine,
    }
}

/// The engine after a subscription.
#[verifier::opaque]
pub open spec fn after_subscribe(engine: EngineModel, table: Seq<char>, filter: FilterModel) -> EngineModel {
    subscribed(engine, next_handle(engine, table), filter)
}

/// The engine after an acknowledgement.
#[verifier::opaque]
pub open spec fn after_acknowledge(engine: EngineModel, confirmed: HeadModel) -> EngineModel {
    EngineModel { store: acknowledged(engine.store, confirmed), ..engine }
}

/// The engine after a session was to begin.
#[verifier::opaque]
pub open spec fn after_begin(engine: EngineModel) -> EngineModel {
    settled(engine, staging_begun(engine))
}

/// The engine after a group was to be parked.
#[verifier::opaque]
pub open spec fn after_park(engine: EngineModel) -> EngineModel {
    settled(engine, staging_parked(engine))
}

/// The engine after a group of which these rows landed.
#[verifier::opaque]
pub open spec fn after_materialize(engine: EngineModel, taken: Seq<bool>, answers: Seq<Option<Seq<char>>>) -> EngineModel {
    match landable(engine.store) {
        Ok(group) => staging_landed(
            engine,
            group,
            landed_rows(group_rows(group), taken),
            answers,
        ),
        Err(_) => engine,
    }
}

/// The engine after its store was closed and opened again.
#[verifier::opaque]
pub open spec fn after_reopen(engine: EngineModel) -> EngineModel {
    settled(engine, reopened(engine))
}

/// The engine after a call. A refused call changes nothing, but for a
/// replay, which keeps what it applied.
pub open spec fn stepped(engine: EngineModel, step: EngineStep) -> EngineModel {
    match step {
        EngineStep::Register(declared) => after_register(engine, declared),
        EngineStep::RegisterIdentified(declared) => after_register_identified(engine, declared),
        EngineStep::Evolve(descriptor, carried) => after_evolve(engine, descriptor, carried),
        EngineStep::Write(table, write) => after_write(engine, table, write),
        EngineStep::Commit(table, writes) => after_commit(engine, table, writes),
        EngineStep::CommitAtomic(writes) => after_commit_atomic(engine, writes),
        EngineStep::AssertIdentified(table, bytes) => after_assert_identified(
            engine,
            table,
            bytes,
        ),
        EngineStep::MutateIdentified(table, identifier, bytes) => after_mutate_identified(
            engine,
            table,
            identifier,
            bytes,
        ),
        EngineStep::RetractIdentified(table, identifier) => after_retract_identified(
            engine,
            table,
            identifier,
        ),
        EngineStep::Replay(table, entries, reads) => after_replay(engine, table, entries, reads),
        EngineStep::Checkpoint => after_checkpoint(engine),
        EngineStep::Rebuild(taken) => after_rebuild(engine, taken),
        EngineStep::Subscribe(table, filter) => after_subscribe(engine, table, filter),
        EngineStep::Acknowledge(confirmed) => after_acknowledge(engine, confirmed),
        EngineStep::BeginStaging => after_begin(engine),
        EngineStep::ParkStaging => after_park(engine),
        EngineStep::AbandonStaging => EngineModel { session: None, ..engine },
        EngineStep::DiscardStaging => EngineModel {
            store: StoreModel { staged: None, ..engine.store },
            ..engine
        },
        EngineStep::MaterializeStaging(taken, answers) => after_materialize(
            engine,
            taken,
            answers,
        ),
        EngineStep::Reopen => after_reopen(engine),
    }
}

/// The counters can take a call.
pub open spec fn step_has_room(engine: EngineModel, step: EngineStep) -> bool {
    match step {
        EngineStep::Replay(_, entries, _) => has_room(
            engine,
            all_operations(entries).len() as int,
        ),
        EngineStep::MaterializeStaging(_, _) => landable(engine.store) matches Ok(group)
            ==> has_log_room(engine.store, group.entries.len() as int),
        _ => has_room(engine, 1),
    }
}

/// The engine after calls in order.
pub open spec fn after_run(engine: EngineModel, steps: Seq<EngineStep>) -> EngineModel
    decreases steps.len(),
{
    if steps.len() == 0 {
        engine
    } else {
        stepped(after_run(engine, steps.drop_last()), steps.last())
    }
}

/// The counters can take every call of a run.
pub open spec fn run_has_room(engine: EngineModel, steps: Seq<EngineStep>) -> bool
    decreases steps.len(),
{
    steps.len() == 0 || {
        &&& run_has_room(engine, steps.drop_last())
        &&& step_has_room(after_run(engine, steps.drop_last()), steps.last())
    }
}

/// A session's entries follow its base one by one, under the policy's name.
pub open spec fn session_follows(engine: EngineModel) -> bool {
    engine.session matches Some(session) ==> {
        &&& engine.policy == Some(session.store_name)
        &&& follow_on(session.base.commit_sequence, session.store_name, session.entries)
        &&& session.commit_sequence == session.base.commit_sequence + session.entries.len()
    }
}

/// A parked group's entries follow each other, under the policy's name.
pub open spec fn group_follows(engine: EngineModel) -> bool {
    parked_group(engine.store) matches Some(group) ==> exists|base: u64| #[trigger]
        follow_on(base, engine.policy->0, group.entries) && engine.policy is Some
}

/// What every call keeps: the log planes in step and contiguous, and what
/// is staged ready to continue them.
pub open spec fn kept(engine: EngineModel, head: Option<Seq<u8>>, after: u64) -> bool {
    &&& coherent(engine.store, head)
    &&& contiguous(engine.store, after, engine.policy)
    &&& engine.store.layout == Some(STORAGE_LAYOUT)
    &&& session_follows(engine)
    &&& group_follows(engine)
}

/// Calls that leave the log planes, the session and the slot alone keep
/// what is kept.
proof fn lemma_kept_elsewhere(
    engine: EngineModel,
    next: EngineModel,
    head: Option<Seq<u8>>,
    after: u64,
)
    requires
        kept(engine, head, after),
        next.policy == engine.policy,
        next.session == engine.session || next.session is None,
        next.store.staged == engine.store.staged || next.store.staged is None,
        next.store.layout == engine.store.layout,
        next.store.commit_log == engine.store.commit_log,
        next.store.versioned_log == engine.store.versioned_log,
        next.store.commit_sequence == engine.store.commit_sequence,
        next.store.snapshot == engine.store.snapshot,
        next.store.commit_count == engine.store.commit_count,
        next.store.versioned_count == engine.store.versioned_count,
        next.store.chain_head == engine.store.chain_head,
        next.store.outbox == engine.store.outbox,
    ensures
        kept(next, head, after),
{
    lemma_coherent_elsewhere(engine.store, next.store, head);
    if parked_group(next.store) is Some {
        let group = parked_group(next.store)->0;
        let base = choose|base: u64| #[trigger]
            follow_on(base, engine.policy->0, group.entries) && engine.policy is Some;
        assert(follow_on(base, next.policy->0, group.entries));
    }
}

/// A commit of writes to registered tables keeps what is kept, whether it
/// lands or is buffered.
proof fn lemma_landed_kept(
    engine: EngineModel,
    writes: Seq<WriteFact>,
    head: Option<Seq<u8>>,
    after: u64,
)
    requires
        kept(engine, head, after),
        has_room(engine, 1),
        forall|i: int|
            0 <= i < writes.len() ==> registered(engine.catalog, (#[trigger] writes[i]).table),
    ensures
        kept(landed(engine, writes), head, after),
{
    let next = landed(engine, writes);
    match engine.session {
        None => {
            lemma_landed_coherent(engine, head, writes);
            lemma_landed_contiguous(engine, after, writes);
        },
        Some(session) => {
            let grown = next.session->0;
            let entry = grown.entries.last();
            assert forall|i: int| 0 <= i < grown.entries.len() implies (
            #[trigger] grown.entries[i]).commit_sequence == session.base.commit_sequence + 1 + i
                && grown.entries[i].store_name == session.store_name by {
                if i < session.entries.len() {
                    assert(grown.entries[i] == session.entries[i]);
                }
            }
        },
    }
    assert(next.store.staged == engine.store.staged);
    if parked_group(next.store) is Some {
        let group = parked_group(next.store)->0;
        let base = choose|base: u64| #[trigger]
            follow_on(base, engine.policy->0, group.entries) && engine.policy is Some;
        assert(follow_on(base, next.policy->0, group.entries));
    }
}

/// Planned writes are writes to their table.
proof fn lemma_planned_tables(tables: TablesModel, table: Seq<char>, writes: Seq<WriteModel>)
    ensures
        planned(tables, table, writes) matches Ok(facts) ==> forall|i: int|
            0 <= i < facts.len() ==> (#[trigger] facts[i]).table == table,
    decreases writes.len(),
{
    if writes.len() > 0 {
        lemma_planned_tables(tables, table, writes.drop_last());
    }
}

/// Writes planned over several tables are writes to registered tables.
proof fn lemma_planned_across_tables(
    catalog: Seq<FamilyModel>,
    tables: TablesModel,
    writes: Seq<(Seq<char>, WriteModel)>,
)
    ensures
        planned_across(catalog, tables, writes) matches Ok(facts) ==> forall|i: int|
            0 <= i < facts.len() ==> registered(catalog, (#[trigger] facts[i]).table),
    decreases writes.len(),
{
    if writes.len() > 0 {
        lemma_planned_across_tables(catalog, tables, writes.drop_last());
    }
}

/// A lone write keeps what is kept.
proof fn lemma_write_kept(
    engine: EngineModel,
    table: Seq<char>,
    write: WriteModel,
    head: Option<Seq<u8>>,
    after: u64,
)
    requires
        kept(engine, head, after),
        has_room(engine, 1),
    ensures
        write_outcome(engine, table, write) matches Ok(next) ==> kept(next, head, after)
            && next.policy == engine.policy && standing_sequence(next) == standing_sequence(engine)
            + 1 && standing_snapshot(next) == standing_snapshot(engine) + 1 && (
        engine.session is None ==> next.session is None && counted_so_far(next.store.commit_count)
            == counted_so_far(engine.store.commit_count) + 1 && counted_so_far(
            next.store.versioned_count,
        ) <= counted_so_far(engine.store.versioned_count) + 1) && (engine.session is Some
            ==> next.session is Some),
{
    if registered(engine.catalog, table) {
        if let Ok(fact) = checked(standing_tables(engine), table, write) {
            lemma_landed_kept(engine, seq![fact], head, after);
        }
    }
}

/// A replay keeps what is kept, however far it comes.
proof fn lemma_replay_kept(
    engine: EngineModel,
    table: Seq<char>,
    family: FamilyModel,
    operations: Seq<OperationModel>,
    reads: Seq<Option<Seq<char>>>,
    room: int,
    head: Option<Seq<u8>>,
    after: u64,
)
    requires
        kept(engine, head, after),
        has_room(engine, room),
        operations.len() <= room,
    ensures
        ({
            let next = replayed(engine, table, family, operations, reads).engine;
            &&& kept(next, head, after)
            &&& has_room(next, room - operations.len())
        }),
    decreases operations.len(),
{
    if operations.len() > 0 {
        let less = operations.drop_last();
        lemma_replay_kept(engine, table, family, less, reads, room, head, after);
        let before = replayed(engine, table, family, less, reads);
        let operation = operations.last();
        if before.refusal is None && operation.family.version() == family.version() {
            if let Some(key) = operation.key {
                let bytes = operation.payload->0;
                let asserted = WriteModel::Assert(RecordModel { key, bytes });
                let mutated = WriteModel::Mutate(RecordModel { key, bytes });
                lemma_write_kept(before.engine, table, asserted, head, after);
                lemma_write_kept(before.engine, table, mutated, head, after);
                lemma_write_kept(before.engine, table, WriteModel::Retract(key), head, after);
            }
        }
    }
}

/// An evolution keeps what is kept.
proof fn lemma_evolution_kept(
    engine: EngineModel,
    stored: FamilyModel,
    declared: FamilyModel,
    carried: Seq<Seq<u8>>,
    head: Option<Seq<u8>>,
    after: u64,
)
    requires
        kept(engine, head, after),
        engine.session is None,
        has_room(engine, 1),
    ensures
        kept(evolved(engine, stored, declared, carried), head, after),
{
    let bound = with_rebound(engine, declared);
    lemma_kept_elsewhere(engine, bound, head, after);
    let rows = rows_to_carry(engine, declared.table);
    if rows.len() > 0 {
        let operations = evolution_operations(stored, declared, rows, carried);
        let next = operations_landed(bound, operations);
        lemma_operations_coherent(bound, head, operations);
        lemma_operations_contiguous(bound, after, operations);
        if parked_group(next.store) is Some {
            let group = parked_group(next.store)->0;
            let base = choose|base: u64| #[trigger]
                follow_on(base, engine.policy->0, group.entries) && engine.policy is Some;
            assert(follow_on(base, next.policy->0, group.entries));
        }
    }
}

/// Landing a parked group keeps what is kept.
proof fn lemma_materialize_kept(
    engine: EngineModel,
    taken: Seq<bool>,
    answers: Seq<Option<Seq<char>>>,
    head: Option<Seq<u8>>,
    after: u64,
)
    requires
        kept(engine, head, after),
        landable(engine.store) is Ok,
        has_log_room(engine.store, landable(engine.store)->Ok_0.entries.len() as int),
    ensures
        kept(
            staging_landed(
                engine,
                landable(engine.store)->Ok_0,
                landed_rows(group_rows(landable(engine.store)->Ok_0), taken),
                answers,
            ),
            head,
            after,
        ),
{
    let group = landable(engine.store)->Ok_0;
    let rows = landed_rows(group_rows(group), taken);
    let next = staging_landed(engine, group, rows, answers);
    let name = engine.policy->0;
    let base = choose|base: u64| #[trigger]
        follow_on(base, engine.policy->0, group.entries) && engine.policy is Some;
    assert(group.entries[0].commit_sequence == base + 1);
    assert(follow_on(counted_so_far(engine.store.commit_sequence), name, group.entries));
    lemma_entries_coherent(engine.store, head, name, group.entries);
    lemma_entries_contiguous(engine.store, after, name, group.entries);
    let logged = entries_logged(engine.store, group.entries);
    lemma_layout_kept(engine.store, group.entries);
    lemma_coherent_elsewhere(logged, next.store, head);
}

/// Entries that are taken over leave the layout alone.
proof fn lemma_layout_kept(store: StoreModel, entries: Seq<EntryModel>)
    ensures
        entries_logged(store, entries).layout == store.layout,
    decreases entries.len(),
{
    if entries.len() > 0 {
        lemma_layout_kept(store, entries.drop_last());
    }
}

/// Groups of writes keep what is kept.
proof fn lemma_groups_kept(
    engine: EngineModel,
    table: Seq<char>,
    writes: Seq<WriteModel>,
    across: Seq<(Seq<char>, WriteModel)>,
    head: Option<Seq<u8>>,
    after: u64,
)
    requires
        kept(engine, head, after),
        has_room(engine, 1),
    ensures
        kept(settled(engine, commit_outcome(engine, table, writes)), head, after),
        kept(settled(engine, atomic_outcome(engine, across)), head, after),
{
    let standing = standing_tables(engine);
    lemma_planned_tables(standing, table, writes);
    if commit_outcome(engine, table, writes) is Ok {
        lemma_landed_kept(engine, planned(standing, table, writes)->Ok_0, head, after);
    }
    lemma_planned_across_tables(engine.catalog, standing, across);
    if atomic_outcome(engine, across) is Ok {
        let facts = planned_across(engine.catalog, standing, across)->Ok_0;
        lemma_landed_kept(engine, facts, head, after);
    }
}

/// Writes to engine-identified tables keep what is kept.
proof fn lemma_identified_kept(
    engine: EngineModel,
    table: Seq<char>,
    identifier: u64,
    bytes: Seq<u8>,
    head: Option<Seq<u8>>,
    after: u64,
)
    requires
        kept(engine, head, after),
        has_room(engine, 1),
    ensures
        kept(settled(engine, identified_assertion(engine, table, bytes)), head, after),
        kept(settled(engine, identified_mutation(engine, table, identifier, bytes)), head, after),
        kept(settled(engine, identified_retraction(engine, table, identifier)), head, after),
{
    if registered(engine.catalog, table) {
        let standing = standing_tables(engine);
        let minted = next_identifier(standing, table);
        let asserted = identified_write(SemaOperation::Assert, table, minted, bytes);
        lemma_landed_kept(engine, seq![asserted], head, after);
        let mutated = identified_write(SemaOperation::Mutate, table, identifier, bytes);
        lemma_landed_kept(engine, seq![mutated], head, after);
        let removed = standing.identified[(table, identifier)];
        let retracted = identified_removal(table, identifier, removed);
        lemma_landed_kept(engine, seq![retracted], head, after);
    }
}

/// Beginning and parking a session keep what is kept.
proof fn lemma_session_kept(engine: EngineModel, head: Option<Seq<u8>>, after: u64)
    requires
        kept(engine, head, after),
    ensures
        kept(settled(engine, staging_begun(engine)), head, after),
        kept(settled(engine, staging_parked(engine)), head, after),
{
    if staging_begun(engine) is Ok {
        let begun = staging_begun(engine)->Ok_0;
        let session = begun.session->0;
        assert(follow_on(session.base.commit_sequence, session.store_name, session.entries));
    }
    if staging_parked(engine) is Ok {
        let parked = staging_parked(engine)->Ok_0;
        let session = engine.session->0;
        if session.entries.len() > 0 {
            lemma_coherent_elsewhere(engine.store, parked.store, head);
            let group = parked_group(parked.store)->0;
            assert(group.entries == session.entries);
            assert(follow_on(
                session.base.commit_sequence,
                parked.policy->0,
                group.entries,
            ));
        } else {
            lemma_kept_elsewhere(engine, parked, head, after);
        }
    }
}

/// A store of the current layout is opened as it is.
pub proof fn lemma_reopened(engine: EngineModel)
    requires
        engine.store.layout == Some(STORAGE_LAYOUT),
    ensures
        reopened(engine) is Ok,
        reopened(engine)->Ok_0.store == engine.store,
        reopened(engine)->Ok_0.policy == engine.policy,
        reopened(engine)->Ok_0.session is None,
        reopened(engine)->Ok_0.catalog == stored_catalog(engine.store.catalog),
{
}

/// Registering keeps what is kept.
proof fn lemma_step_register(
    engine: EngineModel,
    declared: FamilyModel,
    head: Option<Seq<u8>>,
    after: u64,
)
    requires
        kept(engine, head, after),
    ensures
        kept(stepped(engine, EngineStep::Register(declared)), head, after),
        stepped(engine, EngineStep::Register(declared)).policy == engine.policy,
{
    reveal(after_register);
    lemma_kept_elsewhere(engine, with_family(engine, declared), head, after);
}

/// Registering an engine-identified family keeps what is kept.
proof fn lemma_step_register_identified(
    engine: EngineModel,
    declared: FamilyModel,
    head: Option<Seq<u8>>,
    after: u64,
)
    requires
        kept(engine, head, after),
    ensures
        kept(stepped(engine, EngineStep::RegisterIdentified(declared)), head, after),
        stepped(engine, EngineStep::RegisterIdentified(declared)).policy == engine.policy,
{
    reveal(after_register_identified);
    let bound = with_family(engine, declared);
    lemma_kept_elsewhere(engine, with_counter(bound, declared.table), head, after);
}

/// Evolving keeps what is kept.
proof fn lemma_step_evolve(
    engine: EngineModel,
    descriptor: DescriptorModel,
    carried: Seq<Seq<u8>>,
    head: Option<Seq<u8>>,
    after: u64,
)
    requires
        kept(engine, head, after),
        has_room(engine, 1),
    ensures
        kept(stepped(engine, EngineStep::Evolve(descriptor, carried)), head, after),
        stepped(engine, EngineStep::Evolve(descriptor, carried)).policy == engine.policy,
{
    reveal(after_evolve);
    if let Some(stored) = evolves_from(engine.catalog, descriptor) {
        if engine.session is None {
            lemma_evolution_kept(engine, stored, descriptor.identity, carried, head, after);
        }
    }
}

/// A lone write keeps what is kept.
proof fn lemma_step_write(
    engine: EngineModel,
    table: Seq<char>,
    write: WriteModel,
    head: Option<Seq<u8>>,
    after: u64,
)
    requires
        kept(engine, head, after),
        has_room(engine, 1),
    ensures
        kept(stepped(engine, EngineStep::Write(table, write)), head, after),
        stepped(engine, EngineStep::Write(table, write)).policy == engine.policy,
{
    reveal(after_write);
    lemma_write_kept(engine, table, write, head, after);
}

/// A group over one table keeps what is kept.
proof fn lemma_step_commit(
    engine: EngineModel,
    table: Seq<char>,
    writes: Seq<WriteModel>,
    head: Option<Seq<u8>>,
    after: u64,
)
    requires
        kept(engine, head, after),
        has_room(engine, 1),
    ensures
        kept(stepped(engine, EngineStep::Commit(table, writes)), head, after),
        stepped(engine, EngineStep::Commit(table, writes)).policy == engine.policy,
{
    reveal(after_commit);
    let across = Seq::<(Seq<char>, WriteModel)>::empty();
    lemma_groups_kept(engine, table, writes, across, head, after);
}

/// A group over several tables keeps what is kept.
proof fn lemma_step_commit_atomic(
    engine: EngineModel,
    writes: Seq<(Seq<char>, WriteModel)>,
    head: Option<Seq<u8>>,
    after: u64,
)
    requires
        kept(engine, head, after),
        has_room(engine, 1),
    ensures
        kept(stepped(engine, EngineStep::CommitAtomic(writes)), head, after),
        stepped(engine, EngineStep::CommitAtomic(writes)).policy == engine.policy,
{
    reveal(after_commit_atomic);
    let group = Seq::<WriteModel>::empty();
    lemma_groups_kept(engine, Seq::empty(), group, writes, head, after);
}

/// An identified assertion keeps what is kept.
proof fn lemma_step_assert_identified(
    engine: EngineModel,
    table: Seq<char>,
    bytes: Seq<u8>,
    head: Option<Seq<u8>>,
    after: u64,
)
    requires
        kept(engine, head, after),
        has_room(engine, 1),
    ensures
        kept(stepped(engine, EngineStep::AssertIdentified(table, bytes)), head, after),
        stepped(engine, EngineStep::AssertIdentified(table, bytes)).policy == engine.policy,
{
    reveal(after_assert_identified);
    lemma_identified_kept(engine, table, 0, bytes, head, after);
}

/// An identified mutation keeps what is kept.
proof fn lemma_step_mutate_identified(
    engine: EngineModel,
    table: Seq<char>,
    identifier: u64,
    bytes: Seq<u8>,
    head: Option<Seq<u8>>,
    after: u64,
)
    requires
        kept(engine, head, after),
        has_room(engine, 1),
    ensures
        kept(stepped(engine, EngineStep::MutateIdentified(table, identifier, bytes)), head, after),
        stepped(engine, EngineStep::MutateIdentified(table, identifier, bytes)).policy == engine.policy,
{
    reveal(after_mutate_identified);
    lemma_identified_kept(engine, table, identifier, bytes, head, after);
}

/// An identified retraction keeps what is kept.
proof fn lemma_step_retract_identified(
    engine: EngineModel,
    table: Seq<char>,
    identifier: u64,
    head: Option<Seq<u8>>,
    after: u64,
)
    requires
        kept(engine, head, after),
        has_room(engine, 1),
    ensures
        kept(stepped(engine, EngineStep::RetractIdentified(table, identifier)), head, after),
        stepped(engine, EngineStep::RetractIdentified(table, identifier)).policy == engine.policy,
{
    reveal(after_retract_identified);
    lemma_identified_kept(engine, table, identifier, Seq::empty(), head, after);
}

/// A replay keeps what is kept.
proof fn lemma_step_replay(
    engine: EngineModel,
    table: Seq<char>,
    entries: Seq<EntryModel>,
    reads: Seq<Option<Seq<char>>>,
    head: Option<Seq<u8>>,
    after: u64,
)
    requires
        kept(engine, head, after),
        has_room(engine, all_operations(entries).len() as int),
    ensures
        kept(stepped(engine, EngineStep::Replay(table, entries, reads)), head, after),
        stepped(engine, EngineStep::Replay(table, entries, reads)).policy == engine.policy,
{
    reveal(after_replay);
    let operations = all_operations(entries);
    if let Some(family) = family_at(engine.catalog, table) {
        let room = operations.len() as int;
        lemma_replay_kept(engine, table, family, operations, reads, room, head, after);
        lemma_replay_policy(engine, table, family, operations, reads);
    }
}

/// A checkpoint keeps what is kept.
proof fn lemma_step_checkpoint(
    engine: EngineModel,
    head: Option<Seq<u8>>,
    after: u64,
)
    requires
        kept(engine, head, after),
    ensures
        kept(stepped(engine, EngineStep::Checkpoint), head, after),
        stepped(engine, EngineStep::Checkpoint).policy == engine.policy,
{
    reveal(after_checkpoint);
    if let Ok(made) = checkpointed(engine) {
        let next = EngineModel { store: with_checkpoint(engine.store, made), ..engine };
        lemma_kept_elsewhere(engine, next, head, after);
    }
}

/// A rebuild keeps what is kept.
proof fn lemma_step_rebuild(
    engine: EngineModel,
    taken: Seq<bool>,
    head: Option<Seq<u8>>,
    after: u64,
)
    requires
        kept(engine, head, after),
    ensures
        kept(stepped(engine, EngineStep::Rebuild(taken)), head, after),
        stepped(engine, EngineStep::Rebuild(taken)).policy == engine.policy,
{
    reveal(after_rebuild);
    if let Ok(plan) = rebuild_plan(engine) {
        lemma_kept_elsewhere(
            engine,
            with_rows(engine, landed_rows(plan.rows, taken)),
            head,
            after,
        );
    }
}

/// A subscription keeps what is kept.
proof fn lemma_step_subscribe(
    engine: EngineModel,
    table: Seq<char>,
    filter: FilterModel,
    head: Option<Seq<u8>>,
    after: u64,
)
    requires
        kept(engine, head, after),
    ensures
        kept(stepped(engine, EngineStep::Subscribe(table, filter)), head, after),
        stepped(engine, EngineStep::Subscribe(table, filter)).policy == engine.policy,
{
    reveal(after_subscribe);
    let next = subscribed(engine, next_handle(engine, table), filter);
    lemma_kept_elsewhere(engine, next, head, after);
}

/// An acknowledgement keeps what is kept.
proof fn lemma_step_acknowledge(
    engine: EngineModel,
    confirmed: HeadModel,
    head: Option<Seq<u8>>,
    after: u64,
)
    requires
        kept(engine, head, after),
    ensures
        kept(stepped(engine, EngineStep::Acknowledge(confirmed)), head, after),
        stepped(engine, EngineStep::Acknowledge(confirmed)).policy == engine.policy,
{
    reveal(after_acknowledge);
    let next = EngineModel { store: acknowledged(engine.store, confirmed), ..engine };
    lemma_kept_elsewhere(engine, next, head, after);
}

/// Beginning a session keeps what is kept.
proof fn lemma_step_begin(
    engine: EngineModel,
    head: Option<Seq<u8>>,
    after: u64,
)
    requires
        kept(engine, head, after),
    ensures
        kept(stepped(engine, EngineStep::BeginStaging), head, after),
        stepped(engine, EngineStep::BeginStaging).policy == engine.policy,
{
    reveal(after_begin);
    lemma_session_kept(engine, head, after);
}

/// Parking a group keeps what is kept.
proof fn lemma_step_park(
    engine: EngineModel,
    head: Option<Seq<u8>>,
    after: u64,
)
    requires
        kept(engine, head, after),
    ensures
        kept(stepped(engine, EngineStep::ParkStaging), head, after),
        stepped(engine, EngineStep::ParkStaging).policy == engine.policy,
{
    reveal(after_park);
    lemma_session_kept(engine, head, after);
}

/// Abandoning a session keeps what is kept.
proof fn lemma_step_abandon(
    engine: EngineModel,
    head: Option<Seq<u8>>,
    after: u64,
)
    requires
        kept(engine, head, after),
    ensures
        kept(stepped(engine, EngineStep::AbandonStaging), head, after),
        stepped(engine, EngineStep::AbandonStaging).policy == engine.policy,
{
    lemma_kept_elsewhere(engine, EngineModel { session: None, ..engine }, head, after);
}

/// Discarding a group keeps what is kept.
proof fn lemma_step_discard(
    engine: EngineModel,
    head: Option<Seq<u8>>,
    after: u64,
)
    requires
        kept(engine, head, after),
    ensures
        kept(stepped(engine, EngineStep::DiscardStaging), head, after),
        stepped(engine, EngineStep::DiscardStaging).policy == engine.policy,
{
    let store = StoreModel { staged: None, ..engine.store };
    lemma_kept_elsewhere(engine, EngineModel { store, ..engine }, head, after);
}

/// Landing a group keeps what is kept.
proof fn lemma_step_materialize(
    engine: EngineModel,
    taken: Seq<bool>,
    answers: Seq<Option<Seq<char>>>,
    head: Option<Seq<u8>>,
    after: u64,
)
    requires
        kept(engine, head, after),
        landable(engine.store) matches Ok(group) ==> has_log_room(
            engine.store,
            group.entries.len() as int,
        ),
    ensures
        kept(stepped(engine, EngineStep::MaterializeStaging(taken, answers)), head, after),
        stepped(engine, EngineStep::MaterializeStaging(taken, answers)).policy == engine.policy,
{
    reveal(after_materialize);
    if landable(engine.store) is Ok {
        lemma_materialize_kept(engine, taken, answers, head, after);
    }
}

/// Reopening keeps what is kept.
proof fn lemma_step_reopen(
    engine: EngineModel,
    head: Option<Seq<u8>>,
    after: u64,
)
    requires
        kept(engine, head, after),
    ensures
        kept(stepped(engine, EngineStep::Reopen), head, after),
        stepped(engine, EngineStep::Reopen).policy == engine.policy,
{
    reveal(after_reopen);
    lemma_reopened(engine);
    lemma_kept_elsewhere(engine, reopened(engine)->Ok_0, head, after);
}

/// Every call keeps what is kept, and the policy.
pub proof fn lemma_step_kept(
    engine: EngineModel,
    step: EngineStep,
    head: Option<Seq<u8>>,
    after: u64,
)
    requires
        kept(engine, head, after),
        step_has_room(engine, step),
    ensures
        kept(stepped(engine, step), head, after),
        stepped(engine, step).policy == engine.policy,
{
    match step {
        EngineStep::Register(declared) => lemma_step_register(engine, declared, head, after),
        EngineStep::RegisterIdentified(declared) => lemma_step_register_identified(
            engine,
            declared,
            head,
            after,
        ),
        EngineStep::Evolve(descriptor, carried) => lemma_step_evolve(
            engine,
            descriptor,
            carried,
            head,
            after,
        ),
        EngineStep::Write(table, write) => lemma_step_write(engine, table, write, head, after),
        EngineStep::Commit(table, writes) => lemma_step_commit(
            engine,
            table,
            writes,
            head,
            after,
        ),
        EngineStep::CommitAtomic(writes) => lemma_step_commit_atomic(engine, writes, head, after),
        EngineStep::AssertIdentified(table, bytes) => lemma_step_assert_identified(
            engine,
            table,
            bytes,
            head,
            after,
        ),
        EngineStep::MutateIdentified(table, identifier, bytes) => lemma_step_mutate_identified(
            engine,
            table,
            identifier,
            bytes,
            head,
            after,
        ),
        EngineStep::RetractIdentified(table, identifier) => lemma_step_retract_identified(
            engine,
            table,
            identifier,
            head,
            after,
        ),
        EngineStep::Replay(table, entries, reads) => lemma_step_replay(
            engine,
            table,
            entries,
            reads,
            head,
            after,
        ),
        EngineStep::Checkpoint => lemma_step_checkpoint(engine, head, after),
        EngineStep::Rebuild(taken) => lemma_step_rebuild(engine, taken, head, after),
        EngineStep::Subscribe(table, filter) => lemma_step_subscribe(
            engine,
            table,
            filter,
            head,
            after,
        ),
        EngineStep::Acknowledge(confirmed) => lemma_step_acknowledge(
            engine,
            confirmed,
            head,
            after,
        ),
        EngineStep::BeginStaging => lemma_step_begin(engine, head, after),
        EngineStep::ParkStaging => lemma_step_park(engine, head, after),
        EngineStep::AbandonStaging => lemma_step_abandon(engine, head, after),
        EngineStep::DiscardStaging => lemma_step_discard(engine, head, after),
        EngineStep::MaterializeStaging(taken, answers) => lemma_step_materialize(
            engine,
            taken,
            answers,
            head,
            after,
        ),
        EngineStep::Reopen => lemma_step_reopen(engine, head, after),
    }
}

/// Every run keeps what is kept.
pub proof fn lemma_run_kept(
    engine: EngineModel,
    steps: Seq<EngineStep>,
    head: Option<Seq<u8>>,
    after: u64,
)
    requires
        kept(engine, head, after),
        run_has_room(engine, steps),
    ensures
        kept(after_run(engine, steps), head, after),
        after_run(engine, steps).policy == engine.policy,
    decreases steps.len(),
{
    if steps.len() > 0 {
        lemma_run_kept(engine, steps.drop_last(), head, after);
        lemma_step_kept(after_run(engine, steps.drop_last()), steps.last(), head, after);
    }
}

/// A replay changes no policy.
proof fn lemma_replay_policy(
    engine: EngineModel,
    table: Seq<char>,
    family: FamilyModel,
    operations: Seq<OperationModel>,
    reads: Seq<Option<Seq<char>>>,
)
    ensures
        replayed(engine, table, family, operations, reads).engine.policy == engine.policy,
    decreases operations.len(),
{
    if operations.len() > 0 {
        lemma_replay_policy(engine, table, family, operations.drop_last(), reads);
    }
}

/// An engine that was just opened over a store that nothing was written to.
pub open spec fn newly_opened(engine: EngineModel) -> bool {
    &&& engine.store == (StoreModel { layout: Some(STORAGE_LAYOUT), ..virgin_store() })
    &&& engine.session is None
}

/// A newly opened engine starts with what every call keeps.
pub proof fn lemma_opened_kept(engine: EngineModel)
    requires
        newly_opened(engine),
    ensures
        kept(engine, None, 0),
{
    lemma_virgin_coherent();
    lemma_coherent_elsewhere(virgin_store(), engine.store, None);
}

/// Whatever was called on a store since it was first opened, under one
/// policy and without an import or a compaction: the commit log has one row per commit, numbered from one without
/// a gap. Under a policy the versioned log has one entry beside each row,
/// under the policy's name, each continuing the one before it and the first
/// continuing nothing, and the rows are the entries without payloads and
/// links. Without a policy the versioned log is empty.
pub proof fn lemma_any_run_logs_contiguously(engine: EngineModel, steps: Seq<EngineStep>)
    requires
        newly_opened(engine),
        run_has_room(engine, steps),
    ensures
        ({
            let store = after_run(engine, steps).store;
            let commits = log_values(store.commit_log);
            let entries = log_values(store.versioned_log);
            &&& commits.len() == counted_so_far(store.commit_sequence)
            &&& forall|i: int|
                0 <= i < commits.len() ==> (#[trigger] commits[i]).commit_sequence == i + 1
            &&& match engine.policy {
                Some(name) => {
                    &&& entries.len() == commits.len()
                    &&& forall|i: int|
                        0 <= i < entries.len() ==> {
                            &&& (#[trigger] entries[i]).commit_sequence == i + 1
                            &&& entries[i].store_name == name
                            &&& entries[i].previous == if i == 0 {
                                None
                            } else {
                                Some(entries[i - 1].digest)
                            }
                            &&& entries[i] == sealed(entries[i])
                            &&& commits[i] == entry_metadata(entries[i])
                        }
                },
                None => entries.len() == 0,
            }
        }),
{
    lemma_opened_kept(engine);
    lemma_run_kept(engine, steps, None, 0);
    lemma_log_contiguous(after_run(engine, steps).store, None, 0, engine.policy);
}

/// Whatever was called on a store since it was first opened, without an
/// import or a compaction, the unshipped rows are exactly the versioned entries past the mirror's cursor, in
/// commit order, with the digests that were logged.
pub proof fn lemma_any_run_queues_its_log(engine: EngineModel, steps: Seq<EngineStep>)
    requires
        newly_opened(engine),
        run_has_room(engine, steps),
    ensures
        ({
            let store = after_run(engine, steps).store;
            let waiting = log_after(store, shipped_through(store));
            unshipped_rows(store) == Seq::new(waiting.len(), |i: int| entry_head(waiting[i]))
        }),
{
    lemma_opened_kept(engine);
    lemma_run_kept(engine, steps, None, 0);
    lemma_unshipped_is_log(after_run(engine, steps).store, None);
}

} // verus!
