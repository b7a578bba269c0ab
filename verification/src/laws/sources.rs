//! A source and its import, from the first call on: whatever was written to
//! a store, its checkpoint and the entries after it restore it.

use vstd::prelude::*;

use crate::catalog::{family_at, family_of, registered};
use crate::checkpoint::CheckpointModel;
use crate::engine_model::{
    all_operations, checkpointed, counters_stored, evolves_from, has_log_room, has_room, history,
    identified_assertion, import_plan, imported, landed, loaded, log_after, next_handle,
    next_versioned, registration_state, replay_outcome, replayed, resumed, rows_to_carry,
    stored_catalog, subscribed, versioned_operations, with_checkpoint, with_counter, with_family,
    write_key, EngineModel, ResumeModel, STORAGE_LAYOUT,
};
use crate::error::Failure;
use crate::laws::checkpoints::{
    addresses_apart, lemma_covering, lemma_from_number_listable, lemma_nothing_past_last,
};
use crate::laws::counters::{
    counters_told, lemma_checkpoint_counts, lemma_commit_counts, lemma_import_counts_on,
};
use crate::laws::evolution::lemma_evolution_told;
use crate::laws::history::{
    coherent, contiguous, lemma_contiguous_elsewhere, lemma_contiguous_listing,
    lemma_landed_contiguous, lemma_log_push,
};
use crate::laws::imports::{
    blank, lemma_checkpoint_records_counters, lemma_checkpoint_stands_in,
    lemma_import_equals_source, stands_in_for,
};
use crate::laws::mirror::acknowledged;
use crate::laws::rebuild::{
    lemma_checkpoint_told, lemma_commit_told, lemma_family_at, lemma_found_registered,
    lemma_identified_writes_told, lemma_last_logged, lemma_registration_told, lemma_reopen_told,
    lemma_starts_told, lemma_writes_told, plain_write, stands_for, told, unspoken,
};
use crate::laws::registration::{
    catalog_stored, lemma_catalog_survives_reopen, lemma_rebinding_stored,
    lemma_registration_stored,
};
use crate::laws::runs;
use crate::laws::runs::{
    after_acknowledge, after_assert_identified, after_checkpoint, after_commit,
    after_commit_atomic, after_evolve, after_mutate_identified, after_register,
    after_register_identified, after_reopen, after_replay, after_retract_identified, after_run,
    after_subscribe, after_write, kept, lemma_opened_kept, lemma_reopened, lemma_step_kept,
    newly_opened, run_has_room, step_has_room, stepped, EngineStep,
};
use crate::laws::staging::{groups_in_turn, made_in_turn, ran};
use crate::laws::standing::{
    lemma_identified_registration_told, lemma_made_plain, lemma_replay_told, lemma_told_elsewhere,
    replays_domain_keys,
};
use crate::laws::writes::{counter_value, lemma_lone_write, minted_below, reopened};
use crate::listing::{from_number, log_values, numbered, text_listed};
use crate::log::entry_metadata;
use crate::mutation::WriteModel;
use crate::operation::SemaOperation;
use crate::ordered_table::{has_key, lemma_listable_empty};
use crate::outbox::HeadModel;
use crate::query::FilterModel;
use crate::record::KeyModel;
use crate::store::counted_so_far;
use crate::table::counter_key_text;
use crate::tables::{domain_rows, identified_write, next_identifier, WriteFact};
use crate::versioning::{EntryModel, FamilyModel, OperationModel};

verus! {

/// A call outside a staging session on which the log goes on telling of all
/// records: a family is declared, and evolves, under a version that the log
/// never spoke of; writes to domain-keyed tables name domain keys; and no
/// two segments of a checkpoint collide under blake3.
pub open spec fn tells(engine: EngineModel, start: ResumeModel, step: EngineStep) -> bool {
    match step {
        EngineStep::Register(declared) => unspoken(engine, start, declared.version()),
        EngineStep::RegisterIdentified(declared) => unspoken(engine, start, declared.version()),
        EngineStep::Write(_, write) => write_key(write) is Domain,
        EngineStep::Commit(_, writes) => forall|i: int|
            0 <= i < writes.len() ==> write_key(#[trigger] writes[i]) is Domain,
        EngineStep::CommitAtomic(writes) => forall|i: int|
            0 <= i < writes.len() ==> write_key((#[trigger] writes[i]).1) is Domain,
        EngineStep::AssertIdentified(_, _) => true,
        EngineStep::MutateIdentified(_, _, _) => true,
        EngineStep::RetractIdentified(_, _) => true,
        EngineStep::Replay(table, entries, _) => family_at(engine.catalog, table) matches Some(
            family,
        ) ==> replays_domain_keys(family, all_operations(entries)),
        EngineStep::Checkpoint => checkpointed(engine) matches Ok(made) ==> addresses_apart(
            made.segments,
        ),
        EngineStep::Subscribe(_, _) => true,
        EngineStep::Acknowledge(_) => true,
        EngineStep::Reopen => true,
        EngineStep::Evolve(descriptor, carried) => {
            let declared = descriptor.identity;
            evolves_from(engine.catalog, descriptor) is Some ==> {
                &&& unspoken(engine, start, declared.version())
                &&& forall|i: int|
                    0 <= i < engine.catalog.len() ==> (#[trigger] engine.catalog[i]).version()
                        != declared.version()
                &&& text_listed(domain_rows(engine.store.tables.records, declared.table))
                &&& forall|identifier: u64|
                    !#[trigger] engine.store.tables.identified.dom().contains(
                        (declared.table, identifier),
                    )
                &&& carried.len() == rows_to_carry(engine, declared.table).len()
            }
        },
        _ => false,
    }
}

/// Every call of a run is one on which the log goes on telling.
pub open spec fn run_tells(engine: EngineModel, start: ResumeModel, steps: Seq<EngineStep>) -> bool
    decreases steps.len(),
{
    steps.len() == 0 || {
        &&& run_tells(engine, start, steps.drop_last())
        &&& tells(after_run(engine, steps.drop_last()), start, steps.last())
    }
}

/// What such a run keeps.
pub closed spec fn stands(engine: EngineModel, start: ResumeModel) -> bool {
    &&& told(engine, start)
    &&& kept(engine, start.head, start.after)
    &&& catalog_stored(engine.store.catalog, engine.catalog)
    &&& engine.policy is Some
}

/// A declaration that is new to a catalog names a table and a version that
/// it does not.
proof fn lemma_new_declaration(catalog: Seq<FamilyModel>, declared: FamilyModel)
    requires
        registration_state(catalog, declared) == Ok::<bool, Failure>(true),
    ensures
        !registered(catalog, declared.table),
        forall|i: int|
            0 <= i < catalog.len() ==> (#[trigger] catalog[i]).version() != declared.version(),
{
    if registered(catalog, declared.table) {
        lemma_family_at(catalog, declared.table);
    }
    lemma_no_version(catalog, declared.version());
}

/// A version that a catalog does not find is that of none of its families.
proof fn lemma_no_version(catalog: Seq<FamilyModel>, version: (Seq<char>, Seq<u8>))
    requires
        family_of(catalog, version) is None,
    ensures
        forall|i: int| 0 <= i < catalog.len() ==> (#[trigger] catalog[i]).version() != version,
    decreases catalog.len(),
{
    if catalog.len() > 0 {
        let rest = catalog.drop_first();
        lemma_no_version(rest, version);
        assert forall|i: int| 0 <= i < catalog.len() implies (#[trigger] catalog[i]).version()
            != version by {
            if i > 0 {
                assert(rest[i - 1] == catalog[i]);
            }
        }
    }
}

/// A declaration keeps what such a run keeps.
proof fn lemma_declaration_stands(
    engine: EngineModel,
    start: ResumeModel,
    declared: FamilyModel,
)
    requires
        stands(engine, start),
        registration_state(engine.catalog, declared) == Ok::<bool, Failure>(true),
        unspoken(engine, start, declared.version()),
    ensures
        told(with_family(engine, declared), start),
        told(with_counter(with_family(engine, declared), declared.table), start),
        catalog_stored(
            with_family(engine, declared).store.catalog,
            with_family(engine, declared).catalog,
        ),
{
    lemma_new_declaration(engine.catalog, declared);
    lemma_registration_told(engine, start, declared);
    lemma_identified_registration_told(engine, start, declared);
    lemma_registration_stored(engine, declared);
}

/// A write keeps what such a run keeps.
proof fn lemma_write_tells(engine: EngineModel, start: ResumeModel, step: EngineStep)
    requires
        stands(engine, start),
        step_has_room(engine, step),
        tells(engine, start, step),
        step is Write || step is Commit || step is CommitAtomic || step is AssertIdentified
            || step is MutateIdentified || step is RetractIdentified,
    ensures
        told(stepped(engine, step), start),
        stepped(engine, step).catalog == engine.catalog,
        stepped(engine, step).store.catalog == engine.store.catalog,
        stepped(engine, step).policy == engine.policy,
{
    reveal(after_write);
    reveal(after_commit);
    reveal(after_commit_atomic);
    reveal(after_assert_identified);
    reveal(after_mutate_identified);
    reveal(after_retract_identified);
    let group = Seq::<WriteModel>::empty();
    let across = Seq::<(Seq<char>, WriteModel)>::empty();
    let lone = WriteModel::Retract(KeyModel::Domain(Seq::empty()));
    match step {
        EngineStep::Write(table, write) => {
            lemma_writes_told(engine, start, table, write, group, across);
        },
        EngineStep::Commit(table, writes) => {
            lemma_writes_told(engine, start, table, lone, writes, across);
        },
        EngineStep::CommitAtomic(writes) => {
            lemma_writes_told(engine, start, Seq::empty(), lone, group, writes);
        },
        EngineStep::AssertIdentified(table, bytes) => {
            lemma_identified_writes_told(engine, start, table, 0, bytes);
        },
        EngineStep::MutateIdentified(table, identifier, bytes) => {
            lemma_identified_writes_told(engine, start, table, identifier, bytes);
        },
        EngineStep::RetractIdentified(table, identifier) => {
            lemma_identified_writes_told(engine, start, table, identifier, Seq::empty());
        },
        _ => {},
    }
}

/// A replay leaves the catalog alone.
proof fn lemma_replay_catalog(
    engine: EngineModel,
    table: Seq<char>,
    family: FamilyModel,
    operations: Seq<OperationModel>,
    reads: Seq<Option<Seq<char>>>,
)
    ensures
        ({
            let after = replayed(engine, table, family, operations, reads).engine;
            after.catalog == engine.catalog && after.store.catalog == engine.store.catalog
                && after.policy == engine.policy
        }),
    decreases operations.len(),
{
    if operations.len() > 0 {
        lemma_replay_catalog(engine, table, family, operations.drop_last(), reads);
    }
}

/// An evolution keeps what such a run keeps.
proof fn lemma_evolution_tells(engine: EngineModel, start: ResumeModel, step: EngineStep)
    requires
        stands(engine, start),
        step_has_room(engine, step),
        tells(engine, start, step),
        step is Evolve,
    ensures
        told(stepped(engine, step), start),
        catalog_stored(
            stepped(engine, step).store.catalog,
            stepped(engine, step).catalog,
        ),
        stepped(engine, step).policy == engine.policy,
{
    reveal(after_evolve);
    if let EngineStep::Evolve(descriptor, carried) = step {
        if let Some(stored) = evolves_from(engine.catalog, descriptor) {
            let declared = descriptor.identity;
            lemma_found_registered(engine.catalog, declared.table);
            lemma_evolution_told(engine, start, stored, declared, carried);
            lemma_rebinding_stored(engine, declared);
        }
    }
}

/// A declaration in a run keeps what such a run keeps.
proof fn lemma_declaration_tells(
    engine: EngineModel,
    start: ResumeModel,
    declared: FamilyModel,
)
    requires
        stands(engine, start),
        unspoken(engine, start, declared.version()),
    ensures
        told(stepped(engine, EngineStep::Register(declared)), start),
        told(stepped(engine, EngineStep::RegisterIdentified(declared)), start),
        catalog_stored(
            stepped(engine, EngineStep::Register(declared)).store.catalog,
            stepped(engine, EngineStep::Register(declared)).catalog,
        ),
        catalog_stored(
            stepped(engine, EngineStep::RegisterIdentified(declared)).store.catalog,
            stepped(engine, EngineStep::RegisterIdentified(declared)).catalog,
        ),
{
    reveal(after_register);
    reveal(after_register_identified);
    if registration_state(engine.catalog, declared) == Ok::<bool, Failure>(true) {
        lemma_declaration_stands(engine, start, declared);
    }
}

/// What replaying comes to in a run.
proof fn lemma_replay_step(
    engine: EngineModel,
    table: Seq<char>,
    entries: Seq<EntryModel>,
    reads: Seq<Option<Seq<char>>>,
)
    ensures
        stepped(engine, EngineStep::Replay(table, entries, reads)) == replay_outcome(
            engine,
            table,
            entries,
            reads,
        ).engine,
{
    reveal(after_replay);
}

/// What subscribing comes to in a run.
proof fn lemma_subscribe_step(engine: EngineModel, table: Seq<char>, filter: FilterModel)
    ensures
        stepped(engine, EngineStep::Subscribe(table, filter)) == subscribed(
            engine,
            next_handle(engine, table),
            filter,
        ),
{
    reveal(after_subscribe);
}

/// What acknowledging comes to in a run.
proof fn lemma_acknowledge_step(engine: EngineModel, confirmed: HeadModel)
    ensures
        stepped(engine, EngineStep::Acknowledge(confirmed)) == (EngineModel {
            store: acknowledged(engine.store, confirmed),
            ..engine
        }),
{
    reveal(after_acknowledge);
}

/// A replay in a run keeps what such a run keeps.
proof fn lemma_replay_tells(
    engine: EngineModel,
    start: ResumeModel,
    table: Seq<char>,
    entries: Seq<EntryModel>,
    reads: Seq<Option<Seq<char>>>,
)
    requires
        stands(engine, start),
        has_room(engine, all_operations(entries).len() as int),
        family_at(engine.catalog, table) matches Some(family) ==> replays_domain_keys(
            family,
            all_operations(entries),
        ),
    ensures
        ({
            let next = stepped(engine, EngineStep::Replay(table, entries, reads));
            told(next, start) && catalog_stored(next.store.catalog, next.catalog)
        }),
{
    lemma_replay_step(engine, table, entries, reads);
    if let Some(family) = family_at(engine.catalog, table) {
        let operations = all_operations(entries);
        lemma_replay_told(engine, start, table, family, operations, reads);
        lemma_replay_catalog(engine, table, family, operations, reads);
    }
}

/// A checkpoint in a run keeps what such a run keeps.
proof fn lemma_checkpoint_tells(engine: EngineModel, start: ResumeModel)
    requires
        stands(engine, start),
        checkpointed(engine) matches Ok(made) ==> addresses_apart(made.segments),
    ensures
        ({
            let next = stepped(engine, EngineStep::Checkpoint);
            told(next, start) && catalog_stored(next.store.catalog, next.catalog)
        }),
{
    reveal(after_checkpoint);
    if checkpointed(engine) is Ok {
        lemma_checkpoint_told(engine, start);
    }
}

/// Subscriptions and acknowledgements in a run keep what such a run keeps.
proof fn lemma_aside_tells(
    engine: EngineModel,
    start: ResumeModel,
    table: Seq<char>,
    filter: FilterModel,
    confirmed: HeadModel,
)
    requires
        stands(engine, start),
    ensures
        ({
            let next = stepped(engine, EngineStep::Subscribe(table, filter));
            told(next, start) && catalog_stored(next.store.catalog, next.catalog)
        }),
        ({
            let next = stepped(engine, EngineStep::Acknowledge(confirmed));
            told(next, start) && catalog_stored(next.store.catalog, next.catalog)
        }),
{
    lemma_subscribe_step(engine, table, filter);
    lemma_acknowledge_step(engine, confirmed);
    let live = subscribed(engine, next_handle(engine, table), filter);
    lemma_told_elsewhere(engine, live, start);
    let shipped = EngineModel { store: acknowledged(engine.store, confirmed), ..engine };
    lemma_told_elsewhere(engine, shipped, start);
}

/// Every such call keeps what such a run keeps.
proof fn lemma_step_stands(engine: EngineModel, start: ResumeModel, step: EngineStep)
    requires
        stands(engine, start),
        step_has_room(engine, step),
        tells(engine, start, step),
    ensures
        stands(stepped(engine, step), start),
{
    lemma_step_kept(engine, step, start.head, start.after);
    match step {
        EngineStep::Register(declared) => lemma_declaration_tells(engine, start, declared),
        EngineStep::RegisterIdentified(declared) => lemma_declaration_tells(
            engine,
            start,
            declared,
        ),
        EngineStep::Replay(table, entries, reads) => lemma_replay_tells(
            engine,
            start,
            table,
            entries,
            reads,
        ),
        EngineStep::Checkpoint => lemma_checkpoint_tells(engine, start),
        EngineStep::Subscribe(table, filter) => lemma_aside_tells(
            engine,
            start,
            table,
            filter,
            HeadModel { commit_sequence: 0, digest: Seq::empty() },
        ),
        EngineStep::Acknowledge(confirmed) => lemma_aside_tells(
            engine,
            start,
            Seq::empty(),
            FilterModel::All,
            confirmed,
        ),
        EngineStep::Reopen => lemma_reopen_stands(engine, start),
        EngineStep::Evolve(_, _) => lemma_evolution_tells(engine, start, step),
        _ => lemma_write_tells(engine, start, step),
    }
}

/// A catalog that is read back from a store is stored there.
proof fn lemma_read_back_stored(engine: EngineModel)
    requires
        catalog_stored(engine.store.catalog, engine.catalog),
    ensures
        catalog_stored(engine.store.catalog, stored_catalog(engine.store.catalog)),
{
    let stored = engine.store.catalog;
    let found = stored_catalog(stored);
    assert forall|table: Seq<char>| #[trigger]
        stored.dom().contains(table) == (family_at(found, table) is Some) by {
        lemma_catalog_survives_reopen(stored, engine.catalog, table);
        assert(stored.dom().contains(table) == (family_at(engine.catalog, table) is Some));
    }
    assert forall|table: Seq<char>| #[trigger]
        stored.dom().contains(table) implies family_at(found, table) == Some(stored[table])
        && stored[table].table == table by {
        lemma_catalog_survives_reopen(stored, engine.catalog, table);
        assert(family_at(engine.catalog, table) == Some(stored[table]));
    }
}

/// Reopening keeps what such a run keeps.
proof fn lemma_reopen_stands(engine: EngineModel, start: ResumeModel)
    requires
        stands(engine, start),
    ensures
        told(stepped(engine, EngineStep::Reopen), start),
        catalog_stored(
            stepped(engine, EngineStep::Reopen).store.catalog,
            stepped(engine, EngineStep::Reopen).catalog,
        ),
{
    lemma_reopen_step(engine);
    lemma_reopened(engine);
    lemma_reopen_told(engine, start);
    lemma_read_back_stored(engine);
}

/// What reopening comes to in a run.
proof fn lemma_reopen_step(engine: EngineModel)
    requires
        engine.store.layout == Some(STORAGE_LAYOUT),
    ensures
        stepped(engine, EngineStep::Reopen) == reopened(engine)->Ok_0,
{
    reveal(after_reopen);
    lemma_reopened(engine);
}

/// Every such run from the first call on keeps what such a run keeps.
pub proof fn lemma_run_stands(engine: EngineModel, steps: Seq<EngineStep>)
    requires
        newly_opened(engine),
        engine.policy is Some,
        engine.catalog.len() == 0,
        run_has_room(engine, steps),
        run_tells(engine, resumed(None), steps),
    ensures
        stands(after_run(engine, steps), resumed(None)),
    decreases steps.len(),
{
    if steps.len() == 0 {
        lemma_opened_kept(engine);
        lemma_starts_told(engine);
        lemma_listable_empty::<String, FamilyModel>();
    } else {
        lemma_run_stands(engine, steps.drop_last());
        lemma_step_stands(
            after_run(engine, steps.drop_last()),
            resumed(None),
            steps.last(),
        );
    }
}

/// A run of groups takes one commit for each.
proof fn lemma_ran_room(engine: EngineModel, groups: Seq<Seq<WriteFact>>, room: int)
    requires
        engine.session is None,
        engine.policy is Some,
        has_room(engine, room),
        groups.len() <= room,
    ensures
        ({
            let source = ran(engine, groups);
            &&& has_room(source, room - groups.len())
            &&& source.session is None
            &&& source.policy == engine.policy
            &&& source.catalog == engine.catalog
            &&& counted_so_far(source.store.commit_sequence) == counted_so_far(
                engine.store.commit_sequence,
            ) + groups.len()
        }),
    decreases groups.len(),
{
    if groups.len() > 0 {
        lemma_ran_room(engine, groups.drop_last(), room);
    }
}

/// One group of writes after a checkpoint leaves it standing in for the
/// store, and the counters told from it.
proof fn lemma_group_since(
    engine: EngineModel,
    start: ResumeModel,
    checkpoint: CheckpointModel,
    base: Map<Seq<char>, u64>,
    writes: Seq<WriteFact>,
)
    requires
        told(engine, start),
        contiguous(engine.store, start.after, engine.policy),
        stands_in_for(checkpoint, engine),
        counters_told(engine, base, checkpoint.metadata.covered.last),
        checkpoint.metadata.covered.last <= counted_so_far(engine.store.commit_sequence),
        has_room(engine, 1),
        made_in_turn(engine.catalog, engine.store.tables, writes),
    ensures
        ({
            let next = landed(engine, writes);
            &&& told(next, start)
            &&& contiguous(next.store, start.after, next.policy)
            &&& stands_in_for(checkpoint, next)
            &&& counters_told(next, base, checkpoint.metadata.covered.last)
        }),
{
    let next = landed(engine, writes);
    let last = checkpoint.metadata.covered.last;
    lemma_made_plain(engine.catalog, engine.store.tables, writes);
    assert forall|i: int| 0 <= i < writes.len() implies registered(
        engine.catalog,
        (#[trigger] writes[i]).table,
    ) by {
        assert(plain_write(engine.catalog, writes[i]));
    }
    lemma_commit_told(engine, start, writes);
    lemma_landed_contiguous(engine, start.after, writes);
    lemma_commit_counts(engine, start.head, base, last, writes);
    lemma_waiting(engine, start.head, last, writes);
    assert(loaded(next.store) == loaded(engine.store));
}

/// Writes after a checkpoint leave it standing in for the store, and the
/// counters told from it.
proof fn lemma_groups_since(
    engine: EngineModel,
    start: ResumeModel,
    checkpoint: CheckpointModel,
    base: Map<Seq<char>, u64>,
    groups: Seq<Seq<WriteFact>>,
)
    requires
        told(engine, start),
        contiguous(engine.store, start.after, engine.policy),
        stands_in_for(checkpoint, engine),
        counters_told(engine, base, checkpoint.metadata.covered.last),
        checkpoint.metadata.covered.last <= counted_so_far(engine.store.commit_sequence),
        has_room(engine, groups.len() as int),
        groups_in_turn(engine, groups),
    ensures
        ({
            let source = ran(engine, groups);
            &&& told(source, start)
            &&& contiguous(source.store, start.after, source.policy)
            &&& stands_in_for(checkpoint, source)
            &&& counters_told(source, base, checkpoint.metadata.covered.last)
            &&& source.policy == engine.policy
            &&& counted_so_far(source.store.commit_sequence) == counted_so_far(
                engine.store.commit_sequence,
            ) + groups.len()
        }),
    decreases groups.len(),
{
    lemma_ran_room(engine, groups, groups.len() as int);
    if groups.len() > 0 {
        let less = groups.drop_last();
        lemma_groups_since(engine, start, checkpoint, base, less);
        lemma_ran_room(engine, less, groups.len() as int);
        let before = ran(engine, less);
        lemma_group_since(before, start, checkpoint, base, groups.last());
    }
}

/// A commit waits past every earlier one.
proof fn lemma_waiting(
    engine: EngineModel,
    head: Option<Seq<u8>>,
    after: u64,
    writes: Seq<WriteFact>,
)
    requires
        coherent(engine.store, head),
        engine.session is None,
        engine.policy is Some,
        has_room(engine, 1),
        after <= counted_so_far(engine.store.commit_sequence),
    ensures
        log_after(landed(engine, writes).store, after).len() > 0,
{
    let next = landed(engine, writes);
    let operations = versioned_operations(engine.catalog, writes);
    let entry = next_versioned(engine, engine.policy->0, operations);
    let tail = from_number(engine.store.versioned_log, after + 1);
    lemma_from_number_listable(engine.store.versioned_log, after + 1);
    assert(from_number(next.store.versioned_log, after + 1) =~= tail.insert(
        entry.commit_sequence,
        entry,
    ));
    lemma_log_push(tail, entry.commit_sequence, entry);
}

/// The engine after a checkpoint was kept and groups of writes were
/// committed since.
pub open spec fn written_since(engine: EngineModel, groups: Seq<Seq<WriteFact>>) -> EngineModel {
    ran(with_latest(engine), groups)
}

/// The engine with the checkpoint of its history kept as its latest.
pub open spec fn with_latest(engine: EngineModel) -> EngineModel {
    EngineModel {
        store: with_checkpoint(engine.store, checkpointed(engine)->Ok_0),
        ..engine
    }
}

/// A checkpoint can be taken, and groups of writes can follow it.
pub open spec fn checkpoints_and_goes_on(
    engine: EngineModel,
    groups: Seq<Seq<WriteFact>>,
) -> bool {
    &&& checkpointed(engine) is Ok
    &&& addresses_apart(checkpointed(engine)->Ok_0.segments)
    &&& text_listed(engine.store.tables.counters)
    &&& has_room(with_latest(engine), groups.len() as int)
    &&& groups_in_turn(with_latest(engine), groups)
}

/// An engine that an import can restore into, with its counters unset.
pub open spec fn unwritten(engine: EngineModel) -> bool {
    blank(engine) && engine.store.tables.counters == Map::<Seq<char>, u64>::empty()
}

/// The import of a checkpoint and the entries that a source logged after it
/// restores the source: every record, the catalog, the commit sequence, the
/// snapshot and the chain head. Its versioned log is those entries, its
/// commit log is their projection, the receipt says what was restored, and
/// every engine-identified table mints next what the source would mint.
pub open spec fn restores(
    source: EngineModel,
    checkpoint: CheckpointModel,
    target: EngineModel,
) -> bool {
    let suffix = log_after(source.store, checkpoint.metadata.covered.last);
    let plan = import_plan(target, checkpoint, suffix)->Ok_0;
    let after = imported(target, plan, plan.rows);
    &&& import_plan(target, checkpoint, suffix) is Ok
    &&& after.store.tables.records == source.store.tables.records
    &&& after.store.tables.identified == source.store.tables.identified
    &&& after.catalog == source.catalog
    &&& counted_so_far(after.store.commit_sequence) == counted_so_far(
        source.store.commit_sequence,
    )
    &&& after.store.snapshot == source.store.snapshot
    &&& after.store.chain_head == source.store.chain_head
    &&& log_values(after.store.versioned_log) == suffix
    &&& log_values(after.store.commit_log) == Seq::new(
        suffix.len(),
        |i: int| entry_metadata(suffix[i]),
    )
    &&& plan.receipt.covered == checkpoint.metadata.covered
    &&& plan.receipt.suffix_count == suffix.len() as usize
    &&& plan.receipt.commit_sequence == counted_so_far(source.store.commit_sequence)
    &&& forall|table: Seq<char>|
        counter_value(source.store.tables.counters, #[trigger] counter_key_text(table)) >= 1
            ==> next_identifier(after.store.tables, table) == next_identifier(
            source.store.tables,
            table,
        )
}

/// What holds of a source that was checkpointed and written to since.
proof fn lemma_source_ready(
    engine: EngineModel,
    start: ResumeModel,
    groups: Seq<Seq<WriteFact>>,
)
    requires
        told(engine, start),
        contiguous(engine.store, start.after, engine.policy),
        engine.policy is Some,
        checkpoints_and_goes_on(engine, groups),
    ensures
        ({
            let checkpoint = checkpointed(engine)->Ok_0;
            let last = checkpoint.metadata.covered.last;
            let source = written_since(engine, groups);
            &&& told(source, start)
            &&& contiguous(source.store, start.after, source.policy)
            &&& stands_in_for(checkpoint, source)
            &&& counters_told(source, engine.store.tables.counters, last)
            &&& source.policy == engine.policy
            &&& log_after(source.store, last).len() == groups.len()
        }),
{
    let checkpoint = checkpointed(engine)->Ok_0;
    let base = engine.store.tables.counters;
    let latest = with_latest(engine);
    lemma_checkpoint_told(engine, start);
    lemma_checkpoint_stands_in(engine, start);
    lemma_checkpoint_counts(engine);
    lemma_covers_latest(engine, start);
    lemma_contiguous_elsewhere(engine.store, latest.store, start.after, engine.policy);
    lemma_groups_since(latest, start, checkpoint, base, groups);
    lemma_suffix_len(written_since(engine, groups), start, checkpoint);
}

/// An import counts on where its source stood, table by table.
proof fn lemma_source_counts(
    engine: EngineModel,
    source: EngineModel,
    target: EngineModel,
    table: Seq<char>,
)
    requires
        checkpointed(engine) is Ok,
        text_listed(engine.store.tables.counters),
        counters_told(
            source,
            engine.store.tables.counters,
            checkpointed(engine)->Ok_0.metadata.covered.last,
        ),
        target.store.tables.counters == Map::<Seq<char>, u64>::empty(),
        import_plan(
            target,
            checkpointed(engine)->Ok_0,
            log_after(source.store, checkpointed(engine)->Ok_0.metadata.covered.last),
        ) is Ok,
        counter_value(source.store.tables.counters, counter_key_text(table)) >= 1,
    ensures
        ({
            let checkpoint = checkpointed(engine)->Ok_0;
            let suffix = log_after(source.store, checkpoint.metadata.covered.last);
            let plan = import_plan(target, checkpoint, suffix)->Ok_0;
            next_identifier(imported(target, plan, plan.rows).store.tables, table)
                == next_identifier(source.store.tables, table)
        }),
{
    let checkpoint = checkpointed(engine)->Ok_0;
    let base = engine.store.tables.counters;
    let suffix = log_after(source.store, checkpoint.metadata.covered.last);
    let plan = import_plan(target, checkpoint, suffix)->Ok_0;
    let counters = checkpoint.metadata.inventory.counters;
    assert forall|other: Seq<char>|
        counter_value(counters_stored(Map::empty(), counters), #[trigger] counter_key_text(other))
            == counter_value(base, counter_key_text(other)) by {
        lemma_checkpoint_records_counters(engine, other);
    }
    lemma_import_counts_on(source, base, checkpoint, target, plan.rows, table);
}

/// A store that was checkpointed and written to since is restored by the
/// checkpoint and the entries after it.
pub proof fn lemma_import_restores_source(
    engine: EngineModel,
    start: ResumeModel,
    groups: Seq<Seq<WriteFact>>,
    target: EngineModel,
)
    requires
        told(engine, start),
        contiguous(engine.store, start.after, engine.policy),
        engine.policy is Some,
        checkpoints_and_goes_on(engine, groups),
        unwritten(target),
        target.policy == engine.policy,
        has_log_room(target.store, groups.len() as int),
    ensures
        restores(written_since(engine, groups), checkpointed(engine)->Ok_0, target),
{
    let checkpoint = checkpointed(engine)->Ok_0;
    let source = written_since(engine, groups);
    lemma_source_ready(engine, start, groups);
    lemma_import_equals_source(source, start, checkpoint, target);
    let suffix = log_after(source.store, checkpoint.metadata.covered.last);
    let plan = import_plan(target, checkpoint, suffix)->Ok_0;
    let after = imported(target, plan, plan.rows);
    assert forall|table: Seq<char>|
        counter_value(source.store.tables.counters, #[trigger] counter_key_text(table))
            >= 1 implies next_identifier(after.store.tables, table) == next_identifier(
        source.store.tables,
        table,
    ) by {
        lemma_source_counts(engine, source, target, table);
    }
}

/// From the first call to the import: whatever was called on a store since
/// it was first opened, once it was checkpointed and written to again, the
/// checkpoint and the entries after it restore it.
pub proof fn lemma_import_from_first_call(
    opened: EngineModel,
    steps: Seq<EngineStep>,
    groups: Seq<Seq<WriteFact>>,
    target: EngineModel,
)
    requires
        newly_opened(opened),
        opened.policy is Some,
        opened.catalog.len() == 0,
        run_has_room(opened, steps),
        run_tells(opened, resumed(None), steps),
        checkpoints_and_goes_on(after_run(opened, steps), groups),
        unwritten(target),
        target.policy == opened.policy,
        has_log_room(target.store, groups.len() as int),
    ensures
        restores(
            written_since(after_run(opened, steps), groups),
            checkpointed(after_run(opened, steps))->Ok_0,
            target,
        ),
{
    lemma_run_stands(opened, steps);
    lemma_run_kept(opened, steps);
    lemma_import_restores_source(after_run(opened, steps), resumed(None), groups, target);
}

/// An imported store never mints what its source handed out: the next
/// record of an engine-identified table lands past every identifier that
/// the source has in use, and every record that was imported stays.
pub proof fn lemma_import_mints_anew(
    source: EngineModel,
    checkpoint: CheckpointModel,
    target: EngineModel,
    table: Seq<char>,
    bytes: Seq<u8>,
)
    requires
        restores(source, checkpoint, target),
        target.session is None,
        minted_below(source.store.tables),
        counter_value(source.store.tables.counters, counter_key_text(table)) >= 1,
        ({
            let suffix = log_after(source.store, checkpoint.metadata.covered.last);
            let plan = import_plan(target, checkpoint, suffix)->Ok_0;
            has_room(imported(target, plan, plan.rows), 1)
        }),
    ensures
        ({
            let suffix = log_after(source.store, checkpoint.metadata.covered.last);
            let plan = import_plan(target, checkpoint, suffix)->Ok_0;
            let after = imported(target, plan, plan.rows);
            let minted = next_identifier(after.store.tables, table);
            &&& minted == next_identifier(source.store.tables, table)
            &&& forall|identifier: u64| #[trigger]
                source.store.tables.identified.dom().contains((table, identifier))
                    ==> identifier < minted
            &&& identified_assertion(after, table, bytes) matches Ok(next)
                ==> next.store.tables.identified == source.store.tables.identified.insert(
                (table, minted),
                bytes,
            )
        }),
{
    let suffix = log_after(source.store, checkpoint.metadata.covered.last);
    let plan = import_plan(target, checkpoint, suffix)->Ok_0;
    let after = imported(target, plan, plan.rows);
    let minted = next_identifier(after.store.tables, table);
    assert(counter_value(source.store.tables.counters, counter_key_text(table)) >= 1);
    lemma_lone_write(after, identified_write(SemaOperation::Assert, table, minted, bytes));
}

/// Such a run keeps the policy and a contiguous log.
proof fn lemma_run_kept(opened: EngineModel, steps: Seq<EngineStep>)
    requires
        newly_opened(opened),
        opened.policy is Some,
        opened.catalog.len() == 0,
        run_has_room(opened, steps),
        run_tells(opened, resumed(None), steps),
    ensures
        ({
            let engine = after_run(opened, steps);
            &&& told(engine, resumed(None))
            &&& contiguous(engine.store, resumed(None).after, engine.policy)
            &&& engine.policy == opened.policy
        }),
{
    lemma_run_stands(opened, steps);
    lemma_opened_kept(opened);
    runs::lemma_run_kept(opened, steps, None, 0);
}

/// A checkpoint that was just taken covers the latest commit.
proof fn lemma_covers_latest(engine: EngineModel, start: ResumeModel)
    requires
        told(engine, start),
        contiguous(engine.store, start.after, engine.policy),
        engine.policy is Some,
        checkpointed(engine) is Ok,
    ensures
        checkpointed(engine)->Ok_0.metadata.covered.last == counted_so_far(
            engine.store.commit_sequence,
        ),
{
    let latest = counted_so_far(engine.store.commit_sequence);
    let found = history(engine, "checkpoint"@, true)->Ok_0;
    let from = resumed(found.latest);
    lemma_covering(engine);
    lemma_nothing_past_last(engine.store.versioned_log, from.after);
    lemma_last_logged(engine.store, start.head, from.after);
    let last = found.entries.last().commit_sequence;
    if last < latest {
        let tail = from_number(engine.store.versioned_log, last + 1);
        lemma_from_number_listable(
            engine.store.versioned_log,
            last + 1,
        );
        assert(engine.store.versioned_log.dom().contains(latest));
        assert(tail.dom().contains(latest));
        let rows = numbered(tail);
        assert(has_key(rows, latest));
        assert(rows.len() == 0);
    }
}

/// The entries past a checkpoint are as many as the commits since.
proof fn lemma_suffix_len(source: EngineModel, start: ResumeModel, checkpoint: CheckpointModel)
    requires
        told(source, start),
        contiguous(source.store, start.after, source.policy),
        stands_in_for(checkpoint, source),
    ensures
        log_after(source.store, checkpoint.metadata.covered.last).len() == counted_so_far(
            source.store.commit_sequence,
        ) - checkpoint.metadata.covered.last,
{
    let last = checkpoint.metadata.covered.last;
    let count = choose|count: int| #[trigger]
        stands_for(source, start, checkpoint, count);
    lemma_contiguous_listing(
        from_number(source.store.versioned_log, last + 1),
        last,
        counted_so_far(source.store.commit_sequence),
    );
}

} // verus!
