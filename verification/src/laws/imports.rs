//! Imports: a store that was imported stands where its source stood, and
//! goes on as its source would.

use vstd::prelude::*;

use crate::catalog::{family_at, registered};
use crate::checkpoint::{all_rows, verification, CheckpointModel};
use crate::engine::{consulted, imports, took};
use crate::engine_model::{
    all_operations, checkpoint_restored, checkpointed, counters_advanced, counters_stored,
    entries_logged, fresh, group_flaw, has_log_room, has_room, history, identified_assertion,
    import_plan, imported, inventoried, loaded, log_after, log_gap, resumed, twice_bound, with_checkpoint,
    EngineModel, ResumeModel,
};
use crate::error::{Error, Failure};
use crate::fold::{
    empty_fold, fold_entries, fold_rows, folded, head_after, landed_rows, lemma_all_land,
    FamilyDirectory, FoldModel, RowModel,
};
use crate::import::ImportReceipt;
use crate::laws::checkpoints::{
    addresses_apart, lemma_checkpoint_reads_back, lemma_covering, lemma_from_number_listable,
    lemma_kept_reads_back,
};
use crate::laws::folds::{agree, kept_at, lemma_folded_sound, sound};
use crate::laws::history::{
    coherent, contiguous, follow_on, lemma_coherent_elsewhere, lemma_contiguous_listing,
    lemma_empty_listing, lemma_entries_coherent, lemma_entries_contiguous, lemma_log_contiguous,
};
use crate::laws::rebuild::{
    applies_every_row, catalog_apart, held_at, identities_home, lemma_family_at, lemma_history_agrees,
    lemma_home_parts, lemma_landing_on_empty, lemma_materialized_rows,
    lemma_operations_join, lemma_rows_keep_counters, lemma_same_rows, log_fold, log_tells_all,
    operations_home, stands_for, told, view_registered,
};
use crate::laws::writes::{
    counter_value, lemma_counters_only_rise, lemma_lone_write,
    lemma_taken_over_identifiers_stay_minted,
};
use crate::listing::{from_number, lettered, log_values, text_listed, text_rising};
use crate::log::{entry_metadata, LogEntryModel};
use crate::operation::SemaOperation;
use crate::order::text_precedes;
use crate::ordered_table::{
    has_key, lemma_listable_empty, lemma_map_take, map_of, rising, TableKey,
};
use crate::record::KeyModel;
use crate::store::{counted_so_far, StoreModel};
use crate::table::{counter_key_text, counter_table, lemma_counter_table};
use crate::tables::{identified_write, next_identifier};
use crate::versioning::{store_schema, versions, EntryModel, FamilyModel, OperationModel};

verus! {

/// An engine that an import can restore into: nothing was ever written to
/// its store.
pub open spec fn blank(engine: EngineModel) -> bool {
    &&& engine.session is None
    &&& fresh(engine)
    &&& coherent(engine.store, None)
    &&& engine.store.tables.records == Map::<(Seq<char>, Seq<char>), Seq<u8>>::empty()
    &&& engine.store.tables.identified == Map::<(Seq<char>, u64), Seq<u8>>::empty()
}

/// A checkpoint and the entries that continue it, as an engine hands them
/// out: the checkpoint verifies and none of its segments collide under
/// blake3; the entries follow it one by one under its store name; its
/// inventory registers every table and version once, and every record and
/// operation names the registered tables.
pub open spec fn importable(checkpoint: CheckpointModel, suffix: Seq<EntryModel>) -> bool {
    let families = checkpoint.metadata.inventory.families;
    let rows = all_rows(checkpoint.segments);
    let view = folded(rows, suffix, Some(checkpoint.metadata.entry_digest));
    &&& verification(checkpoint) is None
    &&& addresses_apart(checkpoint.segments)
    &&& follow_on(checkpoint.metadata.covered.last, checkpoint.metadata.store_name, suffix)
    &&& catalog_apart(families)
    &&& view is Ok
    &&& identities_home(families, fold_rows(empty_fold(), rows)->Ok_0)
    &&& operations_home(families, all_operations(suffix))
    &&& view_registered(families, view->Ok_0)
}

/// Entries that fold form an unbroken chain.
proof fn lemma_folds_unbroken(view: FoldModel, head: Option<Seq<u8>>, entries: Seq<EntryModel>)
    requires
        fold_entries(view, head, entries) is Ok,
    ensures
        group_flaw(head, entries) is None,
    decreases entries.len(),
{
    if entries.len() > 0 {
        lemma_folds_unbroken(view, head, entries.drop_last());
    }
}

/// Moving counters by one run of operations after another is moving them
/// by both at once.
pub proof fn lemma_counters_in_two(
    counters: Map<Seq<char>, u64>,
    first: Seq<OperationModel>,
    second: Seq<OperationModel>,
)
    ensures
        counters_advanced(counters, first + second) == counters_advanced(
            counters_advanced(counters, first),
            second,
        ),
    decreases second.len(),
{
    let both = first + second;
    if second.len() == 0 {
        assert(both =~= first);
    } else {
        assert(both.drop_last() =~= first + second.drop_last());
        lemma_counters_in_two(counters, first, second.drop_last());
    }
}

/// What entries that are taken over move, and what they leave alone.
pub proof fn lemma_entries_elsewhere(store: StoreModel, entries: Seq<EntryModel>)
    ensures
        ({
            let after = entries_logged(store, entries);
            &&& after.catalog == store.catalog
            &&& after.latest_checkpoint == store.latest_checkpoint
            &&& after.checkpoints == store.checkpoints
            &&& after.segments == store.segments
            &&& after.tables.records == store.tables.records
            &&& after.tables.identified == store.tables.identified
            &&& after.tables.counters == counters_advanced(
                store.tables.counters,
                all_operations(entries),
            )
            &&& entries.len() > 0 ==> after.snapshot == Some(entries.last().snapshot)
                && after.commit_sequence == Some(entries.last().commit_sequence)
        }),
    decreases entries.len(),
{
    if entries.len() > 0 {
        lemma_entries_elsewhere(store, entries.drop_last());
        lemma_counters_in_two(
            store.tables.counters,
            all_operations(entries.drop_last()),
            entries.last().operations,
        );
    }
}

/// A restored checkpoint leaves the log planes in step from the entry that
/// it covers.
proof fn lemma_restored(target: EngineModel, checkpoint: CheckpointModel)
    requires
        blank(target),
    ensures
        ({
            let restored = checkpoint_restored(target.store, checkpoint);
            &&& coherent(restored, Some(checkpoint.metadata.entry_digest))
            &&& contiguous(
                restored,
                checkpoint.metadata.covered.last,
                Some(checkpoint.metadata.store_name),
            )
            &&& counted_so_far(restored.commit_count) == 0
            &&& counted_so_far(restored.versioned_count) == 0
            &&& log_values(restored.versioned_log) == Seq::<EntryModel>::empty()
        }),
{
    lemma_empty_listing::<EntryModel>();
    lemma_empty_listing::<LogEntryModel>();
    lemma_listable_empty::<u64, EntryModel>();
    lemma_listable_empty::<u64, LogEntryModel>();
    let head = Some(checkpoint.metadata.entry_digest);
    assert(group_flaw(head, Seq::<EntryModel>::empty()) is None);
}

/// An import's log tells of all of its records, from the checkpoint on, and
/// the checkpoint stands for what it starts from: a rebuild of an imported
/// store changes nothing, however often it was written to or checkpointed
/// since. Its log holds the imported entries, without a gap.
pub proof fn lemma_import_told(
    target: EngineModel,
    checkpoint: CheckpointModel,
    suffix: Seq<EntryModel>,
)
    requires
        blank(target),
        importable(checkpoint, suffix),
        import_plan(target, checkpoint, suffix) is Ok,
        has_log_room(target.store, suffix.len() as int),
    ensures
        ({
            let plan = import_plan(target, checkpoint, suffix)->Ok_0;
            let after = imported(target, plan, plan.rows);
            let start = resumed(Some(checkpoint));
            &&& told(after, start)
            &&& log_gap(after.store) is None
            &&& contiguous(after.store, start.after, after.policy)
            &&& log_values(after.store.versioned_log) == suffix
            &&& loaded(after.store) == Ok::<Option<CheckpointModel>, Failure>(Some(checkpoint))
        }),
{
    let plan = import_plan(target, checkpoint, suffix)->Ok_0;
    let after = imported(target, plan, plan.rows);
    let start = resumed(Some(checkpoint));
    let families = checkpoint.metadata.inventory.families;
    let name = checkpoint.metadata.store_name;
    let restored = checkpoint_restored(target.store, checkpoint);
    let logged = entries_logged(restored, suffix);
    let view = folded(start.rows, suffix, start.head)->Ok_0;
    let back = fold_rows(empty_fold(), start.rows)->Ok_0;
    lemma_restored(target, checkpoint);
    lemma_folds_unbroken(back, start.head, suffix);
    lemma_entries_coherent(restored, start.head, name, suffix);
    lemma_entries_contiguous(restored, start.after, name, suffix);
    lemma_entries_elsewhere(restored, suffix);
    lemma_coherent_elsewhere(logged, after.store, start.head);
    assert(log_values(restored.versioned_log) + suffix =~= suffix);
    assert(after.catalog =~= families);
    lemma_folded_sound(start.rows, suffix, start.head);
    lemma_materialized_rows(view, families);
    lemma_landing_on_empty(families, logged.tables, view);
    assert(log_tells_all(after, start));
    // The checkpoint is read back, and stands for nothing of the log.
    lemma_kept_reads_back(target.store, checkpoint);
    assert(loaded(after.store) == Ok::<Option<CheckpointModel>, Failure>(Some(checkpoint)));
    let entries = log_values(after.store.versioned_log);
    assert(from_number(after.store.versioned_log, start.after + 1)
        =~= after.store.versioned_log);
    assert(entries.skip(0) =~= entries);
    assert(entries.take(0) =~= Seq::empty());
    assert(folded(start.rows, entries.take(0), start.head) == Ok::<FoldModel, Failure>(back));
    assert(stands_for(after, start, checkpoint, 0));
}

/// An import through a directory that leaves no row out lands every row of
/// the plan, or nothing.
pub proof fn lemma_import_through_directory<Directory: FamilyDirectory>(
    target: EngineModel,
    after: EngineModel,
    checkpoint: CheckpointModel,
    suffix: Seq<EntryModel>,
    directory: &Directory,
    outcome: Result<ImportReceipt, Error>,
)
    requires
        applies_every_row(directory),
        imports(target, after, checkpoint, suffix, directory, outcome),
    ensures
        match outcome {
            Ok(receipt) => {
                let plan = import_plan(target, checkpoint, suffix)->Ok_0;
                &&& import_plan(target, checkpoint, suffix) is Ok
                &&& receipt@ == plan.receipt
                &&& after == imported(target, plan, plan.rows)
            },
            Err(_) => after == target,
        },
{
    if outcome is Ok {
        let plan = import_plan(target, checkpoint, suffix)->Ok_0;
        let taken = choose|taken: Seq<bool>|
            {
                &&& consulted(directory, plan.rows, Ok(taken))
                &&& after == imported(target, plan, #[trigger] landed_rows(plan.rows, taken))
            };
        assert forall|i: int| 0 <= i < plan.rows.len() implies #[trigger] taken[i] by {
            assert(took(directory, plan.rows[i], taken[i]));
        }
        lemma_all_land(plan.rows, taken);
    }
}

/// A catalog in which no table is registered twice binds none twice.
proof fn lemma_never_twice_bound(families: Seq<FamilyModel>)
    requires
        catalog_apart(families),
    ensures
        twice_bound(families) is None,
    decreases families.len(),
{
    if families.len() > 0 {
        let less = families.drop_last();
        assert(catalog_apart(less)) by {
            assert forall|i: int, j: int| 0 <= i < j < less.len() implies (
            #[trigger] less[i]).table != (#[trigger] less[j]).table && less[i].version()
                != less[j].version() by {
                assert(families[i].table != families[j].table);
            }
        }
        lemma_never_twice_bound(less);
        if registered(less, families.last().table) {
            let i = choose|i: int|
                0 <= i < less.len() && (#[trigger] less[i]).table == families.last().table;
            assert(families[i].table != families[families.len() - 1].table);
        }
    }
}

/// A checkpoint of a source, kept as its latest: it names the source, and
/// its inventory is the source's catalog still. Where nothing was committed
/// since, it names the source's snapshot.
pub open spec fn stands_in_for(checkpoint: CheckpointModel, source: EngineModel) -> bool {
    let metadata = checkpoint.metadata;
    &&& loaded(source.store) == Ok::<Option<CheckpointModel>, Failure>(Some(checkpoint))
    &&& addresses_apart(checkpoint.segments)
    &&& source.policy == Some(metadata.store_name)
    &&& metadata.inventory.families == source.catalog
    &&& metadata.store_schema_hash == store_schema(versions(source.catalog))
    &&& log_after(source.store, metadata.covered.last).len() == 0 ==> source.store.snapshot
        == Some(metadata.snapshot)
}

/// The entries past a checkpoint of a source follow it one by one, under
/// the source's name, up to where the source stands.
proof fn lemma_source_suffix(
    source: EngineModel,
    start: ResumeModel,
    checkpoint: CheckpointModel,
    count: int,
)
    requires
        coherent(source.store, start.head),
        source.policy == Some(checkpoint.metadata.store_name),
        contiguous(source.store, start.after, source.policy),
        stands_for(source, start, checkpoint, count),
        operations_home(
            source.catalog,
            all_operations(log_values(source.store.versioned_log)),
        ),
    ensures
        ({
            let covered = checkpoint.metadata.covered;
            let suffix = log_after(source.store, covered.last);
            &&& follow_on(covered.last, checkpoint.metadata.store_name, suffix)
            &&& operations_home(source.catalog, all_operations(suffix))
            &&& suffix.len() == counted_so_far(source.store.commit_sequence) - covered.last
            &&& suffix.len() > 0 ==> source.store.snapshot == Some(suffix.last().snapshot)
        }),
{
    let covered = checkpoint.metadata.covered;
    let suffix = log_after(source.store, covered.last);
    let entries = log_values(source.store.versioned_log);
    let name = checkpoint.metadata.store_name;
    let latest = counted_so_far(source.store.commit_sequence);
    let first = entries.take(count);
    assert(first + suffix =~= entries);
    lemma_operations_join(first, suffix);
    lemma_home_parts(source.catalog, first, suffix);
    lemma_contiguous_listing(
        from_number(source.store.versioned_log, covered.last + 1),
        covered.last,
        latest,
    );
    assert(follow_on(covered.last, name, suffix)) by {
        assert forall|i: int| 0 <= i < suffix.len() implies (
        #[trigger] suffix[i]).commit_sequence == covered.last + 1 + i && suffix[i].store_name
            == name by {
            assert(source.store.versioned_log.dom().contains((covered.last + 1 + i) as u64));
        }
    }
    if suffix.len() > 0 {
        assert(suffix.last() == source.store.versioned_log[latest]);
        assert(source.store.versioned_log.dom().contains(latest));
    }
}

/// What a source's history folds to, read through its checkpoint.
proof fn lemma_source_folds(source: EngineModel, start: ResumeModel, checkpoint: CheckpointModel)
    requires
        told(source, start),
        log_gap(source.store) is None,
        source.policy is Some,
        loaded(source.store) == Ok::<Option<CheckpointModel>, Failure>(Some(checkpoint)),
    ensures
        ({
            let suffix = log_after(source.store, checkpoint.metadata.covered.last);
            let head = Some(checkpoint.metadata.entry_digest);
            let view = folded(all_rows(checkpoint.segments), suffix, head);
            &&& view is Ok
            &&& sound(view->Ok_0)
            &&& agree(view->Ok_0, log_fold(source.store, start)->Ok_0)
            &&& view_registered(source.catalog, view->Ok_0)
            &&& head_after(head, suffix) == head_after(
                start.head,
                log_values(source.store.versioned_log),
            )
        }),
{
    lemma_history_agrees(source, start, "rebuild_from_log"@, false);
}

/// What is loaded verifies.
proof fn lemma_loaded_verifies(store: StoreModel, checkpoint: CheckpointModel)
    requires
        loaded(store) == Ok::<Option<CheckpointModel>, Failure>(Some(checkpoint)),
    ensures
        verification(checkpoint) is None,
{
}

/// What can be imported is planned, in a blank store under its name.
pub proof fn lemma_importable_plans(
    target: EngineModel,
    checkpoint: CheckpointModel,
    suffix: Seq<EntryModel>,
)
    requires
        blank(target),
        importable(checkpoint, suffix),
        target.policy == Some(checkpoint.metadata.store_name),
        checkpoint.metadata.store_schema_hash == store_schema(
            versions(checkpoint.metadata.inventory.families),
        ),
    ensures
        import_plan(target, checkpoint, suffix) is Ok,
{
    let families = checkpoint.metadata.inventory.families;
    let rows = all_rows(checkpoint.segments);
    let head = Some(checkpoint.metadata.entry_digest);
    let view = folded(rows, suffix, head)->Ok_0;
    lemma_folded_sound(rows, suffix, head);
    lemma_materialized_rows(view, families);
    lemma_never_twice_bound(families);
}

/// What a source hands out for an import can be imported.
proof fn lemma_source_importable(
    source: EngineModel,
    start: ResumeModel,
    checkpoint: CheckpointModel,
    target: EngineModel,
)
    requires
        told(source, start),
        contiguous(source.store, start.after, source.policy),
        stands_in_for(checkpoint, source),
        blank(target),
        target.policy == source.policy,
    ensures
        ({
            let suffix = log_after(source.store, checkpoint.metadata.covered.last);
            let head = Some(checkpoint.metadata.entry_digest);
            let view = folded(all_rows(checkpoint.segments), suffix, head)->Ok_0;
            &&& importable(checkpoint, suffix)
            &&& import_plan(target, checkpoint, suffix) is Ok
            &&& agree(view, log_fold(source.store, start)->Ok_0)
            &&& head_after(head, suffix) == source.store.chain_head
            &&& suffix.len() == counted_so_far(source.store.commit_sequence)
                - checkpoint.metadata.covered.last
            &&& suffix.len() > 0 ==> source.store.snapshot == Some(suffix.last().snapshot)
        }),
{
    let suffix = log_after(source.store, checkpoint.metadata.covered.last);
    lemma_no_gap(source.store, start.head, start.after, source.policy);
    lemma_loaded_verifies(source.store, checkpoint);
    lemma_source_folds(source, start, checkpoint);
    let count = choose|count: int| #[trigger] stands_for(source, start, checkpoint, count);
    lemma_source_suffix(source, start, checkpoint, count);
    assert(importable(checkpoint, suffix));
    lemma_importable_plans(target, checkpoint, suffix);
}

/// A contiguous log under a policy has no gap.
proof fn lemma_no_gap(
    store: StoreModel,
    head: Option<Seq<u8>>,
    after: u64,
    policy: Option<Seq<char>>,
)
    requires
        coherent(store, head),
        contiguous(store, after, policy),
        policy is Some,
    ensures
        log_gap(store) is None,
{
    lemma_log_contiguous(store, head, after, policy);
}

/// An import carries every record of its source over.
proof fn lemma_import_carries_records(
    source: EngineModel,
    start: ResumeModel,
    checkpoint: CheckpointModel,
    after: EngineModel,
)
    requires
        log_tells_all(source, start),
        log_tells_all(after, resumed(Some(checkpoint))),
        after.catalog == source.catalog,
        agree(
            log_fold(after.store, resumed(Some(checkpoint)))->Ok_0,
            log_fold(source.store, start)->Ok_0,
        ),
    ensures
        after.store.tables.records == source.store.tables.records,
        after.store.tables.identified == source.store.tables.identified,
{
    let catalog = source.catalog;
    let whole = log_fold(source.store, start)->Ok_0;
    let view = log_fold(after.store, resumed(Some(checkpoint)))->Ok_0;
    let standing = source.store.tables;
    assert forall|table: Seq<char>, key: KeyModel| #[trigger]
        held_at(after.store.tables, table, key) == held_at(standing, table, key) by {
        if registered(catalog, table) {
            lemma_family_at(catalog, table);
            let family = family_at(catalog, table)->0;
            let cell = (family.version(), key);
            assert(held_at(after.store.tables, family.table, key) == kept_at(view, cell));
            assert(held_at(standing, family.table, key) == kept_at(whole, cell));
            assert(kept_at(view, cell) == kept_at(whole, cell));
        } else {
            assert(held_at(standing, table, key) is None);
            assert(held_at(after.store.tables, table, key) is None);
        }
    }
    lemma_same_rows(standing, after.store.tables);
}

/// An import equals its source: in every record, in the catalog, in the
/// commit sequence, the snapshot, the chain head and the latest checkpoint.
/// Its versioned log is the source's past the checkpoint, its commit log is that log without
/// payloads and links, and the receipt names what the checkpoint covers,
/// how many entries followed it, and where the store stands.
pub proof fn lemma_import_equals_source(
    source: EngineModel,
    start: ResumeModel,
    checkpoint: CheckpointModel,
    target: EngineModel,
)
    requires
        told(source, start),
        contiguous(source.store, start.after, source.policy),
        stands_in_for(checkpoint, source),
        blank(target),
        target.policy == source.policy,
        has_log_room(
            target.store,
            log_after(source.store, checkpoint.metadata.covered.last).len() as int,
        ),
    ensures
        ({
            let covered = checkpoint.metadata.covered;
            let suffix = log_after(source.store, covered.last);
            let plan = import_plan(target, checkpoint, suffix)->Ok_0;
            let after = imported(target, plan, plan.rows);
            &&& import_plan(target, checkpoint, suffix) is Ok
            &&& importable(checkpoint, suffix)
            &&& after.store.tables.records == source.store.tables.records
            &&& after.store.tables.identified == source.store.tables.identified
            &&& after.catalog == source.catalog
            &&& after.policy == source.policy
            &&& counted_so_far(after.store.commit_sequence) == counted_so_far(
                source.store.commit_sequence,
            )
            &&& after.store.snapshot == source.store.snapshot
            &&& after.store.chain_head == source.store.chain_head
            &&& loaded(after.store) == loaded(source.store)
            &&& log_values(after.store.versioned_log) == suffix
            &&& log_values(after.store.commit_log) == Seq::new(
                suffix.len(),
                |i: int| entry_metadata(suffix[i]),
            )
            &&& plan.receipt.covered == covered
            &&& plan.receipt.suffix_count == suffix.len() as usize
            &&& plan.receipt.commit_sequence == counted_so_far(source.store.commit_sequence)
        }),
{
    let covered = checkpoint.metadata.covered;
    let head = Some(checkpoint.metadata.entry_digest);
    let suffix = log_after(source.store, covered.last);
    let name = checkpoint.metadata.store_name;
    lemma_source_importable(source, start, checkpoint, target);
    lemma_import_told(target, checkpoint, suffix);
    let plan = import_plan(target, checkpoint, suffix)->Ok_0;
    let after = imported(target, plan, plan.rows);
    let restored = checkpoint_restored(target.store, checkpoint);
    lemma_entries_elsewhere(restored, suffix);
    lemma_log_contiguous(after.store, head, covered.last, after.policy);
    assert(log_values(after.store.commit_log) =~= Seq::new(
        suffix.len(),
        |i: int| entry_metadata(suffix[i]),
    ));
    assert(after.catalog =~= source.catalog);
    if suffix.len() > 0 {
        assert(suffix[suffix.len() - 1].commit_sequence == covered.last + suffix.len());
    }
    lemma_import_carries_records(source, start, checkpoint, after);
}

/// A checkpoint that was just taken stands in for the engine that took it.
/// Two segments that collide under blake3 are left out.
pub proof fn lemma_checkpoint_stands_in(engine: EngineModel, start: ResumeModel)
    requires
        told(engine, start),
        contiguous(engine.store, start.after, engine.policy),
        checkpointed(engine) is Ok,
        addresses_apart(checkpointed(engine)->Ok_0.segments),
    ensures
        stands_in_for(
            checkpointed(engine)->Ok_0,
            EngineModel {
                store: with_checkpoint(engine.store, checkpointed(engine)->Ok_0),
                ..engine
            },
        ),
{
    let checkpoint = checkpointed(engine)->Ok_0;
    let latest = counted_so_far(engine.store.commit_sequence);
    lemma_covering(engine);
    lemma_checkpoint_reads_back(engine, engine.store);
    lemma_history_agrees(engine, start, "checkpoint"@, true);
    let found = history(engine, "checkpoint"@, true)->Ok_0;
    let entries = log_values(engine.store.versioned_log);
    let from = resumed(found.latest);
    lemma_log_contiguous(engine.store, start.head, start.after, engine.policy);
    lemma_contiguous_listing(engine.store.versioned_log, start.after, latest);
    lemma_from_number_listable(engine.store.versioned_log, from.after + 1);
    if let Some(latest_checkpoint) = found.latest {
        let count = choose|count: int| #[trigger]
            stands_for(engine, start, latest_checkpoint, count);
        assert(found.entries.last() == entries.last());
    } else {
        assert(from_number(engine.store.versioned_log, 1) =~= engine.store.versioned_log);
    }
    assert(entries.last() == engine.store.versioned_log[latest]);
    assert(engine.store.versioned_log.dom().contains(latest));
}

/// An identifier of a table that the source of an import handed out: below
/// the counter that the checkpoint recorded, or asserted since.
pub open spec fn handed_out(
    checkpoint: CheckpointModel,
    suffix: Seq<EntryModel>,
    table: Seq<char>,
    identifier: u64,
) -> bool {
    let recorded = counters_stored(Map::empty(), checkpoint.metadata.inventory.counters);
    ||| identifier < counter_value(recorded, counter_key_text(table))
    ||| exists|at: int|
        {
            &&& 0 <= at < all_operations(suffix).len()
            &&& (#[trigger] all_operations(suffix)[at]).operation == SemaOperation::Assert
            &&& all_operations(suffix)[at].family.table == table
            &&& all_operations(suffix)[at].key == Some(KeyModel::Identifier(identifier))
        }
}

/// The counters of rows, recorded and restored, are the rows' own.
proof fn lemma_recorded_counters(rows: Seq<(Seq<char>, u64)>, table: Seq<char>)
    requires
        text_rising(rows),
    ensures
        counter_value(counters_stored(Map::empty(), inventoried(rows)), counter_key_text(table))
            == counter_value(map_of(rows), counter_key_text(table)),
    decreases rows.len(),
{
    let key = counter_key_text(table);
    if rows.len() == 0 {
        assert(inventoried(rows) =~= Seq::empty());
        assert(!has_key(rows, key));
    } else {
        let less = rows.drop_last();
        let last = rows.last();
        let end = rows.len() - 1;
        assert(text_rising(less)) by {
            assert forall|i: int, j: int| 0 <= i < j < less.len() implies text_precedes(
                #[trigger] less[i].0,
                #[trigger] less[j].0,
            ) by {
                assert(text_precedes(rows[i].0, rows[j].0));
            }
        }
        lemma_recorded_counters(less, table);
        lemma_counter_table(table);
        assert(rising::<String, u64>(rows)) by {
            assert forall|i: int, j: int| 0 <= i < j < rows.len() implies <String as
                TableKey>::precedes(#[trigger] rows[i].0, #[trigger] rows[j].0) by {
                assert(text_precedes(rows[i].0, rows[j].0));
            }
        }
        lemma_map_take::<String, u64>(rows, end);
        assert(rows.take(end) =~= less);
        assert(rows.take(end + 1) =~= rows);
        assert(map_of(rows) == map_of(less).insert(last.0, last.1));
        match counter_table(last.0) {
            Some(owner) => {
                lemma_counter_table(owner);
                lemma_counter_key(last.0, owner);
                let shorter = inventoried(less);
                assert(inventoried(rows).drop_last() =~= shorter);
            },
            None => {},
        }
    }
}

/// A counter key is made of the table that it belongs to.
proof fn lemma_counter_key(key: Seq<char>, owner: Seq<char>)
    requires
        counter_table(key) == Some(owner),
    ensures
        counter_key_text(owner) == key,
{
    let suffix = ":"@ + "next_record_identifier"@;
    let at = key.len() - suffix.len();
    assert(key =~= key.take(at) + key.skip(at));
    assert(counter_key_text(owner) =~= owner + suffix);
}

/// A checkpoint records the counter of every engine-identified table: what
/// an import restores of it is where the source stood.
pub proof fn lemma_checkpoint_records_counters(engine: EngineModel, table: Seq<char>)
    requires
        checkpointed(engine) is Ok,
        text_listed(engine.store.tables.counters),
    ensures
        counter_value(
            counters_stored(
                Map::empty(),
                checkpointed(engine)->Ok_0.metadata.inventory.counters,
            ),
            counter_key_text(table),
        ) == counter_value(engine.store.tables.counters, counter_key_text(table)),
{
    lemma_covering(engine);
    lemma_recorded_counters(lettered(engine.store.tables.counters), table);
}

/// An imported engine mints past the checkpoint and the entries after it:
/// the next record of an engine-identified table gets an identifier that
/// the source never handed out, and every record that was imported stays
/// as it was.
pub proof fn lemma_import_mints_past(
    target: EngineModel,
    checkpoint: CheckpointModel,
    suffix: Seq<EntryModel>,
    rows: Seq<RowModel>,
    table: Seq<char>,
    bytes: Seq<u8>,
    identifier: u64,
)
    requires
        target.session is None,
        target.store.tables.counters == Map::<Seq<char>, u64>::empty(),
        import_plan(target, checkpoint, suffix) is Ok,
        has_room(imported(target, import_plan(target, checkpoint, suffix)->Ok_0, rows), 1),
        handed_out(checkpoint, suffix, table, identifier),
        identifier < u64::MAX,
    ensures
        ({
            let after = imported(target, import_plan(target, checkpoint, suffix)->Ok_0, rows);
            let minted = next_identifier(after.store.tables, table);
            &&& identifier < minted
            &&& identified_assertion(after, table, bytes) matches Ok(next) ==> {
                &&& next.store.tables.identified == after.store.tables.identified.insert(
                    (table, minted),
                    bytes,
                )
                &&& next.store.tables.records == after.store.tables.records
                &&& after.store.tables.identified.dom().contains((table, identifier))
                    ==> next.store.tables.identified[(table, identifier)]
                    == after.store.tables.identified[(table, identifier)]
            }
        }),
{
    let plan = import_plan(target, checkpoint, suffix)->Ok_0;
    let after = imported(target, plan, rows);
    let restored = checkpoint_restored(target.store, checkpoint);
    let recorded = counters_stored(Map::empty(), checkpoint.metadata.inventory.counters);
    let counter = counter_key_text(table);
    lemma_entries_elsewhere(restored, suffix);
    lemma_rows_keep_counters(entries_logged(restored, suffix).tables, rows);
    assert(after.store.tables.counters == counters_advanced(recorded, all_operations(suffix)));
    lemma_counters_only_rise(recorded, all_operations(suffix), counter);
    if identifier >= counter_value(recorded, counter) {
        let operations = all_operations(suffix);
        let at = choose|at: int|
            {
                &&& 0 <= at < operations.len()
                &&& (#[trigger] operations[at]).operation == SemaOperation::Assert
                &&& operations[at].family.table == table
                &&& operations[at].key == Some(KeyModel::Identifier(identifier))
            };
        lemma_taken_over_identifiers_stay_minted(recorded, operations, at, identifier);
    }
    let minted = next_identifier(after.store.tables, table);
    lemma_lone_write(after, identified_write(SemaOperation::Assert, table, minted, bytes));
}

} // verus!
