//! Rebuilds, imports and opening, call by call: what is refused, and what
//! the store holds afterwards.

use vstd::prelude::*;

use crate::checkpoint::{all_rows, Checkpoint, CheckpointModel, CounterModel};
use crate::engine::{consulted, took, Engine, EngineOpen};
use crate::engine_model::{
    checkpoint_restored, counters_stored, entries_logged, families_stored, fresh, has_log_room,
    history, import_plan, imported, rebuild_plan, twice_bound, with_rows, EngineModel,
    RebuildPlanModel, LAYOUT_BEFORE_SLOT, STORAGE_LAYOUT,
};
use crate::error::{Error, Failure};
use crate::fold::{
    cleared_rows, folded, landed_rows, view_digest, Coordinate, FamilyDirectory, FoldModel,
    RebuildReceipt, RowModel, ViewKey,
};
use crate::import::{ImportReceipt, ImportSession};
use crate::laws::covering::{
    covered_digest, covered_rows, entry_folds, history_stands, holds_together, kept_as_latest,
    lemma_history_stands, lemma_record_rows, lemma_segments_kept, lemma_verification,
    lemma_what_folds, rows_of_view, uncovered,
};
use crate::laws::folds::{
    kept_at, lemma_folded_sound, lemma_sound_select, record_rows, selected_cells, sound,
};
use crate::laws::imports::lemma_entries_elsewhere;
use crate::laws::landing::{
    entries_join, lemma_entries_join, lemma_minted_past, lemma_operations_in_order, lemma_rows_land,
    minted_past, operations_in_order, rows_land,
};
use crate::laws::rebuild::{clearing_rows, lemma_materialized_rows};
use crate::listing::{lettered, log_values, row_values, text_rising};
use crate::models::views;
use crate::ordered_table::{has_key, keyed_at, lemma_position, map_of};
use crate::store::StoreModel;
use crate::table::counter_key_text;
use crate::versioning::{store_schema, versions, EntryModel, FamilyModel, VersionedCommitLogEntry};

verus! {

/// Rows that clear a view's removals: one for each coordinate that was
/// written and holds nothing.
pub open spec fn clears_of_view(rows: Seq<RowModel>, view: FoldModel) -> bool {
    &&& forall|i: int|
        0 <= i < rows.len() ==> {
            &&& (#[trigger] rows[i]).payload is None
            &&& view.cells.dom().contains((rows[i].family.version(), rows[i].key))
            &&& kept_at(view, (rows[i].family.version(), rows[i].key)) is None
        }
    &&& forall|at: Coordinate| #[trigger]
        view.cells.dom().contains(at) && kept_at(view, at) is None ==> exists|i: int|
            0 <= i < rows.len() && (#[trigger] rows[i]).family.version() == at.0 && rows[i].key
                == at.1
}

/// The clearing rows of a view clear exactly its removals.
pub proof fn lemma_clearing_rows(view: FoldModel)
    requires
        sound(view),
    ensures
        clears_of_view(clearing_rows(view), view),
{
    lemma_sound_select(view, false);
    let cells = cleared_rows(view.cells);
    let rows = clearing_rows(view);
    assert forall|i: int| 0 <= i < rows.len() implies {
        &&& (#[trigger] rows[i]).payload is None
        &&& rows[i].family.version() == cells[i].0.0
        &&& view.cells.dom().contains((rows[i].family.version(), rows[i].key))
        &&& kept_at(view, (rows[i].family.version(), rows[i].key)) is None
    } by {
        lemma_position::<ViewKey, Option<Seq<u8>>>(cells, i);
        assert(view.identities.dom().contains(cells[i].0.0));
        assert(selected_cells(view.cells, false).dom().contains(cells[i].0));
    }
    assert forall|at: Coordinate| #[trigger]
        view.cells.dom().contains(at) && kept_at(view, at) is None implies exists|i: int|
        0 <= i < rows.len() && (#[trigger] rows[i]).family.version() == at.0 && rows[i].key
            == at.1 by {
        assert(selected_cells(view.cells, false).dom().contains(at));
        assert(has_key(cells, at));
        let i = choose|i: int| keyed_at(cells, at, i);
        assert(rows[i].family.version() == cells[i].0.0);
    }
}

/// The rows that restore a view: those that clear its removals, and then
/// those of its records.
pub open spec fn restores_view(
    rows: Seq<RowModel>,
    cleared: int,
    view: FoldModel,
) -> bool {
    &&& 0 <= cleared <= rows.len()
    &&& clears_of_view(rows.take(cleared), view)
    &&& rows_of_view(rows.skip(cleared), view)
}

proof fn lemma_restores_view(view: FoldModel)
    requires
        sound(view),
    ensures
        restores_view(
            clearing_rows(view) + record_rows(view),
            clearing_rows(view).len() as int,
            view,
        ),
{
    let rows = clearing_rows(view) + record_rows(view);
    let cleared = clearing_rows(view).len() as int;
    lemma_clearing_rows(view);
    lemma_record_rows(view);
    assert(rows.take(cleared) =~= clearing_rows(view));
    assert(rows.skip(cleared) =~= record_rows(view));
}

/// The view that a store's history folds to.
pub open spec fn history_view(store: StoreModel) -> FoldModel {
    folded(covered_rows(store), uncovered(store), covered_digest(store))->Ok_0
}

/// A rebuild lands the rows that restore the history's view, as far as they
/// were taken, and touches nothing else.
pub open spec fn rebuilt(
    before: EngineModel,
    after: EngineModel,
    rows: Seq<RowModel>,
    taken: Seq<bool>,
    receipt: RebuildReceipt,
) -> bool {
    let cleared = receipt@.cleared_count as int;
    &&& restores_view(rows, cleared, history_view(before.store))
    &&& receipt@.row_count == rows.len() - cleared
    &&& receipt@.folded_entry_count == uncovered(before.store).len()
    &&& receipt@.view_digest == view_digest(history_view(before.store).cells)
    &&& rows_land(before.store.tables, after.store.tables, rows, taken)
    &&& after == (EngineModel {
        store: StoreModel { tables: after.store.tables, ..before.store },
        ..before
    })
}

proof fn lemma_rebuild_plan(engine: EngineModel)
    ensures
        rebuild_plan(engine) is Ok <==> history_stands(engine, uncovered(engine.store)),
        rebuild_plan(engine) matches Ok(plan) ==> {
            let view = history_view(engine.store);
            &&& plan.rows == clearing_rows(view) + record_rows(view)
            &&& restores_view(plan.rows, plan.receipt.cleared_count as int, view)
            &&& plan.receipt.row_count == plan.rows.len() - plan.receipt.cleared_count
            &&& plan.receipt.folded_entry_count == uncovered(engine.store).len()
            &&& plan.receipt.view_digest == view_digest(view.cells)
        },
        engine.policy is None ==> rebuild_plan(engine) == Err::<RebuildPlanModel, Failure>(
            Failure::VersioningNotEnabled { surface: "rebuild_from_log"@ },
        ),
{
    let store = engine.store;
    lemma_history_stands(engine, "rebuild_from_log"@, false);
    if let Ok(found) = history(engine, "rebuild_from_log"@, false) {
        lemma_folded_sound(covered_rows(store), uncovered(store), covered_digest(store));
        lemma_materialized_rows(found.view, engine.catalog);
        lemma_restores_view(found.view);
    }
}

/// A rebuild with given verdicts: planned exactly where the history stands.
pub proof fn lemma_rebuild_with_call(
    engine: &mut Engine,
    verdict: Result<Vec<bool>, Error>,
    outcome: Result<RebuildReceipt, Error>,
)
    requires
        call_ensures(Engine::rebuild_with, (engine, verdict), outcome),
    ensures
        outcome is Ok <==> history_stands(old(engine)@, uncovered(old(engine)@.store))
            && verdict is Ok,
        match outcome {
            Ok(receipt) => exists|rows: Seq<RowModel>| #[trigger]
                rebuilt(old(engine)@, final(engine)@, rows, verdict->Ok_0@, receipt),
            Err(error) => {
                &&& final(engine)@ == old(engine)@
                &&& history_stands(old(engine)@, uncovered(old(engine)@.store)) ==> verdict
                    == Err::<Vec<bool>, Error>(error)
            },
        },
{
    let before = old(engine)@;
    lemma_rebuild_plan(before);
    if let Ok(receipt) = outcome {
        let plan = rebuild_plan(before)->Ok_0;
        lemma_rows_land(before.store.tables, plan.rows, verdict->Ok_0@);
        assert(rebuilt(before, final(engine)@, plan.rows, verdict->Ok_0@, receipt));
    }
}

/// A rebuild through a directory: as with the verdicts it gave.
pub proof fn lemma_rebuild_call<Directory: FamilyDirectory>(
    engine: &mut Engine,
    directory: &Directory,
    outcome: Result<RebuildReceipt, Error>,
)
    requires
        call_ensures(Engine::rebuild_from_log::<Directory>, (engine, directory), outcome),
    ensures
        match outcome {
            Ok(receipt) => {
                &&& history_stands(old(engine)@, uncovered(old(engine)@.store))
                &&& exists|rows: Seq<RowModel>, taken: Seq<bool>|
                    {
                        &&& #[trigger] rebuilt(
                            old(engine)@,
                            final(engine)@,
                            rows,
                            taken,
                            receipt,
                        )
                        &&& taken.len() == rows.len()
                        &&& forall|i: int|
                            0 <= i < rows.len() ==> took(directory, #[trigger] rows[i], taken[i])
                    }
            },
            Err(_) => final(engine)@ == old(engine)@,
        },
{
    let before = old(engine)@;
    lemma_rebuild_plan(before);
    if let Ok(receipt) = outcome {
        let plan = rebuild_plan(before)->Ok_0;
        let taken = choose|taken: Seq<bool>|
            {
                &&& consulted(directory, plan.rows, Ok(taken))
                &&& final(engine)@ == with_rows(
                    before,
                    #[trigger] landed_rows(plan.rows, taken),
                )
            };
        lemma_rows_land(before.store.tables, plan.rows, taken);
        assert(rebuilt(before, final(engine)@, plan.rows, taken, receipt));
    }
}

/// No table is bound twice.
pub open spec fn bound_once(families: Seq<FamilyModel>) -> bool {
    forall|i: int, j: int|
        0 <= i < j < families.len() ==> (#[trigger] families[i]).table != (
        #[trigger] families[j]).table
}

proof fn lemma_twice_bound(families: Seq<FamilyModel>)
    ensures
        twice_bound(families) is None <==> bound_once(families),
        twice_bound(families) matches Some(failure) ==> exists|i: int, j: int|
            0 <= i < j < families.len() && (#[trigger] families[i]).table == (
            #[trigger] families[j]).table && failure == (Failure::TableAlreadyRegistered {
                table: families[j].table,
            }),
    decreases families.len(),
{
    if families.len() > 0 {
        let less = families.drop_last();
        let end = families.len() - 1;
        lemma_twice_bound(less);
        match twice_bound(less) {
            Some(failure) => {
                let (i, j) = choose|i: int, j: int|
                    0 <= i < j < less.len() && (#[trigger] less[i]).table == (
                    #[trigger] less[j]).table && failure == (Failure::TableAlreadyRegistered {
                        table: less[j].table,
                    });
                assert(families[i].table == families[j].table);
            },
            None => {
                if twice_bound(families) is Some {
                    let i = choose|i: int|
                        0 <= i < less.len() && (#[trigger] less[i]).table
                            == families.last().table;
                    assert(families[i].table == families[end].table);
                } else {
                    assert forall|i: int, j: int| 0 <= i < j < families.len() implies (
                    #[trigger] families[i]).table != (#[trigger] families[j]).table by {
                        if j < end {
                            assert(less[i].table != less[j].table);
                        } else {
                            assert(less[i] == families[i]);
                        }
                    }
                }
            },
        }
    }
}

/// Families stand under their tables in a stored catalog, beside what stood
/// under others.
pub open spec fn families_stand(
    before: Map<Seq<char>, FamilyModel>,
    after: Map<Seq<char>, FamilyModel>,
    families: Seq<FamilyModel>,
) -> bool {
    &&& forall|i: int|
        0 <= i < families.len() ==> {
            &&& after.dom().contains((#[trigger] families[i]).table)
            &&& after[families[i].table] == families[i]
        }
    &&& forall|table: Seq<char>|
        (forall|i: int| 0 <= i < families.len() ==> (#[trigger] families[i]).table != table) ==> {
            &&& #[trigger] after.dom().contains(table) == before.dom().contains(table)
            &&& after[table] == before[table]
        }
}

proof fn lemma_families_stand(
    stored: Map<Seq<char>, FamilyModel>,
    families: Seq<FamilyModel>,
)
    requires
        bound_once(families),
    ensures
        families_stand(stored, families_stored(stored, families), families),
    decreases families.len(),
{
    if families.len() > 0 {
        let less = families.drop_last();
        let end = families.len() - 1;
        assert forall|i: int, j: int| 0 <= i < j < less.len() implies (
        #[trigger] less[i]).table != (#[trigger] less[j]).table by {
            assert(families[i].table != families[j].table);
        }
        lemma_families_stand(stored, less);
        let between = families_stored(stored, less);
        let after = families_stored(stored, families);
        assert forall|i: int| 0 <= i < families.len() implies {
            &&& after.dom().contains((#[trigger] families[i]).table)
            &&& after[families[i].table] == families[i]
        } by {
            if i < end {
                assert(families[i].table != families[end].table);
                assert(between.dom().contains(less[i].table));
            }
        }
        assert forall|table: Seq<char>|
            (forall|i: int|
                0 <= i < families.len() ==> (#[trigger] families[i]).table != table) implies {
            &&& #[trigger] after.dom().contains(table) == stored.dom().contains(table)
            &&& after[table] == stored[table]
        } by {
            assert(families[end].table != table);
            assert forall|i: int| 0 <= i < less.len() implies (
            #[trigger] less[i]).table != table by {
                assert(less[i] == families[i]);
            }
            assert(between.dom().contains(table) == stored.dom().contains(table));
        }
    }
}

/// Counters stand under their counter keys, the last where there are
/// several, beside what stood under others.
pub open spec fn counters_stand(
    before: Map<Seq<char>, u64>,
    after: Map<Seq<char>, u64>,
    counters: Seq<CounterModel>,
) -> bool {
    &&& forall|i: int|
        #![trigger counters[i]]
        0 <= i < counters.len() && (forall|j: int|
            i < j < counters.len() ==> counter_key_text((#[trigger] counters[j]).table)
                != counter_key_text(counters[i].table)) ==> {
            &&& after.dom().contains(counter_key_text(counters[i].table))
            &&& after[counter_key_text(counters[i].table)] == counters[i].next
        }
    &&& forall|key: Seq<char>|
        (forall|i: int|
            0 <= i < counters.len() ==> counter_key_text((#[trigger] counters[i]).table) != key)
            ==> {
            &&& #[trigger] after.dom().contains(key) == before.dom().contains(key)
            &&& after[key] == before[key]
        }
}

proof fn lemma_counters_stand(stored: Map<Seq<char>, u64>, counters: Seq<CounterModel>)
    ensures
        counters_stand(stored, counters_stored(stored, counters), counters),
    decreases counters.len(),
{
    if counters.len() > 0 {
        let less = counters.drop_last();
        let end = counters.len() - 1;
        lemma_counters_stand(stored, less);
        let between = counters_stored(stored, less);
        let after = counters_stored(stored, counters);
        assert forall|i: int|
            #![trigger counters[i]]
            0 <= i < counters.len() && (forall|j: int|
                i < j < counters.len() ==> counter_key_text((#[trigger] counters[j]).table)
                    != counter_key_text(counters[i].table)) implies {
            &&& after.dom().contains(counter_key_text(counters[i].table))
            &&& after[counter_key_text(counters[i].table)] == counters[i].next
        } by {
            if i < end {
                assert(counter_key_text(counters[end].table) != counter_key_text(
                    counters[i].table,
                ));
                assert(less[i] == counters[i]);
                assert forall|j: int| i < j < less.len() implies counter_key_text(
                    (#[trigger] less[j]).table,
                ) != counter_key_text(less[i].table) by {
                    assert(less[j] == counters[j]);
                }
                assert(between.dom().contains(counter_key_text(less[i].table)));
            }
        }
        assert forall|key: Seq<char>|
            (forall|i: int|
                0 <= i < counters.len() ==> counter_key_text((#[trigger] counters[i]).table)
                    != key) implies {
            &&& #[trigger] after.dom().contains(key) == stored.dom().contains(key)
            &&& after[key] == stored[key]
        } by {
            assert(counter_key_text(counters[end].table) != key);
            assert forall|i: int| 0 <= i < less.len() implies counter_key_text(
                (#[trigger] less[i]).table,
            ) != key by {
                assert(less[i] == counters[i]);
            }
            assert(between.dom().contains(key) == stored.dom().contains(key));
        }
    }
}

/// A store that nothing was ever registered, written or kept in.
pub open spec fn unused(engine: EngineModel) -> bool {
    &&& engine.catalog.len() == 0
    &&& engine.store.commit_sequence is None
    &&& engine.store.snapshot is None
    &&& engine.store.latest_checkpoint is None
    &&& forall|table: Seq<char>| !#[trigger] engine.store.catalog.dom().contains(table)
    &&& forall|number: u64| !#[trigger] engine.store.commit_log.dom().contains(number)
    &&& forall|number: u64| !#[trigger] engine.store.versioned_log.dom().contains(number)
}

proof fn lemma_unused(engine: EngineModel)
    ensures
        fresh(engine) <==> unused(engine),
{
    if unused(engine) {
        assert(engine.store.catalog =~= Map::empty());
        assert(engine.store.commit_log =~= Map::empty());
        assert(engine.store.versioned_log =~= Map::empty());
    }
}

/// An import may land: into an unused store of the checkpoint's name, from
/// a checkpoint whose families hash to its schema and are bound once each,
/// and whose rows and entries fold.
pub open spec fn may_import(
    engine: EngineModel,
    checkpoint: CheckpointModel,
    suffix: Seq<EntryModel>,
) -> bool {
    let metadata = checkpoint.metadata;
    let rows = all_rows(checkpoint.segments);
    let head = Some(metadata.entry_digest);
    &&& engine.policy == Some(metadata.store_name)
    &&& metadata.store_schema_hash == store_schema(versions(metadata.inventory.families))
    &&& unused(engine)
    &&& forall|i: int| 0 <= i < rows.len() ==> (#[trigger] rows[i]).payload is Some
    &&& forall|e: int| 0 <= e < suffix.len() ==> #[trigger] entry_folds(head, suffix, e)
    &&& bound_once(metadata.inventory.families)
}

/// Why an import may not land, as far as the store and the checkpoint say.
pub open spec fn import_refused(
    engine: EngineModel,
    checkpoint: CheckpointModel,
    failure: Failure,
) -> bool {
    let metadata = checkpoint.metadata;
    let current = store_schema(versions(metadata.inventory.families));
    if engine.policy is None {
        failure == (Failure::VersioningNotEnabled { surface: "import"@ })
    } else if engine.policy != Some(metadata.store_name) {
        failure == (Failure::ImportStoreNameMismatch {
            checkpoint: metadata.store_name,
            policy: engine.policy->0,
        })
    } else if metadata.store_schema_hash != current {
        failure == (Failure::CheckpointSchemaMismatch {
            checkpoint: metadata.store_schema_hash,
            current,
        })
    } else {
        !unused(engine) ==> failure is ImportStoreNotFresh
    }
}

proof fn lemma_may_import(
    engine: EngineModel,
    checkpoint: CheckpointModel,
    suffix: Seq<EntryModel>,
)
    ensures
        import_plan(engine, checkpoint, suffix) is Ok <==> may_import(engine, checkpoint, suffix),
        import_plan(engine, checkpoint, suffix) matches Err(failure) ==> import_refused(
            engine,
            checkpoint,
            failure,
        ),
{
    let rows = all_rows(checkpoint.segments);
    let head = Some(checkpoint.metadata.entry_digest);
    let families = checkpoint.metadata.inventory.families;
    lemma_unused(engine);
    lemma_what_folds(rows, suffix, head);
    lemma_twice_bound(families);
    lemma_folded_sound(rows, suffix, head);
    if let Ok(view) = folded(rows, suffix, head) {
        lemma_materialized_rows(view, families);
    }
}

/// What an import leaves: the checkpoint's families in the catalog, bound
/// in its order; its counters, moved past what the entries minted; the
/// entries in the logs, from where the checkpoint stood; the checkpoint as
/// the latest; and the rows that restore the view, as far as they were
/// taken.
pub open spec fn takes_over(
    before: EngineModel,
    after: EngineModel,
    checkpoint: CheckpointModel,
    suffix: Seq<EntryModel>,
    rows: Seq<RowModel>,
    cleared: int,
    taken: Seq<bool>,
) -> bool {
    let metadata = checkpoint.metadata;
    let families = metadata.inventory.families;
    let head = Some(metadata.entry_digest);
    let view = folded(all_rows(checkpoint.segments), suffix, head)->Ok_0;
    &&& restores_view(rows, cleared, view)
    &&& after.catalog == before.catalog + families
    &&& after.subscriptions == before.subscriptions
    &&& after.deltas == before.deltas
    &&& after.session == before.session
    &&& after.policy == before.policy
    &&& after.topology == before.topology
    &&& exists|restored: StoreModel, logged: StoreModel|
        {
            &&& families_stand(before.store.catalog, restored.catalog, families)
            &&& counters_stand(
                before.store.tables.counters,
                restored.tables.counters,
                metadata.inventory.counters,
            )
            &&& restored.tables.records == before.store.tables.records
            &&& restored.tables.identified == before.store.tables.identified
            &&& restored.commit_sequence == Some(metadata.covered.last)
            &&& restored.snapshot == Some(metadata.snapshot)
            &&& restored.chain_head == Some(metadata.entry_digest)
            &&& kept_as_latest(before.store, restored, checkpoint)
            &&& restored == (StoreModel {
                catalog: restored.catalog,
                tables: restored.tables,
                commit_sequence: restored.commit_sequence,
                snapshot: restored.snapshot,
                chain_head: restored.chain_head,
                checkpoints: restored.checkpoints,
                segments: restored.segments,
                latest_checkpoint: restored.latest_checkpoint,
                ..before.store
            })
            &&& #[trigger] entries_join(restored, logged, suffix)
            &&& logged.staged == restored.staged
            &&& minted_past(
                restored.tables.counters,
                logged.tables.counters,
                operations_in_order(suffix),
            )
            &&& rows_land(logged.tables, after.store.tables, rows, taken)
            &&& after.store == (StoreModel { tables: after.store.tables, ..logged })
        }
}

/// An import's receipt tells where the store now stands.
pub open spec fn import_receipted(
    checkpoint: CheckpointModel,
    suffix: Seq<EntryModel>,
    rows: Seq<RowModel>,
    cleared: int,
    receipt: ImportReceipt,
) -> bool {
    let metadata = checkpoint.metadata;
    let head = Some(metadata.entry_digest);
    let view = folded(all_rows(checkpoint.segments), suffix, head)->Ok_0;
    &&& receipt@.covered == metadata.covered
    &&& receipt@.suffix_count == suffix.len() as usize
    &&& receipt@.row_count == (rows.len() - cleared) as usize
    &&& receipt@.view_digest == view_digest(view.cells)
    &&& if suffix.len() == 0 {
        &&& receipt@.commit_sequence == metadata.covered.last
        &&& receipt@.snapshot == metadata.snapshot
    } else {
        &&& receipt@.commit_sequence == suffix[suffix.len() - 1].commit_sequence
        &&& receipt@.snapshot == suffix[suffix.len() - 1].snapshot
    }
}

#[verifier::rlimit(40)]
proof fn lemma_restored_parts(store: StoreModel, checkpoint: CheckpointModel)
    requires
        bound_once(checkpoint.metadata.inventory.families),
    ensures
        ({
            let restored = checkpoint_restored(store, checkpoint);
            let metadata = checkpoint.metadata;
            &&& families_stand(store.catalog, restored.catalog, metadata.inventory.families)
            &&& counters_stand(
                store.tables.counters,
                restored.tables.counters,
                metadata.inventory.counters,
            )
            &&& kept_as_latest(store, restored, checkpoint)
        }),
{
    let metadata = checkpoint.metadata;
    lemma_families_stand(store.catalog, metadata.inventory.families);
    lemma_counters_stand(store.tables.counters, metadata.inventory.counters);
    lemma_segments_kept(store.segments, checkpoint.segments);
}

#[verifier::rlimit(40)]
proof fn lemma_takes_over(
    engine: EngineModel,
    checkpoint: CheckpointModel,
    suffix: Seq<EntryModel>,
    taken: Seq<bool>,
)
    requires
        has_log_room(engine.store, suffix.len() as int),
        import_plan(engine, checkpoint, suffix) is Ok,
    ensures
        ({
            let plan = import_plan(engine, checkpoint, suffix)->Ok_0;
            let head = Some(checkpoint.metadata.entry_digest);
            let view = folded(all_rows(checkpoint.segments), suffix, head)->Ok_0;
            let cleared = clearing_rows(view).len() as int;
            &&& plan.rows == clearing_rows(view) + record_rows(view)
            &&& takes_over(
                engine,
                imported(engine, plan, landed_rows(plan.rows, taken)),
                checkpoint,
                suffix,
                plan.rows,
                cleared,
                taken,
            )
        }),
{
    let plan = import_plan(engine, checkpoint, suffix)->Ok_0;
    let head = Some(checkpoint.metadata.entry_digest);
    let rows = all_rows(checkpoint.segments);
    let view = folded(rows, suffix, head)->Ok_0;
    let families = checkpoint.metadata.inventory.families;
    lemma_folded_sound(rows, suffix, head);
    lemma_materialized_rows(view, families);
    lemma_restores_view(view);
    lemma_twice_bound(families);
    let restored = checkpoint_restored(engine.store, checkpoint);
    let logged = entries_logged(restored, suffix);
    lemma_restored_parts(engine.store, checkpoint);
    lemma_entries_join(restored, suffix);
    lemma_entries_elsewhere(restored, suffix);
    lemma_operations_in_order(suffix);
    lemma_minted_past(restored.tables.counters, operations_in_order(suffix));
    lemma_rows_land(logged.tables, plan.rows, taken);
    assert(entries_join(restored, logged, suffix));
}

/// An import with given verdicts: refused, with nothing changed, exactly
/// where it may not land or the verdict is a refusal; else it takes over
/// the checkpoint and every entry.
pub proof fn lemma_import_with_call(
    engine: &mut Engine,
    checkpoint: Checkpoint,
    suffix: Vec<VersionedCommitLogEntry>,
    verdict: Result<Vec<bool>, Error>,
    outcome: Result<ImportReceipt, Error>,
)
    requires
        has_log_room(old(engine)@.store, suffix@.len() as int),
        call_ensures(Engine::import_with, (engine, checkpoint, suffix, verdict), outcome),
    ensures
        outcome is Ok <==> may_import(old(engine)@, checkpoint@, views(suffix@)) && verdict is Ok,
        match outcome {
            Ok(receipt) => exists|rows: Seq<RowModel>, cleared: int|
                {
                    &&& #[trigger] takes_over(
                        old(engine)@,
                        final(engine)@,
                        checkpoint@,
                        views(suffix@),
                        rows,
                        cleared,
                        verdict->Ok_0@,
                    )
                    &&& import_receipted(checkpoint@, views(suffix@), rows, cleared, receipt)
                },
            Err(error) => {
                &&& final(engine)@ == old(engine)@
                &&& if may_import(old(engine)@, checkpoint@, views(suffix@)) {
                    verdict == Err::<Vec<bool>, Error>(error)
                } else {
                    import_refused(old(engine)@, checkpoint@, error@)
                }
            },
        },
{
    let before = old(engine)@;
    lemma_may_import(before, checkpoint@, views(suffix@));
    if let Ok(receipt) = outcome {
        lemma_takes_over(before, checkpoint@, views(suffix@), verdict->Ok_0@);
        lemma_import_receipted(before, checkpoint@, views(suffix@), receipt);
    }
}

proof fn lemma_import_receipted(
    engine: EngineModel,
    checkpoint: CheckpointModel,
    suffix: Seq<EntryModel>,
    receipt: ImportReceipt,
)
    requires
        import_plan(engine, checkpoint, suffix) is Ok,
        receipt@ == import_plan(engine, checkpoint, suffix)->Ok_0.receipt,
    ensures
        ({
            let head = Some(checkpoint.metadata.entry_digest);
            let view = folded(all_rows(checkpoint.segments), suffix, head)->Ok_0;
            import_receipted(
                checkpoint,
                suffix,
                clearing_rows(view) + record_rows(view),
                clearing_rows(view).len() as int,
                receipt,
            )
        }),
{
    let head = Some(checkpoint.metadata.entry_digest);
    let rows = all_rows(checkpoint.segments);
    let view = folded(rows, suffix, head)->Ok_0;
    lemma_folded_sound(rows, suffix, head);
    lemma_materialized_rows(view, checkpoint.metadata.inventory.families);
}

/// An import through a directory: as with the verdicts it gave row by row.
pub proof fn lemma_apply_import_call<Directory: FamilyDirectory>(
    engine: &mut Engine,
    checkpoint: Checkpoint,
    suffix: Vec<VersionedCommitLogEntry>,
    directory: &Directory,
    outcome: Result<ImportReceipt, Error>,
)
    requires
        has_log_room(old(engine)@.store, suffix@.len() as int),
        call_ensures(
            Engine::apply_import::<Directory>,
            (engine, checkpoint, suffix, directory),
            outcome,
        ),
    ensures
        match outcome {
            Ok(receipt) => {
                &&& may_import(old(engine)@, checkpoint@, views(suffix@))
                &&& exists|rows: Seq<RowModel>, cleared: int, taken: Seq<bool>|
                    {
                        &&& #[trigger] takes_over(
                            old(engine)@,
                            final(engine)@,
                            checkpoint@,
                            views(suffix@),
                            rows,
                            cleared,
                            taken,
                        )
                        &&& import_receipted(checkpoint@, views(suffix@), rows, cleared, receipt)
                        &&& taken.len() == rows.len()
                        &&& forall|i: int|
                            0 <= i < rows.len() ==> took(directory, #[trigger] rows[i], taken[i])
                    }
            },
            Err(error) => {
                &&& final(engine)@ == old(engine)@
                &&& !may_import(old(engine)@, checkpoint@, views(suffix@)) ==> import_refused(
                    old(engine)@,
                    checkpoint@,
                    error@,
                )
            },
        },
{
    let before = old(engine)@;
    lemma_may_import(before, checkpoint@, views(suffix@));
    if let Ok(receipt) = outcome {
        let plan = import_plan(before, checkpoint@, views(suffix@))->Ok_0;
        let taken = choose|taken: Seq<bool>|
            {
                &&& consulted(directory, plan.rows, Ok(taken))
                &&& final(engine)@ == imported(
                    before,
                    plan,
                    #[trigger] landed_rows(plan.rows, taken),
                )
            };
        lemma_takes_over(before, checkpoint@, views(suffix@), taken);
        lemma_import_receipted(before, checkpoint@, views(suffix@), receipt);
    }
}

/// An import begins exactly over an unused versioned store, with nothing
/// taken yet.
pub proof fn lemma_begin_import_call(engine: &Engine, outcome: Result<ImportSession, Error>)
    requires
        call_ensures(Engine::begin_import, (engine,), outcome),
    ensures
        outcome is Ok <==> engine@.policy is Some && unused(engine@),
        match outcome {
            Ok(session) => session@.0 is None && session@.1.len() == 0,
            Err(error) => if engine@.policy is None {
                error@ == (Failure::VersioningNotEnabled { surface: "import"@ })
            } else {
                error@ is ImportStoreNotFresh
            },
        },
{
    lemma_unused(engine@);
}

/// An import takes one checkpoint, and only one that holds together.
pub proof fn lemma_ingest_checkpoint_call(
    session: &mut ImportSession,
    checkpoint: Checkpoint,
    outcome: Result<(), Error>,
)
    requires
        call_ensures(ImportSession::ingest_checkpoint, (session, checkpoint), outcome),
    ensures
        outcome is Ok <==> old(session)@.0 is None && holds_together(checkpoint@),
        outcome is Ok ==> final(session)@.0 == Some(checkpoint@),
        outcome is Err ==> final(session)@.0 == old(session)@.0,
        final(session)@.1 == old(session)@.1,
{
    lemma_verification(checkpoint@);
}

/// An import takes entries in the order they come.
pub proof fn lemma_ingest_suffix_call(
    session: &mut ImportSession,
    entries: Vec<VersionedCommitLogEntry>,
)
    requires
        call_ensures(ImportSession::ingest_suffix, (session, entries), ()),
    ensures
        final(session)@.0 == old(session)@.0,
        final(session)@.1.len() == old(session)@.1.len() + entries@.len(),
        forall|i: int|
            0 <= i < old(session)@.1.len() ==> final(session)@.1[i] == #[trigger] old(
                session,
            )@.1[i],
        forall|i: int|
            0 <= i < entries@.len() ==> final(session)@.1[old(session)@.1.len() + i] == (
            #[trigger] entries@[i])@,
{
}

/// An import commits what it took: nothing without a checkpoint, and else the
/// checkpoint and every entry, in order.
pub proof fn lemma_import_commit_call<Directory: FamilyDirectory>(
    session: ImportSession,
    engine: &mut Engine,
    directory: &Directory,
    outcome: Result<ImportReceipt, Error>,
)
    requires
        has_log_room(old(engine)@.store, session@.1.len() as int),
        call_ensures(
            ImportSession::commit::<Directory>,
            (session, engine, directory),
            outcome,
        ),
    ensures
        match outcome {
            Ok(receipt) => {
                let checkpoint = session@.0->0;
                &&& session@.0 is Some
                &&& may_import(old(engine)@, checkpoint, session@.1)
                &&& exists|rows: Seq<RowModel>, cleared: int, taken: Seq<bool>|
                    {
                        &&& #[trigger] takes_over(
                            old(engine)@,
                            final(engine)@,
                            checkpoint,
                            session@.1,
                            rows,
                            cleared,
                            taken,
                        )
                        &&& import_receipted(checkpoint, session@.1, rows, cleared, receipt)
                        &&& taken.len() == rows.len()
                        &&& forall|i: int|
                            0 <= i < rows.len() ==> took(directory, #[trigger] rows[i], taken[i])
                    }
            },
            Err(error) => {
                &&& final(engine)@ == old(engine)@
                &&& session@.0 is None ==> error@ is ImportMissingCheckpoint
                &&& session@.0 matches Some(checkpoint) ==> !may_import(
                    old(engine)@,
                    checkpoint,
                    session@.1,
                ) ==> import_refused(old(engine)@, checkpoint, error@)
            },
        },
{
    let before = old(engine)@;
    if let Some(checkpoint) = session@.0 {
        lemma_may_import(before, checkpoint, session@.1);
        if let Ok(receipt) = outcome {
            let plan = import_plan(before, checkpoint, session@.1)->Ok_0;
            let taken = choose|taken: Seq<bool>|
                {
                    &&& consulted(directory, plan.rows, Ok(taken))
                    &&& final(engine)@ == imported(
                        before,
                        plan,
                        #[trigger] landed_rows(plan.rows, taken),
                    )
                };
            lemma_takes_over(before, checkpoint, session@.1, taken);
            lemma_import_receipted(before, checkpoint, session@.1, receipt);
        }
    }
}

/// A store opens: it has the current layout; or it has none and nothing was
/// ever counted in it; or it has an older one and a versioned log that
/// folds from its start.
pub open spec fn opens(store: StoreModel) -> bool {
    match store.layout {
        Some(layout) => {
            ||| layout == STORAGE_LAYOUT
            ||| {
                let entries = log_values(store.versioned_log);
                &&& layout < STORAGE_LAYOUT
                &&& exists|number: u64| #[trigger] store.versioned_log.dom().contains(number)
                &&& forall|e: int|
                    0 <= e < entries.len() ==> #[trigger] entry_folds(None, entries, e)
            }
        },
        None => {
            &&& store.commit_sequence is None
            &&& store.snapshot is None
            &&& store.next_subscription is None
        },
    }
}

/// What opening leaves of a store: everything, under the current layout; an
/// older layout has what it derives from its logs worked out again.
pub open spec fn opened_as(before: StoreModel, after: StoreModel) -> bool {
    let entries = log_values(before.versioned_log);
    let commits = log_values(before.commit_log);
    &&& after.layout == Some(STORAGE_LAYOUT)
    &&& after == (StoreModel {
        layout: after.layout,
        chain_head: after.chain_head,
        commit_count: after.commit_count,
        versioned_count: after.versioned_count,
        ..before
    })
    &&& if before.layout is Some && before.layout->0 < STORAGE_LAYOUT {
        &&& after.chain_head == if entries.len() == 0 {
            None
        } else {
            Some(entries[entries.len() - 1].digest)
        }
        &&& after.commit_count == Some(commits.len() as u64)
        &&& after.versioned_count == Some(entries.len() as u64)
    } else {
        &&& after.chain_head == before.chain_head
        &&& after.commit_count == before.commit_count
        &&& after.versioned_count == before.versioned_count
    }
}

/// Opening an engine: over any store that opens, with the stored families
/// by rising table, no live subscription, no delta and no session.
pub proof fn lemma_open_call(request: EngineOpen, outcome: Result<Engine, Error>)
    requires
        call_ensures(Engine::open, (request,), outcome),
    ensures
        outcome is Ok <==> opens(request@.0),
        match outcome {
            Ok(engine) => {
                let catalog = engine@.store.catalog;
                &&& opened_as(request@.0, engine@.store)
                &&& engine@.policy == request@.1
                &&& engine@.topology == request@.2
                &&& engine@.subscriptions.len() == 0
                &&& engine@.deltas.len() == 0
                &&& engine@.session is None
                &&& exists|rows: Seq<(Seq<char>, FamilyModel)>|
                    {
                        &&& #[trigger] text_rising(rows)
                        &&& map_of(rows) == catalog
                        &&& engine@.catalog.len() == rows.len()
                        &&& forall|i: int|
                            0 <= i < rows.len() ==> #[trigger] engine@.catalog[i] == rows[i].1
                    }
            },
            Err(error) => match request@.0.layout {
                None => error@ == (Failure::StorageLayoutMismatch {
                    stored: LAYOUT_BEFORE_SLOT,
                    expected: STORAGE_LAYOUT,
                }),
                Some(stored) => stored > STORAGE_LAYOUT ==> error@ == (
                Failure::StorageLayoutMismatch { stored, expected: STORAGE_LAYOUT }),
            },
        },
{
    let store = request@.0;
    let entries = log_values(store.versioned_log);
    lemma_what_folds(Seq::empty(), entries, None);
    if exists|number: u64| #[trigger] store.versioned_log.dom().contains(number) {
        assert(store.versioned_log != Map::<u64, EntryModel>::empty());
    } else {
        assert(store.versioned_log =~= Map::<u64, EntryModel>::empty());
    }
    if let Ok(engine) = outcome {
        let rows = lettered(engine@.store.catalog);
        assert(text_rising(rows));
        assert(engine@.catalog == row_values(rows));
    }
}

} // verus!
