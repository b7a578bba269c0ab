//! Identifier counters: the log tells where they stand, so that an import
//! goes on counting where its source stood.

use vstd::prelude::*;

use crate::catalog::{family_at, registered};
use crate::checkpoint::CheckpointModel;
use crate::engine_model::{
    all_operations, checkpoint_restored, checkpointed, counters_advanced, counters_stored,
    entries_logged, families_stored, has_room, history, import_plan, imported, landed, log_after,
    next_versioned, resumed, versioned_operations, EngineModel,
};
use crate::fold::RowModel;
use crate::laws::checkpoints::{
    lemma_covering, lemma_from_number_listable, lemma_nothing_past_last, log_placed,
};
use crate::laws::history::{coherent, lemma_log_push};
use crate::laws::imports::{lemma_counters_in_two, lemma_entries_elsewhere};
use crate::laws::rebuild::{
    catalog_apart, lemma_family_at, lemma_found_registered, lemma_rows_keep_counters,
};
use crate::laws::registration::catalog_stored;
use crate::laws::staging::{lemma_operations_apply, made_in_turn};
use crate::laws::writes::{counter_value, minted_below};
use crate::listing::from_number;
use crate::store::counted_so_far;
use crate::table::counter_key_text;
use crate::tables::{next_identifier, WriteFact};
use crate::versioning::{EntryModel, FamilyModel, OperationModel};

verus! {

/// The identifier counters are those of `base`, moved by what the log
/// asserts past a commit.
pub open spec fn counters_told(
    engine: EngineModel,
    base: Map<Seq<char>, u64>,
    after: u64,
) -> bool {
    engine.store.tables.counters == counters_advanced(
        base,
        all_operations(log_after(engine.store, after)),
    )
}

/// Right after a checkpoint the counters are those that stood then.
pub proof fn lemma_checkpoint_counts(engine: EngineModel)
    requires
        checkpointed(engine) is Ok,
        log_placed(engine.store.versioned_log),
    ensures
        counters_told(
            engine,
            engine.store.tables.counters,
            checkpointed(engine)->Ok_0.metadata.covered.last,
        ),
{
    lemma_covering(engine);
    let found = history(engine, "checkpoint"@, true)->Ok_0;
    let from = resumed(found.latest);
    lemma_nothing_past_last(engine.store.versioned_log, from.after);
}

/// A commit of writes as the engine's verbs make them moves the counters
/// as its versioned entry tells.
pub proof fn lemma_commit_counts(
    engine: EngineModel,
    head: Option<Seq<u8>>,
    base: Map<Seq<char>, u64>,
    after: u64,
    writes: Seq<WriteFact>,
)
    requires
        coherent(engine.store, head),
        counters_told(engine, base, after),
        engine.session is None,
        engine.policy is Some,
        has_room(engine, 1),
        after <= counted_so_far(engine.store.commit_sequence),
        made_in_turn(engine.catalog, engine.store.tables, writes),
    ensures
        counters_told(landed(engine, writes), base, after),
{
    let next = landed(engine, writes);
    let operations = versioned_operations(engine.catalog, writes);
    let entry = next_versioned(engine, engine.policy->0, operations);
    lemma_operations_apply(engine.catalog, engine.store.tables, writes);
    let tail = from_number(engine.store.versioned_log, after + 1);
    lemma_from_number_listable(engine.store.versioned_log, after + 1);
    assert(from_number(next.store.versioned_log, after + 1) =~= tail.insert(
        entry.commit_sequence,
        entry,
    ));
    lemma_log_push(tail, entry.commit_sequence, entry);
    let waiting = log_after(engine.store, after);
    let longer = log_after(next.store, after);
    assert(longer == waiting.push(entry));
    assert(longer.drop_last() =~= waiting);
    lemma_counters_in_two(base, all_operations(waiting), operations);
}

/// Counters that stand alike move alike.
proof fn lemma_counters_alike(
    a: Map<Seq<char>, u64>,
    b: Map<Seq<char>, u64>,
    operations: Seq<OperationModel>,
    table: Seq<char>,
)
    requires
        forall|other: Seq<char>|
            counter_value(a, #[trigger] counter_key_text(other)) == counter_value(
                b,
                counter_key_text(other),
            ),
    ensures
        counter_value(counters_advanced(a, operations), counter_key_text(table))
            == counter_value(counters_advanced(b, operations), counter_key_text(table)),
    decreases operations.len(),
{
    if operations.len() > 0 {
        let less = operations.drop_last();
        let moved = operations.last().family.table;
        lemma_counters_alike(a, b, less, table);
        lemma_counters_alike(a, b, less, moved);
    } else {
        assert(counter_value(a, counter_key_text(table)) == counter_value(
            b,
            counter_key_text(table),
        ));
    }
}

/// An import goes on counting where its source stood: every
/// engine-identified table mints the identifier that the source would have minted,
/// which is past every identifier in use.
pub proof fn lemma_import_counts_on(
    source: EngineModel,
    base: Map<Seq<char>, u64>,
    checkpoint: CheckpointModel,
    target: EngineModel,
    rows: Seq<RowModel>,
    table: Seq<char>,
)
    requires
        counters_told(source, base, checkpoint.metadata.covered.last),
        forall|other: Seq<char>|
            counter_value(
                counters_stored(Map::empty(), checkpoint.metadata.inventory.counters),
                #[trigger] counter_key_text(other),
            ) == counter_value(base, counter_key_text(other)),
        target.store.tables.counters == Map::<Seq<char>, u64>::empty(),
        import_plan(
            target,
            checkpoint,
            log_after(source.store, checkpoint.metadata.covered.last),
        ) is Ok,
        counter_value(source.store.tables.counters, counter_key_text(table)) >= 1,
    ensures
        ({
            let suffix = log_after(source.store, checkpoint.metadata.covered.last);
            let plan = import_plan(target, checkpoint, suffix)->Ok_0;
            let after = imported(target, plan, rows);
            &&& next_identifier(after.store.tables, table) == next_identifier(
                source.store.tables,
                table,
            )
            &&& minted_below(source.store.tables) ==> forall|identifier: u64| #[trigger]
                source.store.tables.identified.dom().contains((table, identifier))
                    ==> identifier < next_identifier(after.store.tables, table)
        }),
{
    let suffix = log_after(source.store, checkpoint.metadata.covered.last);
    let plan = import_plan(target, checkpoint, suffix)->Ok_0;
    let restored = checkpoint_restored(target.store, checkpoint);
    let recorded = counters_stored(Map::empty(), checkpoint.metadata.inventory.counters);
    lemma_entries_elsewhere(restored, suffix);
    lemma_rows_keep_counters(entries_logged(restored, suffix).tables, rows);
    lemma_counters_alike(recorded, base, all_operations(suffix), table);
}

/// What families are stored under their tables.
proof fn lemma_families_stored(families: Seq<FamilyModel>, table: Seq<char>)
    requires
        catalog_apart(families),
    ensures
        ({
            let stored = families_stored(Map::empty(), families);
            &&& stored.dom().contains(table) == registered(families, table)
            &&& stored.dom().contains(table) ==> family_at(families, table) == Some(
                stored[table],
            )
        }),
    decreases families.len(),
{
    if families.len() > 0 {
        let less = families.drop_last();
        let last = families[families.len() - 1];
        assert(catalog_apart(less)) by {
            assert forall|i: int, j: int| 0 <= i < j < less.len() implies (
            #[trigger] less[i]).table != (#[trigger] less[j]).table && less[i].version()
                != less[j].version() by {
                assert(families[i].table != families[j].table);
            }
        }
        lemma_families_stored(less, table);
        if registered(less, table) {
            let i = choose|i: int| 0 <= i < less.len() && (#[trigger] less[i]).table == table;
            assert(families[i].table == table);
            assert(families[i].table != last.table);
            lemma_family_at_longer(less, last, table);
            assert(less.push(last) =~= families);
        } else if last.table == table {
            lemma_family_at_longer(less, last, table);
            assert(less.push(last) =~= families);
            assert(families[families.len() - 1].table == table);
        } else if registered(families, table) {
            let i = choose|i: int| 0 <= i < families.len() && (#[trigger] families[i]).table
                == table;
            assert(less[i].table == table);
        }
    }
}

/// A family at the end of a catalog is found where no other stands.
proof fn lemma_family_at_longer(less: Seq<FamilyModel>, last: FamilyModel, table: Seq<char>)
    ensures
        registered(less, table) ==> family_at(less.push(last), table) == family_at(less, table),
        !registered(less, table) && last.table == table ==> family_at(less.push(last), table)
            == Some(last),
    decreases less.len(),
{
    let both = less.push(last);
    if less.len() == 0 {
        reveal_with_fuel(family_at, 2);
        assert(both[0] == last);
    } else {
        let rest = less.drop_first();
        assert(both.drop_first() =~= rest.push(last));
        assert(both[0] == less[0]);
        lemma_family_at_longer(rest, last, table);
        if registered(less, table) && less[0].table != table {
            let i = choose|i: int| 0 <= i < less.len() && (#[trigger] less[i]).table == table;
            assert(rest[i - 1].table == table);
        }
        if registered(rest, table) {
            let i = choose|i: int| 0 <= i < rest.len() && (#[trigger] rest[i]).table == table;
            assert(less[i + 1].table == table);
        }
        if less[0].table == table {
            assert(registered(less, table));
        }
    }
}

/// An import restores the stored catalog of its source.
pub proof fn lemma_import_restores_catalog(
    source: EngineModel,
    checkpoint: CheckpointModel,
    suffix: Seq<EntryModel>,
    target: EngineModel,
    rows: Seq<RowModel>,
)
    requires
        catalog_apart(source.catalog),
        catalog_stored(source.store.catalog, source.catalog),
        checkpoint.metadata.inventory.families == source.catalog,
        import_plan(target, checkpoint, suffix) is Ok,
    ensures
        imported(target, import_plan(target, checkpoint, suffix)->Ok_0, rows).store.catalog
            == source.store.catalog,
{
    let plan = import_plan(target, checkpoint, suffix)->Ok_0;
    let restored = checkpoint_restored(target.store, checkpoint);
    lemma_entries_elsewhere(restored, suffix);
    let stored = families_stored(Map::empty(), source.catalog);
    assert forall|table: Seq<char>| stored.dom().contains(table)
        == source.store.catalog.dom().contains(table) by {
        lemma_families_stored(source.catalog, table);
        if registered(source.catalog, table) {
            lemma_family_at(source.catalog, table);
        }
        if family_at(source.catalog, table) is Some {
            lemma_found_registered(source.catalog, table);
        }
    }
    assert forall|table: Seq<char>| stored.dom().contains(table) implies stored[table]
        == source.store.catalog[table] by {
        lemma_families_stored(source.catalog, table);
    }
    assert(stored =~= source.store.catalog);
}

} // verus!
