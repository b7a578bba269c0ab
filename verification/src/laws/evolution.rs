//! Evolution: carrying a family forward to its declared generation is told
//! in the log like any other write.

use vstd::prelude::*;

use crate::catalog::{family_at, rebound, registered};
use crate::checkpoint::all_rows;
use crate::engine_model::{
    all_operations, evolution_operations, evolved, has_room, loaded, next_versioned,
    operation_rows, operations_landed, rows_to_carry, with_rebound, EngineModel, ResumeModel,
};
use crate::error::Failure;
use crate::fold::{
    empty_fold, fold_entries, fold_operations, fold_rows, head_after, written, Coordinate,
    FoldModel, RowModel,
};
use crate::laws::folds::kept_at;
use crate::laws::history::{lemma_coherent_elsewhere, lemma_log_push, lemma_operations_coherent};
use crate::laws::rebuild::{
    catalog_apart, checkpoint_tells_prefix, held_at, identities_home, in_catalog, lemma_apart,
    lemma_appended_stands, lemma_checkpoint_unspoken, lemma_family_at, lemma_log_unspoken,
    lemma_operations_declare_home, lemma_placed, log_fold, log_tells_all, operations_home,
    stands_for, start_view, tables_match, told, unspoken, view_registered,
};
use crate::listing::{log_values, text_listed};
use crate::operation::SemaOperation;
use crate::order::text_precedes;
use crate::ordered_table::{has_key, keyed_at, TableKey};
use crate::record::KeyModel;
use crate::tables::{domain_rows, key_slot, placed, rows_placed, TablesModel};
use crate::versioning::{FamilyModel, OperationModel};

verus! {

/// No two rows share a key.
spec fn keys_apart(rows: Seq<(Seq<char>, Seq<u8>)>) -> bool {
    forall|i: int, j: int|
        0 <= i < j < rows.len() ==> (#[trigger] rows[i]).0 != (#[trigger] rows[j]).0
}

/// A row has this key.
spec fn among(rows: Seq<(Seq<char>, Seq<u8>)>, key: KeyModel) -> bool {
    exists|i: int| 0 <= i < rows.len() && key == KeyModel::Domain((#[trigger] rows[i]).0)
}

/// What an evolution's operations fold to, and what they leave in the
/// tables: every carried row moved from the stored generation to the
/// declared one, and nothing else.
proof fn lemma_evolution_steps(
    view: FoldModel,
    tables: TablesModel,
    stored: FamilyModel,
    declared: FamilyModel,
    rows: Seq<(Seq<char>, Seq<u8>)>,
    carried: Seq<Seq<u8>>,
)
    requires
        stored.table == declared.table,
        stored.version() != declared.version(),
        carried.len() == rows.len(),
        keys_apart(rows),
    ensures
        ({
            let operations = evolution_operations(stored, declared, rows, carried);
            let after = fold_operations(view, operations)->Ok_0;
            let left = rows_placed(tables, operation_rows(operations));
            &&& fold_operations(view, operations) is Ok
            &&& left.counters == tables.counters
            &&& forall|i: int|
                0 <= i < rows.len() ==> {
                    let key = KeyModel::Domain((#[trigger] rows[i]).0);
                    &&& kept_at(after, (stored.version(), key)) is None
                    &&& kept_at(after, (declared.version(), key)) == Some(carried[i])
                    &&& held_at(left, declared.table, key) == Some(carried[i])
                }
            &&& forall|at: Coordinate|
                !(at.0 == stored.version() || at.0 == declared.version()) || !among(rows, at.1)
                    ==> #[trigger] kept_at(after, at) == kept_at(view, at)
            &&& forall|table: Seq<char>, key: KeyModel|
                table != declared.table || !among(rows, key) ==> #[trigger] held_at(
                    left,
                    table,
                    key,
                ) == held_at(tables, table, key)
        }),
    decreases rows.len(),
{
    let operations = evolution_operations(stored, declared, rows, carried);
    if rows.len() > 0 {
        let less = rows.drop_last();
        let fewer = carried.drop_last();
        assert(keys_apart(less)) by {
            assert forall|i: int, j: int| 0 <= i < j < less.len() implies (
            #[trigger] less[i]).0 != (#[trigger] less[j]).0 by {
                assert(rows[i].0 != rows[j].0);
            }
        }
        lemma_evolution_steps(view, tables, stored, declared, less, fewer);
        let before = evolution_operations(stored, declared, less, fewer);
        let middle = fold_operations(view, before)->Ok_0;
        let standing = rows_placed(tables, operation_rows(before));
        let end = rows.len() - 1;
        let key = KeyModel::Domain(rows[end].0);
        let bytes = carried.last();
        let removal = OperationModel {
            operation: SemaOperation::Retract,
            family: stored,
            key: Some(key),
            payload: None,
        };
        let arrival = OperationModel {
            operation: SemaOperation::Assert,
            family: declared,
            key: Some(key),
            payload: Some(bytes),
        };
        assert(operations == before.push(removal).push(arrival));
        assert(operations.drop_last() =~= before.push(removal));
        assert(operations.drop_last().drop_last() =~= before);
        let cleared = written(middle, stored, key, None);
        let after = written(cleared, declared, key, Some(bytes));
        assert(fold_operations(view, before.push(removal)) == Ok::<FoldModel, Failure>(cleared));
        assert(fold_operations(view, operations) == Ok::<FoldModel, Failure>(after));
        let gone = RowModel { family: stored, key, payload: None };
        let come = RowModel { family: declared, key, payload: Some(bytes) };
        let rows_before = operation_rows(before);
        assert(operation_rows(before.push(removal)) == rows_before.push(gone));
        assert(operation_rows(operations) == rows_before.push(gone).push(come));
        assert(rows_before.push(gone).drop_last() =~= rows_before);
        assert(rows_before.push(gone).push(come).drop_last() =~= rows_before.push(gone));
        let emptied = placed(standing, stored.table, key_slot(key), None);
        let left = placed(emptied, declared.table, key_slot(key), Some(bytes));
        assert(rows_placed(tables, rows_before.push(gone)) == emptied);
        assert(rows_placed(tables, operation_rows(operations)) == left);
        assert forall|table: Seq<char>, other: KeyModel|
            table != declared.table || !among(rows, other) implies #[trigger] held_at(
            left,
            table,
            other,
        ) == held_at(tables, table, other) by {
            lemma_placed(standing, stored.table, key, None, table, other);
            lemma_placed(emptied, declared.table, key, Some(bytes), table, other);
            lemma_among_less(rows, other);
            assert(held_at(standing, table, other) == held_at(tables, table, other));
        }
        assert forall|at: Coordinate|
            !(at.0 == stored.version() || at.0 == declared.version()) || !among(rows, at.1)
                implies #[trigger] kept_at(after, at) == kept_at(view, at) by {
            lemma_among_less(rows, at.1);
            assert(kept_at(middle, at) == kept_at(view, at));
        }
        assert forall|i: int| 0 <= i < rows.len() implies {
            let name = KeyModel::Domain((#[trigger] rows[i]).0);
            &&& kept_at(after, (stored.version(), name)) is None
            &&& kept_at(after, (declared.version(), name)) == Some(carried[i])
            &&& held_at(left, declared.table, name) == Some(carried[i])
        } by {
            let name = KeyModel::Domain(rows[i].0);
            lemma_placed(standing, stored.table, key, None, declared.table, name);
            lemma_placed(emptied, declared.table, key, Some(bytes), declared.table, name);
            if i < end {
                assert(rows[i].0 != rows[end].0);
                assert(less[i] == rows[i]);
                assert(fewer[i] == carried[i]);
                assert(kept_at(middle, (stored.version(), name)) is None);
                assert(kept_at(middle, (declared.version(), name)) == Some(carried[i]));
                assert(held_at(standing, declared.table, name) == Some(carried[i]));
            }
        }
    }
}

/// A key among all but the last row is among the rows.
proof fn lemma_among_less(rows: Seq<(Seq<char>, Seq<u8>)>, key: KeyModel)
    requires
        rows.len() > 0,
    ensures
        !among(rows, key) ==> !among(rows.drop_last(), key) && key != KeyModel::Domain(
            rows.last().0,
        ),
{
    assert(rows[rows.len() - 1] == rows.last());
    if among(rows.drop_last(), key) {
        let i = choose|i: int|
            0 <= i < rows.drop_last().len() && key == KeyModel::Domain(
                (#[trigger] rows.drop_last()[i]).0,
            );
        assert(rows[i] == rows.drop_last()[i]);
    }
}

/// A catalog in which one table was bound anew holds the new family in
/// place of the stored one.
proof fn lemma_rebound(catalog: Seq<FamilyModel>, stored: FamilyModel, declared: FamilyModel)
    requires
        catalog_apart(catalog),
        family_at(catalog, declared.table) == Some(stored),
        registered(catalog, declared.table),
        forall|i: int|
            0 <= i < catalog.len() ==> (#[trigger] catalog[i]).version() != declared.version(),
    ensures
        catalog_apart(rebound(catalog, declared)),
        in_catalog(catalog, stored),
        stored.table == declared.table,
        forall|family: FamilyModel| #[trigger]
            in_catalog(rebound(catalog, declared), family) <==> family == declared || (in_catalog(
                catalog,
                family,
            ) && family != stored),
        forall|table: Seq<char>| #[trigger]
            registered(catalog, table) ==> registered(rebound(catalog, declared), table),
{
    let after = rebound(catalog, declared);
    lemma_family_at(catalog, declared.table);
    let home = choose|i: int| 0 <= i < catalog.len() && #[trigger] catalog[i] == stored;
    assert(after[home] == declared);
    assert forall|i: int, j: int| 0 <= i < j < after.len() implies (
    #[trigger] after[i]).table != (#[trigger] after[j]).table && after[i].version()
        != after[j].version() by {
        assert(catalog[i].table != catalog[j].table);
        assert(catalog[i].version() != declared.version());
        assert(catalog[j].version() != declared.version());
    }
    assert forall|family: FamilyModel| #[trigger] in_catalog(after, family) <==> family == declared
        || (in_catalog(catalog, family) && family != stored) by {
        if in_catalog(after, family) {
            let i = choose|i: int| 0 <= i < after.len() && #[trigger] after[i] == family;
            if catalog[i].table != declared.table {
                assert(catalog[i] == family);
            }
        }
        if in_catalog(catalog, family) && family != stored {
            let i = choose|i: int| 0 <= i < catalog.len() && #[trigger] catalog[i] == family;
            if catalog[i].table == declared.table {
                lemma_apart(catalog, family, stored);
            }
            assert(after[i] == family);
        }
    }
    assert forall|table: Seq<char>| #[trigger] registered(catalog, table) implies registered(
        after,
        table,
    ) by {
        let i = choose|i: int| 0 <= i < catalog.len() && (#[trigger] catalog[i]).table == table;
        assert(after[i].table == table);
    }
}

/// The rows of a table, listed, are the records that it holds.
proof fn lemma_carried_rows(engine: EngineModel, table: Seq<char>)
    requires
        text_listed(domain_rows(engine.store.tables.records, table)),
    ensures
        keys_apart(rows_to_carry(engine, table)),
        forall|text: Seq<char>| #[trigger]
            among(rows_to_carry(engine, table), KeyModel::Domain(text)) <==> held_at(
                engine.store.tables,
                table,
                KeyModel::Domain(text),
            ) is Some,
{
    let held = domain_rows(engine.store.tables.records, table);
    let rows = rows_to_carry(engine, table);
    assert forall|i: int, j: int| 0 <= i < j < rows.len() implies (#[trigger] rows[i]).0 != (
    #[trigger] rows[j]).0 by {
        assert(text_precedes(rows[i].0, rows[j].0));
        <String as TableKey>::lemma_irreflexive(rows[i].0);
    }
    assert forall|text: Seq<char>| #[trigger] among(rows, KeyModel::Domain(text)) <==> held_at(
        engine.store.tables,
        table,
        KeyModel::Domain(text),
    ) is Some by {
        assert(held.dom().contains(text) <==> has_key(rows, text));
        if has_key(rows, text) {
            let i = choose|i: int| keyed_at(rows, text, i);
            assert(rows[i].0 == text);
        }
        if among(rows, KeyModel::Domain(text)) {
            let i = choose|i: int|
                0 <= i < rows.len() && KeyModel::Domain(text) == KeyModel::Domain(
                    (#[trigger] rows[i]).0,
                );
            assert(keyed_at(rows, text, i));
        }
    }
}

/// Binding a table anew to a generation that the log never spoke of leaves
/// the checkpoint standing for its stretch.
proof fn lemma_rebound_stands(
    engine: EngineModel,
    start: ResumeModel,
    stored: FamilyModel,
    declared: FamilyModel,
)
    requires
        told(engine, start),
        family_at(engine.catalog, declared.table) == Some(stored),
        registered(engine.catalog, declared.table),
        forall|i: int|
            0 <= i < engine.catalog.len() ==> (#[trigger] engine.catalog[i]).version()
                != declared.version(),
        unspoken(engine, start, declared.version()),
    ensures
        checkpoint_tells_prefix(with_rebound(engine, declared), start),
{
    let bound = with_rebound(engine, declared);
    lemma_rebound(engine.catalog, stored, declared);
    assert(loaded(bound.store) == loaded(engine.store));
    if let Ok(Some(checkpoint)) = loaded(engine.store) {
        let count = choose|count: int| #[trigger] stands_for(engine, start, checkpoint, count);
        let back = fold_rows(empty_fold(), all_rows(checkpoint.segments))->Ok_0;
        lemma_checkpoint_unspoken(engine, start, checkpoint, count, declared.version());
        assert(identities_home(bound.catalog, back));
        assert(stands_for(bound, start, checkpoint, count));
    }
}

/// The operations of an evolution name the stored generation or the
/// declared one.
proof fn lemma_evolution_families(
    stored: FamilyModel,
    declared: FamilyModel,
    rows: Seq<(Seq<char>, Seq<u8>)>,
    carried: Seq<Seq<u8>>,
)
    ensures
        forall|i: int|
            0 <= i < evolution_operations(stored, declared, rows, carried).len() ==> (
            #[trigger] evolution_operations(stored, declared, rows, carried)[i]).family == stored
                || evolution_operations(stored, declared, rows, carried)[i].family == declared,
    decreases rows.len(),
{
    if rows.len() > 0 {
        lemma_evolution_families(stored, declared, rows.drop_last(), carried.drop_last());
    }
}

/// What a table holds and what the log folds to still match once a family
/// was carried forward.
proof fn lemma_evolution_matches(
    engine: EngineModel,
    start: ResumeModel,
    stored: FamilyModel,
    declared: FamilyModel,
    carried: Seq<Seq<u8>>,
)
    requires
        log_tells_all(engine, start),
        family_at(engine.catalog, declared.table) == Some(stored),
        registered(engine.catalog, declared.table),
        forall|i: int|
            0 <= i < engine.catalog.len() ==> (#[trigger] engine.catalog[i]).version()
                != declared.version(),
        unspoken(engine, start, declared.version()),
        text_listed(domain_rows(engine.store.tables.records, declared.table)),
        forall|identifier: u64|
            !#[trigger] engine.store.tables.identified.dom().contains(
                (declared.table, identifier),
            ),
        carried.len() == rows_to_carry(engine, declared.table).len(),
    ensures
        ({
            let rows = rows_to_carry(engine, declared.table);
            let operations = evolution_operations(stored, declared, rows, carried);
            let catalog = rebound(engine.catalog, declared);
            let view = log_fold(engine.store, start)->Ok_0;
            let after = fold_operations(view, operations)->Ok_0;
            &&& fold_operations(view, operations) is Ok
            &&& catalog_apart(catalog)
            &&& identities_home(catalog, start_view(start))
            &&& operations_home(
                catalog,
                all_operations(log_values(engine.store.versioned_log)) + operations,
            )
            &&& view_registered(catalog, after)
            &&& tables_match(
                catalog,
                rows_placed(engine.store.tables, operation_rows(operations)),
                after,
            )
        }),
{
    let rows = rows_to_carry(engine, declared.table);
    let operations = evolution_operations(stored, declared, rows, carried);
    let before = engine.catalog;
    let catalog = rebound(before, declared);
    let tables = engine.store.tables;
    let view = log_fold(engine.store, start)->Ok_0;
    lemma_rebound(before, stored, declared);
    lemma_carried_rows(engine, declared.table);
    assert(stored.version() != declared.version()) by {
        let home = choose|i: int| 0 <= i < before.len() && #[trigger] before[i] == stored;
        assert(before[home].version() != declared.version());
    }
    lemma_evolution_steps(view, tables, stored, declared, rows, carried);
    lemma_log_unspoken(engine, start, declared.version());
    let after = fold_operations(view, operations)->Ok_0;
    let left = rows_placed(tables, operation_rows(operations));
    assert forall|key: KeyModel| held_at(tables, declared.table, key) is Some implies #[trigger]
        among(rows, key) by {
        match key {
            KeyModel::Domain(text) => {
                assert(among(rows, KeyModel::Domain(text)));
            },
            KeyModel::Identifier(identifier) => {
                assert(!tables.identified.dom().contains((declared.table, identifier)));
            },
        }
    }
    assert forall|key: KeyModel| #[trigger] kept_at(after, (stored.version(), key)) is None by {
        if among(rows, key) {
            let i = choose|i: int|
                0 <= i < rows.len() && key == KeyModel::Domain((#[trigger] rows[i]).0);
            assert(kept_at(after, (stored.version(), KeyModel::Domain(rows[i].0))) is None);
        } else {
            assert(held_at(tables, stored.table, key) == kept_at(view, (stored.version(), key)));
        }
    }
    assert forall|family: FamilyModel, key: KeyModel|
        #![trigger in_catalog(catalog, family), held_at(left, family.table, key)]
        in_catalog(catalog, family) implies held_at(left, family.table, key) == kept_at(
        after,
        (family.version(), key),
    ) by {
        if family == declared {
            if among(rows, key) {
                let i = choose|i: int|
                    0 <= i < rows.len() && key == KeyModel::Domain((#[trigger] rows[i]).0);
                assert(held_at(left, declared.table, KeyModel::Domain(rows[i].0)) == Some(
                    carried[i],
                ));
            } else {
                assert(held_at(left, declared.table, key) == held_at(
                    tables,
                    declared.table,
                    key,
                ));
                assert(!view.cells.dom().contains((declared.version(), key)));
            }
        } else {
            assert(in_catalog(before, family));
            if family.table == stored.table || family.version() == stored.version() {
                lemma_apart(before, family, stored);
            }
            let i = choose|i: int| 0 <= i < before.len() && #[trigger] before[i] == family;
            assert(before[i].version() != declared.version());
            assert(held_at(tables, family.table, key) == kept_at(view, (family.version(), key)));
        }
    }
    assert forall|table: Seq<char>, key: KeyModel| #[trigger]
        held_at(left, table, key) is Some implies registered(catalog, table) by {
        if table == declared.table {
            assert(registered(before, table));
        } else {
            assert(held_at(tables, table, key) is Some);
            assert(registered(before, table));
        }
    }
    // The registered families were declared at their tables.
    let told_before = all_operations(log_values(engine.store.versioned_log));
    lemma_evolution_families(stored, declared, rows, carried);
    assert(operations_home(catalog, operations)) by {
        assert forall|i: int, family: FamilyModel|
            #![trigger operations[i], in_catalog(catalog, family)]
            0 <= i < operations.len() && in_catalog(catalog, family)
                && operations[i].family.version() == family.version() implies operations[i].family.table
            == family.table by {
            assert(operations[i].family == stored || operations[i].family == declared);
            if family != declared {
                assert(in_catalog(before, family));
                if operations[i].family == stored {
                    lemma_apart(before, family, stored);
                } else {
                    let j = choose|j: int| 0 <= j < before.len() && #[trigger] before[j] == family;
                    assert(before[j].version() != declared.version());
                }
            }
        }
    }
    let both = told_before + operations;
    assert forall|i: int, family: FamilyModel|
        #![trigger both[i], in_catalog(catalog, family)]
        0 <= i < both.len() && in_catalog(catalog, family) && both[i].family.version()
            == family.version() implies both[i].family.table == family.table by {
        if i < told_before.len() {
            assert(both[i] == told_before[i]);
            if family != declared {
                assert(in_catalog(before, family));
            }
        } else {
            assert(both[i] == operations[i - told_before.len()]);
        }
    }
    assert forall|family: FamilyModel| #[trigger]
        in_catalog(catalog, family) && view.identities.dom().contains(family.version())
            implies view.identities[family.version()].table == family.table by {
        assert(in_catalog(before, family));
    }
    lemma_operations_declare_home(catalog, view, operations);
    assert forall|family: FamilyModel| #[trigger]
        in_catalog(catalog, family) && start_view(start).identities.dom().contains(
            family.version(),
        ) implies start_view(start).identities[family.version()].table == family.table by {
        assert(in_catalog(before, family));
    }
    assert forall|at: Coordinate| #[trigger] kept_at(after, at) is Some implies exists|
        family: FamilyModel,
    | #[trigger] in_catalog(catalog, family) && family.version() == at.0 by {
        if at.0 == declared.version() {
            assert(in_catalog(catalog, declared));
        } else if at.0 == stored.version() {
            assert(kept_at(after, (stored.version(), at.1)) is None);
        } else {
            assert(kept_at(view, at) is Some);
            let family = choose|family: FamilyModel| #[trigger]
                in_catalog(before, family) && family.version() == at.0;
            assert(in_catalog(catalog, family));
        }
    }
}

/// Carrying a domain-keyed family forward, to a generation that the log
/// never spoke of, keeps the log telling of all records and the checkpoint
/// standing for its stretch: a rebuild gives back the carried rows.
pub proof fn lemma_evolution_told(
    engine: EngineModel,
    start: ResumeModel,
    stored: FamilyModel,
    declared: FamilyModel,
    carried: Seq<Seq<u8>>,
)
    requires
        told(engine, start),
        engine.policy is Some,
        has_room(engine, 1),
        family_at(engine.catalog, declared.table) == Some(stored),
        registered(engine.catalog, declared.table),
        forall|i: int|
            0 <= i < engine.catalog.len() ==> (#[trigger] engine.catalog[i]).version()
                != declared.version(),
        unspoken(engine, start, declared.version()),
        text_listed(domain_rows(engine.store.tables.records, declared.table)),
        forall|identifier: u64|
            !#[trigger] engine.store.tables.identified.dom().contains(
                (declared.table, identifier),
            ),
        carried.len() == rows_to_carry(engine, declared.table).len(),
    ensures
        told(evolved(engine, stored, declared, carried), start),
{
    let rows = rows_to_carry(engine, declared.table);
    let operations = evolution_operations(stored, declared, rows, carried);
    let bound = with_rebound(engine, declared);
    let after = evolved(engine, stored, declared, carried);
    let entries = log_values(engine.store.versioned_log);
    lemma_evolution_matches(engine, start, stored, declared, carried);
    lemma_rebound_stands(engine, start, stored, declared);
    lemma_coherent_elsewhere(engine.store, bound.store, start.head);
    let view = log_fold(engine.store, start)->Ok_0;
    if rows.len() == 0 {
        assert(operations =~= Seq::empty());
        assert(all_operations(entries) + operations =~= all_operations(entries));
        assert(operation_rows(operations) =~= Seq::empty());
        assert(log_tells_all(after, start));
    } else {
        let entry = next_versioned(bound, engine.policy->0, operations);
        lemma_operations_coherent(bound, start.head, operations);
        lemma_log_push(bound.store.versioned_log, entry.commit_sequence, entry);
        let logged = log_values(after.store.versioned_log);
        assert(after == operations_landed(bound, operations));
        assert(logged == entries.push(entry));
        assert(logged.drop_last() =~= entries);
        assert(all_operations(logged) == all_operations(entries) + operations);
        assert(fold_entries(start_view(start), start.head, entries) == Ok::<FoldModel, Failure>(
            view,
        ));
        assert(entry.previous == head_after(start.head, entries));
        assert(log_fold(after.store, start) == fold_operations(view, operations));
        lemma_appended_stands(bound, after, start, entry);
        assert(log_tells_all(after, start));
    }
}

} // verus!
