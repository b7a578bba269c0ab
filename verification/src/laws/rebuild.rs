//! The log is the source of truth: its fold holds exactly the records of
//! the tables, so a rebuild restores them and an import carries them over.

use vstd::prelude::*;

use crate::catalog::{family_at, registered};
use crate::checkpoint::{all_rows, CheckpointModel};
use crate::engine::{consulted, rebuilds, ruled, took};
use crate::engine_model::{
    all_operations, atomic_outcome, checked, checkpointed, commit_outcome, group_flaw, has_room,
    history, identified_assertion, identified_mutation, identified_retraction, landed, loaded,
    log_after, log_gap, planned, planned_across, rebuild_plan, resumed, standing_tables,
    stored_catalog, versioned_operations, with_checkpoint, with_family, with_rows, write_key,
    write_outcome, EngineModel, HistoryModel, ResumeModel, STORAGE_LAYOUT,
};
use crate::error::{Error, Failure};
use crate::fold::{
    cleared_rows, empty_fold, fold_entries, fold_operation, fold_operations, fold_row, fold_rows,
    folded, head_after, kept_rows, landed_rows, lemma_all_land, materialized, view_digest, written,
    Coordinate, FamilyDirectory, FoldModel, RebuildReceipt, RowLanding, RowModel, ViewKey,
};
use crate::laws::checkpoints::{
    addresses_apart, lemma_checkpoint_reads_back, lemma_covering, lemma_from_number_listable,
    lemma_nothing_past_last,
};
use crate::laws::folds::{
    agree, kept_at, lemma_agree_entries, lemma_digest_of_records, lemma_fold_in_two,
    lemma_folded_materializes, lemma_folded_sound, lemma_resolved, lemma_rows_hold_records,
    lemma_sound_select, record_rows, selected_cells, sound,
};
use crate::laws::history::{
    coherent, lemma_coherent_elsewhere, lemma_empty_listing, lemma_landed_coherent, lemma_log_push,
    lemma_unbroken_chain,
};
use crate::laws::registration::{
    catalog_stored, lemma_catalog_survives_reopen, lemma_reopened_tables_apart,
};
use crate::laws::writes::reopened;
use crate::listing::{from_number, lemma_number_rising, log_values, numbered};
use crate::mutation::WriteModel;
use crate::operation::SemaOperation;
use crate::ordered_table::{has_key, keyed_at, lemma_position, listable, TableKey};
use crate::record::KeyModel;
use crate::store::{counted_so_far, StoreModel};
use crate::tables::{
    applied, applied_all, identified_removal, identified_write, key_slot, next_identifier, placed,
    rows_placed, TablesModel, WriteFact,
};
use crate::versioning::{EntryModel, FamilyModel, OperationModel};

verus! {

/// What the record tables hold for a key of a table.
pub open spec fn held_at(tables: TablesModel, table: Seq<char>, key: KeyModel) -> Option<Seq<u8>> {
    match key {
        KeyModel::Domain(text) => if tables.records.dom().contains((table, text)) {
            Some(tables.records[(table, text)])
        } else {
            None
        },
        KeyModel::Identifier(identifier) => if tables.identified.dom().contains(
            (table, identifier),
        ) {
            Some(tables.identified[(table, identifier)])
        } else {
            None
        },
    }
}

/// No table and no family version is registered twice.
pub open spec fn catalog_apart(catalog: Seq<FamilyModel>) -> bool {
    forall|i: int, j: int|
        0 <= i < j < catalog.len() ==> (#[trigger] catalog[i]).table != (
        #[trigger] catalog[j]).table && catalog[i].version() != catalog[j].version()
}

/// A family of the catalog.
pub open spec fn in_catalog(catalog: Seq<FamilyModel>, family: FamilyModel) -> bool {
    exists|i: int| 0 <= i < catalog.len() && #[trigger] catalog[i] == family
}

/// Every record of a view belongs to a registered family, and a registered
/// family was never declared at another table.
pub open spec fn view_registered(catalog: Seq<FamilyModel>, view: FoldModel) -> bool {
    &&& forall|at: Coordinate| #[trigger]
        kept_at(view, at) is Some ==> exists|family: FamilyModel| #[trigger]
            in_catalog(catalog, family) && family.version() == at.0
    &&& forall|family: FamilyModel| #[trigger]
        in_catalog(catalog, family) && view.identities.dom().contains(family.version())
            ==> view.identities[family.version()].table == family.table
}

/// The tables hold, for every registered family, exactly the records of
/// the view, and no rows at tables that are not registered.
pub open spec fn tables_match(
    catalog: Seq<FamilyModel>,
    tables: TablesModel,
    view: FoldModel,
) -> bool {
    &&& forall|family: FamilyModel, key: KeyModel|
        #![trigger in_catalog(catalog, family), held_at(tables, family.table, key)]
        in_catalog(catalog, family) ==> held_at(tables, family.table, key) == kept_at(
            view,
            (family.version(), key),
        )
    &&& forall|table: Seq<char>, key: KeyModel|
        #[trigger] held_at(tables, table, key) is Some ==> registered(catalog, table)
}

/// A write as the engine's verbs make it: to a registered table, at the
/// row its key names, leaving a record or, for a retraction, none.
pub open spec fn plain_write(catalog: Seq<FamilyModel>, write: WriteFact) -> bool {
    &&& registered(catalog, write.table)
    &&& write.slot == key_slot(write.key)
    &&& match write.operation {
        SemaOperation::Assert | SemaOperation::Mutate => write.payload is Some,
        SemaOperation::Retract => write.payload is None,
        _ => false,
    }
}

/// The operation that is logged for a write.
pub open spec fn logged_operation(catalog: Seq<FamilyModel>, write: WriteFact) -> OperationModel {
    OperationModel {
        operation: write.operation,
        family: family_at(catalog, write.table)->0,
        key: Some(write.key),
        payload: write.payload,
    }
}

/// A registered table has a family of the catalog.
pub proof fn lemma_family_at(catalog: Seq<FamilyModel>, table: Seq<char>)
    requires
        registered(catalog, table),
    ensures
        family_at(catalog, table) is Some,
        family_at(catalog, table)->0.table == table,
        in_catalog(catalog, family_at(catalog, table)->0),
    decreases catalog.len(),
{
    let i = choose|i: int| 0 <= i < catalog.len() && (#[trigger] catalog[i]).table == table;
    if catalog[0].table == table {
        assert(in_catalog(catalog, catalog[0]));
    } else {
        let rest = catalog.drop_first();
        assert(rest[i - 1].table == table);
        lemma_family_at(rest, table);
        let family = family_at(rest, table)->0;
        let j = choose|j: int| 0 <= j < rest.len() && #[trigger] rest[j] == family;
        assert(catalog[j + 1] == family);
    }
}

/// Families of a catalog that share a table or a version are one.
pub proof fn lemma_apart(catalog: Seq<FamilyModel>, a: FamilyModel, b: FamilyModel)
    requires
        catalog_apart(catalog),
        in_catalog(catalog, a),
        in_catalog(catalog, b),
        a.table == b.table || a.version() == b.version(),
    ensures
        a == b,
{
    let i = choose|i: int| 0 <= i < catalog.len() && #[trigger] catalog[i] == a;
    let j = choose|j: int| 0 <= j < catalog.len() && #[trigger] catalog[j] == b;
    if i < j {
        assert(catalog[i].table != catalog[j].table);
    } else if j < i {
        assert(catalog[j].table != catalog[i].table);
    }
}

/// What a placed row changes.
pub proof fn lemma_placed(
    tables: TablesModel,
    table: Seq<char>,
    key: KeyModel,
    payload: Option<Seq<u8>>,
    other: Seq<char>,
    name: KeyModel,
)
    ensures
        held_at(placed(tables, table, key_slot(key), payload), other, name) == if (other, name)
            == (table, key) {
            payload
        } else {
            held_at(tables, other, name)
        },
{
}

/// One write keeps tables and fold in step.
proof fn lemma_write_matches(
    catalog: Seq<FamilyModel>,
    tables: TablesModel,
    view: FoldModel,
    write: WriteFact,
)
    requires
        catalog_apart(catalog),
        plain_write(catalog, write),
        view_registered(catalog, view),
        tables_match(catalog, tables, view),
    ensures
        fold_operation(view, logged_operation(catalog, write)) is Ok,
        view_registered(
            catalog,
            fold_operation(view, logged_operation(catalog, write))->Ok_0,
        ),
        tables_match(
            catalog,
            applied(tables, write),
            fold_operation(view, logged_operation(catalog, write))->Ok_0,
        ),
{
    lemma_family_at(catalog, write.table);
    let home = family_at(catalog, write.table)->0;
    let operation = logged_operation(catalog, write);
    let after = fold_operation(view, operation)->Ok_0;
    assert(after == written(view, home, write.key, write.payload));
    let next = applied(tables, write);
    assert forall|family: FamilyModel, key: KeyModel|
        #![trigger in_catalog(catalog, family), held_at(next, family.table, key)]
        in_catalog(catalog, family) implies held_at(next, family.table, key) == kept_at(
        after,
        (family.version(), key),
    ) by {
        lemma_placed(tables, write.table, write.key, write.payload, family.table, key);
        assert(held_at(tables, family.table, key) == kept_at(view, (family.version(), key)));
        if family.table == home.table || family.version() == home.version() {
            lemma_apart(catalog, family, home);
        }
    }
    assert forall|table: Seq<char>, key: KeyModel|
        #[trigger] held_at(next, table, key) is Some implies registered(catalog, table) by {
        lemma_placed(tables, write.table, write.key, write.payload, table, key);
    }
    assert forall|at: Coordinate| #[trigger] kept_at(after, at) is Some implies exists|
        family: FamilyModel,
    | #[trigger] in_catalog(catalog, family) && family.version() == at.0 by {
        if at == (home.version(), write.key) {
            assert(in_catalog(catalog, home) && home.version() == at.0);
        } else {
            assert(kept_at(view, at) is Some);
        }
    }
    assert forall|family: FamilyModel| #[trigger]
        in_catalog(catalog, family) && after.identities.dom().contains(
            family.version(),
        ) implies after.identities[family.version()].table == family.table by {
        if !view.identities.dom().contains(family.version()) {
            lemma_apart(catalog, family, home);
        }
    }
}

/// The writes of one commit keep tables and fold in step.
proof fn lemma_writes_match(
    catalog: Seq<FamilyModel>,
    tables: TablesModel,
    view: FoldModel,
    writes: Seq<WriteFact>,
)
    requires
        catalog_apart(catalog),
        forall|i: int| 0 <= i < writes.len() ==> plain_write(catalog, #[trigger] writes[i]),
        view_registered(catalog, view),
        tables_match(catalog, tables, view),
    ensures
        fold_operations(view, versioned_operations(catalog, writes)) is Ok,
        view_registered(
            catalog,
            fold_operations(view, versioned_operations(catalog, writes))->Ok_0,
        ),
        tables_match(
            catalog,
            applied_all(tables, writes),
            fold_operations(view, versioned_operations(catalog, writes))->Ok_0,
        ),
    decreases writes.len(),
{
    let operations = versioned_operations(catalog, writes);
    if writes.len() > 0 {
        let less = writes.drop_last();
        assert forall|i: int| 0 <= i < less.len() implies plain_write(
            catalog,
            #[trigger] less[i],
        ) by {
            assert(less[i] == writes[i]);
        }
        lemma_writes_match(catalog, tables, view, less);
        assert(operations.drop_last() =~= versioned_operations(catalog, less));
        assert(operations.last() == logged_operation(catalog, writes.last()));
        assert(plain_write(catalog, writes[writes.len() - 1]));
        lemma_write_matches(
            catalog,
            applied_all(tables, less),
            fold_operations(view, versioned_operations(catalog, less))->Ok_0,
            writes.last(),
        );
    }
}

/// The fold of the whole versioned log, from where it starts: from nothing,
/// or from the checkpoint that the store was imported from.
pub open spec fn log_fold(store: StoreModel, start: ResumeModel) -> Result<FoldModel, Failure> {
    folded(start.rows, log_values(store.versioned_log), start.head)
}

/// What the rows that a log starts from fold to.
pub open spec fn start_view(start: ResumeModel) -> FoldModel {
    fold_rows(empty_fold(), start.rows)->Ok_0
}

/// Operations of registered families name the registered tables.
pub open spec fn operations_home(
    catalog: Seq<FamilyModel>,
    operations: Seq<OperationModel>,
) -> bool {
    forall|i: int, family: FamilyModel|
        #![trigger operations[i], in_catalog(catalog, family)]
        0 <= i < operations.len() && in_catalog(catalog, family)
            && operations[i].family.version() == family.version()
            ==> operations[i].family.table == family.table
}

/// Registered families were declared at their registered tables.
pub open spec fn identities_home(catalog: Seq<FamilyModel>, view: FoldModel) -> bool {
    forall|family: FamilyModel| #[trigger]
        in_catalog(catalog, family) && view.identities.dom().contains(family.version())
            ==> view.identities[family.version()].table == family.table
}

/// Operations at home declare families at home.
pub proof fn lemma_operations_declare_home(
    catalog: Seq<FamilyModel>,
    view: FoldModel,
    operations: Seq<OperationModel>,
)
    requires
        identities_home(catalog, view),
        operations_home(catalog, operations),
    ensures
        fold_operations(view, operations) matches Ok(after) ==> identities_home(catalog, after),
    decreases operations.len(),
{
    if operations.len() > 0 {
        let less = operations.drop_last();
        assert(operations_home(catalog, less)) by {
            assert forall|i: int, family: FamilyModel|
                #![trigger less[i], in_catalog(catalog, family)]
                0 <= i < less.len() && in_catalog(catalog, family) && less[i].family.version()
                    == family.version() implies less[i].family.table == family.table by {
                assert(less[i] == operations[i]);
            }
        }
        lemma_operations_declare_home(catalog, view, less);
        let last = operations[operations.len() - 1];
        if let Ok(before) = fold_operations(view, less) {
            if let Ok(after) = fold_operation(before, last) {
                assert forall|family: FamilyModel| #[trigger]
                    in_catalog(catalog, family) && after.identities.dom().contains(
                        family.version(),
                    ) implies after.identities[family.version()].table == family.table by {
                    if !before.identities.dom().contains(family.version()) {
                        assert(last.family.version() == family.version());
                    }
                }
            }
        }
    }
}

/// A version that no operation names is not declared by them.
proof fn lemma_undeclared(
    view: FoldModel,
    operations: Seq<OperationModel>,
    version: (Seq<char>, Seq<u8>),
)
    requires
        !view.identities.dom().contains(version),
        forall|i: int|
            0 <= i < operations.len() ==> (#[trigger] operations[i]).family.version() != version,
    ensures
        fold_operations(view, operations) matches Ok(after)
            ==> !after.identities.dom().contains(version),
    decreases operations.len(),
{
    if operations.len() > 0 {
        let less = operations.drop_last();
        assert forall|i: int| 0 <= i < less.len() implies (
        #[trigger] less[i]).family.version() != version by {
            assert(less[i] == operations[i]);
        }
        lemma_undeclared(view, less, version);
        assert(operations[operations.len() - 1].family.version() != version);
    }
}

/// An engine whose log tells of all of its records: the log planes are in
/// step, the log goes on from where it starts and folds, it and the rows it
/// starts from name the registered tables, and the tables hold exactly what
/// it folds to.
pub open spec fn log_tells_all(engine: EngineModel, start: ResumeModel) -> bool {
    &&& engine.session is None
    &&& coherent(engine.store, start.head)
    &&& start.after <= counted_so_far(engine.store.commit_sequence)
    &&& forall|key: u64| #[trigger]
        engine.store.versioned_log.dom().contains(key) ==> start.after < key
    &&& catalog_apart(engine.catalog)
    &&& log_fold(engine.store, start) is Ok
    &&& identities_home(engine.catalog, start_view(start))
    &&& operations_home(
        engine.catalog,
        all_operations(log_values(engine.store.versioned_log)),
    )
    &&& view_registered(engine.catalog, log_fold(engine.store, start)->Ok_0)
    &&& tables_match(engine.catalog, engine.store.tables, log_fold(engine.store, start)->Ok_0)
}

/// A checkpoint stands for the first `count` entries of the log: its rows
/// fold to the records that those entries leave, it names the digest of the
/// last of them, the entries past its range are the others, and its rows
/// name the registered tables.
pub open spec fn stands_for(
    engine: EngineModel,
    start: ResumeModel,
    checkpoint: CheckpointModel,
    count: int,
) -> bool {
    let entries = log_values(engine.store.versioned_log);
    let rows = fold_rows(empty_fold(), all_rows(checkpoint.segments));
    let covered = folded(start.rows, entries.take(count), start.head);
    &&& 0 <= count <= entries.len()
    &&& log_after(engine.store, checkpoint.metadata.covered.last) == entries.skip(count)
    &&& start.after <= checkpoint.metadata.covered.last <= counted_so_far(
        engine.store.commit_sequence,
    )
    &&& Some(checkpoint.metadata.entry_digest) == head_after(start.head, entries.take(count))
    &&& rows is Ok
    &&& covered is Ok
    &&& agree(rows->Ok_0, covered->Ok_0)
    &&& identities_home(engine.catalog, rows->Ok_0)
}

/// The latest checkpoint, if the store keeps one, reads back and stands for
/// a first stretch of the log. A store without one starts from nothing.
pub open spec fn checkpoint_tells_prefix(engine: EngineModel, start: ResumeModel) -> bool {
    match loaded(engine.store) {
        Err(_) => false,
        Ok(None) => start == resumed(None),
        Ok(Some(checkpoint)) => exists|count: int| #[trigger]
            stands_for(engine, start, checkpoint, count),
    }
}

/// The log tells of all records, and the checkpoint stands for its stretch.
pub open spec fn told(engine: EngineModel, start: ResumeModel) -> bool {
    log_tells_all(engine, start) && checkpoint_tells_prefix(engine, start)
}

/// An empty engine's log tells of all of its records, from nothing on.
pub proof fn lemma_starts_told(engine: EngineModel)
    requires
        engine.session is None,
        coherent(engine.store, None),
        engine.catalog.len() == 0,
        engine.store.versioned_log == Map::<u64, EntryModel>::empty(),
        engine.store.tables == crate::tables::no_tables(),
        engine.store.latest_checkpoint is None,
    ensures
        log_tells_all(engine, resumed(None)),
        checkpoint_tells_prefix(engine, resumed(None)),
{
    lemma_empty_listing::<EntryModel>();
    let view = log_fold(engine.store, resumed(None))->Ok_0;
    assert(view == empty_fold());
}

/// Every version that rows declare has a record among them.
proof fn lemma_rows_declare_kept(rows: Seq<RowModel>, version: (Seq<char>, Seq<u8>))
    requires
        fold_rows(empty_fold(), rows) is Ok,
        fold_rows(empty_fold(), rows)->Ok_0.identities.dom().contains(version),
    ensures
        exists|key: KeyModel| #[trigger]
            kept_at(fold_rows(empty_fold(), rows)->Ok_0, (version, key)) is Some,
    decreases rows.len(),
{
    if rows.len() > 0 {
        let less = rows.drop_last();
        let before = fold_rows(empty_fold(), less)->Ok_0;
        let after = fold_rows(empty_fold(), rows)->Ok_0;
        let row = rows.last();
        if row.family.version() == version {
            assert(kept_at(after, (version, row.key)) is Some);
        } else {
            lemma_rows_declare_kept(less, version);
            let key = choose|key: KeyModel| #[trigger] kept_at(before, (version, key)) is Some;
            assert(kept_at(after, (version, key)) is Some);
        }
    }
}

/// A version that neither the log nor what it starts from spoke of.
pub open spec fn unspoken(
    engine: EngineModel,
    start: ResumeModel,
    version: (Seq<char>, Seq<u8>),
) -> bool {
    let operations = all_operations(log_values(engine.store.versioned_log));
    &&& !start_view(start).identities.dom().contains(version)
    &&& forall|i: int|
        0 <= i < operations.len() ==> (#[trigger] operations[i]).family.version() != version
}

/// A version that the log never spoke of is not in what it folds to.
pub proof fn lemma_log_unspoken(
    engine: EngineModel,
    start: ResumeModel,
    version: (Seq<char>, Seq<u8>),
)
    requires
        log_tells_all(engine, start),
        unspoken(engine, start, version),
    ensures
        !log_fold(engine.store, start)->Ok_0.identities.dom().contains(version),
        sound(log_fold(engine.store, start)->Ok_0),
{
    let logged = log_values(engine.store.versioned_log);
    lemma_unbroken_chain(start_view(start), start.head, logged);
    lemma_undeclared(start_view(start), all_operations(logged), version);
    lemma_folded_sound(start.rows, logged, start.head);
}

/// A checkpoint that stands for a stretch of a log does not speak of what
/// the log never spoke of.
pub proof fn lemma_checkpoint_unspoken(
    engine: EngineModel,
    start: ResumeModel,
    checkpoint: CheckpointModel,
    count: int,
    version: (Seq<char>, Seq<u8>),
)
    requires
        log_tells_all(engine, start),
        stands_for(engine, start, checkpoint, count),
        unspoken(engine, start, version),
    ensures
        !fold_rows(empty_fold(), all_rows(checkpoint.segments))->Ok_0.identities.dom().contains(
            version,
        ),
{
    let logged = log_values(engine.store.versioned_log);
    let rows = all_rows(checkpoint.segments);
    let back = fold_rows(empty_fold(), rows)->Ok_0;
    let base = start_view(start);
    let covered = folded(start.rows, logged.take(count), start.head)->Ok_0;
    if back.identities.dom().contains(version) {
        lemma_rows_declare_kept(rows, version);
        let key = choose|key: KeyModel| #[trigger] kept_at(back, (version, key)) is Some;
        assert(kept_at(covered, (version, key)) is Some);
        lemma_folded_sound(start.rows, logged.take(count), start.head);
        assert(logged.take(count) + logged.skip(count) =~= logged);
        lemma_flawless_parts(start.head, logged.take(count), logged.skip(count));
        lemma_operations_join(logged.take(count), logged.skip(count));
        let operations = all_operations(logged.take(count));
        assert forall|i: int| 0 <= i < operations.len() implies (
        #[trigger] operations[i]).family.version() != version by {
            assert(all_operations(logged)[i] == operations[i]);
        }
        lemma_unbroken_chain(base, start.head, logged.take(count));
        lemma_undeclared(base, operations, version);
    }
}

/// Registering a family that the log never spoke of keeps the log telling
/// of all records, and the checkpoint standing for its stretch.
pub proof fn lemma_registration_told(
    engine: EngineModel,
    start: ResumeModel,
    declared: FamilyModel,
)
    requires
        log_tells_all(engine, start),
        !registered(engine.catalog, declared.table),
        forall|i: int|
            0 <= i < engine.catalog.len() ==> (#[trigger] engine.catalog[i]).version()
                != declared.version(),
        unspoken(engine, start, declared.version()),
    ensures
        log_tells_all(with_family(engine, declared), start),
        checkpoint_tells_prefix(engine, start) ==> checkpoint_tells_prefix(
            with_family(engine, declared),
            start,
        ),
{
    let view = log_fold(engine.store, start)->Ok_0;
    let before = engine.catalog;
    let after = before.push(declared);
    let logged = log_values(engine.store.versioned_log);
    lemma_log_unspoken(engine, start, declared.version());
    let store = with_family(engine, declared).store;
    crate::laws::history::lemma_coherent_elsewhere(engine.store, store, start.head);
    assert(catalog_apart(after)) by {
        assert forall|i: int, j: int| 0 <= i < j < after.len() implies (
        #[trigger] after[i]).table != (#[trigger] after[j]).table && after[i].version()
            != after[j].version() by {
            assert(after[i] == before[i]);
            if j < before.len() {
                assert(after[j] == before[j]);
            }
        }
    }
    lemma_catalog_push(before, declared);
    assert forall|table: Seq<char>| #[trigger] registered(before, table) implies registered(
        after,
        table,
    ) by {
        let i = choose|i: int| 0 <= i < before.len() && (#[trigger] before[i]).table == table;
        assert(after[i].table == table);
    }
    assert forall|family: FamilyModel, key: KeyModel|
        #![trigger in_catalog(after, family), held_at(store.tables, family.table, key)]
        in_catalog(after, family) implies held_at(store.tables, family.table, key) == kept_at(
        view,
        (family.version(), key),
    ) by {
        if in_catalog(before, family) {
            assert(held_at(engine.store.tables, family.table, key) == kept_at(
                view,
                (family.version(), key),
            ));
        } else {
            assert(held_at(engine.store.tables, declared.table, key) is None);
            assert(!view.cells.dom().contains((declared.version(), key)));
        }
    }
    assert(operations_home(after, all_operations(logged))) by {
        let operations = all_operations(logged);
        assert forall|i: int, family: FamilyModel|
            #![trigger operations[i], in_catalog(after, family)]
            0 <= i < operations.len() && in_catalog(after, family)
                && operations[i].family.version() == family.version() implies operations[i].family.table
            == family.table by {
            assert(in_catalog(before, family));
        }
    }
    assert(view_registered(after, view)) by {
        assert forall|at: Coordinate| #[trigger] kept_at(view, at) is Some implies exists|
            family: FamilyModel,
        | #[trigger] in_catalog(after, family) && family.version() == at.0 by {
            let family = choose|family: FamilyModel| #[trigger]
                in_catalog(before, family) && family.version() == at.0;
            assert(in_catalog(after, family));
        }
    }
    if checkpoint_tells_prefix(engine, start) {
        let next = with_family(engine, declared);
        assert(loaded(next.store) == loaded(engine.store));
        if let Ok(Some(checkpoint)) = loaded(engine.store) {
            let count = choose|count: int| #[trigger]
                stands_for(engine, start, checkpoint, count);
            let back = fold_rows(empty_fold(), all_rows(checkpoint.segments))->Ok_0;
            lemma_checkpoint_unspoken(engine, start, checkpoint, count, declared.version());
            assert(identities_home(after, back));
            assert(stands_for(next, start, checkpoint, count));
        }
    }
}

/// A catalog with one more family holds that family and the others.
proof fn lemma_catalog_push(before: Seq<FamilyModel>, declared: FamilyModel)
    ensures
        forall|family: FamilyModel| #[trigger]
            in_catalog(before.push(declared), family) <==> in_catalog(before, family) || family
                == declared,
{
    let after = before.push(declared);
    assert(after[before.len() as int] == declared);
    assert forall|family: FamilyModel| #[trigger] in_catalog(after, family) <==> in_catalog(
        before,
        family,
    ) || family == declared by {
        if in_catalog(after, family) {
            let i = choose|i: int| 0 <= i < after.len() && #[trigger] after[i] == family;
            if i < before.len() {
                assert(before[i] == family);
            }
        }
        if in_catalog(before, family) {
            let i = choose|i: int| 0 <= i < before.len() && #[trigger] before[i] == family;
            assert(after[i] == family);
        }
        if family == declared {
            assert(after[before.len() as int] == family);
        }
    }
}

/// One more entry at the end of the log leaves the checkpoint standing for
/// its stretch.
pub proof fn lemma_appended_stands(
    engine: EngineModel,
    after: EngineModel,
    start: ResumeModel,
    entry: EntryModel,
)
    requires
        checkpoint_tells_prefix(engine, start),
        loaded(after.store) == loaded(engine.store),
        listable::<u64, EntryModel>(engine.store.versioned_log),
        forall|key: u64| #[trigger]
            engine.store.versioned_log.dom().contains(key) ==> key < entry.commit_sequence,
        entry.commit_sequence > counted_so_far(engine.store.commit_sequence),
        after.store.versioned_log == engine.store.versioned_log.insert(
            entry.commit_sequence,
            entry,
        ),
        counted_so_far(after.store.commit_sequence) == entry.commit_sequence,
        forall|view: FoldModel| #[trigger]
            identities_home(engine.catalog, view) ==> identities_home(after.catalog, view),
    ensures
        checkpoint_tells_prefix(after, start),
{
    lemma_log_push(engine.store.versioned_log, entry.commit_sequence, entry);
    let entries = log_values(engine.store.versioned_log);
    if let Ok(Some(checkpoint)) = loaded(engine.store) {
        let count = choose|count: int| #[trigger] stands_for(engine, start, checkpoint, count);
        let last = checkpoint.metadata.covered.last;
        let tail = from_number(engine.store.versioned_log, last + 1);
        lemma_from_number_listable(engine.store.versioned_log, last + 1);
        assert(from_number(after.store.versioned_log, last + 1) =~= tail.insert(
            entry.commit_sequence,
            entry,
        ));
        lemma_log_push(tail, entry.commit_sequence, entry);
        assert(entries.push(entry).take(count) =~= entries.take(count));
        assert(entries.push(entry).skip(count) =~= entries.skip(count).push(entry));
        assert(stands_for(after, start, checkpoint, count));
    }
}

/// A versioned commit keeps the log telling of all records, and the
/// checkpoint standing for its stretch.
pub proof fn lemma_commit_told(engine: EngineModel, start: ResumeModel, writes: Seq<WriteFact>)
    requires
        log_tells_all(engine, start),
        engine.policy is Some,
        has_room(engine, 1),
        forall|i: int|
            0 <= i < writes.len() ==> plain_write(engine.catalog, #[trigger] writes[i]),
    ensures
        log_tells_all(landed(engine, writes), start),
        checkpoint_tells_prefix(engine, start) ==> checkpoint_tells_prefix(
            landed(engine, writes),
            start,
        ),
{
    let after = landed(engine, writes);
    let before = log_values(engine.store.versioned_log);
    let entries = log_values(after.store.versioned_log);
    lemma_landed_coherent(engine, start.head, writes);
    assert(entries.drop_last() =~= before);
    let view = log_fold(engine.store, start)->Ok_0;
    lemma_writes_match(engine.catalog, engine.store.tables, view, writes);
    let entry = entries.last();
    let base = start_view(start);
    assert(fold_entries(base, start.head, before) == Ok::<FoldModel, Failure>(view));
    assert(entry.previous == head_after(start.head, before));
    assert(entry.operations == versioned_operations(engine.catalog, writes));
    let operations = all_operations(entries);
    let told = all_operations(before);
    assert(operations == told + entry.operations);
    assert forall|i: int, family: FamilyModel|
        #![trigger operations[i], in_catalog(engine.catalog, family)]
        0 <= i < operations.len() && in_catalog(engine.catalog, family)
            && operations[i].family.version() == family.version() implies operations[i].family.table
        == family.table by {
        if i < told.len() {
            assert(operations[i] == told[i]);
        } else {
            let write = writes[i - told.len()];
            assert(operations[i] == entry.operations[i - told.len()]);
            lemma_family_at(engine.catalog, write.table);
            lemma_apart(engine.catalog, family, operations[i].family);
        }
    }
    if checkpoint_tells_prefix(engine, start) {
        lemma_appended_stands(engine, after, start, entry);
    }
}

/// What rows leave at a slot: the payload of the last that names it, else
/// what stood there.
proof fn lemma_rows_placed(
    tables: TablesModel,
    rows: Seq<RowModel>,
    table: Seq<char>,
    key: KeyModel,
)
    ensures
        (forall|i: int|
            0 <= i < rows.len() ==> ((#[trigger] rows[i]).family.table, rows[i].key) != (
                table,
                key,
            )) ==> held_at(rows_placed(tables, rows), table, key) == held_at(tables, table, key),
    decreases rows.len(),
{
    if rows.len() > 0 {
        let less = rows.drop_last();
        let last = rows.last();
        lemma_rows_placed(tables, less, table, key);
        lemma_placed(
            rows_placed(tables, less),
            last.family.table,
            last.key,
            last.payload,
            table,
            key,
        );
        if forall|i: int|
            0 <= i < rows.len() ==> ((#[trigger] rows[i]).family.table, rows[i].key) != (
                table,
                key,
            ) {
            assert(rows[rows.len() - 1] == last);
            assert forall|i: int| 0 <= i < less.len() implies ((
            #[trigger] less[i]).family.table, less[i].key) != (table, key) by {
                assert(less[i] == rows[i]);
            }
        }
    }
}

/// The last row that names a slot decides what stands there.
proof fn lemma_rows_placed_last(
    tables: TablesModel,
    rows: Seq<RowModel>,
    table: Seq<char>,
    key: KeyModel,
    at: int,
)
    requires
        0 <= at < rows.len(),
        (rows[at].family.table, rows[at].key) == (table, key),
        forall|i: int|
            at < i < rows.len() ==> ((#[trigger] rows[i]).family.table, rows[i].key) != (
                table,
                key,
            ),
    ensures
        held_at(rows_placed(tables, rows), table, key) == rows[at].payload,
    decreases rows.len(),
{
    let less = rows.drop_last();
    let last = rows.last();
    lemma_placed(
        rows_placed(tables, less),
        last.family.table,
        last.key,
        last.payload,
        table,
        key,
    );
    if at < rows.len() - 1 {
        assert(rows[rows.len() - 1] == last);
        assert forall|i: int| at < i < less.len() implies ((#[trigger] less[i]).family.table, less[
            i
        ].key) != (table, key) by {
            assert(less[i] == rows[i]);
        }
        lemma_rows_placed_last(tables, less, table, key, at);
    }
}

/// The rows that clear what a view touched and left empty.
pub open spec fn clearing_rows(view: FoldModel) -> Seq<RowModel> {
    let cells = cleared_rows(view.cells);
    Seq::new(
        cells.len(),
        |i: int|
            RowModel {
                family: view.identities[cells[i].0.0],
                key: cells[i].0.1,
                payload: cells[i].1,
            },
    )
}

/// Landing a view restores its records: whatever the tables held, once
/// the view's rows landed every registered family holds exactly what the
/// view holds at every coordinate the fold touched.
pub proof fn lemma_landing_restores(
    catalog: Seq<FamilyModel>,
    tables: TablesModel,
    view: FoldModel,
    family: FamilyModel,
    key: KeyModel,
)
    requires
        catalog_apart(catalog),
        sound(view),
        view_registered(catalog, view),
        in_catalog(catalog, family),
        view.cells.dom().contains((family.version(), key)),
    ensures
        held_at(
            rows_placed(tables, clearing_rows(view) + record_rows(view)),
            family.table,
            key,
        ) == kept_at(view, (family.version(), key)),
{
    let cleared = clearing_rows(view);
    let records = record_rows(view);
    let rows = cleared + records;
    let cell = (family.version(), key);
    lemma_sound_select(view, true);
    lemma_sound_select(view, false);
    let kept = kept_rows(view.cells);
    let empty = cleared_rows(view.cells);
    if view.cells[cell] is Some {
        assert(selected_cells(view.cells, true).dom().contains(cell));
        assert(has_key(kept, cell));
        let at = choose|at: int| keyed_at(kept, cell, at);
        lemma_position::<ViewKey, Option<Seq<u8>>>(kept, at);
        let place = cleared.len() + at;
        assert(rows[place as int] == records[at]);
        assert forall|i: int| place < i < rows.len() implies ((#[trigger] rows[i]).family.table, rows[
            i
        ].key) != (family.table, key) by {
            let other = i - cleared.len();
            assert(rows[i] == records[other]);
            lemma_kept_row_apart(catalog, view, family, key, other, at);
        }
        lemma_rows_placed_last(tables, rows, family.table, key, place as int);
    } else {
        assert(selected_cells(view.cells, false).dom().contains(cell));
        assert(has_key(empty, cell));
        let at = choose|at: int| keyed_at(empty, cell, at);
        let place = lemma_last_naming(rows, family.table, key, at);
        lemma_rows_placed_last(tables, rows, family.table, key, place);
        if place >= cleared.len() {
            let other = place - cleared.len();
            assert(rows[place] == records[other]);
            lemma_kept_row_home(catalog, view, family, key, other);
            lemma_position::<ViewKey, Option<Seq<u8>>>(kept, other);
            assert(selected_cells(view.cells, true).dom().contains(cell));
        } else {
            assert(rows[place] == cleared[place]);
            lemma_position::<ViewKey, Option<Seq<u8>>>(empty, place);
            assert(empty[place].1 is None);
        }
    }
}

/// The last row from `at` on that names a slot.
proof fn lemma_last_naming(
    rows: Seq<RowModel>,
    table: Seq<char>,
    key: KeyModel,
    at: int,
) -> (last: int)
    requires
        0 <= at < rows.len(),
        (rows[at].family.table, rows[at].key) == (table, key),
    ensures
        at <= last < rows.len(),
        (rows[last].family.table, rows[last].key) == (table, key),
        forall|i: int|
            last < i < rows.len() ==> ((#[trigger] rows[i]).family.table, rows[i].key) != (
                table,
                key,
            ),
    decreases rows.len() - at,
{
    if exists|i: int|
        at < i < rows.len() && ((#[trigger] rows[i]).family.table, rows[i].key) == (table, key) {
        let next = choose|i: int|
            at < i < rows.len() && ((#[trigger] rows[i]).family.table, rows[i].key) == (
                table,
                key,
            );
        lemma_last_naming(rows, table, key, next)
    } else {
        at
    }
}

/// A kept row at a registered family's table belongs to that family.
proof fn lemma_kept_row_home(
    catalog: Seq<FamilyModel>,
    view: FoldModel,
    family: FamilyModel,
    key: KeyModel,
    at: int,
)
    requires
        catalog_apart(catalog),
        sound(view),
        view_registered(catalog, view),
        in_catalog(catalog, family),
        0 <= at < kept_rows(view.cells).len(),
        (record_rows(view)[at].family.table, record_rows(view)[at].key) == (family.table, key),
    ensures
        kept_rows(view.cells)[at].0 == (family.version(), key),
{
    lemma_sound_select(view, true);
    let kept = kept_rows(view.cells);
    lemma_position::<ViewKey, Option<Seq<u8>>>(kept, at);
    let cell = kept[at].0;
    assert(selected_cells(view.cells, true).dom().contains(cell));
    assert(kept_at(view, cell) is Some);
    let home = choose|home: FamilyModel| #[trigger]
        in_catalog(catalog, home) && home.version() == cell.0;
    assert(view.identities.dom().contains(home.version()));
    lemma_apart(catalog, home, family);
}

/// Two kept rows never name the same slot of a registered table.
proof fn lemma_kept_row_apart(
    catalog: Seq<FamilyModel>,
    view: FoldModel,
    family: FamilyModel,
    key: KeyModel,
    other: int,
    at: int,
)
    requires
        catalog_apart(catalog),
        sound(view),
        view_registered(catalog, view),
        in_catalog(catalog, family),
        0 <= at < other < kept_rows(view.cells).len(),
        kept_rows(view.cells)[at].0 == (family.version(), key),
    ensures
        (record_rows(view)[other].family.table, record_rows(view)[other].key) != (
            family.table,
            key,
        ),
{
    lemma_sound_select(view, true);
    let kept = kept_rows(view.cells);
    if (record_rows(view)[other].family.table, record_rows(view)[other].key) == (
        family.table,
        key,
    ) {
        lemma_kept_row_home(catalog, view, family, key, other);
        assert(ViewKey::precedes(kept[at].0, kept[other].0));
        ViewKey::lemma_irreflexive(kept[at].0);
    }
}

/// A rebuild of an intact store changes no record: the rows that the log
/// folds to are the rows that stand, whether the fold starts at the first
/// entry or at the latest checkpoint, and whether the store was written
/// here or imported.
pub proof fn lemma_rebuild_changes_nothing(engine: EngineModel, start: ResumeModel)
    requires
        log_tells_all(engine, start),
        checkpoint_tells_prefix(engine, start),
        engine.policy is Some,
        log_gap(engine.store) is None,
    ensures
        rebuild_plan(engine) is Ok,
        rebuild_plan(engine)->Ok_0.receipt.view_digest == view_digest(
            log_fold(engine.store, start)->Ok_0.cells,
        ),
        with_rows(engine, rebuild_plan(engine)->Ok_0.rows).store.tables
            == engine.store.tables,
        with_rows(engine, rebuild_plan(engine)->Ok_0.rows) == engine,
{
    lemma_history_agrees(engine, start, "rebuild_from_log"@, false);
    let view = history(engine, "rebuild_from_log"@, false)->Ok_0.view;
    let whole = log_fold(engine.store, start)->Ok_0;
    lemma_digest_of_records(view, whole);
    lemma_materialized_rows(view, engine.catalog);
    let rows = clearing_rows(view) + record_rows(view);
    let before = engine.store.tables;
    let after = rows_placed(before, rows);
    assert(tables_match(engine.catalog, before, view)) by {
        assert forall|family: FamilyModel, key: KeyModel|
            #![trigger in_catalog(engine.catalog, family), held_at(before, family.table, key)]
            in_catalog(engine.catalog, family) implies held_at(before, family.table, key)
            == kept_at(view, (family.version(), key)) by {
            assert(kept_at(whole, (family.version(), key)) == kept_at(
                view,
                (family.version(), key),
            ));
        }
    }
    assert forall|table: Seq<char>, key: KeyModel| #[trigger]
        held_at(after, table, key) == held_at(before, table, key) by {
        lemma_landing_keeps(engine.catalog, before, view, table, key);
    }
    lemma_same_rows(before, after);
    lemma_rows_keep_counters(before, rows);
}

/// A directory that leaves no row out: whatever row it is handed, it
/// applies it or refuses it.
pub open spec fn applies_every_row<Directory: FamilyDirectory>(directory: &Directory) -> bool {
    forall|row: RowModel, landing: RowLanding| #[trigger]
        ruled(directory, row, Ok(landing)) ==> landing@ is Some
}

/// A rebuild through a directory that leaves no row out changes nothing at
/// all in an intact store, whether it is refused or not.
pub proof fn lemma_rebuild_through_directory<Directory: FamilyDirectory>(
    engine: EngineModel,
    after: EngineModel,
    start: ResumeModel,
    directory: &Directory,
    outcome: Result<RebuildReceipt, Error>,
)
    requires
        told(engine, start),
        engine.policy is Some,
        log_gap(engine.store) is None,
        applies_every_row(directory),
        rebuilds(engine, after, directory, outcome),
    ensures
        after == engine,
{
    lemma_rebuild_changes_nothing(engine, start);
    let rows = rebuild_plan(engine)->Ok_0.rows;
    if outcome is Ok {
        let taken = choose|taken: Seq<bool>|
            {
                &&& consulted(directory, rows, Ok(taken))
                &&& after == with_rows(engine, #[trigger] landed_rows(rows, taken))
            };
        assert forall|i: int| 0 <= i < rows.len() implies #[trigger] taken[i] by {
            assert(took(directory, rows[i], taken[i]));
        }
        lemma_all_land(rows, taken);
    }
}

/// What the store's history comes to is what its whole log folds to: the
/// same records, at the registered tables.
pub proof fn lemma_history_agrees(
    engine: EngineModel,
    start: ResumeModel,
    surface: Seq<char>,
    required: bool,
)
    requires
        log_tells_all(engine, start),
        checkpoint_tells_prefix(engine, start),
        engine.policy is Some,
        log_gap(engine.store) is None,
        required ==> log_after(
            engine.store,
            resumed(loaded(engine.store)->Ok_0).after,
        ).len() > 0,
    ensures
        loaded(engine.store) is Ok,
        history(engine, surface, required) is Ok,
        ({
            let found = history(engine, surface, required)->Ok_0;
            let whole = log_fold(engine.store, start)->Ok_0;
            let latest = resumed(loaded(engine.store)->Ok_0);
            &&& found.latest == loaded(engine.store)->Ok_0
            &&& found.entries == log_after(engine.store, latest.after)
            &&& sound(found.view)
            &&& sound(whole)
            &&& agree(found.view, whole)
            &&& view_registered(engine.catalog, found.view)
            &&& head_after(latest.head, found.entries) == head_after(
                start.head,
                log_values(engine.store.versioned_log),
            )
        }),
{
    let store = engine.store;
    let entries = log_values(store.versioned_log);
    let whole = log_fold(store, start)->Ok_0;
    lemma_folded_sound(start.rows, entries, start.head);
    let latest = loaded(store)->Ok_0;
    let from = resumed(latest);
    let base = start_view(start);
    match latest {
        None => {
            lemma_log_from_start(store);
            assert(log_after(store, from.after) == entries);
            assert(folded(from.rows, entries, from.head) == log_fold(store, start));
            let found = HistoryModel { latest, entries, view: whole };
            assert(history(engine, surface, required) == Ok::<HistoryModel, Failure>(found));
        },
        Some(checkpoint) => {
            let count = choose|count: int| #[trigger]
                stands_for(engine, start, checkpoint, count);
            let first = entries.take(count);
            let rest = entries.skip(count);
            assert(first + rest =~= entries);
            let covered = folded(start.rows, first, start.head)->Ok_0;
            let back = fold_rows(empty_fold(), from.rows)->Ok_0;
            lemma_fold_in_two(base, start.head, first, rest);
            lemma_agree_entries(back, covered, from.head, rest);
            let view = fold_entries(back, from.head, rest)->Ok_0;
            assert(folded(from.rows, rest, from.head) == Ok::<FoldModel, Failure>(view));
            lemma_folded_sound(from.rows, rest, from.head);
            let found = HistoryModel { latest, entries: rest, view };
            assert(history(engine, surface, required) == Ok::<HistoryModel, Failure>(found));
            lemma_flawless_parts(start.head, first, rest);
            lemma_operations_join(first, rest);
            lemma_home_parts(engine.catalog, first, rest);
            lemma_unbroken_chain(back, from.head, rest);
            lemma_operations_declare_home(engine.catalog, back, all_operations(rest));
            assert forall|at: Coordinate| #[trigger] kept_at(view, at) is Some implies exists|
                family: FamilyModel,
            | #[trigger] in_catalog(engine.catalog, family) && family.version() == at.0 by {
                assert(kept_at(whole, at) == kept_at(view, at));
            }
            if rest.len() > 0 {
                assert(rest.last() == entries.last());
            } else {
                assert(first =~= entries);
            }
        },
    }
}

/// A store in step logged nothing before its first commit.
proof fn lemma_log_from_start(store: StoreModel)
    requires
        coherent(store, None),
    ensures
        log_values(from_number(store.versioned_log, 1)) == log_values(store.versioned_log),
{
    assert(from_number(store.versioned_log, 1) =~= store.versioned_log);
}

/// A checkpoint keeps the log telling of all records, and stands for all
/// of it. Two segments that collide under blake3 are left out.
pub proof fn lemma_checkpoint_told(engine: EngineModel, start: ResumeModel)
    requires
        log_tells_all(engine, start),
        checkpoint_tells_prefix(engine, start),
        checkpointed(engine) is Ok,
        addresses_apart(checkpointed(engine)->Ok_0.segments),
    ensures
        ({
            let after = EngineModel {
                store: with_checkpoint(engine.store, checkpointed(engine)->Ok_0),
                ..engine
            };
            &&& log_tells_all(after, start)
            &&& checkpoint_tells_prefix(after, start)
            &&& stands_for(
                after,
                start,
                checkpointed(engine)->Ok_0,
                log_values(after.store.versioned_log).len() as int,
            )
        }),
{
    let checkpoint = checkpointed(engine)->Ok_0;
    let after = EngineModel { store: with_checkpoint(engine.store, checkpoint), ..engine };
    let entries = log_values(engine.store.versioned_log);
    let found = history(engine, "checkpoint"@, true)->Ok_0;
    lemma_coherent_elsewhere(engine.store, after.store, start.head);
    lemma_covering(engine);
    lemma_history_agrees(engine, start, "checkpoint"@, true);
    lemma_checkpoint_reads_back(engine, engine.store);
    let latest = resumed(found.latest);
    lemma_nothing_past_last(engine.store.versioned_log, latest.after);
    let last = checkpoint.metadata.covered.last;
    assert(log_after(after.store, last) =~= entries.skip(entries.len() as int));
    assert(entries.take(entries.len() as int) =~= entries);
    lemma_rows_hold_records(found.view);
    let rows = record_rows(found.view);
    let back = fold_rows(empty_fold(), rows)->Ok_0;
    let whole = log_fold(engine.store, start)->Ok_0;
    assert(agree(back, whole)) by {
        assert forall|at: Coordinate| #[trigger] kept_at(back, at) == kept_at(whole, at) by {
            assert(kept_at(found.view, at) == kept_at(whole, at));
        }
    }
    lemma_rows_declare_home(engine.catalog, found.view, rows.len() as int);
    assert(rows.take(rows.len() as int) =~= rows);
    lemma_last_logged(engine.store, start.head, latest.after);
    assert(stands_for(after, start, checkpoint, entries.len() as int));
}

/// The last entry past a commit was logged as no later commit than the
/// latest.
pub proof fn lemma_last_logged(store: StoreModel, head: Option<Seq<u8>>, after: u64)
    requires
        coherent(store, head),
        log_after(store, after).len() > 0,
    ensures
        log_after(store, after).last().commit_sequence <= counted_so_far(store.commit_sequence),
        store.versioned_log.dom().contains(log_after(store, after).last().commit_sequence),
{
    lemma_from_number_listable(store.versioned_log, after + 1);
    let tail = from_number(store.versioned_log, after + 1);
    let rows = numbered(tail);
    lemma_number_rising(rows);
    lemma_position::<u64, EntryModel>(rows, rows.len() - 1);
    assert(tail.dom().contains(rows.last().0));
    assert(store.versioned_log.dom().contains(rows.last().0));
}

/// The rows that a view materializes to.
pub proof fn lemma_materialized_rows(view: FoldModel, inventory: Seq<FamilyModel>)
    requires
        sound(view),
    ensures
        materialized(view, inventory) is Ok,
        materialized(view, inventory)->Ok_0.rows == record_rows(view),
        materialized(view, inventory)->Ok_0.cleared == clearing_rows(view),
{
    lemma_folded_materializes(view, inventory);
    lemma_sound_select(view, false);
    lemma_resolved(view, inventory, cleared_rows(view.cells));
}

/// Landing a view leaves matching tables as they stood.
proof fn lemma_landing_keeps(
    catalog: Seq<FamilyModel>,
    tables: TablesModel,
    view: FoldModel,
    table: Seq<char>,
    key: KeyModel,
)
    requires
        catalog_apart(catalog),
        sound(view),
        view_registered(catalog, view),
        tables_match(catalog, tables, view),
    ensures
        held_at(rows_placed(tables, clearing_rows(view) + record_rows(view)), table, key)
            == held_at(tables, table, key),
{
    let cleared = clearing_rows(view);
    let records = record_rows(view);
    let rows = cleared + records;
    if exists|i: int|
        0 <= i < rows.len() && ((#[trigger] rows[i]).family.table, rows[i].key) == (table, key) {
        let first = choose|i: int|
            0 <= i < rows.len() && ((#[trigger] rows[i]).family.table, rows[i].key) == (table, key);
        let at = lemma_last_naming(rows, table, key, first);
        lemma_rows_placed_last(tables, rows, table, key, at);
        lemma_sound_select(view, true);
        lemma_sound_select(view, false);
        let kept = kept_rows(view.cells);
        let empty = cleared_rows(view.cells);
        if at >= cleared.len() {
            let other = at - cleared.len();
            assert(rows[at] == records[other]);
            lemma_position::<ViewKey, Option<Seq<u8>>>(kept, other);
            let cell = kept[other].0;
            assert(selected_cells(view.cells, true).dom().contains(cell));
            assert(kept_at(view, cell) is Some);
            let home = choose|home: FamilyModel| #[trigger]
                in_catalog(catalog, home) && home.version() == cell.0;
            assert(held_at(tables, home.table, key) == kept_at(view, (home.version(), key)));
        } else {
            assert(rows[at] == cleared[at]);
            assert(empty[at].1 is None);
            if held_at(tables, table, key) is Some {
                lemma_family_at(catalog, table);
                let home = family_at(catalog, table)->0;
                assert(held_at(tables, home.table, key) == kept_at(view, (home.version(), key)));
                let cell = (home.version(), key);
                assert(selected_cells(view.cells, true).dom().contains(cell));
                assert(has_key(kept, cell));
                let other = choose|other: int| keyed_at(kept, cell, other);
                assert(rows[cleared.len() + other] == records[other]);
                assert(view.identities[home.version()].table == home.table);
                assert((rows[cleared.len() + other].family.table, rows[cleared.len() + other].key)
                    == (table, key));
            }
        }
    } else {
        lemma_rows_placed(tables, rows, table, key);
    }
}

/// Tables that hold the same at every key hold the same rows.
pub proof fn lemma_same_rows(a: TablesModel, b: TablesModel)
    requires
        forall|table: Seq<char>, key: KeyModel| #[trigger]
            held_at(b, table, key) == held_at(a, table, key),
    ensures
        a.records == b.records,
        a.identified == b.identified,
{
    assert forall|at: (Seq<char>, Seq<char>)| a.records.dom().contains(at)
        == b.records.dom().contains(at) by {
        assert(held_at(b, at.0, KeyModel::Domain(at.1)) == held_at(
            a,
            at.0,
            KeyModel::Domain(at.1),
        ));
    }
    assert forall|at: (Seq<char>, Seq<char>)| a.records.dom().contains(at) implies a.records[at]
        == b.records[at] by {
        assert(held_at(b, at.0, KeyModel::Domain(at.1)) == held_at(
            a,
            at.0,
            KeyModel::Domain(at.1),
        ));
    }
    assert(a.records =~= b.records);
    assert forall|at: (Seq<char>, u64)| a.identified.dom().contains(at)
        == b.identified.dom().contains(at) by {
        assert(held_at(b, at.0, KeyModel::Identifier(at.1)) == held_at(
            a,
            at.0,
            KeyModel::Identifier(at.1),
        ));
    }
    assert forall|at: (Seq<char>, u64)| a.identified.dom().contains(at) implies a.identified[at]
        == b.identified[at] by {
        assert(held_at(b, at.0, KeyModel::Identifier(at.1)) == held_at(
            a,
            at.0,
            KeyModel::Identifier(at.1),
        ));
    }
    assert(a.identified =~= b.identified);
}

/// Placed rows move no counter.
pub proof fn lemma_rows_keep_counters(tables: TablesModel, rows: Seq<RowModel>)
    ensures
        rows_placed(tables, rows).counters == tables.counters,
    decreases rows.len(),
{
    if rows.len() > 0 {
        lemma_rows_keep_counters(tables, rows.drop_last());
    }
}

/// Landing a view on tables without rows leaves exactly its records.
pub proof fn lemma_landing_on_empty(
    catalog: Seq<FamilyModel>,
    tables: TablesModel,
    view: FoldModel,
)
    requires
        catalog_apart(catalog),
        sound(view),
        view_registered(catalog, view),
        tables.records == Map::<(Seq<char>, Seq<char>), Seq<u8>>::empty(),
        tables.identified == Map::<(Seq<char>, u64), Seq<u8>>::empty(),
    ensures
        tables_match(
            catalog,
            rows_placed(tables, clearing_rows(view) + record_rows(view)),
            view,
        ),
{
    let cleared = clearing_rows(view);
    let records = record_rows(view);
    let rows = cleared + records;
    let after = rows_placed(tables, rows);
    lemma_sound_select(view, true);
    lemma_sound_select(view, false);
    let kept = kept_rows(view.cells);
    let empty = cleared_rows(view.cells);
    assert forall|family: FamilyModel, key: KeyModel|
        #![trigger in_catalog(catalog, family), held_at(after, family.table, key)]
        in_catalog(catalog, family) implies held_at(after, family.table, key) == kept_at(
        view,
        (family.version(), key),
    ) by {
        let cell = (family.version(), key);
        if view.cells.dom().contains(cell) {
            lemma_landing_restores(catalog, tables, view, family, key);
        } else if exists|i: int|
            0 <= i < rows.len() && ((#[trigger] rows[i]).family.table, rows[i].key) == (
                family.table,
                key,
            ) {
            let first = choose|i: int|
                0 <= i < rows.len() && ((#[trigger] rows[i]).family.table, rows[i].key) == (
                    family.table,
                    key,
                );
            let at = lemma_last_naming(rows, family.table, key, first);
            lemma_rows_placed_last(tables, rows, family.table, key, at);
            if at >= cleared.len() {
                let other = at - cleared.len();
                assert(rows[at] == records[other]);
                lemma_kept_row_home(catalog, view, family, key, other);
                lemma_position::<ViewKey, Option<Seq<u8>>>(kept, other);
                assert(selected_cells(view.cells, true).dom().contains(cell));
            } else {
                assert(rows[at] == cleared[at]);
                assert(empty[at].1 is None);
            }
        } else {
            lemma_rows_placed(tables, rows, family.table, key);
        }
    }
    assert forall|table: Seq<char>, key: KeyModel|
        #[trigger] held_at(after, table, key) is Some implies registered(catalog, table) by {
        lemma_rows_placed(tables, rows, table, key);
        let first = choose|i: int|
            0 <= i < rows.len() && ((#[trigger] rows[i]).family.table, rows[i].key) == (table, key);
        let at = lemma_last_naming(rows, table, key, first);
        lemma_rows_placed_last(tables, rows, table, key, at);
        if at >= cleared.len() {
            let other = at - cleared.len();
            assert(rows[at] == records[other]);
            lemma_position::<ViewKey, Option<Seq<u8>>>(kept, other);
            let cell = kept[other].0;
            assert(selected_cells(view.cells, true).dom().contains(cell));
            assert(kept_at(view, cell) is Some);
            let home = choose|home: FamilyModel| #[trigger]
                in_catalog(catalog, home) && home.version() == cell.0;
            let i = choose|i: int| 0 <= i < catalog.len() && #[trigger] catalog[i] == home;
            assert(catalog[i].table == table);
        } else {
            assert(rows[at] == cleared[at]);
            assert(empty[at].1 is None);
        }
    }
}

/// Rows at home declare families at home.
pub proof fn lemma_rows_declare_home(catalog: Seq<FamilyModel>, view: FoldModel, at: int)
    requires
        sound(view),
        identities_home(catalog, view),
        0 <= at <= record_rows(view).len(),
    ensures
        fold_rows(empty_fold(), record_rows(view).take(at)) matches Ok(back) ==> identities_home(
            catalog,
            back,
        ),
    decreases at,
{
    let rows = record_rows(view);
    if at == 0 {
        assert(rows.take(0) =~= Seq::empty());
    } else {
        lemma_rows_declare_home(catalog, view, at - 1);
        assert(rows.take(at).drop_last() =~= rows.take(at - 1));
        lemma_sound_select(view, true);
        let row = rows[at - 1];
        let cell = kept_rows(view.cells)[at - 1];
        assert(view.identities.dom().contains(cell.0.0));
        assert(row.family.version() == cell.0.0);
        if let Ok(before) = fold_rows(empty_fold(), rows.take(at - 1)) {
            if let Ok(after) = fold_row(before, row) {
                assert forall|family: FamilyModel| #[trigger]
                    in_catalog(catalog, family) && after.identities.dom().contains(
                        family.version(),
                    ) implies after.identities[family.version()].table == family.table by {
                    if !before.identities.dom().contains(family.version()) {
                        assert(row.family.version() == family.version());
                    }
                }
            }
        }
    }
}

/// The parts of a chain without a flaw have none.
pub proof fn lemma_flawless_parts(
    head: Option<Seq<u8>>,
    first: Seq<EntryModel>,
    second: Seq<EntryModel>,
)
    requires
        group_flaw(head, first + second) is None,
    ensures
        group_flaw(head, first) is None,
        group_flaw(head_after(head, first), second) is None,
    decreases second.len(),
{
    let both = first + second;
    if second.len() == 0 {
        assert(both =~= first);
    } else {
        assert(both.drop_last() =~= first + second.drop_last());
        lemma_flawless_parts(head, first, second.drop_last());
        assert(both.last() == second.last());
        assert(head_after(head, both.drop_last()) == head_after(
            head_after(head, first),
            second.drop_last(),
        ));
    }
}

/// The operations of two stretches are those of the first, then those of
/// the second.
pub proof fn lemma_operations_join(first: Seq<EntryModel>, second: Seq<EntryModel>)
    ensures
        all_operations(first + second) == all_operations(first) + all_operations(second),
    decreases second.len(),
{
    let both = first + second;
    if second.len() == 0 {
        assert(both =~= first);
        assert(all_operations(first) + all_operations(second) =~= all_operations(first));
    } else {
        assert(both.drop_last() =~= first + second.drop_last());
        lemma_operations_join(first, second.drop_last());
        assert(all_operations(both) =~= all_operations(first) + all_operations(second));
    }
}

/// The operations of both stretches are at home.
pub proof fn lemma_home_parts(
    catalog: Seq<FamilyModel>,
    first: Seq<EntryModel>,
    second: Seq<EntryModel>,
)
    requires
        operations_home(catalog, all_operations(first) + all_operations(second)),
    ensures
        operations_home(catalog, all_operations(first)),
        operations_home(catalog, all_operations(second)),
{
    let a = all_operations(first);
    let b = all_operations(second);
    let both = a + b;
    assert forall|i: int, family: FamilyModel|
        #![trigger a[i], in_catalog(catalog, family)]
        0 <= i < a.len() && in_catalog(catalog, family) && a[i].family.version()
            == family.version() implies a[i].family.table == family.table by {
        assert(both[i] == a[i]);
    }
    assert forall|i: int, family: FamilyModel|
        #![trigger b[i], in_catalog(catalog, family)]
        0 <= i < b.len() && in_catalog(catalog, family) && b[i].family.version()
            == family.version() implies b[i].family.table == family.table by {
        assert(both[a.len() + i] == b[i]);
    }
}

/// A checked write under a domain key is plain.
proof fn lemma_checked_plain(
    catalog: Seq<FamilyModel>,
    tables: TablesModel,
    table: Seq<char>,
    write: WriteModel,
)
    requires
        registered(catalog, table),
        write_key(write) is Domain,
    ensures
        checked(tables, table, write) matches Ok(fact) ==> plain_write(catalog, fact),
{
}

/// Planned writes under domain keys are plain.
proof fn lemma_planned_plain(
    catalog: Seq<FamilyModel>,
    tables: TablesModel,
    table: Seq<char>,
    writes: Seq<WriteModel>,
)
    requires
        registered(catalog, table),
        forall|i: int| 0 <= i < writes.len() ==> write_key(#[trigger] writes[i]) is Domain,
    ensures
        planned(tables, table, writes) matches Ok(facts) ==> forall|i: int|
            0 <= i < facts.len() ==> plain_write(catalog, #[trigger] facts[i]),
    decreases writes.len(),
{
    if writes.len() > 0 {
        let less = writes.drop_last();
        assert forall|i: int| 0 <= i < less.len() implies write_key(
            #[trigger] less[i],
        ) is Domain by {
            assert(less[i] == writes[i]);
        }
        lemma_planned_plain(catalog, tables, table, less);
        assert(write_key(writes[writes.len() - 1]) is Domain);
        lemma_checked_plain(catalog, tables, table, writes.last());
    }
}

/// Writes planned over several tables under domain keys are plain.
proof fn lemma_planned_across_plain(
    catalog: Seq<FamilyModel>,
    tables: TablesModel,
    writes: Seq<(Seq<char>, WriteModel)>,
)
    requires
        forall|i: int| 0 <= i < writes.len() ==> write_key((#[trigger] writes[i]).1) is Domain,
    ensures
        planned_across(catalog, tables, writes) matches Ok(facts) ==> forall|i: int|
            0 <= i < facts.len() ==> plain_write(catalog, #[trigger] facts[i]),
    decreases writes.len(),
{
    if writes.len() > 0 {
        let less = writes.drop_last();
        assert forall|i: int| 0 <= i < less.len() implies write_key(
            (#[trigger] less[i]).1,
        ) is Domain by {
            assert(less[i] == writes[i]);
        }
        lemma_planned_across_plain(catalog, tables, less);
        let (table, write) = writes.last();
        assert(write_key(writes[writes.len() - 1].1) is Domain);
        if registered(catalog, table) {
            lemma_checked_plain(catalog, tables, table, write);
        }
    }
}

/// Every write verb keeps the log telling of all records and the checkpoint
/// standing for its stretch: a lone write, a group over one table, and a
/// group over several.
pub proof fn lemma_writes_told(
    engine: EngineModel,
    start: ResumeModel,
    table: Seq<char>,
    write: WriteModel,
    group: Seq<WriteModel>,
    across: Seq<(Seq<char>, WriteModel)>,
)
    requires
        told(engine, start),
        engine.policy is Some,
        has_room(engine, 1),
        write_key(write) is Domain,
        forall|i: int| 0 <= i < group.len() ==> write_key(#[trigger] group[i]) is Domain,
        forall|i: int| 0 <= i < across.len() ==> write_key((#[trigger] across[i]).1) is Domain,
    ensures
        write_outcome(engine, table, write) matches Ok(after) ==> told(after, start),
        commit_outcome(engine, table, group) matches Ok(after) ==> told(after, start),
        atomic_outcome(engine, across) matches Ok(after) ==> told(after, start),
{
    let tables = standing_tables(engine);
    if registered(engine.catalog, table) {
        lemma_checked_plain(engine.catalog, tables, table, write);
        lemma_planned_plain(engine.catalog, tables, table, group);
        if let Ok(fact) = checked(tables, table, write) {
            lemma_commit_told(engine, start, seq![fact]);
        }
        if let Ok(facts) = planned(tables, table, group) {
            lemma_commit_told(engine, start, facts);
        }
    }
    lemma_planned_across_plain(engine.catalog, tables, across);
    if let Ok(facts) = planned_across(engine.catalog, tables, across) {
        lemma_commit_told(engine, start, facts);
    }
}

/// Every verb on an engine-identified table keeps the log telling of all
/// records and the checkpoint standing for its stretch.
pub proof fn lemma_identified_writes_told(
    engine: EngineModel,
    start: ResumeModel,
    table: Seq<char>,
    identifier: u64,
    bytes: Seq<u8>,
)
    requires
        told(engine, start),
        engine.policy is Some,
        has_room(engine, 1),
    ensures
        identified_assertion(engine, table, bytes) matches Ok(after) ==> told(after, start),
        identified_mutation(engine, table, identifier, bytes) matches Ok(after) ==> told(
            after,
            start,
        ),
        identified_retraction(engine, table, identifier) matches Ok(after) ==> told(after, start),
{
    if registered(engine.catalog, table) {
        let minted = next_identifier(standing_tables(engine), table);
        lemma_commit_told(
            engine,
            start,
            seq![identified_write(SemaOperation::Assert, table, minted, bytes)],
        );
        lemma_commit_told(
            engine,
            start,
            seq![identified_write(SemaOperation::Mutate, table, identifier, bytes)],
        );
        lemma_commit_told(
            engine,
            start,
            seq![
                identified_removal(
                    table,
                    identifier,
                    standing_tables(engine).identified[(table, identifier)],
                ),
            ],
        );
    }
}

/// The same families, in whatever order they are listed.
pub open spec fn same_families(a: Seq<FamilyModel>, b: Seq<FamilyModel>) -> bool {
    forall|family: FamilyModel| #[trigger] in_catalog(a, family) <==> in_catalog(b, family)
}

/// A catalog that names each table once names a family of it at its table.
proof fn lemma_at_home(catalog: Seq<FamilyModel>, family: FamilyModel)
    requires
        forall|i: int, j: int|
            0 <= i < j < catalog.len() ==> (#[trigger] catalog[i]).table != (
            #[trigger] catalog[j]).table,
        in_catalog(catalog, family),
    ensures
        family_at(catalog, family.table) == Some(family),
{
    let i = choose|i: int| 0 <= i < catalog.len() && #[trigger] catalog[i] == family;
    assert(registered(catalog, family.table));
    lemma_family_at(catalog, family.table);
    let found = family_at(catalog, family.table)->0;
    let j = choose|j: int| 0 <= j < catalog.len() && #[trigger] catalog[j] == found;
    if i < j {
        assert(catalog[i].table != catalog[j].table);
    } else if j < i {
        assert(catalog[j].table != catalog[i].table);
    }
}

/// A reopened store's catalog holds the same families.
proof fn lemma_reopened_families(engine: EngineModel)
    requires
        catalog_apart(engine.catalog),
        catalog_stored(engine.store.catalog, engine.catalog),
    ensures
        same_families(engine.catalog, stored_catalog(engine.store.catalog)),
        catalog_apart(stored_catalog(engine.store.catalog)),
        forall|table: Seq<char>| #[trigger]
            registered(engine.catalog, table) ==> registered(
                stored_catalog(engine.store.catalog),
                table,
            ),
{
    let before = engine.catalog;
    let after = stored_catalog(engine.store.catalog);
    lemma_reopened_tables_apart(engine.store.catalog, before);
    assert forall|family: FamilyModel| #[trigger] in_catalog(before, family) <==> in_catalog(
        after,
        family,
    ) by {
        lemma_catalog_survives_reopen(engine.store.catalog, before, family.table);
        if in_catalog(before, family) {
            lemma_at_home(before, family);
            lemma_found_registered(after, family.table);
            lemma_family_at(after, family.table);
        }
        if in_catalog(after, family) {
            lemma_at_home(after, family);
            lemma_found_registered(before, family.table);
            lemma_family_at(before, family.table);
        }
    }
    assert forall|i: int, j: int| 0 <= i < j < after.len() implies (
    #[trigger] after[i]).table != (#[trigger] after[j]).table && after[i].version()
        != after[j].version() by {
        assert(in_catalog(after, after[i]));
        assert(in_catalog(after, after[j]));
        if after[i].version() == after[j].version() {
            lemma_apart(before, after[i], after[j]);
        }
    }
    assert forall|table: Seq<char>| #[trigger] registered(before, table) implies registered(
        after,
        table,
    ) by {
        lemma_family_at(before, table);
        let family = family_at(before, table)->0;
        assert(in_catalog(after, family));
        let i = choose|i: int| 0 <= i < after.len() && #[trigger] after[i] == family;
        assert(after[i].table == table);
    }
}

/// A table that a catalog names a family at is registered.
pub proof fn lemma_found_registered(catalog: Seq<FamilyModel>, table: Seq<char>)
    requires
        family_at(catalog, table) is Some,
    ensures
        registered(catalog, table),
    decreases catalog.len(),
{
    if catalog[0].table == table {
        assert(catalog[0].table == table);
    } else {
        let rest = catalog.drop_first();
        lemma_found_registered(rest, table);
        let i = choose|i: int| 0 <= i < rest.len() && (#[trigger] rest[i]).table == table;
        assert(catalog[i + 1].table == table);
    }
}

/// Families that are declared at home under one catalog are so under
/// another of the same families.
proof fn lemma_same_home(a: Seq<FamilyModel>, b: Seq<FamilyModel>, view: FoldModel)
    requires
        same_families(a, b),
        identities_home(a, view),
    ensures
        identities_home(b, view),
{
    assert forall|family: FamilyModel| #[trigger]
        in_catalog(b, family) && view.identities.dom().contains(family.version()) implies
        view.identities[family.version()].table == family.table by {
        assert(in_catalog(a, family));
    }
}

/// Operations that are at home under one catalog are so under another of
/// the same families.
proof fn lemma_same_operations_home(
    a: Seq<FamilyModel>,
    b: Seq<FamilyModel>,
    operations: Seq<OperationModel>,
)
    requires
        same_families(a, b),
        operations_home(a, operations),
    ensures
        operations_home(b, operations),
{
    assert forall|i: int, family: FamilyModel|
        #![trigger operations[i], in_catalog(b, family)]
        0 <= i < operations.len() && in_catalog(b, family) && operations[i].family.version()
            == family.version() implies operations[i].family.table == family.table by {
        assert(in_catalog(a, family));
    }
}

/// Tables that match a view under one catalog match it under another of
/// the same families.
proof fn lemma_same_match(
    a: Seq<FamilyModel>,
    b: Seq<FamilyModel>,
    tables: TablesModel,
    view: FoldModel,
)
    requires
        same_families(a, b),
        forall|table: Seq<char>| #[trigger] registered(a, table) ==> registered(b, table),
        view_registered(a, view),
        tables_match(a, tables, view),
    ensures
        view_registered(b, view),
        tables_match(b, tables, view),
{
    lemma_same_home(a, b, view);
    assert forall|at: Coordinate| #[trigger] kept_at(view, at) is Some implies exists|
        family: FamilyModel,
    | #[trigger] in_catalog(b, family) && family.version() == at.0 by {
        let family = choose|family: FamilyModel| #[trigger]
            in_catalog(a, family) && family.version() == at.0;
        assert(in_catalog(b, family));
    }
    assert forall|family: FamilyModel, key: KeyModel|
        #![trigger in_catalog(b, family), held_at(tables, family.table, key)]
        in_catalog(b, family) implies held_at(tables, family.table, key) == kept_at(
        view,
        (family.version(), key),
    ) by {
        assert(in_catalog(a, family));
    }
}

/// Closing a store and opening it again keeps the log telling of all
/// records, and the checkpoint standing for its stretch.
pub proof fn lemma_reopen_told(engine: EngineModel, start: ResumeModel)
    requires
        told(engine, start),
        catalog_stored(engine.store.catalog, engine.catalog),
        engine.store.layout == Some(STORAGE_LAYOUT),
    ensures
        reopened(engine) is Ok,
        told(reopened(engine)->Ok_0, start),
{
    let after = reopened(engine)->Ok_0;
    assert(after.store == engine.store);
    lemma_reopened_families(engine);
    let operations = all_operations(log_values(engine.store.versioned_log));
    let view = log_fold(engine.store, start)->Ok_0;
    lemma_same_home(engine.catalog, after.catalog, start_view(start));
    lemma_same_operations_home(engine.catalog, after.catalog, operations);
    lemma_same_match(engine.catalog, after.catalog, engine.store.tables, view);
    if let Ok(Some(checkpoint)) = loaded(engine.store) {
        let count = choose|count: int| #[trigger] stands_for(engine, start, checkpoint, count);
        let back = fold_rows(empty_fold(), all_rows(checkpoint.segments))->Ok_0;
        lemma_same_home(engine.catalog, after.catalog, back);
        assert(stands_for(after, start, checkpoint, count));
    }
}

} // verus!
