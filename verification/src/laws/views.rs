//! Folded views and where an engine stands: what the history says last of
//! every coordinate, what is listed of a catalog, and what markers report.

use vstd::prelude::*;

use crate::catalog::{Catalog, TableRegistration};
use crate::checkpoint::{all_rows, row_weight, rows_weight, SEGMENT_BYTE_BUDGET};
use crate::engine::{Engine, EngineOpen};
use crate::engine_model::{
    all_operations, standing_sequence, standing_snapshot, standing_tables, EngineModel,
    LAYOUT_BEFORE_SLOT, STORAGE_LAYOUT,
};
use crate::error::{Error, Failure};
use crate::fold::{
    empty_fold, fold_entries, fold_operations, fold_rows, folded, CanonicalView, Coordinate,
    FoldModel, MaterializeRows, RowModel, ViewRow,
};
use crate::laws::covering::{entry_folds, lemma_record_rows, lemma_what_folds, rows_of_view};
use crate::laws::declaring::{
    first_at_table, first_of_version, lemma_first_at_table, lemma_first_of_version, version_free,
};
use crate::laws::folds::{kept_at, lemma_folded_sound, sound};
use crate::laws::landing::{lemma_flatten_last, lemma_operations_in_order, operations_in_order};
use crate::laws::rebuild::{held_at, lemma_materialized_rows};
use crate::laws::restoring::{clears_of_view, lemma_clearing_rows};
use crate::models::{option_view, views};
use crate::mutation::KeyedAssertion;
use crate::query::{FilterModel, QueryPlan};
use crate::record::{key_text, KeyModel};
use crate::sequence::CommitSequence;
use crate::snapshot::{DatabaseMarker, SnapshotIdentifier};
use crate::specification::{lemma_archives_keep_apart, DomainRecordKey, TableSpecification};
use crate::store::{counted_so_far, Store};
use crate::table::TableName;
use crate::text::decimal_text;
use crate::versioning::{
    sealed, versions, EntryDigest, EntryModel, FamilyIdentity, FamilyModel, OperationModel,
    VersionedCommitLogEntry, VersioningPolicy,
};

verus! {

/// An operation is about a coordinate: of that family version and key.
pub open spec fn spoken_of(operation: OperationModel, at: Coordinate) -> bool {
    operation.family.version() == at.0 && operation.key == Some(at.1)
}

/// A row is at a coordinate.
pub open spec fn standing_at(row: RowModel, at: Coordinate) -> bool {
    row.family.version() == at.0 && row.key == at.1
}

/// What an operation leaves where it speaks: its record, or nothing.
pub open spec fn word_of(operation: OperationModel) -> Option<Seq<u8>> {
    if operation.operation is Retract {
        None
    } else {
        operation.payload
    }
}

/// A view says of every coordinate what the last operation about it left;
/// where none is, what the last row there holds; and else nothing.
pub open spec fn says_last(
    view: FoldModel,
    rows: Seq<RowModel>,
    operations: Seq<OperationModel>,
) -> bool {
    forall|at: Coordinate| #[trigger] says_last_at(view, rows, operations, at)
}

/// The last word on one coordinate.
pub open spec fn says_last_at(
    view: FoldModel,
    rows: Seq<RowModel>,
    operations: Seq<OperationModel>,
    at: Coordinate,
) -> bool {
    let unspoken = forall|i: int|
        0 <= i < operations.len() ==> !spoken_of(#[trigger] operations[i], at);
    &&& forall|i: int|
        #![trigger operations[i]]
        0 <= i < operations.len() && spoken_of(operations[i], at) && (forall|j: int|
            i < j < operations.len() ==> !spoken_of(#[trigger] operations[j], at)) ==> kept_at(
            view,
            at,
        ) == word_of(operations[i])
    &&& unspoken ==> rows_say(view, rows, at)
}

/// What the rows that a history starts from say of a coordinate.
pub open spec fn rows_say(view: FoldModel, rows: Seq<RowModel>, at: Coordinate) -> bool {
    &&& forall|i: int|
        #![trigger rows[i]]
        0 <= i < rows.len() && standing_at(rows[i], at) && (forall|j: int|
            i < j < rows.len() ==> !standing_at(#[trigger] rows[j], at)) ==> kept_at(view, at)
            == rows[i].payload
    &&& (forall|i: int|
        0 <= i < rows.len() ==> !standing_at(#[trigger] rows[i], at)) ==> kept_at(view, at) is None
}

/// A view has a cell, kept or cleared, exactly where the history wrote.
pub open spec fn cells_written(
    view: FoldModel,
    rows: Seq<RowModel>,
    operations: Seq<OperationModel>,
) -> bool {
    forall|at: Coordinate| #[trigger]
        view.cells.dom().contains(at) <==> {
            ||| exists|i: int| 0 <= i < rows.len() && standing_at(#[trigger] rows[i], at)
            ||| exists|i: int|
                0 <= i < operations.len() && spoken_of(#[trigger] operations[i], at)
        }
}

proof fn lemma_rows_written(rows: Seq<RowModel>)
    requires
        fold_rows(empty_fold(), rows) is Ok,
    ensures
        cells_written(fold_rows(empty_fold(), rows)->Ok_0, rows, Seq::empty()),
    decreases rows.len(),
{
    if rows.len() > 0 {
        let less = rows.drop_last();
        let end = rows.len() - 1;
        lemma_rows_written(less);
        let before = fold_rows(empty_fold(), less)->Ok_0;
        let view = fold_rows(empty_fold(), rows)->Ok_0;
        assert forall|at: Coordinate| #[trigger] view.cells.dom().contains(at) <==> exists|i: int|
            0 <= i < rows.len() && standing_at(#[trigger] rows[i], at) by {
            assert(view.cells.dom().contains(at) <==> before.cells.dom().contains(at)
                || standing_at(rows[end], at));
            if before.cells.dom().contains(at) {
                let i = choose|i: int| 0 <= i < less.len() && standing_at(#[trigger] less[i], at);
                assert(standing_at(rows[i], at));
            }
            if exists|i: int| 0 <= i < rows.len() && standing_at(#[trigger] rows[i], at) {
                let i = choose|i: int| 0 <= i < rows.len() && standing_at(#[trigger] rows[i], at);
                if i < end {
                    assert(standing_at(less[i], at));
                }
            }
        }
    }
}

proof fn lemma_operations_written(
    start: FoldModel,
    rows: Seq<RowModel>,
    operations: Seq<OperationModel>,
)
    requires
        fold_operations(start, operations) is Ok,
        cells_written(start, rows, Seq::empty()),
    ensures
        cells_written(fold_operations(start, operations)->Ok_0, rows, operations),
    decreases operations.len(),
{
    if operations.len() > 0 {
        let less = operations.drop_last();
        let end = operations.len() - 1;
        lemma_operations_written(start, rows, less);
        let before = fold_operations(start, less)->Ok_0;
        let view = fold_operations(start, operations)->Ok_0;
        assert forall|at: Coordinate| #[trigger] view.cells.dom().contains(at) <==> {
            ||| exists|i: int| 0 <= i < rows.len() && standing_at(#[trigger] rows[i], at)
            ||| exists|i: int|
                0 <= i < operations.len() && spoken_of(#[trigger] operations[i], at)
        } by {
            assert(view.cells.dom().contains(at) <==> before.cells.dom().contains(at) || spoken_of(
                operations[end],
                at,
            ));
            if exists|i: int| 0 <= i < less.len() && spoken_of(#[trigger] less[i], at) {
                let i = choose|i: int| 0 <= i < less.len() && spoken_of(#[trigger] less[i], at);
                assert(spoken_of(operations[i], at));
            }
            if exists|i: int| 0 <= i < operations.len() && spoken_of(#[trigger] operations[i], at) {
                let i = choose|i: int|
                    0 <= i < operations.len() && spoken_of(#[trigger] operations[i], at);
                if i < end {
                    assert(spoken_of(less[i], at));
                }
            }
        }
    } else {
        assert(operations =~= Seq::empty());
    }
}

#[verifier::rlimit(40)]
proof fn lemma_rows_say(rows: Seq<RowModel>, at: Coordinate)
    requires
        fold_rows(empty_fold(), rows) is Ok,
    ensures
        rows_say(fold_rows(empty_fold(), rows)->Ok_0, rows, at),
    decreases rows.len(),
{
    if rows.len() > 0 {
        let less = rows.drop_last();
        let end = rows.len() - 1;
        lemma_rows_say(less, at);
        let before = fold_rows(empty_fold(), less)->Ok_0;
        let view = fold_rows(empty_fold(), rows)->Ok_0;
        assert(standing_at(rows[end], at) ==> kept_at(view, at) == rows[end].payload);
        assert(!standing_at(rows[end], at) ==> kept_at(view, at) == kept_at(before, at));
        assert forall|i: int|
            #![trigger rows[i]]
            0 <= i < rows.len() && standing_at(rows[i], at) && (forall|j: int|
                i < j < rows.len() ==> !standing_at(#[trigger] rows[j], at)) implies kept_at(
            view,
            at,
        ) == rows[i].payload by {
            if i < end {
                assert(!standing_at(rows[end], at));
                assert(less[i] == rows[i]);
                assert forall|j: int| i < j < less.len() implies !standing_at(
                    #[trigger] less[j],
                    at,
                ) by {
                    assert(less[j] == rows[j]);
                }
                assert(kept_at(before, at) == less[i].payload);
            }
        }
        if forall|i: int| 0 <= i < rows.len() ==> !standing_at(#[trigger] rows[i], at) {
            assert(!standing_at(rows[end], at));
            assert forall|i: int| 0 <= i < less.len() implies !standing_at(
                #[trigger] less[i],
                at,
            ) by {
                assert(less[i] == rows[i]);
            }
        }
    }
}

#[verifier::rlimit(40)]
proof fn lemma_operations_say(
    start: FoldModel,
    rows: Seq<RowModel>,
    operations: Seq<OperationModel>,
    at: Coordinate,
)
    requires
        fold_operations(start, operations) is Ok,
        rows_say(start, rows, at),
    ensures
        says_last_at(fold_operations(start, operations)->Ok_0, rows, operations, at),
    decreases operations.len(),
{
    if operations.len() > 0 {
        let less = operations.drop_last();
        let end = operations.len() - 1;
        lemma_operations_say(start, rows, less, at);
        let before = fold_operations(start, less)->Ok_0;
        let view = fold_operations(start, operations)->Ok_0;
        assert(spoken_of(operations[end], at) ==> kept_at(view, at) == word_of(operations[end]));
        assert(!spoken_of(operations[end], at) ==> kept_at(view, at) == kept_at(before, at));
        assert forall|i: int|
            #![trigger operations[i]]
            0 <= i < operations.len() && spoken_of(operations[i], at) && (forall|j: int|
                i < j < operations.len() ==> !spoken_of(
                    #[trigger] operations[j],
                    at,
                )) implies kept_at(view, at) == word_of(operations[i]) by {
            if i < end {
                assert(!spoken_of(operations[end], at));
                assert(less[i] == operations[i]);
                assert forall|j: int| i < j < less.len() implies !spoken_of(
                    #[trigger] less[j],
                    at,
                ) by {
                    assert(less[j] == operations[j]);
                }
            }
        }
        if forall|i: int| 0 <= i < operations.len() ==> !spoken_of(#[trigger] operations[i], at) {
            assert(!spoken_of(operations[end], at));
            assert forall|i: int| 0 <= i < less.len() implies !spoken_of(
                #[trigger] less[i],
                at,
            ) by {
                assert(less[i] == operations[i]);
            }
        }
    }
}

proof fn lemma_operations_fold_on(
    view: FoldModel,
    first: Seq<OperationModel>,
    second: Seq<OperationModel>,
)
    requires
        fold_operations(view, first) is Ok,
    ensures
        fold_operations(view, first + second) == fold_operations(
            fold_operations(view, first)->Ok_0,
            second,
        ),
    decreases second.len(),
{
    let both = first + second;
    if second.len() == 0 {
        assert(both =~= first);
    } else {
        lemma_operations_fold_on(view, first, second.drop_last());
        assert(both.drop_last() =~= first + second.drop_last());
    }
}

proof fn lemma_entries_fold_flat(view: FoldModel, head: Option<Seq<u8>>, entries: Seq<EntryModel>)
    requires
        fold_entries(view, head, entries) is Ok,
    ensures
        fold_operations(view, all_operations(entries)) == fold_entries(view, head, entries),
    decreases entries.len(),
{
    if entries.len() > 0 {
        let less = entries.drop_last();
        lemma_entries_fold_flat(view, head, less);
        lemma_operations_fold_on(view, all_operations(less), entries.last().operations);
    }
}

/// What a history folds to says of every coordinate the last word that the
/// history has on it.
pub proof fn lemma_fold_says_last(
    rows: Seq<RowModel>,
    entries: Seq<EntryModel>,
    head: Option<Seq<u8>>,
)
    requires
        folded(rows, entries, head) is Ok,
    ensures
        says_last(folded(rows, entries, head)->Ok_0, rows, operations_in_order(entries)),
        cells_written(folded(rows, entries, head)->Ok_0, rows, operations_in_order(entries)),
{
    let start = fold_rows(empty_fold(), rows)->Ok_0;
    lemma_entries_fold_flat(start, head, entries);
    lemma_rows_written(rows);
    lemma_operations_written(start, rows, all_operations(entries));
    lemma_operations_in_order(entries);
    let operations = operations_in_order(entries);
    assert forall|at: Coordinate| #[trigger]
        says_last_at(folded(rows, entries, head)->Ok_0, rows, operations, at) by {
        lemma_rows_say(rows, at);
        lemma_operations_say(start, rows, operations, at);
    }
}

/// Folding succeeds exactly on rows and entries that fold, and gives the
/// last word on every coordinate.
pub proof fn lemma_fold_call(
    rows: &[ViewRow],
    entries: &[VersionedCommitLogEntry],
    head: Option<EntryDigest>,
    outcome: Result<CanonicalView, Error>,
)
    requires
        call_ensures(CanonicalView::fold, (rows, entries, head), outcome),
    ensures
        outcome is Ok <==> {
            &&& forall|i: int|
                0 <= i < views(rows@).len() ==> (#[trigger] views(rows@)[i]).payload is Some
            &&& forall|e: int|
                0 <= e < views(entries@).len() ==> #[trigger] entry_folds(
                    option_view(head),
                    views(entries@),
                    e,
                )
        },
        outcome matches Ok(view) ==> says_last(
            view@,
            views(rows@),
            operations_in_order(views(entries@)),
        ) && cells_written(view@, views(rows@), operations_in_order(views(entries@))) && sound(
            view@,
        ),
{
    lemma_what_folds(views(rows@), views(entries@), option_view(head));
    if outcome is Ok {
        lemma_fold_says_last(views(rows@), views(entries@), option_view(head));
        lemma_folded_sound(views(rows@), views(entries@), option_view(head));
    }
}

/// A folded view materializes whatever the inventory holds: one row for each
/// record, in order, and one for each coordinate that was cleared.
pub proof fn lemma_into_rows_call(
    view: CanonicalView,
    inventory: &[FamilyIdentity],
    outcome: Result<MaterializeRows, Error>,
)
    requires
        sound(view@),
        call_ensures(CanonicalView::into_rows, (view, inventory), outcome),
    ensures
        outcome is Ok,
        rows_of_view(outcome->Ok_0@.rows, view@),
        clears_of_view(outcome->Ok_0@.cleared, view@),
{
    lemma_materialized_rows(view@, views(inventory@));
    lemma_record_rows(view@);
    lemma_clearing_rows(view@);
}

/// A catalog knows exactly the tables of its families, finds for each the
/// first family at it, and for each version the first family of it.
pub proof fn lemma_catalog_calls(
    catalog: &Catalog,
    name: &TableName,
    known: bool,
    table: &str,
    at_table: Option<&TableRegistration>,
    identity: &FamilyIdentity,
    of_version: Option<&TableRegistration>,
)
    requires
        call_ensures(Catalog::is_registered, (catalog, name), known),
        call_ensures(Catalog::registration_for_table, (catalog, table), at_table),
        call_ensures(Catalog::registration_for_family, (catalog, identity), of_version),
    ensures
        known <==> exists|i: int|
            0 <= i < catalog@.len() && (#[trigger] catalog@[i]).table == name@,
        match at_table {
            Some(found) => exists|at: int| #[trigger]
                first_at_table(catalog@, table@, at) && catalog@[at] == found@,
            None => forall|i: int|
                0 <= i < catalog@.len() ==> (#[trigger] catalog@[i]).table != table@,
        },
        match of_version {
            Some(found) => exists|at: int| #[trigger]
                first_of_version(catalog@, identity@.version(), at) && catalog@[at] == found@,
            None => version_free(catalog@, identity@.version()),
        },
{
    lemma_first_at_table(catalog@, table@);
    lemma_first_of_version(catalog@, identity@.version());
}

/// A catalog takes a registration last, and only of a table that it does not
/// have; binding a table anew replaces its family in place.
pub proof fn lemma_catalog_changes(
    catalog: &mut Catalog,
    registration: TableRegistration,
    outcome: Result<(), Error>,
)
    requires
        call_ensures(Catalog::insert, (catalog, registration), outcome),
    ensures
        outcome is Ok <==> forall|i: int|
            0 <= i < old(catalog)@.len() ==> (#[trigger] old(catalog)@[i]).table
                != registration@.table,
        match outcome {
            Ok(()) => {
                &&& final(catalog)@.drop_last() == old(catalog)@
                &&& final(catalog)@.last() == registration@
            },
            Err(error) => {
                &&& final(catalog)@ == old(catalog)@
                &&& error@ == (Failure::TableAlreadyRegistered { table: registration@.table })
            },
        },
{
    if outcome is Ok {
        assert(final(catalog)@.drop_last() =~= old(catalog)@);
    }
}

/// Markers report where a session stands while one is engaged, and else
/// where the store stands, which is at nothing before its first commit.
pub proof fn lemma_marker_calls(
    engine: &Engine,
    snapshot: SnapshotIdentifier,
    sequence: CommitSequence,
    marker: DatabaseMarker,
)
    requires
        call_ensures(Engine::latest_snapshot, (engine,), snapshot),
        call_ensures(Engine::current_commit_sequence, (engine,), sequence),
        call_ensures(Engine::current_database_marker, (engine,), marker),
    ensures
        marker@.snapshot == snapshot@,
        marker@.commit_sequence == sequence@,
        engine@.session matches Some(session) ==> snapshot@ == session.snapshot && sequence@
            == session.commit_sequence,
        engine@.session is None ==> {
            &&& snapshot@ == match engine@.store.snapshot {
                Some(number) => number,
                None => 0,
            }
            &&& sequence@ == match engine@.store.commit_sequence {
                Some(number) => number,
                None => 0,
            }
        },
{
}

/// Reads see the tables of a session while one is engaged, and else those of
/// the store.
pub proof fn lemma_standing(engine: EngineModel)
    ensures
        standing_tables(engine) == if engine.session is Some {
            engine.session->0.tables
        } else {
            engine.store.tables
        },
        standing_sequence(engine) == if engine.session is Some {
            engine.session->0.commit_sequence
        } else {
            counted_so_far(engine.store.commit_sequence)
        },
        standing_snapshot(engine) == if engine.session is Some {
            engine.session->0.snapshot
        } else {
            counted_so_far(engine.store.snapshot)
        },
        counted_so_far(None) == 0,
        forall|number: u64| #[trigger] counted_so_far(Some(number)) == number,
{
}

/// A request to open an engine: over the store it was given, without
/// versioning until a policy is added, and then under that policy.
pub proof fn lemma_open_request(
    store: Store,
    request: EngineOpen,
    policy: VersioningPolicy,
    versioned: EngineOpen,
)
    requires
        call_ensures(EngineOpen::new, (store,), request),
        call_ensures(EngineOpen::with_versioning, (request, policy), versioned),
    ensures
        request@.0 == store@,
        request@.1 is None,
        request@.2 is LocalCheckpoint,
        versioned@.0 == store@,
        versioned@.1 == Some(policy@),
        versioned@.2 == policy.topology(),
{
}

/// A sealed entry differs from what was sealed in its digest alone, which is
/// that of its fields.
pub proof fn lemma_sealed(entry: EntryModel)
    ensures
        sealed(entry).store_name == entry.store_name,
        sealed(entry).schema_hash == entry.schema_hash,
        sealed(entry).commit_sequence == entry.commit_sequence,
        sealed(entry).snapshot == entry.snapshot,
        sealed(entry).previous == entry.previous,
        sealed(entry).operations == entry.operations,
        sealed(sealed(entry)) == sealed(entry),
{
}

/// The rows of segments are those of each, one after the other.
pub proof fn lemma_all_rows(segments: Seq<Seq<RowModel>>)
    ensures
        all_rows(segments) == segments.flatten(),
    decreases segments.len(),
{
    lemma_flatten_last(segments);
    if segments.len() > 0 {
        lemma_all_rows(segments.drop_last());
    }
}

/// Rows weigh what each of them weighs; a segment may weigh a mebibyte.
pub proof fn lemma_rows_weight(rows: Seq<RowModel>, row: RowModel)
    ensures
        rows_weight(Seq::empty()) == 0,
        rows_weight(rows.push(row)) == rows_weight(rows) + row_weight(row),
        SEGMENT_BYTE_BUDGET == 1024 * 1024,
{
    assert(rows.push(row).drop_last() =~= rows);
}

/// The text of a key is its own, or the decimal digits of its identifier.
pub proof fn lemma_key_text(text: Seq<char>, number: u64)
    ensures
        key_text(KeyModel::Domain(text)) == text,
        key_text(KeyModel::Identifier(number)) == decimal_text(number as nat),
{
}

/// The versions of families are their names and schemas, one for one.
pub proof fn lemma_versions(families: Seq<FamilyModel>)
    ensures
        versions(families).len() == families.len(),
        forall|i: int|
            0 <= i < families.len() ==> #[trigger] versions(families)[i] == (
                families[i].family,
                families[i].schema_hash,
            ),
{
}

/// The layout that this engine writes is the seventh; a store from before
/// layouts were recorded is of the first.
pub proof fn lemma_layouts()
    ensures
        STORAGE_LAYOUT == 7,
        LAYOUT_BEFORE_SLOT == 1,
{
}

/// A new store holds nothing and has counted nothing.
pub proof fn lemma_new_store(store: Store)
    requires
        call_ensures(Store::new, (), store),
    ensures
        forall|table: Seq<char>| !#[trigger] store@.catalog.dom().contains(table),
        forall|number: u64| !#[trigger] store@.commit_log.dom().contains(number),
        forall|number: u64| !#[trigger] store@.versioned_log.dom().contains(number),
        forall|number: u64| !#[trigger] store@.outbox.dom().contains(number),
        forall|number: u64| !#[trigger] store@.checkpoints.dom().contains(number),
        forall|number: u64| !#[trigger] store@.subscriptions.dom().contains(number),
        forall|table: Seq<char>, key: KeyModel| #[trigger]
            held_at(store@.tables, table, key) is None,
        store@.commit_sequence is None,
        store@.snapshot is None,
        store@.chain_head is None,
        store@.next_subscription is None,
        store@.latest_checkpoint is None,
        store@.mirror is None,
        store@.staged is None,
        store@.layout is None,
{
}

/// What is asserted through a table's declaration is asked for by it: an
/// assertion and a query for one typed key are of one table and one key, and
/// are refused alike; other typed keys have other keys.
pub proof fn lemma_declared_requests_meet<Table: TableSpecification>(
    key: &Table::Key,
    record: Table::Record,
    assertion: Result<KeyedAssertion<Table::Record>, Error>,
    query: Result<QueryPlan<Table::Record>, Error>,
    other: &Table::Key,
    elsewhere: Result<QueryPlan<Table::Record>, Error>,
)
    requires
        call_ensures(<Table as TableSpecification>::assertion, (key, record), assertion),
        call_ensures(<Table as TableSpecification>::query, (key,), query),
        call_ensures(<Table as TableSpecification>::query, (other,), elsewhere),
    ensures
        assertion is Ok <==> key.archived() is Ok,
        query is Ok <==> key.archived() is Ok,
        assertion is Ok ==> {
            let made = assertion->Ok_0@;
            let plan = query->Ok_0@;
            &&& made.table == Table::table()
            &&& made.record == record
            &&& plan.table == made.table
            &&& plan.node is ByKey
            &&& plan.node->ByKey_0@ == made.key
            &&& plan.filter == FilterModel::Key(made.key)
            &&& elsewhere is Ok && other.archived() != key.archived()
                ==> elsewhere->Ok_0@.node->ByKey_0@ != made.key
        },
{
    if assertion is Ok && elsewhere is Ok {
        lemma_archives_keep_apart(key.archived()->Ok_0, other.archived()->Ok_0);
    }
}

} // verus!
