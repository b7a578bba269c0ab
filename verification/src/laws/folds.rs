//! The fold of the log: the last write of every key decides, a fold can
//! stop and go on, and a checkpoint stands for the log it covers.

use vstd::prelude::*;

use crate::error::Failure;
use crate::fold::{
    cleared_rows, empty_fold, fold_entries, fold_operation, fold_operations, fold_rows, folded,
    head_after, kept_rows, lemma_view_listing, materialized, resolved_rows, select, view_digest,
    view_listing, written, Coordinate, FoldModel, RowModel, ViewKey,
};
use crate::operation::SemaOperation;
use crate::ordered_table::{
    has_key, keyed_at, lemma_listable_empty, lemma_listable_insert, lemma_map_take,
    lemma_position, lemma_rising_unique, listable, map_of, rising, TableKey,
};
use crate::record::KeyModel;
use crate::versioning::{EntryModel, FamilyModel, OperationModel};

verus! {

/// What a folded view holds at a coordinate: nothing where the fold wrote
/// nothing or removed what stood there.
pub open spec fn kept_at(view: FoldModel, at: Coordinate) -> Option<Seq<u8>> {
    if view.cells.dom().contains(at) {
        view.cells[at]
    } else {
        None
    }
}

/// Two folded views hold the same records.
pub open spec fn agree(a: FoldModel, b: FoldModel) -> bool {
    forall|at: Coordinate| #[trigger] kept_at(a, at) == kept_at(b, at)
}

/// A view as a fold leaves it: its cells can be listed, and every family
/// version it wrote under is declared under its own name.
pub open spec fn sound(view: FoldModel) -> bool {
    &&& listable::<ViewKey, Option<Seq<u8>>>(view.cells)
    &&& forall|at: Coordinate| #[trigger]
        view.cells.dom().contains(at) ==> view.identities.dom().contains(at.0)
    &&& forall|version: (Seq<char>, Seq<u8>)| #[trigger]
        view.identities.dom().contains(version) ==> view.identities[version].version() == version
}

/// A fold starts sound.
proof fn lemma_sound_start()
    ensures
        sound(empty_fold()),
{
    lemma_listable_empty::<ViewKey, Option<Seq<u8>>>();
}

/// A write keeps a view sound.
proof fn lemma_sound_written(
    view: FoldModel,
    family: FamilyModel,
    key: KeyModel,
    payload: Option<Seq<u8>>,
)
    requires
        sound(view),
    ensures
        sound(written(view, family, key, payload)),
{
    lemma_listable_insert::<ViewKey, Option<Seq<u8>>>(
        view.cells,
        (family.version(), key),
        payload,
    );
}

/// Folded rows keep a view sound.
proof fn lemma_sound_rows(view: FoldModel, rows: Seq<RowModel>)
    requires
        sound(view),
    ensures
        fold_rows(view, rows) matches Ok(after) ==> sound(after),
    decreases rows.len(),
{
    if rows.len() > 0 {
        lemma_sound_rows(view, rows.drop_last());
        if let Ok(before) = fold_rows(view, rows.drop_last()) {
            let row = rows.last();
            lemma_sound_written(before, row.family, row.key, row.payload);
        }
    }
}

/// Folded operations keep a view sound.
proof fn lemma_sound_operations(view: FoldModel, operations: Seq<OperationModel>)
    requires
        sound(view),
    ensures
        fold_operations(view, operations) matches Ok(after) ==> sound(after),
    decreases operations.len(),
{
    if operations.len() > 0 {
        lemma_sound_operations(view, operations.drop_last());
        if let Ok(before) = fold_operations(view, operations.drop_last()) {
            let operation = operations.last();
            if let Some(key) = operation.key {
                lemma_sound_written(before, operation.family, key, operation.payload);
                lemma_sound_written(before, operation.family, key, None);
            }
        }
    }
}

/// Folded entries keep a view sound.
pub proof fn lemma_sound_entries(
    view: FoldModel,
    head: Option<Seq<u8>>,
    entries: Seq<EntryModel>,
)
    requires
        sound(view),
    ensures
        fold_entries(view, head, entries) matches Ok(after) ==> sound(after),
    decreases entries.len(),
{
    if entries.len() > 0 {
        lemma_sound_entries(view, head, entries.drop_last());
        if let Ok(before) = fold_entries(view, head, entries.drop_last()) {
            lemma_sound_operations(before, entries.last().operations);
        }
    }
}

/// What a fold comes to is sound.
pub proof fn lemma_folded_sound(
    rows: Seq<RowModel>,
    entries: Seq<EntryModel>,
    head: Option<Seq<u8>>,
)
    ensures
        folded(rows, entries, head) matches Ok(view) ==> sound(view),
{
    lemma_sound_start();
    lemma_sound_rows(empty_fold(), rows);
    if let Ok(view) = fold_rows(empty_fold(), rows) {
        lemma_sound_entries(view, head, entries);
    }
}

/// A fold can stop and go on: folding one stretch of the log after another
/// is folding both at once.
pub proof fn lemma_fold_in_two(
    view: FoldModel,
    head: Option<Seq<u8>>,
    first: Seq<EntryModel>,
    second: Seq<EntryModel>,
)
    ensures
        fold_entries(view, head, first + second) == match fold_entries(view, head, first) {
            Ok(between) => fold_entries(between, head_after(head, first), second),
            Err(failure) => Err(failure),
        },
    decreases second.len(),
{
    let both = first + second;
    if second.len() == 0 {
        assert(both =~= first);
    } else {
        lemma_fold_in_two(view, head, first, second.drop_last());
        assert(both.drop_last() =~= first + second.drop_last());
        assert(both.last() == second.last());
        assert(head_after(head, both.drop_last()) == head_after(
            head_after(head, first),
            second.drop_last(),
        ));
    }
}

/// The coordinate that a logged operation writes at.
pub open spec fn operation_cell(operation: OperationModel) -> Coordinate {
    (operation.family.version(), operation.key->0)
}

/// What a logged operation leaves at its coordinate.
pub open spec fn operation_leaves(operation: OperationModel) -> Option<Seq<u8>> {
    if operation.operation == SemaOperation::Retract {
        None
    } else {
        operation.payload
    }
}

/// The last write of a key decides: what a fold holds at a coordinate is
/// what the last operation that names it left there.
pub proof fn lemma_last_write(view: FoldModel, operations: Seq<OperationModel>, at: int)
    requires
        0 <= at < operations.len(),
        fold_operations(view, operations) is Ok,
        forall|later: int|
            at < later < operations.len() ==> operation_cell(#[trigger] operations[later])
                != operation_cell(operations[at]),
    ensures
        kept_at(fold_operations(view, operations)->Ok_0, operation_cell(operations[at]))
            == operation_leaves(operations[at]),
    decreases operations.len(),
{
    let before = operations.drop_last();
    if at < operations.len() - 1 {
        assert forall|later: int| at < later < before.len() implies operation_cell(
            #[trigger] before[later],
        ) != operation_cell(before[at]) by {
            assert(before[later] == operations[later]);
        }
        lemma_last_write(view, before, at);
        assert(operation_cell(operations[operations.len() - 1]) != operation_cell(operations[at]));
    }
}

/// A coordinate that no operation names keeps what it held.
pub proof fn lemma_untouched(view: FoldModel, operations: Seq<OperationModel>, cell: Coordinate)
    requires
        fold_operations(view, operations) is Ok,
        forall|i: int|
            0 <= i < operations.len() ==> operation_cell(#[trigger] operations[i]) != cell,
    ensures
        kept_at(fold_operations(view, operations)->Ok_0, cell) == kept_at(view, cell),
    decreases operations.len(),
{
    if operations.len() > 0 {
        let before = operations.drop_last();
        assert forall|i: int| 0 <= i < before.len() implies operation_cell(
            #[trigger] before[i],
        ) != cell by {
            assert(before[i] == operations[i]);
        }
        lemma_untouched(view, before, cell);
        assert(operation_cell(operations[operations.len() - 1]) != cell);
    }
}

/// The cells that hold a record (`kept`), or those that do not.
pub open spec fn selected_cells(
    cells: Map<Coordinate, Option<Seq<u8>>>,
    kept: bool,
) -> Map<Coordinate, Option<Seq<u8>>> {
    Map::new(
        |at: Coordinate| cells.dom().contains(at) && (cells[at] is Some) == kept,
        |at: Coordinate| cells[at],
    )
}

/// Selected rows rise and represent the selected cells.
proof fn lemma_select(rows: Seq<(Coordinate, Option<Seq<u8>>)>, kept: bool)
    requires
        rising::<ViewKey, Option<Seq<u8>>>(rows),
    ensures
        rising::<ViewKey, Option<Seq<u8>>>(select(rows, kept)),
        map_of(select(rows, kept)) == selected_cells(map_of(rows), kept),
    decreases rows.len(),
{
    if rows.len() == 0 {
        assert(map_of(select(rows, kept)) =~= selected_cells(map_of(rows), kept));
    } else {
        let less = rows.drop_last();
        let last = rows.last();
        let end = rows.len() - 1;
        assert(less =~= rows.take(end));
        assert(rows.take(end + 1) =~= rows);
        assert(rising::<ViewKey, Option<Seq<u8>>>(less)) by {
            assert forall|i: int, j: int| 0 <= i < j < less.len() implies ViewKey::precedes(
                #[trigger] less[i].0,
                #[trigger] less[j].0,
            ) by {
                assert(ViewKey::precedes(rows[i].0, rows[j].0));
            }
        }
        lemma_select(less, kept);
        lemma_map_take::<ViewKey, Option<Seq<u8>>>(rows, end);
        assert(!map_of(less).dom().contains(last.0)) by {
            if has_key(less, last.0) {
                let i = choose|i: int| keyed_at(less, last.0, i);
                assert(ViewKey::precedes(rows[i].0, rows[end].0));
                ViewKey::lemma_irreflexive(last.0);
            }
        }
        let before = select(less, kept);
        let after = select(rows, kept);
        if (last.1 is Some) == kept {
            assert(rising::<ViewKey, Option<Seq<u8>>>(after)) by {
                assert forall|i: int, j: int| 0 <= i < j < after.len() implies ViewKey::precedes(
                    #[trigger] after[i].0,
                    #[trigger] after[j].0,
                ) by {
                    if j < before.len() {
                        assert(ViewKey::precedes(before[i].0, before[j].0));
                    } else {
                        lemma_position::<ViewKey, Option<Seq<u8>>>(before, i);
                        assert(has_key(less, before[i].0));
                        let p = choose|p: int| keyed_at(less, before[i].0, p);
                        assert(ViewKey::precedes(rows[p].0, rows[end].0));
                    }
                }
            }
            lemma_map_take::<ViewKey, Option<Seq<u8>>>(after, before.len() as int);
            assert(after.take(before.len() as int) =~= before);
            assert(after.take(before.len() as int + 1) =~= after);
        }
        assert(map_of(after) =~= selected_cells(map_of(rows), kept));
    }
}

/// The selected rows of a sound view.
pub proof fn lemma_sound_select(view: FoldModel, kept: bool)
    requires
        sound(view),
    ensures
        rising::<ViewKey, Option<Seq<u8>>>(select(view_listing(view.cells), kept)),
        map_of(select(view_listing(view.cells), kept)) == selected_cells(view.cells, kept),
        forall|i: int|
            0 <= i < select(view_listing(view.cells), kept).len() ==> view.identities.dom().contains(
                (#[trigger] select(view_listing(view.cells), kept)[i]).0.0,
            ) && (select(view_listing(view.cells), kept)[i].1 is Some) == kept,
{
    let rows = choose|rows: Seq<(Coordinate, Option<Seq<u8>>)>| #[trigger]
        rising::<ViewKey, Option<Seq<u8>>>(rows) && map_of(rows) == view.cells;
    lemma_view_listing(rows);
    lemma_select(rows, kept);
    let chosen = select(rows, kept);
    assert forall|i: int| 0 <= i < chosen.len() implies view.identities.dom().contains(
        (#[trigger] chosen[i]).0.0,
    ) && (chosen[i].1 is Some) == kept by {
        lemma_position::<ViewKey, Option<Seq<u8>>>(chosen, i);
        assert(view.cells.dom().contains(chosen[i].0));
    }
}

/// The view digest names the records: views that hold the same records
/// list them alike and have the same digest, whatever else the folds
/// touched and removed.
pub proof fn lemma_digest_of_records(a: FoldModel, b: FoldModel)
    requires
        sound(a),
        sound(b),
        agree(a, b),
    ensures
        kept_rows(a.cells) == kept_rows(b.cells),
        view_digest(a.cells) == view_digest(b.cells),
{
    lemma_sound_select(a, true);
    lemma_sound_select(b, true);
    let left = selected_cells(a.cells, true);
    let right = selected_cells(b.cells, true);
    assert forall|at: Coordinate| left.dom().contains(at) == right.dom().contains(at) by {
        assert(kept_at(a, at) == kept_at(b, at));
    }
    assert forall|at: Coordinate| left.dom().contains(at) implies left[at] == right[at] by {
        assert(kept_at(a, at) == kept_at(b, at));
    }
    assert(left =~= right);
    lemma_rising_unique::<ViewKey, Option<Seq<u8>>>(kept_rows(a.cells), kept_rows(b.cells));
}

/// Cells of declared versions resolve, each to its declared identity.
pub proof fn lemma_resolved(
    view: FoldModel,
    inventory: Seq<FamilyModel>,
    cells: Seq<(Coordinate, Option<Seq<u8>>)>,
)
    requires
        forall|i: int|
            0 <= i < cells.len() ==> view.identities.dom().contains((#[trigger] cells[i]).0.0),
    ensures
        resolved_rows(view.identities, inventory, cells) == Ok::<Seq<RowModel>, Failure>(
            Seq::new(
                cells.len(),
                |i: int|
                    RowModel {
                        family: view.identities[cells[i].0.0],
                        key: cells[i].0.1,
                        payload: cells[i].1,
                    },
            ),
        ),
    decreases cells.len(),
{
    let rows = Seq::new(
        cells.len(),
        |i: int|
            RowModel {
                family: view.identities[cells[i].0.0],
                key: cells[i].0.1,
                payload: cells[i].1,
            },
    );
    if cells.len() > 0 {
        let less = cells.drop_last();
        assert forall|i: int| 0 <= i < less.len() implies view.identities.dom().contains(
            (#[trigger] less[i]).0.0,
        ) by {
            assert(less[i] == cells[i]);
        }
        lemma_resolved(view, inventory, less);
        assert(view.identities.dom().contains(cells[cells.len() - 1].0.0));
        let fewer = resolved_rows(view.identities, inventory, less)->Ok_0;
        assert(fewer.push(rows.last()) =~= rows);
    } else {
        assert(rows =~= Seq::empty());
    }
}

/// The rows of the records of a view.
pub open spec fn record_rows(view: FoldModel) -> Seq<RowModel> {
    let cells = kept_rows(view.cells);
    Seq::new(
        cells.len(),
        |i: int|
            RowModel {
                family: view.identities[cells[i].0.0],
                key: cells[i].0.1,
                payload: cells[i].1,
            },
    )
}

/// What is folded can be materialized: no family of a folded view is
/// unknown, whatever the inventory holds.
pub proof fn lemma_folded_materializes(view: FoldModel, inventory: Seq<FamilyModel>)
    requires
        sound(view),
    ensures
        materialized(view, inventory) is Ok,
        materialized(view, inventory)->Ok_0.rows == record_rows(view),
        materialized(view, inventory)->Ok_0.cleared.len() == cleared_rows(view.cells).len(),
{
    lemma_sound_select(view, true);
    lemma_sound_select(view, false);
    lemma_resolved(view, inventory, kept_rows(view.cells));
    lemma_resolved(view, inventory, cleared_rows(view.cells));
}

/// Folding the rows of a view gives the view's records back.
proof fn lemma_rows_fold_back(view: FoldModel, at: int)
    requires
        sound(view),
        0 <= at <= kept_rows(view.cells).len(),
    ensures
        fold_rows(empty_fold(), record_rows(view).take(at)) is Ok,
        fold_rows(empty_fold(), record_rows(view).take(at))->Ok_0.cells == map_of(
            kept_rows(view.cells).take(at),
        ),
    decreases at,
{
    let rows = record_rows(view);
    let cells = kept_rows(view.cells);
    lemma_sound_select(view, true);
    if at == 0 {
        assert(rows.take(0) =~= Seq::empty());
        assert(map_of(cells.take(0)) =~= Map::empty());
    } else {
        lemma_rows_fold_back(view, at - 1);
        assert(rows.take(at).drop_last() =~= rows.take(at - 1));
        lemma_map_take::<ViewKey, Option<Seq<u8>>>(cells, at - 1);
        let row = rows[at - 1];
        let cell = cells[at - 1];
        assert(view.identities.dom().contains(cell.0.0));
        assert(row.family.version() == cell.0.0);
        assert((row.family.version(), row.key) == cell.0);
    }
}

/// The rows of a view hold exactly its records: folding them from nothing
/// agrees with the view they came from.
pub proof fn lemma_rows_hold_records(view: FoldModel)
    requires
        sound(view),
    ensures
        fold_rows(empty_fold(), record_rows(view)) is Ok,
        agree(fold_rows(empty_fold(), record_rows(view))->Ok_0, view),
        sound(fold_rows(empty_fold(), record_rows(view))->Ok_0),
{
    let count = kept_rows(view.cells).len() as int;
    lemma_sound_select(view, true);
    lemma_rows_fold_back(view, count);
    assert(record_rows(view).take(count) =~= record_rows(view));
    assert(kept_rows(view.cells).take(count) =~= kept_rows(view.cells));
    lemma_sound_start();
    lemma_sound_rows(empty_fold(), record_rows(view));
    let back = fold_rows(empty_fold(), record_rows(view))->Ok_0;
    assert forall|at: Coordinate| #[trigger] kept_at(back, at) == kept_at(view, at) by {
        assert(selected_cells(view.cells, true).dom().contains(at) == back.cells.dom().contains(
            at,
        ));
    }
}

/// Operations folded onto views that hold the same records are refused
/// alike, and leave the same records.
proof fn lemma_agree_operations(a: FoldModel, b: FoldModel, operations: Seq<OperationModel>)
    requires
        agree(a, b),
    ensures
        match (fold_operations(a, operations), fold_operations(b, operations)) {
            (Ok(x), Ok(y)) => agree(x, y),
            (Err(x), Err(y)) => x == y,
            _ => false,
        },
    decreases operations.len(),
{
    if operations.len() > 0 {
        lemma_agree_operations(a, b, operations.drop_last());
        match (
            fold_operations(a, operations.drop_last()),
            fold_operations(b, operations.drop_last()),
        ) {
            (Ok(x), Ok(y)) => {
                let operation = operations.last();
                match (fold_operation(x, operation), fold_operation(y, operation)) {
                    (Ok(p), Ok(q)) => {
                        assert forall|at: Coordinate| #[trigger]
                            kept_at(p, at) == kept_at(q, at) by {
                            assert(kept_at(x, at) == kept_at(y, at));
                        }
                    },
                    _ => {},
                }
            },
            _ => {},
        }
    }
}

/// Entries folded onto views that hold the same records are refused alike,
/// and leave the same records.
pub proof fn lemma_agree_entries(
    a: FoldModel,
    b: FoldModel,
    head: Option<Seq<u8>>,
    entries: Seq<EntryModel>,
)
    requires
        agree(a, b),
    ensures
        match (fold_entries(a, head, entries), fold_entries(b, head, entries)) {
            (Ok(x), Ok(y)) => agree(x, y),
            (Err(x), Err(y)) => x == y,
            _ => false,
        },
    decreases entries.len(),
{
    if entries.len() > 0 {
        lemma_agree_entries(a, b, head, entries.drop_last());
        match (
            fold_entries(a, head, entries.drop_last()),
            fold_entries(b, head, entries.drop_last()),
        ) {
            (Ok(x), Ok(y)) => {
                lemma_agree_operations(x, y, entries.last().operations);
            },
            _ => {},
        }
    }
}

/// A checkpoint stands for the log it covers: folding the rows of a folded
/// stretch of the log, then the entries after it, is refused exactly as
/// folding the whole log is, holds the same records, and has the same view
/// digest.
pub proof fn lemma_checkpoint_stands_for_log(
    covered: Seq<EntryModel>,
    after: Seq<EntryModel>,
    head: Option<Seq<u8>>,
    rows: Seq<RowModel>,
)
    requires
        folded(rows, covered, head) is Ok,
    ensures
        ({
            let view = folded(rows, covered, head)->Ok_0;
            match (
                folded(rows, covered + after, head),
                folded(record_rows(view), after, head_after(head, covered)),
            ) {
                (Ok(whole), Ok(resumed)) => agree(whole, resumed) && view_digest(whole.cells)
                    == view_digest(resumed.cells),
                (Err(a), Err(b)) => a == b,
                _ => false,
            }
        }),
{
    let start = fold_rows(empty_fold(), rows)->Ok_0;
    let view = folded(rows, covered, head)->Ok_0;
    let resume = head_after(head, covered);
    lemma_folded_sound(rows, covered, head);
    lemma_rows_hold_records(view);
    let base = fold_rows(empty_fold(), record_rows(view))->Ok_0;
    lemma_fold_in_two(start, head, covered, after);
    lemma_agree_entries(view, base, resume, after);
    lemma_sound_entries(view, resume, after);
    lemma_sound_entries(base, resume, after);
    match (
        folded(rows, covered + after, head),
        folded(record_rows(view), after, resume),
    ) {
        (Ok(whole), Ok(resumed)) => {
            lemma_digest_of_records(whole, resumed);
        },
        _ => {},
    }
}

} // verus!
