//! Staging: a session touches nothing until it lands, and what lands is
//! what the same writes would have done directly.

use vstd::prelude::*;

use crate::engine_model::{
    all_operations, base_of, begun_session, counters_advanced, entries_logged, group_flaw,
    group_landed, group_rows, has_room, identified_matched, landable, landed, matched, next_commit,
    next_versioned, operation_rows, staging_begun, staging_parked, standing_marker,
    standing_sequence, standing_snapshot, standing_tables, versioned_operations, EngineModel,
};
use crate::error::Failure;
use crate::fold::{head_after, RowModel};
use crate::laws::rebuild::{lemma_family_at, plain_write};
use crate::log::{entry_metadata, operations_metadata};
use crate::operation::SemaOperation;
use crate::query::{IdentifiedPlanModel, PlanModel};
use crate::staging::{session_entry, GroupModel};
use crate::store::StoreModel;
use crate::tables::{
    applied, applied_all, next_identifier, placed, rows_placed, Slot, TablesModel, WriteFact,
};
use crate::versioning::{EntryModel, FamilyModel, OperationModel};

verus! {

/// The engine after groups of writes, each landed or buffered as one
/// commit.
pub open spec fn ran(engine: EngineModel, groups: Seq<Seq<WriteFact>>) -> EngineModel
    decreases groups.len(),
{
    if groups.len() == 0 {
        engine
    } else {
        landed(ran(engine, groups.drop_last()), groups.last())
    }
}

/// A session's writes touch nothing but the session.
pub proof fn lemma_session_alone(engine: EngineModel, groups: Seq<Seq<WriteFact>>)
    requires
        engine.session is Some,
    ensures
        ran(engine, groups).session is Some,
        ran(engine, groups) == (EngineModel { session: ran(engine, groups).session, ..engine }),
    decreases groups.len(),
{
    if groups.len() > 0 {
        lemma_session_alone(engine, groups.drop_last());
    }
}

/// An abandoned session leaves no trace: whatever it buffered, the engine
/// without it is the engine before it began.
pub proof fn lemma_abandoned_session_leaves_no_trace(
    engine: EngineModel,
    groups: Seq<Seq<WriteFact>>,
)
    requires
        staging_begun(engine) is Ok,
    ensures
        (EngineModel { session: None, ..ran(staging_begun(engine)->Ok_0, groups) }) == engine,
{
    lemma_session_alone(staging_begun(engine)->Ok_0, groups);
}

/// A discarded group leaves no trace: with the slot free again, the engine
/// is the engine before the session began.
pub proof fn lemma_discarded_group_leaves_no_trace(
    engine: EngineModel,
    groups: Seq<Seq<WriteFact>>,
)
    requires
        staging_begun(engine) is Ok,
        staging_parked(ran(staging_begun(engine)->Ok_0, groups)) is Ok,
    ensures
        ({
            let parked = staging_parked(ran(staging_begun(engine)->Ok_0, groups))->Ok_0;
            (EngineModel { store: StoreModel { staged: None, ..parked.store }, ..parked })
                == engine
        }),
{
    lemma_session_alone(staging_begun(engine)->Ok_0, groups);
}

/// An identified assertion takes the identifier that its table mints next.
pub open spec fn mints_next(tables: TablesModel, write: WriteFact) -> bool {
    match write.slot {
        Slot::Identified(identifier) => write.operation == SemaOperation::Assert ==> {
            &&& identifier == next_identifier(tables, write.table)
            &&& identifier < u64::MAX
        },
        Slot::Domain(_) => true,
    }
}

/// Writes as the engine's verbs make them, one after the other.
pub open spec fn made_in_turn(
    catalog: Seq<FamilyModel>,
    tables: TablesModel,
    writes: Seq<WriteFact>,
) -> bool
    decreases writes.len(),
{
    writes.len() == 0 || {
        &&& made_in_turn(catalog, tables, writes.drop_last())
        &&& plain_write(catalog, writes.last())
        &&& mints_next(applied_all(tables, writes.drop_last()), writes.last())
    }
}

/// Groups of writes as the engine's verbs make them, one after the other.
pub open spec fn groups_in_turn(engine: EngineModel, groups: Seq<Seq<WriteFact>>) -> bool
    decreases groups.len(),
{
    groups.len() == 0 || {
        &&& groups_in_turn(engine, groups.drop_last())
        &&& made_in_turn(
            engine.catalog,
            ran(engine, groups.drop_last()).store.tables,
            groups.last(),
        )
    }
}

/// A commit's metadata is that of its versioned entry.
proof fn lemma_metadata_agrees(catalog: Seq<FamilyModel>, tables: TablesModel, writes: Seq<
    WriteFact,
>)
    requires
        made_in_turn(catalog, tables, writes),
    ensures
        operations_metadata(versioned_operations(catalog, writes))
            == crate::engine_model::commit_operations(writes),
    decreases writes.len(),
{
    let operations = versioned_operations(catalog, writes);
    let facts = crate::engine_model::commit_operations(writes);
    if writes.len() > 0 {
        let less = writes.drop_last();
        lemma_metadata_agrees(catalog, tables, less);
        lemma_family_at(catalog, writes.last().table);
        let fewer = operations_metadata(versioned_operations(catalog, less));
        assert forall|i: int| 0 <= i < less.len() implies operations_metadata(operations)[i]
            == facts[i] by {
            assert(fewer[i] == crate::engine_model::commit_operations(less)[i]);
        }
    }
    assert(operations_metadata(operations) =~= facts);
}

/// Rows placed one run after another are placed at once.
proof fn lemma_rows_in_two(tables: TablesModel, first: Seq<RowModel>, second: Seq<RowModel>)
    ensures
        rows_placed(tables, first + second) == rows_placed(rows_placed(tables, first), second),
    decreases second.len(),
{
    let both = first + second;
    if second.len() == 0 {
        assert(both =~= first);
    } else {
        assert(both.drop_last() =~= first + second.drop_last());
        lemma_rows_in_two(tables, first, second.drop_last());
    }
}

/// Rows of operations one run after another.
proof fn lemma_operation_rows_in_two(
    first: Seq<OperationModel>,
    second: Seq<OperationModel>,
)
    ensures
        operation_rows(first + second) == operation_rows(first) + operation_rows(second),
    decreases second.len(),
{
    let both = first + second;
    if second.len() == 0 {
        assert(both =~= first);
        assert(operation_rows(first) + operation_rows(second) =~= operation_rows(first));
    } else {
        assert(both.drop_last() =~= first + second.drop_last());
        lemma_operation_rows_in_two(first, second.drop_last());
        assert(operation_rows(both) =~= operation_rows(first) + operation_rows(second));
    }
}

/// Counters are apart from rows.
proof fn lemma_counters_aside(
    tables: TablesModel,
    rows: Seq<RowModel>,
    counters: Map<Seq<char>, u64>,
)
    ensures
        rows_placed(TablesModel { counters, ..tables }, rows) == (TablesModel {
            counters,
            ..rows_placed(tables, rows)
        }),
        rows_placed(tables, rows).counters == tables.counters,
    decreases rows.len(),
{
    if rows.len() > 0 {
        lemma_counters_aside(tables, rows.drop_last(), counters);
    }
}

/// Writes made in turn and the rows and counters of their operations come
/// to the same tables.
pub proof fn lemma_operations_apply(
    catalog: Seq<FamilyModel>,
    tables: TablesModel,
    writes: Seq<WriteFact>,
)
    requires
        made_in_turn(catalog, tables, writes),
    ensures
        ({
            let operations = versioned_operations(catalog, writes);
            applied_all(tables, writes) == (TablesModel {
                counters: counters_advanced(tables.counters, operations),
                ..rows_placed(tables, operation_rows(operations))
            })
        }),
    decreases writes.len(),
{
    let operations = versioned_operations(catalog, writes);
    if writes.len() > 0 {
        let less = writes.drop_last();
        let write = writes.last();
        lemma_operations_apply(catalog, tables, less);
        assert(operations.drop_last() =~= versioned_operations(catalog, less));
        lemma_family_at(catalog, write.table);
        let before = applied_all(tables, less);
        let rows = rows_placed(tables, operation_rows(operations.drop_last()));
        let operation = operations.last();
        let row = RowModel { family: operation.family, key: write.key, payload: write.payload };
        assert(operation_rows(operations) == operation_rows(operations.drop_last()).push(row));
        assert(operation_rows(operations).drop_last() =~= operation_rows(operations.drop_last()));
        assert(rows_placed(tables, operation_rows(operations)) == placed(
            rows,
            write.table,
            write.slot,
            write.payload,
        ));
        let after = applied(before, write);
        let placed_rows = placed(rows, write.table, write.slot, write.payload);
        assert(after.records == placed_rows.records);
        assert(after.identified == placed_rows.identified);
        assert(after.counters == counters_advanced(tables.counters, operations));
        assert(after =~= (TablesModel {
            counters: counters_advanced(tables.counters, operations),
            ..placed_rows
        }));
    }
}

/// How far a session's buffer and the direct run of its groups agree.
spec fn in_parallel(engine: EngineModel, groups: Seq<Seq<WriteFact>>) -> bool {
    let direct = ran(engine, groups);
    let staged = ran(staging_begun(engine)->Ok_0, groups);
    let session = staged.session->0;
    let taken = entries_logged(engine.store, session.entries);
    &&& staged.session is Some
    &&& direct.session is None
    &&& direct.catalog == engine.catalog
    &&& direct.policy == engine.policy
    &&& session.store_name == engine.policy->0
    &&& session.schema_hash == begun_session(engine, engine.policy->0).schema_hash
    &&& session.base == base_of(engine.store)
    &&& session.entries.len() == groups.len()
    &&& session.commit_sequence == standing_sequence(direct)
    &&& session.snapshot == standing_snapshot(direct)
    &&& standing_sequence(direct) == standing_sequence(engine) + groups.len()
    &&& standing_snapshot(direct) == standing_snapshot(engine) + groups.len()
    &&& session.chain_head == direct.store.chain_head
    &&& session.chain_head == head_after(engine.store.chain_head, session.entries)
    &&& group_flaw(engine.store.chain_head, session.entries) is None
    &&& groups.len() > 0 ==> {
        &&& session.entries[0].previous == engine.store.chain_head
        &&& session.entries[0].commit_sequence == standing_sequence(engine) + 1
        &&& session.entries[0].snapshot == standing_snapshot(engine) + 1
    }
    &&& session.tables == direct.store.tables
    &&& direct.store == (StoreModel { tables: direct.store.tables, ..taken })
    &&& taken.tables.counters == direct.store.tables.counters
    &&& taken.tables.records == engine.store.tables.records
    &&& taken.tables.identified == engine.store.tables.identified
    &&& rows_placed(taken.tables, operation_rows(all_operations(session.entries)))
        == direct.store.tables
}

/// A session's buffer keeps up with the direct run of its groups.
#[verifier::rlimit(40)]
proof fn lemma_in_parallel(engine: EngineModel, groups: Seq<Seq<WriteFact>>)
    requires
        staging_begun(engine) is Ok,
        has_room(engine, groups.len() as int),
        groups_in_turn(engine, groups),
    ensures
        in_parallel(engine, groups),
    decreases groups.len(),
{
    let begun = staging_begun(engine)->Ok_0;
    if groups.len() == 0 {
        let session = begun.session->0;
        assert(session.entries =~= Seq::empty());
        assert(all_operations(session.entries) =~= Seq::empty());
        assert(operation_rows(Seq::empty()) =~= Seq::empty());
    } else {
        let less = groups.drop_last();
        let writes = groups.last();
        lemma_in_parallel(engine, less);
        let direct = ran(engine, less);
        let staged = ran(begun, less);
        lemma_session_alone(begun, less);
        let session = staged.session->0;
        let operations = versioned_operations(engine.catalog, writes);
        let entry = session_entry(session, operations);
        assert(entry == next_versioned(direct, engine.policy->0, operations));
        let before = direct.store.tables;
        lemma_operations_apply(engine.catalog, before, writes);
        lemma_metadata_agrees(engine.catalog, before, writes);
        assert(entry_metadata(entry) == next_commit(direct, writes));
        let next = ran(engine, groups);
        let longer = session.entries.push(entry);
        assert(longer.drop_last() =~= session.entries);
        assert(ran(begun, groups).session->0.entries == longer);
        let taken = entries_logged(engine.store, session.entries);
        let after = entries_logged(engine.store, longer);
        assert(after.tables.counters == counters_advanced(taken.tables.counters, operations));
        assert(next.store.tables == applied_all(before, writes));
        assert(next.store == (StoreModel { tables: next.store.tables, ..after }));
        lemma_operation_rows_in_two(all_operations(session.entries), operations);
        assert(all_operations(longer) == all_operations(session.entries) + operations);
        let first = operation_rows(all_operations(session.entries));
        let second = operation_rows(operations);
        assert(after.tables == (TablesModel {
            counters: after.tables.counters,
            ..taken.tables
        }));
        lemma_rows_in_two(after.tables, first, second);
        lemma_counters_aside(taken.tables, first, after.tables.counters);
        lemma_counters_aside(before, second, after.tables.counters);
        assert(rows_placed(after.tables, first + second) =~= next.store.tables);
        assert(in_parallel(engine, groups));
    }
}

/// While a session is engaged, reads see exactly what the same writes would
/// have left directly: the same records in every table, under the same
/// commit sequence and snapshot.
pub proof fn lemma_session_reads_as_direct(
    engine: EngineModel,
    groups: Seq<Seq<WriteFact>>,
    plan: PlanModel,
    identified: IdentifiedPlanModel,
)
    requires
        staging_begun(engine) is Ok,
        has_room(engine, groups.len() as int),
        groups_in_turn(engine, groups),
    ensures
        ({
            let staged = ran(staging_begun(engine)->Ok_0, groups);
            let direct = ran(engine, groups);
            &&& standing_tables(staged) == standing_tables(direct)
            &&& standing_marker(staged) == standing_marker(direct)
            &&& matched(staged, plan) == matched(direct, plan)
            &&& identified_matched(staged, identified) == identified_matched(direct, identified)
        }),
{
    let begun = staging_begun(engine)->Ok_0;
    lemma_in_parallel(engine, groups);
    lemma_session_alone(begun, groups);
}

/// A parked group is invisible: every read finds what it found before the
/// session began.
pub proof fn lemma_parked_group_is_invisible(
    engine: EngineModel,
    groups: Seq<Seq<WriteFact>>,
    plan: PlanModel,
    identified: IdentifiedPlanModel,
)
    requires
        staging_begun(engine) is Ok,
        staging_parked(ran(staging_begun(engine)->Ok_0, groups)) is Ok,
    ensures
        ({
            let parked = staging_parked(ran(staging_begun(engine)->Ok_0, groups))->Ok_0;
            &&& standing_tables(parked) == standing_tables(engine)
            &&& standing_marker(parked) == standing_marker(engine)
            &&& matched(parked, plan) == matched(engine, plan)
            &&& identified_matched(parked, identified) == identified_matched(engine, identified)
            &&& parked.store.commit_log == engine.store.commit_log
            &&& parked.store.versioned_log == engine.store.versioned_log
            &&& parked.store.outbox == engine.store.outbox
        }),
{
    lemma_session_alone(staging_begun(engine)->Ok_0, groups);
}

/// What is staged, parked and materialized is what the same writes would
/// have done directly: the store comes out the same, record by record and
/// log row by log row.
pub proof fn lemma_staged_lands_as_direct(engine: EngineModel, groups: Seq<Seq<WriteFact>>)
    requires
        staging_begun(engine) is Ok,
        groups.len() > 0,
        has_room(engine, groups.len() as int),
        groups_in_turn(engine, groups),
    ensures
        staging_parked(ran(staging_begun(engine)->Ok_0, groups)) is Ok,
        ({
            let parked = staging_parked(ran(staging_begun(engine)->Ok_0, groups))->Ok_0;
            &&& landable(parked.store) is Ok
            &&& group_landed(
                parked.store,
                landable(parked.store)->Ok_0,
                group_rows(landable(parked.store)->Ok_0),
            ) == ran(engine, groups).store
        }),
{
    let begun = staging_begun(engine)->Ok_0;
    lemma_in_parallel(engine, groups);
    lemma_session_alone(begun, groups);
    let staged = ran(begun, groups);
    let session = staged.session->0;
    let parked = staging_parked(staged)->Ok_0;
    let group = GroupModel { entries: session.entries, pre_images: session.pre_images };
    assert(parked.store == (StoreModel { staged: Some(group), ..engine.store }));
    assert(landable(parked.store) == Ok::<GroupModel, Failure>(group));
    lemma_slot_aside(engine.store, session.entries, Some(group));
}

/// The staging slot is apart from the log.
proof fn lemma_slot_aside(
    store: StoreModel,
    entries: Seq<EntryModel>,
    staged: Option<GroupModel>,
)
    ensures
        entries_logged(StoreModel { staged, ..store }, entries) == (StoreModel {
            staged,
            ..entries_logged(store, entries)
        }),
        entries_logged(store, entries).staged == store.staged,
    decreases entries.len(),
{
    if entries.len() > 0 {
        lemma_slot_aside(store, entries.drop_last(), staged);
    }
}

} // verus!
