//! Writes: what is asserted is read back, what is retracted is gone, a
//! group lands as one commit, and an identifier is minted once.

use vstd::prelude::*;

use crate::catalog::{family_at, registered};
use crate::engine::lemma_landed_stands;
use crate::engine_model::{
    atomic_outcome, checked, commit_operations, commit_outcome, counters_advanced, has_room,
    identified_assertion, identified_mutation, identified_retraction, landed, matched, opened,
    planned, planned_across, standing_sequence, standing_snapshot, standing_tables, stored_catalog,
    versioned_operations, write_key, write_outcome, EngineModel, STORAGE_LAYOUT,
};
use crate::error::Failure;
use crate::log::{LogEntryModel, LogOperationModel};
use crate::mutation::WriteModel;
use crate::operation::SemaOperation;
use crate::query::{PlanModel, ReadPlanNode};
use crate::record::{key_text, KeyModel, RecordKey, RecordModel};
use crate::store::counted_so_far;
use crate::table::{counter_key_text, lemma_counter_table};
use crate::tables::{
    applied, applied_all, domain_rows, identified_removal, identified_rows, identified_write,
    next_identifier, Slot, TablesModel, WriteFact,
};
use crate::versioning::{FamilyModel, OperationModel};

verus! {

/// One write applied.
proof fn lemma_applied_once(tables: TablesModel, write: WriteFact)
    ensures
        applied_all(tables, seq![write]) == applied(tables, write),
{
    reveal_with_fuel(applied_all, 2);
    assert(seq![write].drop_last() =~= Seq::empty());
}

/// What a lone write leaves in the tables that reads see.
pub proof fn lemma_lone_write(engine: EngineModel, write: WriteFact)
    requires
        has_room(engine, 1),
    ensures
        standing_tables(landed(engine, seq![write])) == applied(standing_tables(engine), write),
{
    lemma_landed_stands(engine, seq![write]);
    lemma_applied_once(standing_tables(engine), write);
}

/// A read by key gives back what was asserted or mutated last.
pub proof fn lemma_write_reads_back(
    engine: EngineModel,
    table: Seq<char>,
    record: RecordModel,
    mutates: bool,
    plan: PlanModel,
    key: RecordKey,
)
    requires
        has_room(engine, 1),
        plan.table == table,
        plan.node == ReadPlanNode::ByKey(key),
        key_text(key@) == key_text(record.key),
    ensures
        ({
            let write = if mutates {
                WriteModel::Mutate(record)
            } else {
                WriteModel::Assert(record)
            };
            write_outcome(engine, table, write) matches Ok(after) ==> matched(
                after,
                plan,
            ) == Ok::<Seq<RecordModel>, Failure>(
                seq![RecordModel { key: KeyModel::Domain(key_text(key@)), bytes: record.bytes }],
            )
        }),
{
    let write = if mutates {
        WriteModel::Mutate(record)
    } else {
        WriteModel::Assert(record)
    };
    if let Ok(fact) = checked(standing_tables(engine), table, write) {
        lemma_lone_write(engine, fact);
    }
}

/// A read by key finds nothing once its record was retracted.
pub proof fn lemma_retract_reads_nothing(
    engine: EngineModel,
    table: Seq<char>,
    name: KeyModel,
    plan: PlanModel,
    key: RecordKey,
)
    requires
        has_room(engine, 1),
        plan.table == table,
        plan.node == ReadPlanNode::ByKey(key),
        key_text(key@) == key_text(name),
    ensures
        write_outcome(engine, table, WriteModel::Retract(name)) matches Ok(after) ==> matched(
            after,
            plan,
        ) == Ok::<Seq<RecordModel>, Failure>(Seq::empty()),
{
    if let Ok(fact) = checked(standing_tables(engine), table, WriteModel::Retract(name)) {
        lemma_lone_write(engine, fact);
    }
}

/// An assertion is refused exactly where its key is taken, a mutation or
/// retraction exactly where it is free.
pub proof fn lemma_refusals(engine: EngineModel, table: Seq<char>, write: WriteModel)
    requires
        registered(engine.catalog, table),
    ensures
        ({
            let key = key_text(write_key(write));
            let taken = standing_tables(engine).records.dom().contains((table, key));
            match write {
                WriteModel::Assert(_) => write_outcome(engine, table, write) is Err == taken
                    && (taken ==> write_outcome(engine, table, write) == Err::<
                    EngineModel,
                    Failure,
                >(Failure::DuplicateAssertKey { table, key })),
                _ => write_outcome(engine, table, write) is Err == !taken && (!taken
                    ==> write_outcome(engine, table, write) == Err::<EngineModel, Failure>(
                    Failure::RecordNotFound { table, key },
                )),
            }
        }),
{
}

/// A record that was asserted cannot be asserted again.
pub proof fn lemma_assert_once(
    engine: EngineModel,
    table: Seq<char>,
    first: RecordModel,
    second: RecordModel,
)
    requires
        has_room(engine, 1),
        key_text(first.key) == key_text(second.key),
        write_outcome(engine, table, WriteModel::Assert(first)) is Ok,
    ensures
        write_outcome(
            write_outcome(engine, table, WriteModel::Assert(first))->Ok_0,
            table,
            WriteModel::Assert(second),
        ) == Err::<EngineModel, Failure>(
            Failure::DuplicateAssertKey { table, key: key_text(first.key) },
        ),
{
    if let Ok(fact) = checked(standing_tables(engine), table, WriteModel::Assert(first)) {
        lemma_lone_write(engine, fact);
    }
}

/// Retracting what was just asserted leaves the records as they stood.
pub proof fn lemma_retract_undoes_assert(
    engine: EngineModel,
    table: Seq<char>,
    record: RecordModel,
)
    requires
        has_room(engine, 2),
        write_outcome(engine, table, WriteModel::Assert(record)) is Ok,
    ensures
        ({
            let between = write_outcome(engine, table, WriteModel::Assert(record))->Ok_0;
            let after = write_outcome(between, table, WriteModel::Retract(record.key));
            &&& after is Ok
            &&& standing_tables(after->Ok_0).records == standing_tables(engine).records
            &&& standing_tables(after->Ok_0).identified == standing_tables(engine).identified
            &&& standing_sequence(after->Ok_0) == standing_sequence(engine) + 2
        }),
{
    let asserted = checked(standing_tables(engine), table, WriteModel::Assert(record))->Ok_0;
    let between = landed(engine, seq![asserted]);
    lemma_lone_write(engine, asserted);
    lemma_landed_stands(engine, seq![asserted]);
    assert(has_room(between, 1));
    let retracted = checked(
        standing_tables(between),
        table,
        WriteModel::Retract(record.key),
    )->Ok_0;
    lemma_lone_write(between, retracted);
    lemma_landed_stands(between, seq![retracted]);
    assert(standing_tables(landed(between, seq![retracted])).records
        =~= standing_tables(engine).records);
}

/// The commit log row of one write that is logged as the next commit.
pub open spec fn lone_row(
    engine: EngineModel,
    operation: SemaOperation,
    table: Seq<char>,
    key: KeyModel,
) -> LogEntryModel {
    LogEntryModel {
        commit_sequence: (standing_sequence(engine) + 1) as u64,
        snapshot: (standing_snapshot(engine) + 1) as u64,
        operations: seq![LogOperationModel { operation, table, key: Some(key) }],
    }
}

/// Asserting and then retracting a record is two commits: each is logged
/// under the next sequence and the next snapshot with its one operation;
/// under versioning the second entry continues the first and is the
/// removal of the record, without a payload. A further retraction finds no
/// record.
pub proof fn lemma_assert_then_retract_logged(
    engine: EngineModel,
    table: Seq<char>,
    record: RecordModel,
)
    requires
        has_room(engine, 2),
        engine.session is None,
        write_outcome(engine, table, WriteModel::Assert(record)) is Ok,
    ensures
        ({
            let between = write_outcome(engine, table, WriteModel::Assert(record))->Ok_0;
            let after = write_outcome(between, table, WriteModel::Retract(record.key))->Ok_0;
            let asserted = lone_row(engine, SemaOperation::Assert, table, record.key);
            let retracted = lone_row(between, SemaOperation::Retract, table, record.key);
            &&& write_outcome(between, table, WriteModel::Retract(record.key)) is Ok
            &&& standing_sequence(between) == standing_sequence(engine) + 1
            &&& standing_snapshot(between) == standing_snapshot(engine) + 1
            &&& standing_sequence(after) == standing_sequence(engine) + 2
            &&& standing_snapshot(after) == standing_snapshot(engine) + 2
            &&& after.store.commit_log == engine.store.commit_log.insert(
                asserted.commit_sequence,
                asserted,
            ).insert(retracted.commit_sequence, retracted)
            &&& engine.policy is Some ==> {
                let entry = after.store.versioned_log[retracted.commit_sequence];
                &&& after.store.versioned_log == between.store.versioned_log.insert(
                    retracted.commit_sequence,
                    entry,
                )
                &&& entry.previous == between.store.chain_head
                &&& entry.operations == seq![
                    OperationModel {
                        operation: SemaOperation::Retract,
                        family: family_at(engine.catalog, table)->0,
                        key: Some(record.key),
                        payload: None,
                    },
                ]
            }
            &&& engine.policy is None ==> after.store.versioned_log == engine.store.versioned_log
            &&& write_outcome(after, table, WriteModel::Retract(record.key)) == Err::<
                EngineModel,
                Failure,
            >(Failure::RecordNotFound { table, key: key_text(record.key) })
        }),
{
    let asserted = checked(standing_tables(engine), table, WriteModel::Assert(record))->Ok_0;
    let between = landed(engine, seq![asserted]);
    lemma_lone_write(engine, asserted);
    lemma_landed_stands(engine, seq![asserted]);
    assert(has_room(between, 1));
    let retracted = checked(
        standing_tables(between),
        table,
        WriteModel::Retract(record.key),
    )->Ok_0;
    let after = landed(between, seq![retracted]);
    lemma_lone_write(between, retracted);
    lemma_landed_stands(between, seq![retracted]);
    assert(commit_operations(seq![asserted]) =~= lone_row(
        engine,
        SemaOperation::Assert,
        table,
        record.key,
    ).operations);
    assert(commit_operations(seq![retracted]) =~= lone_row(
        between,
        SemaOperation::Retract,
        table,
        record.key,
    ).operations);
    assert(versioned_operations(engine.catalog, seq![retracted]) =~= seq![
        OperationModel {
            operation: SemaOperation::Retract,
            family: family_at(engine.catalog, table)->0,
            key: Some(record.key),
            payload: None,
        },
    ]);
}

/// Writes to one table leave the rows of every other table alone.
pub proof fn lemma_other_tables_stand(
    tables: TablesModel,
    writes: Seq<WriteFact>,
    other: Seq<char>,
)
    requires
        forall|i: int| 0 <= i < writes.len() ==> (#[trigger] writes[i]).table != other,
    ensures
        domain_rows(applied_all(tables, writes).records, other) == domain_rows(
            tables.records,
            other,
        ),
        identified_rows(applied_all(tables, writes).identified, other)
            == identified_rows(tables.identified, other),
    decreases writes.len(),
{
    if writes.len() > 0 {
        let less = writes.drop_last();
        assert forall|i: int| 0 <= i < less.len() implies (#[trigger] less[i]).table != other by {
            assert(less[i] == writes[i]);
        }
        lemma_other_tables_stand(tables, less, other);
        assert(writes[writes.len() - 1].table != other);
        let before = applied_all(tables, less);
        let after = applied_all(tables, writes);
        assert(domain_rows(after.records, other) =~= domain_rows(before.records, other));
        assert(identified_rows(after.identified, other)
            =~= identified_rows(before.identified, other));
    }
}

/// Planned writes match the requested ones.
proof fn lemma_planned_len(tables: TablesModel, table: Seq<char>, writes: Seq<WriteModel>)
    ensures
        planned(tables, table, writes) matches Ok(facts) ==> facts.len() == writes.len(),
    decreases writes.len(),
{
    if writes.len() > 0 {
        lemma_planned_len(tables, table, writes.drop_last());
    }
}

/// Planned writes match the requested ones.
proof fn lemma_planned_across_len(
    catalog: Seq<FamilyModel>,
    tables: TablesModel,
    writes: Seq<(Seq<char>, WriteModel)>,
)
    ensures
        planned_across(catalog, tables, writes) matches Ok(facts) ==> facts.len() == writes.len(),
    decreases writes.len(),
{
    if writes.len() > 0 {
        lemma_planned_across_len(catalog, tables, writes.drop_last());
    }
}

/// One commit more: the sequence and the snapshot advance by one, and the
/// commit log gains exactly one entry, of `operations` operations.
pub open spec fn one_commit_more(
    before: EngineModel,
    after: EngineModel,
    operations: nat,
) -> bool {
    let sequence = (standing_sequence(before) + 1) as u64;
    &&& standing_sequence(after) == standing_sequence(before) + 1
    &&& standing_snapshot(after) == standing_snapshot(before) + 1
    &&& before.session is None ==> {
        let entry = after.store.commit_log[sequence];
        &&& after.store.commit_log == before.store.commit_log.insert(sequence, entry)
        &&& entry.commit_sequence == sequence
        &&& entry.snapshot == standing_snapshot(after)
        &&& entry.operations.len() == operations
    }
}

/// A group over one table lands as one commit: one snapshot and one log
/// entry for all of its operations.
pub proof fn lemma_group_lands_once(
    engine: EngineModel,
    table: Seq<char>,
    writes: Seq<WriteModel>,
)
    requires
        has_room(engine, 1),
    ensures
        commit_outcome(engine, table, writes) matches Ok(after) ==> one_commit_more(
            engine,
            after,
            writes.len(),
        ),
{
    lemma_planned_len(standing_tables(engine), table, writes);
    if let Ok(facts) = planned(standing_tables(engine), table, writes) {
        lemma_landed_stands(engine, facts);
    }
}

/// A group over several tables lands as one commit: one snapshot and one
/// log entry for all of its operations.
pub proof fn lemma_atomic_group_lands_once(
    engine: EngineModel,
    writes: Seq<(Seq<char>, WriteModel)>,
)
    requires
        has_room(engine, 1),
    ensures
        atomic_outcome(engine, writes) matches Ok(after) ==> one_commit_more(
            engine,
            after,
            writes.len(),
        ),
{
    lemma_planned_across_len(engine.catalog, standing_tables(engine), writes);
    if let Ok(facts) = planned_across(engine.catalog, standing_tables(engine), writes) {
        lemma_landed_stands(engine, facts);
    }
}

/// Every identifier in use is below the one that its table mints next.
pub open spec fn minted_below(tables: TablesModel) -> bool {
    forall|table: Seq<char>, identifier: u64| #[trigger]
        tables.identified.dom().contains((table, identifier)) ==> identifier < next_identifier(
            tables,
            table,
        )
}

/// An identifier is minted once: a table's next assertion takes an
/// identifier that no record of the table ever held, the identifiers in
/// use stay below the next, and the next is one higher.
pub proof fn lemma_identifier_minted_once(
    engine: EngineModel,
    table: Seq<char>,
    bytes: Seq<u8>,
)
    requires
        has_room(engine, 1),
        minted_below(standing_tables(engine)),
        next_identifier(standing_tables(engine), table) < u64::MAX,
    ensures
        identified_assertion(engine, table, bytes) matches Ok(after) ==> {
            let minted = next_identifier(standing_tables(engine), table);
            &&& !standing_tables(engine).identified.dom().contains((table, minted))
            &&& standing_tables(after).identified.dom().contains((table, minted))
            &&& standing_tables(after).identified[(table, minted)] == bytes
            &&& next_identifier(standing_tables(after), table) == minted + 1
            &&& minted_below(standing_tables(after))
        },
{
    let minted = next_identifier(standing_tables(engine), table);
    let write = identified_write(
        SemaOperation::Assert,
        table,
        minted,
        bytes,
    );
    lemma_lone_write(engine, write);
    let before = standing_tables(engine);
    let after = applied(before, write);
    assert forall|other: Seq<char>, identifier: u64| #[trigger]
        after.identified.dom().contains((other, identifier)) implies identifier < next_identifier(
        after,
        other,
    ) by {
        lemma_counter_table(table);
        lemma_counter_table(other);
        if (other, identifier) != (table, minted) {
            assert(before.identified.dom().contains((other, identifier)));
        }
    }
}

/// Writes that mint nothing keep every identifier below the next: domain
/// writes, and mutations and retractions of identified records.
pub proof fn lemma_identifiers_stay_below(
    engine: EngineModel,
    table: Seq<char>,
    identifier: u64,
    bytes: Seq<u8>,
    write: WriteModel,
)
    requires
        has_room(engine, 1),
        minted_below(standing_tables(engine)),
    ensures
        identified_mutation(engine, table, identifier, bytes) matches Ok(after) ==> minted_below(
            standing_tables(after),
        ),
        identified_retraction(engine, table, identifier) matches Ok(after) ==> minted_below(
            standing_tables(after),
        ),
        write_outcome(engine, table, write) matches Ok(after) ==> minted_below(
            standing_tables(after),
        ),
{
    let before = standing_tables(engine);
    let mutated = identified_write(
        SemaOperation::Mutate,
        table,
        identifier,
        bytes,
    );
    let removed = identified_removal(
        table,
        identifier,
        before.identified[(table, identifier)],
    );
    lemma_lone_write(engine, mutated);
    lemma_lone_write(engine, removed);
    lemma_unminted(before, removed);
    if before.identified.dom().contains((table, identifier)) {
        lemma_unminted(before, mutated);
    }
    if let Ok(fact) = checked(before, table, write) {
        lemma_lone_write(engine, fact);
        lemma_unminted(before, fact);
    }
}

/// One write that mints nothing.
proof fn lemma_unminted(tables: TablesModel, write: WriteFact)
    requires
        minted_below(tables),
        match write.slot {
            Slot::Identified(identifier) => write.operation
                != SemaOperation::Assert && (write.payload is Some
                ==> tables.identified.dom().contains((write.table, identifier))),
            Slot::Domain(_) => true,
        },
    ensures
        minted_below(applied(tables, write)),
{
    let after = applied(tables, write);
    assert forall|table: Seq<char>, identifier: u64| #[trigger]
        after.identified.dom().contains((table, identifier)) implies identifier < next_identifier(
        after,
        table,
    ) by {
        assert(tables.identified.dom().contains((table, identifier)));
    }
}

/// The value of a counter, zero if it was never written.
pub open spec fn counter_value(counters: Map<Seq<char>, u64>, counter: Seq<char>) -> u64 {
    if counters.dom().contains(counter) {
        counters[counter]
    } else {
        0
    }
}

/// Taking over logged operations moves no counter back.
pub proof fn lemma_counters_only_rise(
    counters: Map<Seq<char>, u64>,
    operations: Seq<OperationModel>,
    counter: Seq<char>,
)
    ensures
        counter_value(counters_advanced(counters, operations), counter) >= counter_value(
            counters,
            counter,
        ),
    decreases operations.len(),
{
    if operations.len() > 0 {
        lemma_counters_only_rise(counters, operations.drop_last(), counter);
    }
}

/// A store that takes over logged operations never mints one of their
/// identifiers again: every counter ends past each identifier that was
/// asserted under it, and none moves back.
pub proof fn lemma_taken_over_identifiers_stay_minted(
    counters: Map<Seq<char>, u64>,
    operations: Seq<OperationModel>,
    at: int,
    identifier: u64,
)
    requires
        0 <= at < operations.len(),
        operations[at].operation == SemaOperation::Assert,
        operations[at].key == Some(KeyModel::Identifier(identifier)),
        identifier < u64::MAX,
    ensures
        ({
            let counter = counter_key_text(operations[at].family.table);
            &&& counter_value(counters_advanced(counters, operations), counter) > identifier
            &&& counter_value(counters_advanced(counters, operations), counter)
                >= counter_value(counters, counter)
        }),
    decreases operations.len(),
{
    let counter = counter_key_text(operations[at].family.table);
    lemma_counters_only_rise(counters, operations, counter);
    let less = operations.drop_last();
    if at < less.len() {
        lemma_taken_over_identifiers_stay_minted(counters, less, at, identifier);
    }
}

/// One step of a run on an engine-identified table: a write verb, or
/// closing the store and opening it again.
pub enum IdentifiedStep {
    Assert(Seq<u8>),
    Mutate(u64, Seq<u8>),
    Retract(u64),
    Reopen,
}

/// The engine after a store was closed and opened again.
pub open spec fn reopened(engine: EngineModel) -> Result<EngineModel, Failure> {
    match opened(engine.store) {
        Ok(store) => Ok(
            EngineModel {
                store,
                catalog: stored_catalog(store.catalog),
                subscriptions: Seq::empty(),
                policy: engine.policy,
                topology: engine.topology,
                deltas: Seq::empty(),
                session: None,
            },
        ),
        Err(failure) => Err(failure),
    }
}

/// The outcome of one step.
pub open spec fn step_outcome(
    engine: EngineModel,
    table: Seq<char>,
    step: IdentifiedStep,
) -> Result<EngineModel, Failure> {
    match step {
        IdentifiedStep::Assert(bytes) => identified_assertion(engine, table, bytes),
        IdentifiedStep::Mutate(identifier, bytes) => identified_mutation(
            engine,
            table,
            identifier,
            bytes,
        ),
        IdentifiedStep::Retract(identifier) => identified_retraction(engine, table, identifier),
        IdentifiedStep::Reopen => reopened(engine),
    }
}

/// The engine after a run. A refused step changes nothing.
pub open spec fn after_steps(
    engine: EngineModel,
    table: Seq<char>,
    steps: Seq<IdentifiedStep>,
) -> EngineModel
    decreases steps.len(),
{
    if steps.len() == 0 {
        engine
    } else {
        let before = after_steps(engine, table, steps.drop_last());
        match step_outcome(before, table, steps.last()) {
            Ok(after) => after,
            Err(_) => before,
        }
    }
}

/// The identifiers that the successful assertions of a run took, in order.
pub open spec fn minted_by(
    engine: EngineModel,
    table: Seq<char>,
    steps: Seq<IdentifiedStep>,
) -> Seq<u64>
    decreases steps.len(),
{
    if steps.len() == 0 {
        Seq::empty()
    } else {
        let earlier = minted_by(engine, table, steps.drop_last());
        let before = after_steps(engine, table, steps.drop_last());
        if steps.last() is Assert && step_outcome(before, table, steps.last()) is Ok {
            earlier.push(next_identifier(standing_tables(before), table))
        } else {
            earlier
        }
    }
}

/// Identifiers count from one: in a table that has minted none, the k-th
/// successful assertion takes the identifier k, whatever was mutated,
/// retracted and refused in between and however often the store was
/// reopened. So they strictly rise and none is handed out twice.
pub proof fn lemma_identifiers_count_up(
    engine: EngineModel,
    table: Seq<char>,
    steps: Seq<IdentifiedStep>,
)
    requires
        engine.session is None,
        engine.store.layout == Some(STORAGE_LAYOUT),
        next_identifier(standing_tables(engine), table) == 1,
        has_room(engine, steps.len() as int),
        steps.len() < u64::MAX,
    ensures
        ({
            let taken = minted_by(engine, table, steps);
            let after = after_steps(engine, table, steps);
            &&& forall|k: int| 0 <= k < taken.len() ==> #[trigger] taken[k] == k + 1
            &&& taken.len() <= steps.len()
            &&& next_identifier(standing_tables(after), table) == taken.len() + 1
            &&& after.session is None
            &&& standing_sequence(after) <= standing_sequence(engine) + steps.len()
        }),
    decreases steps.len(),
{
    lemma_steps_have_room(engine, table, steps);
    if steps.len() > 0 {
        let less = steps.drop_last();
        lemma_identifiers_count_up(engine, table, less);
        lemma_steps_have_room(engine, table, less);
        let before = after_steps(engine, table, less);
        match steps.last() {
            IdentifiedStep::Assert(bytes) => {
                let next = next_identifier(standing_tables(before), table);
                lemma_lone_write(before, identified_write(SemaOperation::Assert, table, next, bytes));
            },
            IdentifiedStep::Mutate(identifier, bytes) => {
                lemma_lone_write(
                    before,
                    identified_write(SemaOperation::Mutate, table, identifier, bytes),
                );
            },
            IdentifiedStep::Retract(identifier) => {
                lemma_lone_write(
                    before,
                    identified_removal(
                        table,
                        identifier,
                        standing_tables(before).identified[(table, identifier)],
                    ),
                );
            },
            IdentifiedStep::Reopen => {},
        }
    }
}

/// A run takes at most one commit per step.
proof fn lemma_steps_have_room(
    engine: EngineModel,
    table: Seq<char>,
    steps: Seq<IdentifiedStep>,
)
    requires
        engine.session is None,
        engine.store.layout == Some(STORAGE_LAYOUT),
        has_room(engine, steps.len() as int),
    ensures
        after_steps(engine, table, steps).session is None,
        after_steps(engine, table, steps).store.layout == Some(STORAGE_LAYOUT),
        ({
            let after = after_steps(engine, table, steps);
            let store = after.store;
            &&& standing_sequence(after) <= standing_sequence(engine) + steps.len()
            &&& standing_snapshot(after) <= standing_snapshot(engine) + steps.len()
            &&& counted_so_far(store.commit_count) <= counted_so_far(engine.store.commit_count)
                + steps.len()
            &&& counted_so_far(store.versioned_count) <= counted_so_far(
                engine.store.versioned_count,
            ) + steps.len()
        }),
    decreases steps.len(),
{
    if steps.len() > 0 {
        lemma_steps_have_room(engine, table, steps.drop_last());
    }
}

} // verus!
