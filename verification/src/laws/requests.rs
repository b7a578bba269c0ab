//! Requests: which groups of writes are accepted, which write refuses one,
//! and what an accepted group leaves in the tables, the logs and the queue
//! of deltas.

use vstd::prelude::*;

use crate::catalog::registered;
use crate::engine_model::{
    announced, atomic_outcome, checked, commit_operations, commit_outcome, has_room, landed,
    named_already, planned, planned_across, standing_sequence, standing_snapshot, standing_tables,
    versioned_operations, write_outcome, EngineModel,
};
use crate::error::Failure;
use crate::laws::rebuild::lemma_family_at;
use crate::log::{LogEntryModel, LogOperationModel};
use crate::mutation::WriteModel;
use crate::operation::SemaOperation;
use crate::outbox::HeadModel;
use crate::query::{range_contains, FilterModel, KeyRangeModel};
use crate::record::{
    key_precedes, key_text, lemma_key_irreflexive, lemma_key_total, lemma_key_transitive, KeyModel,
    RecordModel,
};
use crate::store::counted_so_far;
use crate::subscribe::{fanned, ActiveModel, DeltaKind, DeltaModel};
use crate::tables::{applied, applied_all, Slot, TablesModel, WriteFact};
use crate::versioning::{sealed, store_schema, versions, FamilyModel, OperationModel};

verus! {

/// One write of a request: the table it is for, and the write.
pub type Request = (Seq<char>, WriteModel);

/// The key that a write is for.
pub open spec fn key_of(write: WriteModel) -> KeyModel {
    match write {
        WriteModel::Assert(record) => record.key,
        WriteModel::Mutate(record) => record.key,
        WriteModel::Retract(key) => key,
    }
}

/// What a write is to leave under its key: its record, or nothing.
pub open spec fn left_by(write: WriteModel) -> Option<Seq<u8>> {
    match write {
        WriteModel::Assert(record) => Some(record.bytes),
        WriteModel::Mutate(record) => Some(record.bytes),
        WriteModel::Retract(_) => None,
    }
}

/// The verb of a write.
pub open spec fn verb_of(write: WriteModel) -> SemaOperation {
    match write {
        WriteModel::Assert(_) => SemaOperation::Assert,
        WriteModel::Mutate(_) => SemaOperation::Mutate,
        WriteModel::Retract(_) => SemaOperation::Retract,
    }
}

/// The kind of change that a subscriber is told of.
pub open spec fn kind_of(write: WriteModel) -> DeltaKind {
    match write {
        WriteModel::Assert(_) => DeltaKind::Assert,
        WriteModel::Mutate(_) => DeltaKind::Mutate,
        WriteModel::Retract(_) => DeltaKind::Retract,
    }
}

/// The row of a domain-keyed table under a key, if one stands.
pub open spec fn row_at(tables: TablesModel, table: Seq<char>, text: Seq<char>) -> Option<
    Seq<u8>,
> {
    if tables.records.dom().contains((table, text)) {
        Some(tables.records[(table, text)])
    } else {
        None
    }
}

/// The rows that stood let a request in: an assertion needs its key free, a
/// mutation or retraction needs it taken, and the table is registered.
pub open spec fn admitted(
    catalog: Seq<FamilyModel>,
    tables: TablesModel,
    request: Request,
) -> bool {
    let standing = row_at(tables, request.0, key_text(key_of(request.1)));
    &&& registered(catalog, request.0)
    &&& match request.1 {
        WriteModel::Assert(_) => standing is None,
        WriteModel::Mutate(_) => standing is Some,
        WriteModel::Retract(_) => standing is Some,
    }
}

/// Two requests are for the same key of the same table.
pub open spec fn collide(a: Request, b: Request) -> bool {
    a.0 == b.0 && key_of(a.1) == key_of(b.1)
}

/// No two requests are for the same key of the same table.
pub open spec fn apart(requests: Seq<Request>) -> bool {
    forall|i: int, j: int|
        0 <= i < j < requests.len() ==> !collide(#[trigger] requests[i], #[trigger] requests[j])
}

/// Every request is let in by the rows that stood.
pub open spec fn all_admitted(
    catalog: Seq<FamilyModel>,
    tables: TablesModel,
    requests: Seq<Request>,
) -> bool {
    forall|i: int|
        0 <= i < requests.len() ==> admitted(catalog, tables, #[trigger] requests[i])
}

/// The checked writes are those of the requests, one for one.
pub proof fn lemma_planned_facts(
    catalog: Seq<FamilyModel>,
    tables: TablesModel,
    requests: Seq<Request>,
)
    ensures
        planned_across(catalog, tables, requests) is Ok <==> apart(requests) && all_admitted(
            catalog,
            tables,
            requests,
        ),
        planned_across(catalog, tables, requests) matches Ok(facts) ==> {
            &&& facts.len() == requests.len()
            &&& forall|i: int|
                0 <= i < requests.len() ==> fact_of(tables, requests[i], #[trigger] facts[i])
        },
    decreases requests.len(),
{
    if requests.len() > 0 {
        let less = requests.drop_last();
        let end = requests.len() - 1;
        let last = requests[end];
        lemma_planned_facts(catalog, tables, less);
        if apart(requests) {
            assert forall|i: int, j: int| 0 <= i < j < less.len() implies !collide(
                #[trigger] less[i],
                #[trigger] less[j],
            ) by {
                assert(!collide(requests[i], requests[j]));
            }
        }
        if all_admitted(catalog, tables, requests) {
            assert forall|i: int| 0 <= i < less.len() implies admitted(
                catalog,
                tables,
                #[trigger] less[i],
            ) by {
                assert(admitted(catalog, tables, requests[i]));
            }
            assert(admitted(catalog, tables, requests[end]));
        }
        if let Ok(before) = planned_across(catalog, tables, less) {
            if named_already(before, last.0, key_of(last.1)) {
                let i = choose|i: int|
                    0 <= i < before.len() && (#[trigger] before[i]).table == last.0
                        && before[i].key == key_of(last.1);
                assert(fact_of(tables, less[i], before[i]));
                assert(collide(requests[i], requests[end]));
            } else {
                assert forall|i: int| 0 <= i < less.len() implies !collide(
                    #[trigger] requests[i],
                    last,
                ) by {
                    assert(fact_of(tables, less[i], before[i]));
                }
                if apart(less) && admitted(catalog, tables, last) {
                    assert forall|i: int, j: int| 0 <= i < j < requests.len() implies !collide(
                        #[trigger] requests[i],
                        #[trigger] requests[j],
                    ) by {
                        if j < end {
                            assert(!collide(less[i], less[j]));
                        }
                    }
                    assert forall|i: int| 0 <= i < requests.len() implies admitted(
                        catalog,
                        tables,
                        #[trigger] requests[i],
                    ) by {
                        if i < end {
                            assert(admitted(catalog, tables, less[i]));
                        }
                    }
                }
            }
            if let Ok(facts) = planned_across(catalog, tables, requests) {
                assert forall|i: int| 0 <= i < requests.len() implies fact_of(
                    tables,
                    requests[i],
                    #[trigger] facts[i],
                ) by {
                    if i < end {
                        assert(fact_of(tables, less[i], before[i]));
                    }
                }
            }
        }
    }
}

/// A checked write is that of a request, held against the rows that stood.
pub open spec fn fact_of(tables: TablesModel, request: Request, fact: WriteFact) -> bool {
    let text = key_text(key_of(request.1));
    &&& fact.table == request.0
    &&& fact.slot == Slot::Domain(text)
    &&& fact.key == key_of(request.1)
    &&& fact.operation == verb_of(request.1)
    &&& fact.payload == left_by(request.1)
    &&& Some(fact.record) == match request.1 {
        WriteModel::Retract(_) => row_at(tables, request.0, text),
        _ => left_by(request.1),
    }
}

/// A group over several tables is accepted exactly when it asks for
/// something, every write is let in by the rows that stood before the
/// group, and no two of its writes are for the same key of the same table.
pub proof fn lemma_group_accepted(engine: EngineModel, requests: Seq<Request>)
    ensures
        atomic_outcome(engine, requests) is Ok <==> {
            &&& requests.len() > 0
            &&& apart(requests)
            &&& all_admitted(engine.catalog, standing_tables(engine), requests)
        },
{
    lemma_planned_facts(engine.catalog, standing_tables(engine), requests);
}

/// Why a request is refused, given those before it that were accepted: it
/// repeats a key, its table is not registered, or its key is taken or free.
pub open spec fn refusal_of(
    catalog: Seq<FamilyModel>,
    tables: TablesModel,
    earlier: Seq<Request>,
    request: Request,
) -> Failure {
    let table = request.0;
    let key = key_text(key_of(request.1));
    if exists|i: int| 0 <= i < earlier.len() && collide(#[trigger] earlier[i], request) {
        Failure::DuplicateWriteKey { table, key }
    } else if !registered(catalog, table) {
        Failure::TableNotRegistered { table }
    } else if request.1 is Assert {
        Failure::DuplicateAssertKey { table, key }
    } else {
        Failure::RecordNotFound { table, key }
    }
}

proof fn lemma_planned_refusal(
    catalog: Seq<FamilyModel>,
    tables: TablesModel,
    requests: Seq<Request>,
    at: int,
)
    requires
        0 <= at < requests.len(),
        apart(requests.take(at)),
        all_admitted(catalog, tables, requests.take(at)),
        !apart(requests.take(at + 1)) || !admitted(catalog, tables, requests[at]),
    ensures
        planned_across(catalog, tables, requests) == Err::<Seq<WriteFact>, Failure>(
            refusal_of(catalog, tables, requests.take(at), requests[at]),
        ),
    decreases requests.len(),
{
    let end = requests.len() - 1;
    let less = requests.drop_last();
    if at < end {
        assert(less.take(at) =~= requests.take(at));
        assert(less.take(at + 1) =~= requests.take(at + 1));
        lemma_planned_refusal(catalog, tables, less, at);
    } else {
        let request = requests[at];
        assert(less =~= requests.take(at));
        lemma_planned_facts(catalog, tables, less);
        let before = planned_across(catalog, tables, less)->Ok_0;
        if named_already(before, request.0, key_of(request.1)) {
            let i = choose|i: int|
                0 <= i < before.len() && (#[trigger] before[i]).table == request.0
                    && before[i].key == key_of(request.1);
            assert(fact_of(tables, less[i], before[i]));
            assert(collide(requests.take(at)[i], request));
        } else {
            assert forall|i: int| 0 <= i < less.len() implies !collide(
                #[trigger] requests.take(at)[i],
                request,
            ) by {
                assert(fact_of(tables, less[i], before[i]));
            }
            if !apart(requests.take(at + 1)) {
                let longer = requests.take(at + 1);
                let (i, j) = choose|i: int, j: int|
                    0 <= i < j < longer.len() && collide(
                        #[trigger] longer[i],
                        #[trigger] longer[j],
                    );
                if j < at {
                    assert(collide(requests.take(at)[i], requests.take(at)[j]));
                } else {
                    assert(collide(requests.take(at)[i], request));
                }
            }
        }
    }
}

/// The first request that is not let in, or that repeats a key of an
/// earlier one, refuses the whole group, and says why.
pub proof fn lemma_group_refused(engine: EngineModel, requests: Seq<Request>, at: int)
    requires
        0 <= at < requests.len(),
        apart(requests.take(at)),
        all_admitted(engine.catalog, standing_tables(engine), requests.take(at)),
        !apart(requests.take(at + 1)) || !admitted(
            engine.catalog,
            standing_tables(engine),
            requests[at],
        ),
    ensures
        atomic_outcome(engine, requests) == Err::<EngineModel, Failure>(
            refusal_of(
                engine.catalog,
                standing_tables(engine),
                requests.take(at),
                requests[at],
            ),
        ),
{
    lemma_planned_refusal(engine.catalog, standing_tables(engine), requests, at);
}

/// A group that is not accepted has a first request that refuses it.
pub open spec fn refused_at(
    catalog: Seq<FamilyModel>,
    tables: TablesModel,
    requests: Seq<Request>,
    at: int,
) -> bool {
    &&& 0 <= at < requests.len()
    &&& apart(requests.take(at))
    &&& all_admitted(catalog, tables, requests.take(at))
    &&& !apart(requests.take(at + 1)) || !admitted(catalog, tables, requests[at])
}

pub proof fn lemma_first_refused(
    catalog: Seq<FamilyModel>,
    tables: TablesModel,
    requests: Seq<Request>,
)
    requires
        !apart(requests) || !all_admitted(catalog, tables, requests),
    ensures
        exists|at: int| #[trigger] refused_at(catalog, tables, requests, at),
    decreases requests.len(),
{
    let less = requests.drop_last();
    let end = requests.len() - 1;
    if requests.len() == 0 {
        assert(false);
    }
    if !apart(less) || !all_admitted(catalog, tables, less) {
        lemma_first_refused(catalog, tables, less);
        let at = choose|at: int| #[trigger] refused_at(catalog, tables, less, at);
        assert(less.take(at) =~= requests.take(at));
        assert(less.take(at + 1) =~= requests.take(at + 1));
        assert(refused_at(catalog, tables, requests, at));
    } else {
        assert(less =~= requests.take(end));
        assert(requests.take(end + 1) =~= requests);
        if admitted(catalog, tables, requests[end]) {
            assert forall|i: int| 0 <= i < requests.len() implies admitted(
                catalog,
                tables,
                #[trigger] requests[i],
            ) by {
                if i < end {
                    assert(admitted(catalog, tables, less[i]));
                }
            }
        }
        assert(refused_at(catalog, tables, requests, end));
    }
}

/// A repeated key refuses a group whatever stands between the two writes:
/// where every write by itself would be let in, the first that is for the
/// key of an earlier one is named, and nothing changes.
pub proof fn lemma_repeated_key_refused(
    engine: EngineModel,
    requests: Seq<Request>,
    first: int,
    second: int,
)
    requires
        all_admitted(engine.catalog, standing_tables(engine), requests),
        0 <= first < second < requests.len(),
        collide(requests[first], requests[second]),
        apart(requests.take(second)),
    ensures
        atomic_outcome(engine, requests) == Err::<EngineModel, Failure>(
            Failure::DuplicateWriteKey {
                table: requests[second].0,
                key: key_text(key_of(requests[second].1)),
            },
        ),
{
    let earlier = requests.take(second);
    let longer = requests.take(second + 1);
    assert(collide(longer[first], longer[second]));
    assert(collide(earlier[first], requests[second]));
    assert forall|i: int| 0 <= i < earlier.len() implies admitted(
        engine.catalog,
        standing_tables(engine),
        #[trigger] earlier[i],
    ) by {
        assert(admitted(engine.catalog, standing_tables(engine), requests[i]));
    }
    lemma_group_refused(engine, requests, second);
}

/// The requests of a group over one table.
pub open spec fn over(table: Seq<char>, writes: Seq<WriteModel>) -> Seq<Request> {
    Seq::new(writes.len(), |i: int| (table, writes[i]))
}

proof fn lemma_planned_over(
    catalog: Seq<FamilyModel>,
    tables: TablesModel,
    table: Seq<char>,
    writes: Seq<WriteModel>,
)
    requires
        registered(catalog, table),
    ensures
        planned(tables, table, writes) == planned_across(catalog, tables, over(table, writes)),
    decreases writes.len(),
{
    if writes.len() > 0 {
        lemma_planned_over(catalog, tables, table, writes.drop_last());
        assert(over(table, writes).drop_last() =~= over(table, writes.drop_last()));
    }
}

/// A group over one table is a group over several that are all that one;
/// and a lone write is a group of one.
pub proof fn lemma_one_table_is_a_group(
    engine: EngineModel,
    table: Seq<char>,
    writes: Seq<WriteModel>,
    write: WriteModel,
)
    ensures
        !registered(engine.catalog, table) ==> commit_outcome(engine, table, writes) == Err::<
            EngineModel,
            Failure,
        >(Failure::TableNotRegistered { table }),
        registered(engine.catalog, table) && writes.len() == 0 ==> commit_outcome(
            engine,
            table,
            writes,
        ) == Err::<EngineModel, Failure>(Failure::EmptyCommit { table }),
        registered(engine.catalog, table) && writes.len() > 0 ==> commit_outcome(
            engine,
            table,
            writes,
        ) == atomic_outcome(engine, over(table, writes)),
        write_outcome(engine, table, write) == atomic_outcome(engine, seq![(table, write)]),
{
    let tables = standing_tables(engine);
    if registered(engine.catalog, table) {
        lemma_planned_over(engine.catalog, tables, table, writes);
    }
    let lone = seq![(table, write)];
    reveal_with_fuel(planned_across, 2);
    assert(lone.drop_last() =~= Seq::empty());
    assert(Seq::<WriteFact>::empty().push(checked(tables, table, write)->Ok_0) =~= seq![
        checked(tables, table, write)->Ok_0,
    ]);
}

/// What writes leave in the tables.
proof fn lemma_facts_apply(
    before: TablesModel,
    tables: TablesModel,
    requests: Seq<Request>,
    facts: Seq<WriteFact>,
)
    requires
        facts.len() == requests.len(),
        forall|i: int|
            0 <= i < requests.len() ==> fact_of(before, requests[i], #[trigger] facts[i]),
    ensures
        applied_all(tables, facts).identified == tables.identified,
        applied_all(tables, facts).counters == tables.counters,
        forall|table: Seq<char>, text: Seq<char>|
            (forall|i: int|
                0 <= i < requests.len() ==> (#[trigger] requests[i]).0 != table || key_text(
                    key_of(requests[i].1),
                ) != text) ==> #[trigger] row_at(applied_all(tables, facts), table, text)
                == row_at(tables, table, text),
        forall|i: int|
            #![trigger requests[i]]
            0 <= i < requests.len() && (forall|j: int|
                i < j < requests.len() ==> (#[trigger] requests[j]).0 != requests[i].0
                    || key_text(key_of(requests[j].1)) != key_text(key_of(requests[i].1)))
                ==> row_at(
                applied_all(tables, facts),
                requests[i].0,
                key_text(key_of(requests[i].1)),
            ) == left_by(requests[i].1),
    decreases requests.len(),
{
    if requests.len() > 0 {
        let less = requests.drop_last();
        let fewer = facts.drop_last();
        let end = requests.len() - 1;
        let last = requests[end];
        assert forall|i: int| 0 <= i < less.len() implies fact_of(
            before,
            less[i],
            #[trigger] fewer[i],
        ) by {
            assert(fact_of(before, requests[i], facts[i]));
        }
        lemma_facts_apply(before, tables, less, fewer);
        assert(fact_of(before, requests[end], facts[end]));
        let between = applied_all(tables, fewer);
        let after = applied_all(tables, facts);
        assert(after == applied(between, facts[end]));
        let place = (last.0, key_text(key_of(last.1)));
        assert forall|table: Seq<char>, text: Seq<char>|
            (table, text) != place implies #[trigger] row_at(after, table, text) == row_at(
            between,
            table,
            text,
        ) by {}
        assert(row_at(after, place.0, place.1) == left_by(last.1));
        assert forall|table: Seq<char>, text: Seq<char>|
            (forall|i: int|
                0 <= i < requests.len() ==> (#[trigger] requests[i]).0 != table || key_text(
                    key_of(requests[i].1),
                ) != text) implies #[trigger] row_at(after, table, text) == row_at(
            tables,
            table,
            text,
        ) by {
            assert(requests[end].0 != table || key_text(key_of(requests[end].1)) != text);
            assert forall|i: int| 0 <= i < less.len() implies (#[trigger] less[i]).0 != table
                || key_text(key_of(less[i].1)) != text by {
                assert(less[i] == requests[i]);
            }
        }
        assert forall|i: int|
            #![trigger requests[i]]
            0 <= i < requests.len() && (forall|j: int|
                i < j < requests.len() ==> (#[trigger] requests[j]).0 != requests[i].0
                    || key_text(key_of(requests[j].1)) != key_text(
                    key_of(requests[i].1),
                )) implies row_at(after, requests[i].0, key_text(key_of(requests[i].1)))
            == left_by(requests[i].1) by {
            if i < end {
                assert(requests[end].0 != requests[i].0 || key_text(key_of(requests[end].1))
                    != key_text(key_of(requests[i].1)));
                assert(less[i] == requests[i]);
                assert forall|j: int| i < j < less.len() implies (#[trigger] less[j]).0
                    != less[i].0 || key_text(key_of(less[j].1)) != key_text(
                    key_of(less[i].1),
                ) by {
                    assert(less[j] == requests[j]);
                }
                assert(row_at(between, less[i].0, key_text(key_of(less[i].1))) == left_by(
                    less[i].1,
                ));
            }
        }
    }
}

/// What an accepted group leaves in the record tables that reads see: under
/// every key that it names what the last write to that key leaves, and
/// every other row, every engine-identified record and every counter as it
/// stood.
pub open spec fn leaves_rows(
    before: TablesModel,
    after: TablesModel,
    requests: Seq<Request>,
) -> bool {
    &&& after.identified == before.identified
    &&& after.counters == before.counters
    &&& forall|table: Seq<char>, text: Seq<char>|
        (forall|i: int|
            0 <= i < requests.len() ==> (#[trigger] requests[i]).0 != table || key_text(
                key_of(requests[i].1),
            ) != text) ==> #[trigger] row_at(after, table, text) == row_at(before, table, text)
    &&& forall|i: int|
        #![trigger requests[i]]
        0 <= i < requests.len() && (forall|j: int|
            i < j < requests.len() ==> (#[trigger] requests[j]).0 != requests[i].0 || key_text(
                key_of(requests[j].1),
            ) != key_text(key_of(requests[i].1))) ==> row_at(
            after,
            requests[i].0,
            key_text(key_of(requests[i].1)),
        ) == left_by(requests[i].1)
}

/// One write as the log is to tell of it.
pub struct Due {
    pub table: Seq<char>,
    pub verb: SemaOperation,
    pub key: KeyModel,
    pub payload: Option<Seq<u8>>,
}

/// The requests of a group as the log is to tell of them.
pub open spec fn dues(requests: Seq<Request>) -> Seq<Due> {
    Seq::new(
        requests.len(),
        |i: int|
            Due {
                table: requests[i].0,
                verb: verb_of(requests[i].1),
                key: key_of(requests[i].1),
                payload: left_by(requests[i].1),
            },
    )
}

/// The operations that a commit logs, without payloads.
pub open spec fn metadata_due(due: Seq<Due>) -> Seq<LogOperationModel> {
    Seq::new(
        due.len(),
        |i: int|
            LogOperationModel {
                operation: due[i].verb,
                table: due[i].table,
                key: Some(due[i].key),
            },
    )
}

/// Versioned operations are those that are due, each under the family that
/// its table is registered with.
pub open spec fn operations_due(
    catalog: Seq<FamilyModel>,
    due: Seq<Due>,
    operations: Seq<OperationModel>,
) -> bool {
    &&& operations.len() == due.len()
    &&& forall|i: int|
        0 <= i < due.len() ==> {
            let operation = #[trigger] operations[i];
            &&& operation.operation == due[i].verb
            &&& operation.key == Some(due[i].key)
            &&& operation.payload == due[i].payload
            &&& operation.family.table == due[i].table
            &&& exists|at: int| 0 <= at < catalog.len() && #[trigger] catalog[at]
                == operation.family
        }
}

/// What a commit leaves in the logs of an engine without a session: one
/// commit log row and, under a policy, one versioned entry that continues
/// the chain, with its outbox row; everything else stands.
pub open spec fn leaves_log(
    before: EngineModel,
    after: EngineModel,
    due: Seq<Due>,
) -> bool {
    let sequence = (standing_sequence(before) + 1) as u64;
    let snapshot = (standing_snapshot(before) + 1) as u64;
    &&& standing_sequence(after) == standing_sequence(before) + 1
    &&& standing_snapshot(after) == standing_snapshot(before) + 1
    &&& after.store.commit_log == before.store.commit_log.insert(
        sequence,
        LogEntryModel {
            commit_sequence: sequence,
            snapshot,
            operations: metadata_due(due),
        },
    )
    &&& counted_so_far(after.store.commit_count) == counted_so_far(before.store.commit_count) + 1
    &&& match before.policy {
        None => {
            &&& after.store.versioned_log == before.store.versioned_log
            &&& after.store.versioned_count == before.store.versioned_count
            &&& after.store.outbox == before.store.outbox
            &&& after.store.chain_head == before.store.chain_head
        },
        Some(name) => {
            let entry = after.store.versioned_log[sequence];
            &&& after.store.versioned_log == before.store.versioned_log.insert(sequence, entry)
            &&& entry.store_name == name
            &&& entry.schema_hash == store_schema(versions(before.catalog))
            &&& entry.commit_sequence == sequence
            &&& entry.snapshot == snapshot
            &&& entry.previous == before.store.chain_head
            &&& entry == sealed(entry)
            &&& operations_due(before.catalog, due, entry.operations)
            &&& counted_so_far(after.store.versioned_count) == counted_so_far(
                before.store.versioned_count,
            ) + 1
            &&& after.store.outbox == before.store.outbox.insert(
                sequence,
                HeadModel { commit_sequence: sequence, digest: entry.digest },
            )
            &&& after.store.chain_head == Some(entry.digest)
        },
    }
    &&& after.catalog == before.catalog
    &&& after.policy == before.policy
    &&& after.subscriptions == before.subscriptions
    &&& after.session is None
    &&& after.store.catalog == before.store.catalog
    &&& after.store.checkpoints == before.store.checkpoints
    &&& after.store.segments == before.store.segments
    &&& after.store.latest_checkpoint == before.store.latest_checkpoint
    &&& after.store.subscriptions == before.store.subscriptions
    &&& after.store.next_subscription == before.store.next_subscription
    &&& after.store.mirror == before.store.mirror
    &&& after.store.staged == before.store.staged
    &&& after.store.layout == before.store.layout
}

/// What a commit leaves while a session is engaged: one more entry of the
/// session; the store and the queue of deltas stand.
pub open spec fn leaves_buffer(
    before: EngineModel,
    after: EngineModel,
    due: Seq<Due>,
) -> bool {
    let was = before.session->0;
    let is = after.session->0;
    let entry = is.entries.last();
    &&& after.store == before.store
    &&& after.catalog == before.catalog
    &&& after.policy == before.policy
    &&& after.subscriptions == before.subscriptions
    &&& after.deltas == before.deltas
    &&& after.session is Some
    &&& is.entries == was.entries.push(entry)
    &&& is.base == was.base
    &&& entry.commit_sequence == standing_sequence(before) + 1
    &&& entry.snapshot == standing_snapshot(before) + 1
    &&& entry.previous == was.chain_head
    &&& is.chain_head == Some(entry.digest)
    &&& entry == sealed(entry)
    &&& entry.store_name == was.store_name
    &&& entry.schema_hash == was.schema_hash
    &&& operations_due(before.catalog, due, entry.operations)
    &&& standing_sequence(after) == standing_sequence(before) + 1
    &&& standing_snapshot(after) == standing_snapshot(before) + 1
}

/// A write as the log tells of it.
pub open spec fn told_as(fact: WriteFact, due: Due) -> bool {
    &&& fact.table == due.table
    &&& fact.operation == due.verb
    &&& fact.key == due.key
    &&& fact.payload == due.payload
}

pub proof fn lemma_operations_due(catalog: Seq<FamilyModel>, due: Seq<Due>, facts: Seq<WriteFact>)
    requires
        facts.len() == due.len(),
        forall|i: int| 0 <= i < due.len() ==> told_as(#[trigger] facts[i], due[i]),
        forall|i: int| 0 <= i < due.len() ==> registered(catalog, (#[trigger] due[i]).table),
    ensures
        operations_due(catalog, due, versioned_operations(catalog, facts)),
        commit_operations(facts) == metadata_due(due),
{
    let operations = versioned_operations(catalog, facts);
    assert forall|i: int| 0 <= i < due.len() implies {
        let operation = #[trigger] operations[i];
        &&& operation.operation == due[i].verb
        &&& operation.key == Some(due[i].key)
        &&& operation.payload == due[i].payload
        &&& operation.family.table == due[i].table
        &&& exists|at: int| 0 <= at < catalog.len() && #[trigger] catalog[at] == operation.family
    } by {
        assert(told_as(facts[i], due[i]));
        lemma_family_at(catalog, due[i].table);
    }
    assert forall|i: int| 0 <= i < due.len() implies #[trigger] metadata_due(due)[i]
        == commit_operations(facts)[i] by {
        assert(told_as(facts[i], due[i]));
    }
    assert(commit_operations(facts) =~= metadata_due(due));
}

/// A landed commit is logged, or buffered while a session is engaged.
pub proof fn lemma_landed_logs(engine: EngineModel, due: Seq<Due>, facts: Seq<WriteFact>)
    requires
        has_room(engine, 1),
        facts.len() == due.len(),
        forall|i: int| 0 <= i < due.len() ==> told_as(#[trigger] facts[i], due[i]),
        forall|i: int| 0 <= i < due.len() ==> registered(engine.catalog, (#[trigger] due[i]).table),
    ensures
        engine.session is Some ==> leaves_buffer(engine, landed(engine, facts), due),
        engine.session is None ==> leaves_log(engine, landed(engine, facts), due),
{
    lemma_operations_due(engine.catalog, due, facts);
}

/// A key is one that a filter asks for: any key, the equal key, or a key
/// from the start of a range to its end, each where it is given.
pub open spec fn asked_for(filter: FilterModel, key: KeyModel) -> bool {
    match filter {
        FilterModel::All => true,
        FilterModel::Key(wanted) => key == wanted,
        FilterModel::KeyRange(range) => inside(range, key),
    }
}

/// A key is at or past the start of a range and at or before its end.
pub open spec fn inside(range: KeyRangeModel, key: KeyModel) -> bool {
    &&& match range.start {
        Some(start) => start == key || key_precedes(start, key),
        None => true,
    }
    &&& match range.end {
        Some(end) => key == end || key_precedes(key, end),
        None => true,
    }
}

/// A range holds exactly the keys from its start to its end.
pub proof fn lemma_inside_is_contained(range: KeyRangeModel, key: KeyModel)
    ensures
        range_contains(range, key) == inside(range, key),
{
    if let Some(start) = range.start {
        lemma_key_total(start, key);
        lemma_key_asymmetric(start, key);
    }
    if let Some(end) = range.end {
        lemma_key_total(key, end);
        lemma_key_asymmetric(key, end);
    }
}

/// The subscriptions that are to be told of a write to a key of a table.
pub open spec fn audience(
    subscriptions: Seq<ActiveModel>,
    table: Seq<char>,
    key: KeyModel,
) -> Seq<ActiveModel> {
    subscriptions.filter(
        |active: ActiveModel| active.handle.table == table && asked_for(active.filter, key),
    )
}

/// The record that a subscriber is shown of a request: what it wrote, or the
/// row that stood before it was removed.
pub open spec fn shown(tables: TablesModel, request: Request) -> RecordModel {
    RecordModel {
        key: key_of(request.1),
        bytes: match left_by(request.1) {
            Some(bytes) => bytes,
            None => row_at(tables, request.0, key_text(key_of(request.1)))->0,
        },
    }
}

/// The deltas due for one request: one for each subscription that is to be
/// told, in the order the subscriptions were made.
pub open spec fn deltas_due(
    subscriptions: Seq<ActiveModel>,
    tables: TablesModel,
    snapshot: u64,
    request: Request,
) -> Seq<DeltaModel<RecordModel>> {
    let key = key_of(request.1);
    audience(subscriptions, request.0, key).map_values(
        |active: ActiveModel|
            DeltaModel {
                handle: active.handle,
                kind: kind_of(request.1),
                table: request.0,
                key,
                snapshot,
                record: shown(tables, request),
            },
    )
}

/// The deltas due for each request of a group.
pub open spec fn group_deltas_due(
    subscriptions: Seq<ActiveModel>,
    tables: TablesModel,
    snapshot: u64,
    requests: Seq<Request>,
) -> Seq<Seq<DeltaModel<RecordModel>>> {
    requests.map_values(
        |request: Request| deltas_due(subscriptions, tables, snapshot, request),
    )
}

/// A write fans out to its audience.
pub proof fn lemma_fans_out(
    subscriptions: Seq<ActiveModel>,
    kind: DeltaKind,
    table: Seq<char>,
    key: KeyModel,
    snapshot: u64,
    record: RecordModel,
)
    ensures
        fanned(subscriptions, kind, table, key, snapshot, record) == audience(
            subscriptions,
            table,
            key,
        ).map_values(
            |active: ActiveModel|
                DeltaModel { handle: active.handle, kind, table, key, snapshot, record },
        ),
    decreases subscriptions.len(),
{
    let told_of = |active: ActiveModel|
        active.handle.table == table && asked_for(active.filter, key);
    let delta = |active: ActiveModel|
        DeltaModel { handle: active.handle, kind, table, key, snapshot, record };
    reveal(Seq::filter);
    let found = fanned(subscriptions, kind, table, key, snapshot, record);
    if subscriptions.len() == 0 {
        assert(found =~= audience(subscriptions, table, key).map_values(delta));
    } else {
        let less = subscriptions.drop_last();
        let last = subscriptions.last();
        lemma_fans_out(less, kind, table, key, snapshot, record);
        if let FilterModel::KeyRange(range) = last.filter {
            lemma_inside_is_contained(range, key);
        }
        assert(subscriptions.filter(told_of) == if told_of(last) {
            less.filter(told_of).push(last)
        } else {
            less.filter(told_of)
        });
        assert(found =~= audience(subscriptions, table, key).map_values(delta));
    }
}

/// Of two keys at most one comes before the other, and none before itself.
proof fn lemma_key_asymmetric(a: KeyModel, b: KeyModel)
    ensures
        !(key_precedes(a, b) && key_precedes(b, a)),
        a == b ==> !key_precedes(a, b),
{
    lemma_key_irreflexive(a);
    if key_precedes(a, b) && key_precedes(b, a) {
        lemma_key_transitive(a, b, a);
    }
}

proof fn lemma_facts_announced(
    subscriptions: Seq<ActiveModel>,
    tables: TablesModel,
    snapshot: u64,
    requests: Seq<Request>,
    facts: Seq<WriteFact>,
)
    requires
        facts.len() == requests.len(),
        forall|i: int|
            0 <= i < requests.len() ==> fact_of(tables, requests[i], #[trigger] facts[i]),
    ensures
        announced(subscriptions, facts, snapshot) == group_deltas_due(
            subscriptions,
            tables,
            snapshot,
            requests,
        ).flatten(),
    decreases requests.len(),
{
    let due = group_deltas_due(subscriptions, tables, snapshot, requests);
    due.lemma_flatten_and_flatten_alt_are_equivalent();
    if requests.len() > 0 {
        let less = requests.drop_last();
        let fewer = facts.drop_last();
        let end = requests.len() - 1;
        assert forall|i: int| 0 <= i < less.len() implies fact_of(
            tables,
            less[i],
            #[trigger] fewer[i],
        ) by {
            assert(fact_of(tables, requests[i], facts[i]));
        }
        lemma_facts_announced(subscriptions, tables, snapshot, less, fewer);
        assert(fact_of(tables, requests[end], facts[end]));
        let fact = facts[end];
        let earlier = group_deltas_due(subscriptions, tables, snapshot, less);
        earlier.lemma_flatten_and_flatten_alt_are_equivalent();
        assert(due.drop_last() =~= earlier);
        let record = RecordModel { key: fact.key, bytes: fact.record };
        lemma_fans_out(
            subscriptions,
            kind_of(requests[end].1),
            fact.table,
            fact.key,
            snapshot,
            record,
        );
        assert(shown(tables, requests[end]) == record);
        let delta = |active: ActiveModel|
            DeltaModel {
                handle: active.handle,
                kind: kind_of(requests[end].1),
                table: requests[end].0,
                key: key_of(requests[end].1),
                snapshot,
                record: shown(tables, requests[end]),
            };
        let told = audience(subscriptions, fact.table, fact.key);
        assert(due.last() =~= told.map_values(delta));
        assert(fanned(
            subscriptions,
            kind_of(requests[end].1),
            fact.table,
            fact.key,
            snapshot,
            record,
        ) =~= due.last());
    } else {
        assert(due.flatten_alt() =~= Seq::empty());
    }
}

/// What an accepted group does: it leaves its rows where reads see them; it
/// is logged as one commit and queues, in the order of its writes, the
/// deltas due for each of them to every subscription that is to be told; or
/// it is buffered while a session is engaged, and queues nothing.
pub open spec fn takes_effect(
    before: EngineModel,
    after: EngineModel,
    requests: Seq<Request>,
) -> bool {
    let tables = standing_tables(before);
    let snapshot = (standing_snapshot(before) + 1) as u64;
    &&& leaves_rows(tables, standing_tables(after), requests)
    &&& match before.session {
        Some(_) => leaves_buffer(before, after, dues(requests)),
        None => {
            &&& leaves_log(before, after, dues(requests))
            &&& after.deltas == before.deltas + group_deltas_due(
                before.subscriptions,
                tables,
                snapshot,
                requests,
            ).flatten()
        },
    }
}

/// An accepted group takes effect, every write of it, whatever tables it
/// names.
pub proof fn lemma_group_takes_effect(engine: EngineModel, requests: Seq<Request>)
    requires
        has_room(engine, 1),
    ensures
        atomic_outcome(engine, requests) matches Ok(after) ==> takes_effect(
            engine,
            after,
            requests,
        ),
{
    let tables = standing_tables(engine);
    lemma_planned_facts(engine.catalog, tables, requests);
    if let Ok(after) = atomic_outcome(engine, requests) {
        let facts = planned_across(engine.catalog, tables, requests)->Ok_0;
        let snapshot = (standing_snapshot(engine) + 1) as u64;
        lemma_facts_apply(tables, tables, requests, facts);
        let due = dues(requests);
        assert forall|i: int| 0 <= i < due.len() implies told_as(#[trigger] facts[i], due[i]) by {
            assert(fact_of(tables, requests[i], facts[i]));
        }
        assert forall|i: int| 0 <= i < due.len() implies registered(
            engine.catalog,
            (#[trigger] due[i]).table,
        ) by {
            assert(admitted(engine.catalog, tables, requests[i]));
        }
        lemma_landed_logs(engine, due, facts);
        lemma_facts_announced(engine.subscriptions, tables, snapshot, requests, facts);
        assert(after == landed(engine, facts));
    }
}

/// Every delta of a group tells a subscription of its own table, under the
/// group's snapshot, of a key that the subscription asked for; and every
/// subscription of a table that the group writes to is told of each key it
/// asked for.
pub proof fn lemma_deltas_reach_their_audience(
    subscriptions: Seq<ActiveModel>,
    tables: TablesModel,
    snapshot: u64,
    requests: Seq<Request>,
)
    ensures
        ({
            let sent = group_deltas_due(subscriptions, tables, snapshot, requests).flatten();
            &&& forall|d: int|
                0 <= d < sent.len() ==> exists|s: int, i: int|
                    #![trigger subscriptions[s], requests[i]]
                    {
                        &&& 0 <= s < subscriptions.len()
                        &&& 0 <= i < requests.len()
                        &&& subscriptions[s].handle.table == requests[i].0
                        &&& asked_for(subscriptions[s].filter, key_of(requests[i].1))
                        &&& (#[trigger] sent[d]).handle == subscriptions[s].handle
                        &&& sent[d].table == requests[i].0
                        &&& sent[d].key == key_of(requests[i].1)
                        &&& sent[d].kind == kind_of(requests[i].1)
                        &&& sent[d].snapshot == snapshot
                        &&& sent[d].record == shown(tables, requests[i])
                    }
            &&& forall|s: int, i: int|
                #![trigger subscriptions[s], requests[i]]
                0 <= s < subscriptions.len() && 0 <= i < requests.len()
                    && subscriptions[s].handle.table == requests[i].0 && asked_for(
                    subscriptions[s].filter,
                    key_of(requests[i].1),
                ) ==> sent.contains(
                    DeltaModel {
                        handle: subscriptions[s].handle,
                        kind: kind_of(requests[i].1),
                        table: requests[i].0,
                        key: key_of(requests[i].1),
                        snapshot,
                        record: shown(tables, requests[i]),
                    },
                )
        }),
    decreases requests.len(),
{
    let due = group_deltas_due(subscriptions, tables, snapshot, requests);
    let sent = due.flatten();
    due.lemma_flatten_and_flatten_alt_are_equivalent();
    if requests.len() > 0 {
        let less = requests.drop_last();
        let end = requests.len() - 1;
        let last = requests[end];
        lemma_deltas_reach_their_audience(subscriptions, tables, snapshot, less);
        let earlier = group_deltas_due(subscriptions, tables, snapshot, less);
        earlier.lemma_flatten_and_flatten_alt_are_equivalent();
        assert(due.drop_last() =~= earlier);
        let before = earlier.flatten();
        let lasting = deltas_due(subscriptions, tables, snapshot, last);
        assert(due.last() == lasting);
        assert(sent == before + lasting);
        let wanted = |active: ActiveModel|
            active.handle.table == last.0 && asked_for(active.filter, key_of(last.1));
        let told = audience(subscriptions, last.0, key_of(last.1));
        assert forall|d: int| 0 <= d < sent.len() implies exists|s: int, i: int|
            #![trigger subscriptions[s], requests[i]]
            {
                &&& 0 <= s < subscriptions.len()
                &&& 0 <= i < requests.len()
                &&& subscriptions[s].handle.table == requests[i].0
                &&& asked_for(subscriptions[s].filter, key_of(requests[i].1))
                &&& (#[trigger] sent[d]).handle == subscriptions[s].handle
                &&& sent[d].table == requests[i].0
                &&& sent[d].key == key_of(requests[i].1)
                &&& sent[d].kind == kind_of(requests[i].1)
                &&& sent[d].snapshot == snapshot
                &&& sent[d].record == shown(tables, requests[i])
            } by {
            if d < before.len() {
                assert(sent[d] == before[d]);
                let (s, i) = choose|s: int, i: int|
                    #![trigger subscriptions[s], less[i]]
                    {
                        &&& 0 <= s < subscriptions.len()
                        &&& 0 <= i < less.len()
                        &&& subscriptions[s].handle.table == less[i].0
                        &&& asked_for(subscriptions[s].filter, key_of(less[i].1))
                        &&& before[d].handle == subscriptions[s].handle
                        &&& before[d].table == less[i].0
                        &&& before[d].key == key_of(less[i].1)
                        &&& before[d].kind == kind_of(less[i].1)
                        &&& before[d].snapshot == snapshot
                        &&& before[d].record == shown(tables, less[i])
                    };
                assert(requests[i] == less[i]);
                assert(subscriptions[s].handle.table == requests[i].0);
            } else {
                let at = d - before.len();
                assert(sent[d] == lasting[at]);
                assert(told.contains(told[at]));
                lemma_filter_inside(subscriptions, wanted, at);
                let s = choose|s: int| 0 <= s < subscriptions.len() && subscriptions[s]
                    == told[at];
                assert(subscriptions[s].handle.table == requests[end].0);
            }
        }
        assert forall|s: int, i: int|
            #![trigger subscriptions[s], requests[i]]
            0 <= s < subscriptions.len() && 0 <= i < requests.len()
                && subscriptions[s].handle.table == requests[i].0 && asked_for(
                subscriptions[s].filter,
                key_of(requests[i].1),
            ) implies sent.contains(
            DeltaModel {
                handle: subscriptions[s].handle,
                kind: kind_of(requests[i].1),
                table: requests[i].0,
                key: key_of(requests[i].1),
                snapshot,
                record: shown(tables, requests[i]),
            },
        ) by {
            let delta = DeltaModel {
                handle: subscriptions[s].handle,
                kind: kind_of(requests[i].1),
                table: requests[i].0,
                key: key_of(requests[i].1),
                snapshot,
                record: shown(tables, requests[i]),
            };
            if i < end {
                assert(less[i] == requests[i]);
                assert(before.contains(delta));
                let d = choose|d: int| 0 <= d < before.len() && before[d] == delta;
                assert(sent[d] == delta);
            } else {
                assert(wanted(subscriptions[s]));
                assert(told.contains(subscriptions[s])) by {
                    subscriptions.lemma_filter_contains(wanted, s);
                }
                let at = choose|at: int| 0 <= at < told.len() && told[at] == subscriptions[s];
                assert(lasting[at] == delta);
                assert(sent[before.len() + at] == delta);
            }
        }
    } else {
        assert(sent =~= Seq::empty());
    }
}

/// What a filter keeps is among what it was given, and passes.
proof fn lemma_filter_inside<X>(all: Seq<X>, wanted: spec_fn(X) -> bool, at: int)
    requires
        0 <= at < all.filter(wanted).len(),
    ensures
        wanted(all.filter(wanted)[at]),
        exists|s: int| 0 <= s < all.len() && all[s] == all.filter(wanted)[at],
    decreases all.len(),
{
    reveal(Seq::filter);
    let less = all.drop_last();
    if at < less.filter(wanted).len() {
        lemma_filter_inside(less, wanted, at);
        let s = choose|s: int| 0 <= s < less.len() && less[s] == less.filter(wanted)[at];
        assert(all[s] == all.filter(wanted)[at]);
    } else {
        assert(all[all.len() - 1] == all.filter(wanted)[at]);
    }
}

} // verus!
