//! Subscribers: what a subscription starts with, which writes it is told of,
//! and that a staged group tells what the same writes would have told
//! directly.

use vstd::prelude::*;

use crate::atomic::{AtomicCommit, AtomicCommitReceipt};
use crate::catalog::registered;
use crate::engine::{asked, consulted, named, Engine};
use crate::engine_model::{
    announced, announcements, answered, atomic_outcome, entry_announcements, group_rows, has_room,
    landable, landed, planned_across, staging_begun, staging_landed, staging_parked,
    standing_sequence, standing_snapshot, standing_tables, versioned_operations, EngineModel,
};
use crate::error::{Error, Failure};
use crate::fold::{landed_rows, FamilyDirectory, RowModel};
use crate::laws::calls::lemma_commit_atomic_call;
use crate::laws::reads::{lemma_plan_read_right, query_refusal, right_answer};
use crate::laws::rebuild::lemma_family_at;
use crate::laws::requests::{
    admitted, asked_for, fact_of, group_deltas_due, inside, key_of, kind_of,
    lemma_deltas_reach_their_audience, lemma_group_accepted, lemma_planned_facts, shown,
    takes_effect, Request,
};
use crate::models::views;
use crate::query::{FilterModel, KeyRange, QueryPlan, ReadPlanNode};
use crate::record::{EncodedRecord, KeyModel, RecordKey};
use crate::staging::{
    pre_image_at, pre_images_of, AnnouncementModel, GroupModel, MaterializeStagedReceipt,
    PreImageModel,
};
use crate::subscribe::{
    delta_facts, ActiveModel, DeltaModel, HandleModel, RegistrationModel, SinkError,
    SubscriptionDelta, SubscriptionReceipt, SubscriptionSink,
};
use crate::table::TableReference;
use crate::tables::WriteFact;
use crate::versioning::{FamilyModel, OperationModel};

verus! {

/// The identifier that the next subscription gets: where the store counts,
/// and one in a store that has none.
pub open spec fn next_subscriber(engine: EngineModel) -> u64 {
    match engine.store.next_subscription {
        Some(id) => id,
        None => 1,
    }
}

/// A subscription that began: it has the next identifier, is recorded in the
/// store and goes live last of all, for the plan's table and filter and from
/// the state that stood; nothing else changed.
pub open spec fn began(
    before: EngineModel,
    after: EngineModel,
    table: Seq<char>,
    filter: FilterModel,
    handle: HandleModel,
) -> bool {
    let id = next_subscriber(before);
    let snapshot = standing_snapshot(before);
    &&& handle == (HandleModel { id, table, snapshot })
    &&& after.subscriptions == before.subscriptions.push(ActiveModel { handle, filter })
    &&& after.store.subscriptions == before.store.subscriptions.insert(
        id,
        RegistrationModel { id, table, filter, snapshot },
    )
    &&& after.store.next_subscription == Some((id + 1) as u64)
    &&& after.deltas == before.deltas
    &&& after.session == before.session
    &&& after.catalog == before.catalog
    &&& after.store.tables == before.store.tables
    &&& after.store.commit_log == before.store.commit_log
    &&& after.store.versioned_log == before.store.versioned_log
    &&& after.store.commit_sequence == before.store.commit_sequence
    &&& after.store.snapshot == before.store.snapshot
    &&& after.store.chain_head == before.store.chain_head
    &&& after.store.outbox == before.store.outbox
    &&& after.store.checkpoints == before.store.checkpoints
}

/// A subscription starts with the right answer of its plan, begins where
/// the sink takes that answer, and changes nothing where it does not or the
/// plan cannot be read.
pub proof fn lemma_subscribe_call<RecordValue, Sink: SubscriptionSink<EncodedRecord>>(
    engine: &mut Engine,
    plan: QueryPlan<RecordValue>,
    sink: &Sink,
    outcome: Result<SubscriptionReceipt<EncodedRecord>, Error>,
)
    requires
        call_ensures(
            Engine::subscribe::<RecordValue, Sink>,
            (engine, plan, sink),
            outcome,
        ),
    ensures
        match outcome {
            Ok(receipt) => {
                let initial = receipt@.initial;
                &&& query_refusal(old(engine)@, plan@.table, plan@.node) is None
                &&& began(
                    old(engine)@,
                    final(engine)@,
                    plan@.table,
                    plan@.filter,
                    receipt@.handle,
                )
                &&& initial.handle == receipt@.handle
                &&& right_answer(
                    standing_tables(old(engine)@),
                    plan@.table,
                    plan@.node,
                    views(initial.snapshot.records),
                )
                &&& initial.snapshot.database_marker.snapshot == standing_snapshot(old(engine)@)
                &&& initial.snapshot.database_marker.commit_sequence == standing_sequence(
                    old(engine)@,
                )
            },
            Err(error) => {
                &&& final(engine)@ == old(engine)@
                &&& match query_refusal(old(engine)@, plan@.table, plan@.node) {
                    Some(failure) => error@ == failure,
                    None => error@ is SubscriptionSink,
                }
            },
        },
{
    if outcome is Ok {
        lemma_plan_read_right(old(engine)@, plan@);
    }
}

/// A subscription whose initial answer was delivered elsewhere: it begins
/// exactly where the plan can be read and the delivery was taken.
pub proof fn lemma_subscribe_with_call<RecordValue>(
    engine: &mut Engine,
    plan: QueryPlan<RecordValue>,
    delivered: Result<(), SinkError>,
    outcome: Result<SubscriptionReceipt<EncodedRecord>, Error>,
)
    requires
        call_ensures(
            Engine::subscribe_with::<RecordValue>,
            (engine, plan, delivered),
            outcome,
        ),
    ensures
        outcome is Ok <==> query_refusal(old(engine)@, plan@.table, plan@.node) is None
            && delivered is Ok,
        match outcome {
            Ok(receipt) => {
                let initial = receipt@.initial;
                &&& began(
                    old(engine)@,
                    final(engine)@,
                    plan@.table,
                    plan@.filter,
                    receipt@.handle,
                )
                &&& initial.handle == receipt@.handle
                &&& right_answer(
                    standing_tables(old(engine)@),
                    plan@.table,
                    plan@.node,
                    views(initial.snapshot.records),
                )
                &&& initial.snapshot.database_marker.snapshot == standing_snapshot(old(engine)@)
                &&& initial.snapshot.database_marker.commit_sequence == standing_sequence(
                    old(engine)@,
                )
            },
            Err(error) => {
                &&& final(engine)@ == old(engine)@
                &&& match query_refusal(old(engine)@, plan@.table, plan@.node) {
                    Some(failure) => error@ == failure,
                    None => delivered matches Err(refusal) && error@ == (
                    Failure::SubscriptionSink { message: refusal@ }),
                }
            },
        },
{
    if outcome is Ok {
        lemma_plan_read_right(old(engine)@, plan@);
    }
}

/// The keys that a plan asks for: any key, the equal key, or a key from the
/// start of a range to its end.
pub open spec fn plan_asks(node: ReadPlanNode, key: KeyModel) -> bool {
    match node {
        ReadPlanNode::AllRows => true,
        ReadPlanNode::ByKey(wanted) => key == wanted@,
        ReadPlanNode::ByKeyRange(range) => inside(range@, key),
        _ => false,
    }
}

/// A plan as a caller makes one: for all rows, for a key, or for a range.
pub open spec fn made_plan<RecordValue>(plan: QueryPlan<RecordValue>) -> bool {
    ||| exists|table: TableReference<RecordValue>| #[trigger]
        call_ensures(QueryPlan::<RecordValue>::all, (table,), plan)
    ||| exists|table: TableReference<RecordValue>, key: RecordKey| #[trigger]
        call_ensures(QueryPlan::<RecordValue>::key, (table, key), plan)
    ||| exists|table: TableReference<RecordValue>, range: KeyRange| #[trigger]
        call_ensures(QueryPlan::<RecordValue>::key_range, (table, range), plan)
}

/// A plan that a caller made filters by the keys that it asks for.
pub proof fn lemma_made_plan<RecordValue>(plan: QueryPlan<RecordValue>, key: KeyModel)
    requires
        made_plan(plan),
    ensures
        asked_for(plan@.filter, key) <==> plan_asks(plan@.node, key),
{
}

/// No two live subscriptions share a handle, and every identifier in use is
/// below the next.
pub open spec fn handles_apart(engine: EngineModel) -> bool {
    &&& forall|s: int|
        0 <= s < engine.subscriptions.len() ==> (#[trigger] engine.subscriptions[s]).handle.id
            < next_subscriber(engine)
    &&& forall|s: int, t: int|
        0 <= s < t < engine.subscriptions.len() ==> (
        #[trigger] engine.subscriptions[s]).handle.id != (
        #[trigger] engine.subscriptions[t]).handle.id
}

/// Beginning a subscription keeps the handles apart.
pub proof fn lemma_began_apart(
    before: EngineModel,
    after: EngineModel,
    table: Seq<char>,
    filter: FilterModel,
    handle: HandleModel,
)
    requires
        handles_apart(before),
        next_subscriber(before) < u64::MAX,
        began(before, after, table, filter, handle),
    ensures
        handles_apart(after),
{
    let live = after.subscriptions;
    assert forall|s: int| 0 <= s < live.len() implies (#[trigger] live[s]).handle.id
        < next_subscriber(after) by {
        if s < before.subscriptions.len() {
            assert(live[s] == before.subscriptions[s]);
        }
    }
    assert forall|s: int, t: int| 0 <= s < t < live.len() implies (#[trigger] live[s]).handle.id
        != (#[trigger] live[t]).handle.id by {
        assert(live[s] == before.subscriptions[s]);
        if t < before.subscriptions.len() {
            assert(live[t] == before.subscriptions[t]);
        }
    }
}

/// A subscription is told of exactly the writes to its table whose keys its
/// plan asked for: each delta that a commit queues for it is for such a
/// write, and every such write of the commit has its delta, under the
/// snapshot of the commit, with the record it wrote or removed.
#[verifier::rlimit(40)]
pub proof fn lemma_told_what_was_asked<RecordValue>(
    plan: QueryPlan<RecordValue>,
    handle: HandleModel,
    live: int,
    before: EngineModel,
    after: EngineModel,
    requests: Seq<Request>,
)
    requires
        made_plan(plan),
        handles_apart(before),
        before.session is None,
        0 <= live < before.subscriptions.len(),
        before.subscriptions[live] == (ActiveModel { handle, filter: plan@.filter }),
        handle.table == plan@.table,
        takes_effect(before, after, requests),
    ensures
        before.deltas.len() <= after.deltas.len(),
        after.deltas.take(before.deltas.len() as int) == before.deltas,
        forall|d: int|
            before.deltas.len() <= d < after.deltas.len() && (#[trigger] after.deltas[d]).handle
                == handle ==> {
                &&& after.deltas[d].table == plan@.table
                &&& plan_asks(plan@.node, after.deltas[d].key)
                &&& exists|i: int|
                    0 <= i < requests.len() && (#[trigger] requests[i]).0 == plan@.table
                        && key_of(requests[i].1) == after.deltas[d].key
            },
        forall|i: int|
            #![trigger requests[i]]
            0 <= i < requests.len() && requests[i].0 == plan@.table && plan_asks(
                plan@.node,
                key_of(requests[i].1),
            ) ==> after.deltas.skip(before.deltas.len() as int).contains(
                DeltaModel {
                    handle,
                    kind: kind_of(requests[i].1),
                    table: plan@.table,
                    key: key_of(requests[i].1),
                    snapshot: (standing_snapshot(before) + 1) as u64,
                    record: shown(standing_tables(before), requests[i]),
                },
            ),
{
    let tables = standing_tables(before);
    let snapshot = (standing_snapshot(before) + 1) as u64;
    let subscriptions = before.subscriptions;
    let sent = group_deltas_due(subscriptions, tables, snapshot, requests).flatten();
    lemma_deltas_reach_their_audience(subscriptions, tables, snapshot, requests);
    assert(after.deltas == before.deltas + sent);
    assert(after.deltas.take(before.deltas.len() as int) =~= before.deltas);
    assert(after.deltas.skip(before.deltas.len() as int) =~= sent);
    assert forall|d: int|
        before.deltas.len() <= d < after.deltas.len() && (#[trigger] after.deltas[d]).handle
            == handle implies {
        &&& after.deltas[d].table == plan@.table
        &&& plan_asks(plan@.node, after.deltas[d].key)
        &&& exists|i: int|
            0 <= i < requests.len() && (#[trigger] requests[i]).0 == plan@.table && key_of(
                requests[i].1,
            ) == after.deltas[d].key
    } by {
        let at = d - before.deltas.len();
        assert(after.deltas[d] == sent[at]);
        let (s, i) = choose|s: int, i: int|
            #![trigger subscriptions[s], requests[i]]
            {
                &&& 0 <= s < subscriptions.len()
                &&& 0 <= i < requests.len()
                &&& subscriptions[s].handle.table == requests[i].0
                &&& asked_for(subscriptions[s].filter, key_of(requests[i].1))
                &&& sent[at].handle == subscriptions[s].handle
                &&& sent[at].table == requests[i].0
                &&& sent[at].key == key_of(requests[i].1)
                &&& sent[at].kind == kind_of(requests[i].1)
                &&& sent[at].snapshot == snapshot
                &&& sent[at].record == shown(tables, requests[i])
            };
        if s < live {
            assert(subscriptions[s].handle.id != subscriptions[live].handle.id);
        } else if live < s {
            assert(subscriptions[live].handle.id != subscriptions[s].handle.id);
        }
        lemma_made_plan(plan, sent[at].key);
    }
    assert forall|i: int|
        #![trigger requests[i]]
        0 <= i < requests.len() && requests[i].0 == plan@.table && plan_asks(
            plan@.node,
            key_of(requests[i].1),
        ) implies sent.contains(
        DeltaModel {
            handle,
            kind: kind_of(requests[i].1),
            table: plan@.table,
            key: key_of(requests[i].1),
            snapshot,
            record: shown(tables, requests[i]),
        },
    ) by {
        lemma_made_plan(plan, key_of(requests[i].1));
        assert(subscriptions[live].handle.table == requests[i].0);
    }
}

/// A subscription and a commit after it: the subscriber is told of exactly
/// the writes of the commit to the plan's table whose keys the plan asked
/// for, each under the commit's snapshot with the record it wrote or removed.
/// A subscription to one key hears of that key alone.
pub proof fn lemma_subscribed_then_told<RecordValue, Sink: SubscriptionSink<EncodedRecord>>(
    first: &mut Engine,
    plan: QueryPlan<RecordValue>,
    sink: &Sink,
    receipt: SubscriptionReceipt<EncodedRecord>,
    second: &mut Engine,
    commit: AtomicCommit,
    made: AtomicCommitReceipt,
)
    requires
        made_plan(plan),
        handles_apart(old(first)@),
        next_subscriber(old(first)@) < u64::MAX,
        old(first)@.session is None,
        call_ensures(
            Engine::subscribe::<RecordValue, Sink>,
            (first, plan, sink),
            Ok(receipt),
        ),
        old(second)@ == final(first)@,
        has_room(old(second)@, 1),
        call_ensures(Engine::commit_atomic, (second, commit), Ok(made)),
    ensures
        ({
            let handle = receipt@.handle;
            let before = old(second)@;
            let sent = final(second)@.deltas.skip(before.deltas.len() as int);
            &&& final(second)@.deltas == before.deltas + sent
            &&& forall|d: int|
                0 <= d < sent.len() && (#[trigger] sent[d]).handle == handle ==> {
                    &&& sent[d].table == plan@.table
                    &&& plan_asks(plan@.node, sent[d].key)
                    &&& plan@.node matches ReadPlanNode::ByKey(key) ==> sent[d].key == key@
                    &&& exists|i: int|
                        0 <= i < commit@.len() && (#[trigger] commit@[i]).0 == plan@.table
                            && key_of(commit@[i].1) == sent[d].key
                }
            &&& forall|i: int|
                #![trigger commit@[i]]
                0 <= i < commit@.len() && commit@[i].0 == plan@.table && plan_asks(
                    plan@.node,
                    key_of(commit@[i].1),
                ) ==> sent.contains(
                    DeltaModel {
                        handle,
                        kind: kind_of(commit@[i].1),
                        table: plan@.table,
                        key: key_of(commit@[i].1),
                        snapshot: (standing_snapshot(before) + 1) as u64,
                        record: shown(standing_tables(before), commit@[i]),
                    },
                )
        }),
{
    let start = old(first)@;
    let before = old(second)@;
    let after = final(second)@;
    let handle = receipt@.handle;
    lemma_subscribe_call(first, plan, sink, Ok(receipt));
    lemma_began_apart(start, before, plan@.table, plan@.filter, handle);
    lemma_commit_atomic_call(second, commit, Ok(made));
    let live = before.subscriptions.len() - 1;
    assert(before.subscriptions[live] == (ActiveModel { handle, filter: plan@.filter }));
    lemma_told_what_was_asked(plan, handle, live, before, after, commit@);
    let count = before.deltas.len() as int;
    let sent = after.deltas.skip(count);
    assert(after.deltas =~= after.deltas.take(count) + sent);
    assert forall|d: int| 0 <= d < sent.len() && (#[trigger] sent[d]).handle == handle implies {
        &&& sent[d].table == plan@.table
        &&& plan_asks(plan@.node, sent[d].key)
        &&& plan@.node matches ReadPlanNode::ByKey(key) ==> sent[d].key == key@
        &&& exists|i: int|
            0 <= i < commit@.len() && (#[trigger] commit@[i]).0 == plan@.table && key_of(
                commit@[i].1,
            ) == sent[d].key
    } by {
        assert(sent[d] == after.deltas[count + d]);
    }
}

/// The deltas that wait are handed over whole and in order, and are handed
/// over once.
pub proof fn lemma_take_deltas_call(
    engine: &mut Engine,
    taken: Vec<SubscriptionDelta<EncodedRecord>>,
)
    requires
        call_ensures(Engine::take_deltas, (engine,), taken),
    ensures
        taken@.len() == old(engine)@.deltas.len(),
        forall|i: int|
            0 <= i < taken@.len() ==> {
                let waited = old(engine)@.deltas[i];
                &&& (#[trigger] taken@[i])@.handle == waited.handle
                &&& taken@[i]@.kind == waited.kind
                &&& taken@[i]@.table == waited.table
                &&& taken@[i]@.key == waited.key
                &&& taken@[i]@.snapshot == waited.snapshot
                &&& taken@[i]@.record@ == waited.record
            },
        final(engine)@.deltas.len() == 0,
        final(engine)@.store == old(engine)@.store,
        final(engine)@.subscriptions == old(engine)@.subscriptions,
{
    assert(delta_facts(taken@).len() == taken@.len());
    assert forall|i: int| 0 <= i < taken@.len() implies {
        let waited = old(engine)@.deltas[i];
        &&& (#[trigger] taken@[i])@.handle == waited.handle
        &&& taken@[i]@.kind == waited.kind
        &&& taken@[i]@.table == waited.table
        &&& taken@[i]@.key == waited.key
        &&& taken@[i]@.snapshot == waited.snapshot
        &&& taken@[i]@.record@ == waited.record
    } by {
        assert(delta_facts(taken@)[i] == old(engine)@.deltas[i]);
    }
}

/// Every group of a run is accepted where it stands.
pub open spec fn all_accepted(engine: EngineModel, groups: Seq<Seq<Request>>) -> bool
    decreases groups.len(),
{
    groups.len() == 0 || {
        &&& all_accepted(engine, groups.drop_last())
        &&& atomic_outcome(after_groups(engine, groups.drop_last()), groups.last()) is Ok
    }
}

/// The engine after groups of requests, each accepted.
pub open spec fn after_groups(engine: EngineModel, groups: Seq<Seq<Request>>) -> EngineModel
    decreases groups.len(),
{
    if groups.len() == 0 {
        engine
    } else {
        atomic_outcome(after_groups(engine, groups.drop_last()), groups.last())->Ok_0
    }
}

/// The group that a session parks.
pub open spec fn session_group(engine: EngineModel) -> GroupModel {
    GroupModel {
        entries: engine.session->0.entries,
        pre_images: engine.session->0.pre_images,
    }
}

/// Pre-images are of entries below a number.
spec fn images_below(images: Seq<PreImageModel>, entries: int) -> bool {
    forall|i: int| 0 <= i < images.len() ==> (#[trigger] images[i]).entry_index < entries
}

/// Where the first images have nothing for a place, the later ones decide.
proof fn lemma_images_join(
    first: Seq<PreImageModel>,
    second: Seq<PreImageModel>,
    entry: int,
    operation: int,
)
    ensures
        pre_image_at(first + second, entry, operation) == match pre_image_at(
            first,
            entry,
            operation,
        ) {
            Some(bytes) => Some(bytes),
            None => pre_image_at(second, entry, operation),
        },
    decreases first.len(),
{
    let both = first + second;
    if first.len() == 0 {
        assert(both =~= second);
    } else {
        assert(both[0] == first[0]);
        assert(both.drop_first() =~= first.drop_first() + second);
        lemma_images_join(first.drop_first(), second, entry, operation);
    }
}

/// Images of other entries have nothing for an entry.
proof fn lemma_images_elsewhere(images: Seq<PreImageModel>, entry: int, operation: int)
    requires
        forall|i: int| 0 <= i < images.len() ==> (#[trigger] images[i]).entry_index != entry,
    ensures
        pre_image_at(images, entry, operation) is None,
    decreases images.len(),
{
    if images.len() > 0 {
        let rest = images.drop_first();
        assert(images[0].entry_index != entry);
        assert forall|i: int| 0 <= i < rest.len() implies (#[trigger] rest[i]).entry_index
            != entry by {
            assert(rest[i] == images[i + 1]);
        }
        lemma_images_elsewhere(rest, entry, operation);
    }
}

/// What the images of one entry's writes hold: under each removal what it
/// removed, and nothing else.
proof fn lemma_images_of(entry: int, writes: Seq<WriteFact>, operation: int)
    requires
        0 <= entry <= u64::MAX,
        writes.len() <= u64::MAX,
        0 <= operation,
    ensures
        pre_image_at(pre_images_of(entry, writes), entry, operation) == if operation
            < writes.len() && writes[operation].payload is None {
            Some(writes[operation].record)
        } else {
            None
        },
        forall|i: int|
            0 <= i < pre_images_of(entry, writes).len() ==> (#[trigger] pre_images_of(
                entry,
                writes,
            )[i]).entry_index == entry,
    decreases writes.len(),
{
    if writes.len() > 0 {
        let less = writes.drop_last();
        lemma_images_of(entry, less, operation);
        let before = pre_images_of(entry, less);
        let last = writes.last();
        if last.payload is None {
            let image = PreImageModel {
                entry_index: entry as u64,
                operation_index: (writes.len() - 1) as u64,
                bytes: last.record,
            };
            assert(pre_images_of(entry, writes) =~= before + seq![image]);
            lemma_images_join(before, seq![image], entry, operation);
            reveal_with_fuel(pre_image_at, 2);
            assert(seq![image].drop_first() =~= Seq::empty());
        }
    }
}

/// A write as a session keeps it for subscribers: to a registered
/// domain-keyed table, showing the record that it writes.
spec fn showable(catalog: Seq<FamilyModel>, fact: WriteFact) -> bool {
    &&& fact.slot is Domain
    &&& registered(catalog, fact.table)
    &&& fact.payload matches Some(bytes) ==> fact.record == bytes
}

/// The tables of announcements, each named.
spec fn all_named(told: Seq<AnnouncementModel>) -> Seq<Option<Seq<char>>> {
    Seq::new(told.len(), |i: int| Some(told[i].family.table))
}

/// Answering two runs of announcements is answering one after the other.
proof fn lemma_answered_join(
    subscriptions: Seq<ActiveModel>,
    first: Seq<AnnouncementModel>,
    second: Seq<AnnouncementModel>,
)
    ensures
        answered(subscriptions, first + second, all_named(first + second)) == answered(
            subscriptions,
            first,
            all_named(first),
        ) + answered(subscriptions, second, all_named(second)),
    decreases second.len(),
{
    let both = first + second;
    if second.len() == 0 {
        assert(both =~= first);
        assert(answered(subscriptions, first, all_named(first)) + answered(
            subscriptions,
            second,
            all_named(second),
        ) =~= answered(subscriptions, first, all_named(first)));
    } else {
        let less = second.drop_last();
        lemma_answered_join(subscriptions, first, less);
        assert(both.drop_last() =~= first + less);
        assert(all_named(both).drop_last() =~= all_named(first + less));
        assert(all_named(second).drop_last() =~= all_named(less));
        assert(answered(subscriptions, both, all_named(both)) =~= answered(
            subscriptions,
            first,
            all_named(first),
        ) + answered(subscriptions, second, all_named(second)));
    }
}

/// The announcements of one entry's writes, answered by their own tables,
/// are what the writes announce directly.
proof fn lemma_entry_answered(
    subscriptions: Seq<ActiveModel>,
    catalog: Seq<FamilyModel>,
    group: GroupModel,
    entry: int,
    writes: Seq<WriteFact>,
    at: int,
)
    requires
        0 <= at <= writes.len(),
        forall|i: int| 0 <= i < writes.len() ==> showable(catalog, #[trigger] writes[i]),
        forall|i: int|
            0 <= i < writes.len() && (#[trigger] writes[i]).payload is None ==> pre_image_at(
                group.pre_images,
                entry,
                i,
            ) == Some(writes[i].record),
    ensures
        ({
            let told = entry_announcements(
                group,
                entry,
                versioned_operations(catalog, writes).take(at),
            );
            answered(subscriptions, told, all_named(told)) == announced(
                subscriptions,
                writes.take(at),
                group.entries[entry].snapshot,
            )
        }),
    decreases at,
{
    let operations = versioned_operations(catalog, writes);
    let told = entry_announcements(group, entry, operations.take(at));
    if at == 0 {
        assert(operations.take(0) =~= Seq::empty());
        assert(writes.take(0) =~= Seq::empty());
    } else {
        lemma_entry_answered(subscriptions, catalog, group, entry, writes, at - 1);
        let write = writes[at - 1];
        let before = entry_announcements(group, entry, operations.take(at - 1));
        assert(operations.take(at).drop_last() =~= operations.take(at - 1));
        assert(operations.take(at).last() == operations[at - 1]);
        assert(writes.take(at).drop_last() =~= writes.take(at - 1));
        assert(writes.take(at).last() == write);
        assert(showable(catalog, write));
        lemma_family_at(catalog, write.table);
        assert(told == before.push(told.last()));
        assert(told.drop_last() =~= before);
        assert(all_named(told).drop_last() =~= all_named(before));
        assert(told.last().bytes == write.record);
    }
}

/// Entries and images that come later leave the announcements of the first
/// entries as they were.
proof fn lemma_announcements_stand(
    group: GroupModel,
    longer: GroupModel,
    images: Seq<PreImageModel>,
    count: int,
)
    requires
        0 <= count <= group.entries.len() <= longer.entries.len(),
        forall|i: int| 0 <= i < group.entries.len() ==> longer.entries[i] == #[trigger]
            group.entries[i],
        longer.pre_images == group.pre_images + images,
        forall|i: int|
            0 <= i < images.len() ==> (#[trigger] images[i]).entry_index >= group.entries.len(),
    ensures
        announcements(longer, count) == announcements(group, count),
    decreases count,
{
    if count > 0 {
        lemma_announcements_stand(group, longer, images, count - 1);
        assert(longer.entries[count - 1] == group.entries[count - 1]);
        lemma_entry_stands(
            group,
            longer,
            images,
            count - 1,
            group.entries[count - 1].operations,
        );
    }
}

proof fn lemma_entry_stands(
    group: GroupModel,
    longer: GroupModel,
    images: Seq<PreImageModel>,
    entry: int,
    operations: Seq<OperationModel>,
)
    requires
        0 <= entry < group.entries.len() <= longer.entries.len(),
        longer.entries[entry] == group.entries[entry],
        longer.pre_images == group.pre_images + images,
        forall|i: int|
            0 <= i < images.len() ==> (#[trigger] images[i]).entry_index >= group.entries.len(),
    ensures
        entry_announcements(longer, entry, operations) == entry_announcements(
            group,
            entry,
            operations,
        ),
    decreases operations.len(),
{
    if operations.len() > 0 {
        lemma_entry_stands(group, longer, images, entry, operations.drop_last());
        lemma_images_join(group.pre_images, images, entry, operations.len() - 1);
        assert forall|i: int| 0 <= i < images.len() implies (#[trigger] images[i]).entry_index
            != entry by {}
        lemma_images_elsewhere(images, entry, operations.len() - 1);
    }
}

/// How far a session's buffer and the direct run of its groups agree.
spec fn abreast(engine: EngineModel, groups: Seq<Seq<Request>>) -> bool {
    let begun = staging_begun(engine)->Ok_0;
    let direct = after_groups(engine, groups);
    let staged = after_groups(begun, groups);
    let session = staged.session->0;
    let group = session_group(staged);
    let told = announcements(group, groups.len() as int);
    &&& all_accepted(begun, groups)
    &&& staged.session is Some
    &&& staged.catalog == engine.catalog
    &&& staged.subscriptions == engine.subscriptions
    &&& staged.deltas == engine.deltas
    &&& direct.session is None
    &&& direct.catalog == engine.catalog
    &&& direct.subscriptions == engine.subscriptions
    &&& standing_tables(staged) == standing_tables(direct)
    &&& session.entries.len() == groups.len()
    &&& session.snapshot == standing_snapshot(direct)
    &&& standing_snapshot(direct) == standing_snapshot(engine) + groups.len()
    &&& standing_sequence(direct) == standing_sequence(engine) + groups.len()
    &&& images_below(session.pre_images, groups.len() as int)
    &&& direct.deltas == engine.deltas + answered(engine.subscriptions, told, all_named(told))
}

/// Every accepted group is of showable writes.
proof fn lemma_accepted_showable(engine: EngineModel, requests: Seq<Request>)
    requires
        atomic_outcome(engine, requests) is Ok,
    ensures
        ({
            let facts = planned_across(engine.catalog, standing_tables(engine), requests)->Ok_0;
            &&& planned_across(engine.catalog, standing_tables(engine), requests) is Ok
            &&& atomic_outcome(engine, requests)->Ok_0 == landed(engine, facts)
            &&& facts.len() == requests.len()
            &&& forall|i: int|
                0 <= i < facts.len() ==> showable(engine.catalog, #[trigger] facts[i])
        }),
{
    let tables = standing_tables(engine);
    lemma_planned_facts(engine.catalog, tables, requests);
    let facts = planned_across(engine.catalog, tables, requests)->Ok_0;
    assert forall|i: int| 0 <= i < facts.len() implies showable(
        engine.catalog,
        #[trigger] facts[i],
    ) by {
        assert(fact_of(tables, requests[i], facts[i]));
        assert(admitted(engine.catalog, tables, requests[i]));
    }
}

#[verifier::rlimit(40)]
proof fn lemma_abreast(engine: EngineModel, groups: Seq<Seq<Request>>)
    requires
        staging_begun(engine) is Ok,
        has_room(engine, groups.len() as int),
        all_accepted(engine, groups),
        forall|i: int| 0 <= i < groups.len() ==> (#[trigger] groups[i]).len() <= u64::MAX,
    ensures
        abreast(engine, groups),
    decreases groups.len(),
{
    let begun = staging_begun(engine)->Ok_0;
    if groups.len() == 0 {
        let told = announcements(session_group(begun), 0);
        assert(answered(engine.subscriptions, told, all_named(told)) =~= Seq::empty());
        assert(engine.deltas + answered(engine.subscriptions, told, all_named(told))
            =~= engine.deltas);
    } else {
        let less = groups.drop_last();
        let requests = groups.last();
        let end = groups.len() - 1;
        assert(groups[end] == requests);
        assert forall|i: int| 0 <= i < less.len() implies (#[trigger] less[i]).len() <= u64::MAX by {
            assert(less[i] == groups[i]);
        }
        lemma_abreast(engine, less);
        let direct = after_groups(engine, less);
        let staged = after_groups(begun, less);
        let tables = standing_tables(direct);
        lemma_group_accepted(direct, requests);
        lemma_group_accepted(staged, requests);
        lemma_accepted_showable(direct, requests);
        let facts = planned_across(engine.catalog, tables, requests)->Ok_0;
        let next = after_groups(engine, groups);
        let later = after_groups(begun, groups);
        assert(next == landed(direct, facts));
        assert(later == landed(staged, facts));
        let was = session_group(staged);
        let is = session_group(later);
        let images = pre_images_of(end, facts);
        assert(is.pre_images == was.pre_images + images);
        assert(is.entries == was.entries.push(is.entries[end]));
        lemma_images_of(end, facts, 0);
        lemma_announcements_stand(was, is, images, end);
        assert forall|i: int|
            0 <= i < facts.len() && (#[trigger] facts[i]).payload is None implies pre_image_at(
            is.pre_images,
            end,
            i,
        ) == Some(facts[i].record) by {
            lemma_images_join(was.pre_images, images, end, i);
            lemma_images_elsewhere(was.pre_images, end, i);
            lemma_images_of(end, facts, i);
        }
        let operations = versioned_operations(engine.catalog, facts);
        assert(is.entries[end].operations == operations);
        assert(is.entries[end].snapshot == standing_snapshot(direct) + 1);
        lemma_entry_answered(
            engine.subscriptions,
            engine.catalog,
            is,
            end,
            facts,
            facts.len() as int,
        );
        assert(operations.take(facts.len() as int) =~= operations);
        assert(facts.take(facts.len() as int) =~= facts);
        let earlier = announcements(was, end);
        let lasting = entry_announcements(is, end, operations);
        assert(announcements(is, groups.len() as int) == earlier + lasting);
        lemma_answered_join(engine.subscriptions, earlier, lasting);
        assert(next.deltas =~= engine.deltas + answered(
            engine.subscriptions,
            earlier + lasting,
            all_named(earlier + lasting),
        ));
        assert(images_below(is.pre_images, groups.len() as int)) by {
            assert forall|i: int| 0 <= i < is.pre_images.len() implies (
            #[trigger] is.pre_images[i]).entry_index < groups.len() by {
                if i < was.pre_images.len() {
                    assert(is.pre_images[i] == was.pre_images[i]);
                } else {
                    assert(is.pre_images[i] == images[i - was.pre_images.len()]);
                }
            }
        }
    }
}

/// A staged group tells subscribers what the same writes would have told
/// them directly: whatever groups of writes to domain-keyed tables a session
/// buffered, once they are parked and land, each announced for its own
/// table, the deltas that were queued are those of committing the groups one
/// after the other without a session, the same kinds, tables, keys,
/// snapshots and records, in the same order.
pub proof fn lemma_staged_tells_as_direct(
    engine: EngineModel,
    groups: Seq<Seq<Request>>,
    rows: Seq<RowModel>,
    answers: Seq<Option<Seq<char>>>,
)
    requires
        staging_begun(engine) is Ok,
        groups.len() > 0,
        has_room(engine, groups.len() as int),
        all_accepted(engine, groups),
        forall|i: int| 0 <= i < groups.len() ==> (#[trigger] groups[i]).len() <= u64::MAX,
        ({
            let staged = after_groups(staging_begun(engine)->Ok_0, groups);
            let told = announcements(session_group(staged), groups.len() as int);
            &&& answers.len() == told.len()
            &&& forall|i: int|
                0 <= i < told.len() ==> #[trigger] answers[i] == Some(told[i].family.table)
        }),
    ensures
        all_accepted(staging_begun(engine)->Ok_0, groups),
        ({
            let staged = after_groups(staging_begun(engine)->Ok_0, groups);
            let group = session_group(staged);
            let parked = EngineModel { session: None, ..staged };
            &&& staged.deltas == engine.deltas
            &&& group.entries.len() == groups.len()
            &&& staging_landed(parked, group, rows, answers).deltas == after_groups(
                engine,
                groups,
            ).deltas
        }),
{
    lemma_abreast(engine, groups);
    let staged = after_groups(staging_begun(engine)->Ok_0, groups);
    let told = announcements(session_group(staged), groups.len() as int);
    assert(answers =~= all_named(told));
}

/// What the parking of a session keeps is the group that it built.
pub proof fn lemma_parked_as_built(engine: EngineModel)
    requires
        engine.session is Some,
        engine.session->0.entries.len() > 0,
        staging_parked(engine) is Ok,
    ensures
        staging_parked(engine)->Ok_0.store.staged == Some(session_group(engine)),
        staging_parked(engine)->Ok_0.session is None,
        staging_parked(engine)->Ok_0.deltas == engine.deltas,
        staging_parked(engine)->Ok_0.subscriptions == engine.subscriptions,
{
}

/// A directory that names the table of every family it is told of.
pub open spec fn names_every_table<Directory: FamilyDirectory>(directory: &Directory) -> bool {
    forall|told: AnnouncementModel, table: Option<Seq<char>>| #[trigger]
        named(directory, told, table) ==> table == Some(told.family.table)
}

/// Landing the group that a session built, through a directory that names
/// the table of every family, leaves exactly the deltas that the same groups
/// of writes leave when they are committed directly.
#[verifier::rlimit(40)]
pub proof fn lemma_materialize_tells_as_direct<Directory: FamilyDirectory>(
    landing: &mut Engine,
    directory: &Directory,
    receipt: MaterializeStagedReceipt,
    engine: EngineModel,
    groups: Seq<Seq<Request>>,
)
    requires
        staging_begun(engine) is Ok,
        groups.len() > 0,
        has_room(engine, groups.len() as int),
        all_accepted(engine, groups),
        forall|i: int| 0 <= i < groups.len() ==> (#[trigger] groups[i]).len() <= u64::MAX,
        ({
            let staged = after_groups(staging_begun(engine)->Ok_0, groups);
            &&& old(landing)@.store.staged == Some(session_group(staged))
            &&& old(landing)@.deltas == engine.deltas
            &&& old(landing)@.subscriptions == engine.subscriptions
        }),
        names_every_table(directory),
        call_ensures(
            Engine::materialize_staged_group::<Directory>,
            (landing, directory),
            Ok(receipt),
        ),
    ensures
        final(landing)@.deltas == after_groups(engine, groups).deltas,
        final(landing)@.store.staged is None,
{
    lemma_abreast(engine, groups);
    let staged = after_groups(staging_begun(engine)->Ok_0, groups);
    let group = session_group(staged);
    let told = announcements(group, groups.len() as int);
    assert(landable(old(landing)@.store) == Ok::<GroupModel, Failure>(group));
    let (taken, answers) = choose|taken: Seq<bool>, answers: Seq<Option<Seq<char>>>|
        {
            &&& consulted(
                directory,
                group_rows(group),
                Ok(taken),
            )
            &&& asked(directory, told, answers)
            &&& final(landing)@ == #[trigger] staging_landed(
                old(landing)@,
                group,
                landed_rows(group_rows(group), taken),
                answers,
            )
        };
    assert forall|i: int| 0 <= i < told.len() implies #[trigger] answers[i] == Some(
        told[i].family.table,
    ) by {
        assert(named(directory, told[i], answers[i]));
    }
    assert(answers =~= all_named(told));
}

} // verus!
