//! Reads: what a query gives back of a table, by all rows, by key and by
//! range, and what of the logs a range gives back.

use vstd::prelude::*;

use crate::catalog::registered;
use crate::commit_log::entries_within;
use crate::engine::{identified_facts, Engine};
use crate::engine_model::{
    identified_listed, identified_matched, identified_within, listed, matched, records_within,
    standing_sequence, standing_snapshot, standing_tables, EngineModel,
};
use crate::error::{Error, Failure};
use crate::laws::calls::failure_of;
use crate::laws::requests::{inside, lemma_inside_is_contained, row_at};
use crate::listing::{
    from_number, lemma_number_rising, lettered, log_values, number_listed, number_rising, numbered,
    text_listed, text_rising,
};
use crate::log::{CommitLogEntry, LogEntryModel};
use crate::models::views;
use crate::operation::SemaOperation;
use crate::order::text_precedes;
use crate::ordered_table::{has_key, keyed_at, lemma_position, map_of, rising, TableKey};
use crate::query::{
    node_operator, IdentifiedPlanModel, IdentifiedQueryPlan, IdentifiedQuerySnapshot,
    IdentifiedReadPlanNode, IdentifierRangeModel, KeyRange, KeyRangeModel, PlanModel, QueryPlan,
    QuerySnapshot, ReadPlanNode, ValidationReceipt,
};
use crate::record::{key_precedes, key_text, EncodedRecord, KeyModel, RecordModel};
use crate::sequence::CommitSequence;
use crate::subscribe::{SequenceRange, SequenceRangeModel};
use crate::tables::{domain_rows, identified_rows, TablesModel};
use crate::versioning::VersionedCommitLogEntry;

verus! {

/// A key that a read plan asks for: any key, the key with the same text, or
/// a key from the start of a range to its end.
pub open spec fn read_for(node: ReadPlanNode, text: Seq<char>) -> bool {
    match node {
        ReadPlanNode::AllRows => true,
        ReadPlanNode::ByKey(key) => text == key_text(key@),
        ReadPlanNode::ByKeyRange(range) => inside(range@, KeyModel::Domain(text)),
        _ => false,
    }
}

/// An answer holds a record under a key.
pub open spec fn answered_with(
    records: Seq<RecordModel>,
    text: Seq<char>,
    bytes: Seq<u8>,
) -> bool {
    exists|i: int|
        0 <= i < records.len() && #[trigger] records[i] == (RecordModel {
            key: KeyModel::Domain(text),
            bytes,
        })
}

/// The right answer of a read: exactly the rows of the table that the plan
/// asks for, each once, by rising key.
pub open spec fn right_answer(
    tables: TablesModel,
    table: Seq<char>,
    node: ReadPlanNode,
    records: Seq<RecordModel>,
) -> bool {
    &&& forall|text: Seq<char>, bytes: Seq<u8>| #[trigger]
        answered_with(records, text, bytes) <==> row_at(tables, table, text) == Some(bytes)
            && read_for(node, text)
    &&& forall|i: int| 0 <= i < records.len() ==> (#[trigger] records[i]).key is Domain
    &&& forall|i: int, j: int|
        0 <= i < j < records.len() ==> key_precedes(
            (#[trigger] records[i]).key,
            (#[trigger] records[j]).key,
        )
}

/// The rows of a table, listed, are the right answer for all of them.
proof fn lemma_listed_right(tables: TablesModel, table: Seq<char>)
    requires
        text_listed(domain_rows(tables.records, table)),
    ensures
        right_answer(
            tables,
            table,
            ReadPlanNode::AllRows,
            listed(domain_rows(tables.records, table)),
        ),
{
    let rows = domain_rows(tables.records, table);
    let listing = lettered(rows);
    let records = listed(rows);
    assert forall|text: Seq<char>, bytes: Seq<u8>| #[trigger]
        answered_with(records, text, bytes) <==> row_at(tables, table, text) == Some(bytes) by {
        if answered_with(records, text, bytes) {
            let i = choose|i: int|
                0 <= i < records.len() && #[trigger] records[i] == (RecordModel {
                    key: KeyModel::Domain(text),
                    bytes,
                });
            lemma_listed_once(listing, i);
            assert(keyed_at(listing, text, i));
            assert(map_of(listing).dom().contains(text));
            assert(rows[text] == bytes);
        }
        if row_at(tables, table, text) == Some(bytes) {
            assert(rows.dom().contains(text));
            assert(has_key(listing, text));
            let i = choose|i: int| keyed_at(listing, text, i);
            lemma_listed_once(listing, i);
            assert(records[i] == (RecordModel { key: KeyModel::Domain(text), bytes }));
        }
    }
    assert forall|i: int, j: int| 0 <= i < j < records.len() implies key_precedes(
        (#[trigger] records[i]).key,
        (#[trigger] records[j]).key,
    ) by {
        assert(text_precedes(listing[i].0, listing[j].0));
    }
}

/// A listing by rising text holds under each text what stands there.
proof fn lemma_listed_once<X>(listing: Seq<(Seq<char>, X)>, at: int)
    requires
        text_rising(listing),
        0 <= at < listing.len(),
    ensures
        map_of(listing)[listing[at].0] == listing[at].1,
        map_of(listing).dom().contains(listing[at].0),
{
    assert(rising::<String, X>(listing)) by {
        assert forall|i: int, j: int| 0 <= i < j < listing.len() implies <String as
            TableKey>::precedes(
            #[trigger] listing[i].0,
            #[trigger] listing[j].0,
        ) by {
            assert(text_precedes(listing[i].0, listing[j].0));
        }
    }
    lemma_position::<String, X>(listing, at);
}

/// A range keeps, of what it is given, exactly what lies in it, in order.
proof fn lemma_within_is_filter(records: Seq<RecordModel>, range: KeyRangeModel)
    ensures
        records_within(records, range) == records.filter(
            |record: RecordModel| inside(range, record.key),
        ),
    decreases records.len(),
{
    reveal(Seq::filter);
    if records.len() > 0 {
        lemma_within_is_filter(records.drop_last(), range);
        lemma_inside_is_contained(range, records.last().key);
    }
}

/// What a filter keeps of a right answer is the right answer for fewer keys.
proof fn lemma_filtered_right(
    tables: TablesModel,
    table: Seq<char>,
    records: Seq<RecordModel>,
    node: ReadPlanNode,
    wanted: spec_fn(RecordModel) -> bool,
)
    requires
        right_answer(tables, table, ReadPlanNode::AllRows, records),
        forall|text: Seq<char>, bytes: Seq<u8>|
            #[trigger] wanted(RecordModel { key: KeyModel::Domain(text), bytes }) <==> read_for(
                node,
                text,
            ),
    ensures
        right_answer(tables, table, node, records.filter(wanted)),
{
    let kept = records.filter(wanted);
    lemma_filter_in_order(records, wanted);
    assert forall|text: Seq<char>, bytes: Seq<u8>| #[trigger]
        answered_with(kept, text, bytes) <==> row_at(tables, table, text) == Some(bytes)
            && read_for(node, text) by {
        let record = RecordModel { key: KeyModel::Domain(text), bytes };
        assert(wanted(record) <==> read_for(node, text));
        assert(answered_with(records, text, bytes) <==> row_at(tables, table, text) == Some(
            bytes,
        ));
        if answered_with(kept, text, bytes) {
            let i = choose|i: int| 0 <= i < kept.len() && #[trigger] kept[i] == record;
            let s = choose|s: int| 0 <= s < records.len() && records[s] == kept[i];
            assert(records[s] == record);
            assert(answered_with(records, text, bytes));
        }
        if answered_with(records, text, bytes) && wanted(record) {
            let s = choose|s: int| 0 <= s < records.len() && #[trigger] records[s] == record;
            records.lemma_filter_contains(wanted, s);
            let i = choose|i: int| 0 <= i < kept.len() && kept[i] == record;
            assert(kept[i] == record);
        }
    }
}

/// A filter keeps what passes, in the order it stood.
pub proof fn lemma_filter_in_order(
    records: Seq<RecordModel>,
    wanted: spec_fn(RecordModel) -> bool,
)
    requires
        forall|i: int, j: int|
            0 <= i < j < records.len() ==> key_precedes(
                (#[trigger] records[i]).key,
                (#[trigger] records[j]).key,
            ),
    ensures
        forall|i: int|
            0 <= i < records.filter(wanted).len() ==> wanted(
                #[trigger] records.filter(wanted)[i],
            ) && exists|s: int| 0 <= s < records.len() && records[s] == records.filter(wanted)[i],
        forall|i: int, j: int|
            0 <= i < j < records.filter(wanted).len() ==> key_precedes(
                (#[trigger] records.filter(wanted)[i]).key,
                (#[trigger] records.filter(wanted)[j]).key,
            ),
    decreases records.len(),
{
    reveal(Seq::filter);
    let kept = records.filter(wanted);
    if records.len() > 0 {
        let less = records.drop_last();
        let end = records.len() - 1;
        assert forall|i: int, j: int| 0 <= i < j < less.len() implies key_precedes(
            (#[trigger] less[i]).key,
            (#[trigger] less[j]).key,
        ) by {
            assert(key_precedes(records[i].key, records[j].key));
        }
        lemma_filter_in_order(less, wanted);
        let before = less.filter(wanted);
        assert forall|i: int| 0 <= i < kept.len() implies wanted(#[trigger] kept[i]) && exists|
            s: int,
        | 0 <= s < records.len() && records[s] == kept[i] by {
            if i < before.len() {
                assert(kept[i] == before[i]);
                let s = choose|s: int| 0 <= s < less.len() && less[s] == before[i];
                assert(records[s] == kept[i]);
            } else {
                assert(records[end] == kept[i]);
            }
        }
        assert forall|i: int, j: int| 0 <= i < j < kept.len() implies key_precedes(
            (#[trigger] kept[i]).key,
            (#[trigger] kept[j]).key,
        ) by {
            assert(kept[i] == before[i]);
            if j < before.len() {
                assert(kept[j] == before[j]);
            } else {
                let s = choose|s: int| 0 <= s < less.len() && less[s] == before[i];
                assert(key_precedes(records[s].key, records[end].key));
            }
        }
    }
}

/// Why a query is refused, if it is: its table is not registered, or its
/// plan is none of all rows, one key and a range of keys.
pub open spec fn query_refusal(
    engine: EngineModel,
    table: Seq<char>,
    node: ReadPlanNode,
) -> Option<Failure> {
    if !registered(engine.catalog, table) {
        Some(Failure::TableNotRegistered { table })
    } else if node is AllRows || node is ByKey || node is ByKeyRange {
        None
    } else {
        Some(Failure::UnsupportedReadPlan { operator: node_operator(node) })
    }
}

/// What a plan reads is its right answer.
pub proof fn lemma_plan_read_right(engine: EngineModel, plan: PlanModel)
    requires
        matched(engine, plan) is Ok,
        plan.node is AllRows || plan.node is ByKeyRange ==> text_listed(
            domain_rows(standing_tables(engine).records, plan.table),
        ),
    ensures
        query_refusal(engine, plan.table, plan.node) is None,
        right_answer(
            standing_tables(engine),
            plan.table,
            plan.node,
            matched(engine, plan)->Ok_0,
        ),
{
    let tables = standing_tables(engine);
    let table = plan.table;
    let records = matched(engine, plan)->Ok_0;
    match plan.node {
        ReadPlanNode::AllRows => {
            lemma_listed_right(tables, table);
        },
        ReadPlanNode::ByKey(key) => {
            let text = key_text(key@);
            assert forall|other: Seq<char>, bytes: Seq<u8>| #[trigger]
                answered_with(records, other, bytes) <==> row_at(tables, table, other) == Some(
                bytes,
            ) && read_for(plan.node, other) by {
                if row_at(tables, table, text) is Some {
                    assert(records[0] == (RecordModel {
                        key: KeyModel::Domain(text),
                        bytes: row_at(tables, table, text)->0,
                    }));
                }
            }
        },
        ReadPlanNode::ByKeyRange(range) => {
            let all = listed(domain_rows(tables.records, table));
            let wanted = |record: RecordModel| inside(range@, record.key);
            lemma_listed_right(tables, table);
            lemma_within_is_filter(all, range@);
            lemma_filtered_right(tables, table, all, plan.node, wanted);
        },
        _ => {},
    }
}

/// A query gives back exactly the rows of its table that it asks for, each
/// once, by rising key, under the marker of the state that it read: the
/// committed state, or that of the session that is engaged.
pub proof fn lemma_match_call<RecordValue>(
    engine: &Engine,
    query: QueryPlan<RecordValue>,
    outcome: Result<QuerySnapshot<EncodedRecord>, Error>,
)
    requires
        call_ensures(Engine::match_records::<RecordValue>, (engine, query), outcome),
    ensures
        failure_of(outcome) == query_refusal(engine@, query@.table, query@.node),
        outcome matches Ok(found) ==> {
            &&& right_answer(
                standing_tables(engine@),
                query@.table,
                query@.node,
                views(found@.records),
            )
            &&& found@.operation == SemaOperation::Match
            &&& found@.table == query@.table
            &&& found@.database_marker.commit_sequence == standing_sequence(engine@)
            &&& found@.database_marker.snapshot == standing_snapshot(engine@)
        },
{
    if outcome is Ok {
        lemma_plan_read_right(engine@, query@);
    }
}

/// A range read is the read of all rows, kept where the key lies in the
/// range.
pub proof fn lemma_range_is_part_of_all<RecordValue>(
    engine: &Engine,
    all: QueryPlan<RecordValue>,
    part: QueryPlan<RecordValue>,
    whole: QuerySnapshot<EncodedRecord>,
    found: QuerySnapshot<EncodedRecord>,
    range: KeyRange,
)
    requires
        all@.table == part@.table,
        all@.node == ReadPlanNode::AllRows,
        part@.node == ReadPlanNode::ByKeyRange(range),
        call_ensures(Engine::match_records::<RecordValue>, (engine, all), Ok(whole)),
        call_ensures(Engine::match_records::<RecordValue>, (engine, part), Ok(found)),
    ensures
        views(found@.records) == views(whole@.records).filter(
            |record: RecordModel| inside(range@, record.key),
        ),
{
    let tables = standing_tables(engine@);
    lemma_within_is_filter(listed(domain_rows(tables.records, all@.table)), range@);
}

/// A validation counts what the same query would give back, under the same
/// marker, and is refused as it would be.
pub proof fn lemma_validate_call<RecordValue>(
    engine: &Engine,
    query: QueryPlan<RecordValue>,
    outcome: Result<ValidationReceipt, Error>,
    found: Result<QuerySnapshot<EncodedRecord>, Error>,
)
    requires
        call_ensures(Engine::validate::<RecordValue>, (engine, query), outcome),
        call_ensures(Engine::match_records::<RecordValue>, (engine, query), found),
    ensures
        failure_of(outcome) == failure_of(found),
        outcome matches Ok(receipt) ==> {
            &&& receipt@.record_count == found->Ok_0@.records.len() as usize
            &&& receipt@.operation == SemaOperation::Validate
            &&& receipt@.table == query@.table
            &&& receipt@.database_marker == found->Ok_0@.database_marker
        },
{
    if let Ok(snapshot) = found {
        assert(views(snapshot@.records).len() == snapshot@.records.len());
    }
}

/// An identifier that a read plan asks for.
pub open spec fn identified_read_for(node: IdentifiedReadPlanNode, identifier: u64) -> bool {
    match node {
        IdentifiedReadPlanNode::AllRows => true,
        IdentifiedReadPlanNode::ByIdentifier(wanted) => identifier == wanted@,
        IdentifiedReadPlanNode::ByIdentifierRange(range) => numbered_inside(range@, identifier),
    }
}

/// An identifier is at or past the start of a range and at or before its
/// end, each where it is given.
pub open spec fn numbered_inside(range: IdentifierRangeModel, identifier: u64) -> bool {
    &&& range.start matches Some(start) ==> start <= identifier
    &&& range.end matches Some(end) ==> identifier <= end
}

/// What an identified answer holds at a position.
pub open spec fn identified_fact(
    found: IdentifiedQuerySnapshot<EncodedRecord>,
    at: int,
) -> (u64, RecordModel) {
    (found@.records[at]@.0, found@.records[at]@.1@)
}

/// An identified answer holds a record under an identifier.
pub open spec fn identified_with(
    found: IdentifiedQuerySnapshot<EncodedRecord>,
    identifier: u64,
    bytes: Seq<u8>,
) -> bool {
    exists|i: int|
        0 <= i < found@.records.len() && #[trigger] identified_fact(found, i) == (
            identifier,
            RecordModel { key: KeyModel::Identifier(identifier), bytes },
        )
}

/// The right answer of an identified read: exactly the records that the plan
/// asks for, each once, by rising identifier.
pub open spec fn right_identified_answer(
    tables: TablesModel,
    table: Seq<char>,
    node: IdentifiedReadPlanNode,
    found: IdentifiedQuerySnapshot<EncodedRecord>,
) -> bool {
    &&& forall|identifier: u64, bytes: Seq<u8>| #[trigger]
        identified_with(found, identifier, bytes) <==> {
            &&& tables.identified.dom().contains((table, identifier))
            &&& tables.identified[(table, identifier)] == bytes
            &&& identified_read_for(node, identifier)
        }
    &&& forall|i: int, j: int|
        0 <= i < j < found@.records.len() ==> (#[trigger] identified_fact(found, i)).0 < (
        #[trigger] identified_fact(found, j)).0
}

/// An identified range keeps, of what it is given, what lies in it.
proof fn lemma_identified_within(
    records: Seq<(u64, RecordModel)>,
    range: IdentifierRangeModel,
)
    ensures
        identified_within(records, range) == records.filter(
            |fact: (u64, RecordModel)| numbered_inside(range, fact.0),
        ),
    decreases records.len(),
{
    reveal(Seq::filter);
    if records.len() > 0 {
        lemma_identified_within(records.drop_last(), range);
    }
}

/// What a filter keeps, and in what order, by rising number.
proof fn lemma_numbers_in_order(
    facts: Seq<(u64, RecordModel)>,
    wanted: spec_fn((u64, RecordModel)) -> bool,
)
    requires
        number_rising(facts),
    ensures
        number_rising(facts.filter(wanted)),
        forall|fact: (u64, RecordModel)| #[trigger]
            facts.filter(wanted).contains(fact) <==> facts.contains(fact) && wanted(fact),
    decreases facts.len(),
{
    reveal(Seq::filter);
    let kept = facts.filter(wanted);
    if facts.len() > 0 {
        let less = facts.drop_last();
        let end = facts.len() - 1;
        let last = facts[end];
        assert forall|i: int, j: int| 0 <= i < j < less.len() implies (#[trigger] less[i]).0 < (
        #[trigger] less[j]).0 by {
            assert(facts[i].0 < facts[j].0);
        }
        lemma_numbers_in_order(less, wanted);
        let before = less.filter(wanted);
        assert forall|i: int, j: int| 0 <= i < j < kept.len() implies (#[trigger] kept[i]).0 < (
        #[trigger] kept[j]).0 by {
            assert(kept[i] == before[i]);
            if j < before.len() {
                assert(kept[j] == before[j]);
            } else {
                assert(before.contains(before[i]));
                let s = choose|s: int| 0 <= s < less.len() && less[s] == before[i];
                assert(facts[s].0 < facts[end].0);
            }
        }
        assert forall|fact: (u64, RecordModel)| #[trigger]
            kept.contains(fact) <==> facts.contains(fact) && wanted(fact) by {
            if kept.contains(fact) {
                let i = choose|i: int| 0 <= i < kept.len() && kept[i] == fact;
                if i < before.len() {
                    assert(before[i] == fact);
                    assert(before.contains(fact));
                    let s = choose|s: int| 0 <= s < less.len() && less[s] == fact;
                    assert(facts[s] == fact);
                } else {
                    assert(facts[end] == fact);
                }
            }
            if facts.contains(fact) && wanted(fact) {
                let s = choose|s: int| 0 <= s < facts.len() && facts[s] == fact;
                if s < end {
                    assert(less[s] == fact);
                    assert(before.contains(fact));
                    let i = choose|i: int| 0 <= i < before.len() && before[i] == fact;
                    assert(kept[i] == fact);
                } else {
                    assert(kept[kept.len() - 1] == fact);
                }
            }
        }
    }
}

/// The identified rows of a table, listed.
proof fn lemma_identified_listed(tables: TablesModel, table: Seq<char>)
    requires
        number_listed(identified_rows(tables.identified, table)),
    ensures
        ({
            let facts = identified_listed(identified_rows(tables.identified, table));
            &&& number_rising(facts)
            &&& forall|fact: (u64, RecordModel)| #[trigger]
                facts.contains(fact) <==> {
                    &&& tables.identified.dom().contains((table, fact.0))
                    &&& fact.1 == (RecordModel {
                        key: KeyModel::Identifier(fact.0),
                        bytes: tables.identified[(table, fact.0)],
                    })
                }
        }),
{
    let rows = identified_rows(tables.identified, table);
    let listing = numbered(rows);
    let facts = identified_listed(rows);
    lemma_number_rising(listing);
    assert forall|i: int, j: int| 0 <= i < j < facts.len() implies (#[trigger] facts[i]).0 < (
    #[trigger] facts[j]).0 by {
        assert(listing[i].0 < listing[j].0);
    }
    assert forall|fact: (u64, RecordModel)| #[trigger] facts.contains(fact) <==> {
        &&& tables.identified.dom().contains((table, fact.0))
        &&& fact.1 == (RecordModel {
            key: KeyModel::Identifier(fact.0),
            bytes: tables.identified[(table, fact.0)],
        })
    } by {
        if facts.contains(fact) {
            let i = choose|i: int| 0 <= i < facts.len() && facts[i] == fact;
            lemma_position::<u64, Seq<u8>>(listing, i);
            assert(rows.dom().contains(fact.0));
        }
        if tables.identified.dom().contains((table, fact.0)) {
            assert(rows.dom().contains(fact.0));
            assert(has_key(listing, fact.0));
            let i = choose|i: int| keyed_at(listing, fact.0, i);
            lemma_position::<u64, Seq<u8>>(listing, i);
            if fact.1 == (RecordModel {
                key: KeyModel::Identifier(fact.0),
                bytes: tables.identified[(table, fact.0)],
            }) {
                assert(facts[i] == fact);
            }
        }
    }
}

/// Facts are exactly the identified records of a table that a plan asks for.
spec fn identified_exactly(
    tables: TablesModel,
    table: Seq<char>,
    node: IdentifiedReadPlanNode,
    facts: Seq<(u64, RecordModel)>,
) -> bool {
    &&& number_rising(facts)
    &&& forall|fact: (u64, RecordModel)| #[trigger]
        facts.contains(fact) <==> {
            &&& tables.identified.dom().contains((table, fact.0))
            &&& fact.1 == (RecordModel {
                key: KeyModel::Identifier(fact.0),
                bytes: tables.identified[(table, fact.0)],
            })
            &&& identified_read_for(node, fact.0)
        }
}

/// What an identified plan reads is exactly what it asks for.
proof fn lemma_identified_exactly(engine: EngineModel, plan: IdentifiedPlanModel)
    requires
        registered(engine.catalog, plan.table),
        !(plan.node is ByIdentifier) ==> number_listed(
            identified_rows(standing_tables(engine).identified, plan.table),
        ),
    ensures
        identified_matched(engine, plan) is Ok,
        identified_exactly(
            standing_tables(engine),
            plan.table,
            plan.node,
            identified_matched(engine, plan)->Ok_0,
        ),
{
    let tables = standing_tables(engine);
    let facts = identified_matched(engine, plan)->Ok_0;
    match plan.node {
        IdentifiedReadPlanNode::AllRows => {
            lemma_identified_listed(tables, plan.table);
            assert(facts == identified_listed(identified_rows(tables.identified, plan.table)));
            assert forall|fact: (u64, RecordModel)| #[trigger] facts.contains(fact) <==> {
                &&& tables.identified.dom().contains((plan.table, fact.0))
                &&& fact.1 == (RecordModel {
                    key: KeyModel::Identifier(fact.0),
                    bytes: tables.identified[(plan.table, fact.0)],
                })
                &&& identified_read_for(plan.node, fact.0)
            } by {
                assert(identified_read_for(plan.node, fact.0));
            }
        },
        IdentifiedReadPlanNode::ByIdentifier(wanted) => {
            assert forall|fact: (u64, RecordModel)| #[trigger] facts.contains(fact) <==> {
                &&& tables.identified.dom().contains((plan.table, fact.0))
                &&& fact.1 == (RecordModel {
                    key: KeyModel::Identifier(fact.0),
                    bytes: tables.identified[(plan.table, fact.0)],
                })
                &&& identified_read_for(plan.node, fact.0)
            } by {
                if facts.len() > 0 {
                    assert(facts.contains(facts[0]));
                }
                if facts.contains(fact) {
                    let i = choose|i: int| 0 <= i < facts.len() && facts[i] == fact;
                    assert(i == 0);
                }
            }
        },
        IdentifiedReadPlanNode::ByIdentifierRange(range) => {
            lemma_identified_listed(tables, plan.table);
            let all = identified_listed(identified_rows(tables.identified, plan.table));
            let wanted = |fact: (u64, RecordModel)| numbered_inside(range@, fact.0);
            lemma_identified_within(all, range@);
            lemma_numbers_in_order(all, wanted);
            assert(facts == all.filter(wanted));
            assert forall|fact: (u64, RecordModel)| #[trigger] facts.contains(fact) <==> {
                &&& tables.identified.dom().contains((plan.table, fact.0))
                &&& fact.1 == (RecordModel {
                    key: KeyModel::Identifier(fact.0),
                    bytes: tables.identified[(plan.table, fact.0)],
                })
                &&& identified_read_for(plan.node, fact.0)
            } by {
                assert(all.contains(fact) <==> {
                    &&& tables.identified.dom().contains((plan.table, fact.0))
                    &&& fact.1 == (RecordModel {
                        key: KeyModel::Identifier(fact.0),
                        bytes: tables.identified[(plan.table, fact.0)],
                    })
                });
                assert(wanted(fact) <==> identified_read_for(plan.node, fact.0));
            }
        },
    }
}

/// A query over an engine-identified table gives back exactly the records
/// that it asks for, each once, by rising identifier; only an unregistered
/// table refuses it.
pub proof fn lemma_match_identified_call<RecordValue>(
    engine: &Engine,
    query: IdentifiedQueryPlan<RecordValue>,
    outcome: Result<IdentifiedQuerySnapshot<EncodedRecord>, Error>,
)
    requires
        call_ensures(Engine::match_identified::<RecordValue>, (engine, query), outcome),
    ensures
        failure_of(outcome) == if registered(engine@.catalog, query@.table) {
            None
        } else {
            Some(Failure::TableNotRegistered { table: query@.table })
        },
        outcome matches Ok(found) ==> {
            &&& right_identified_answer(
                standing_tables(engine@),
                query@.table,
                query@.node,
                found,
            )
            &&& found@.operation == SemaOperation::Match
            &&& found@.table == query@.table
            &&& found@.database_marker.commit_sequence == standing_sequence(engine@)
            &&& found@.database_marker.snapshot == standing_snapshot(engine@)
        },
{
    let tables = standing_tables(engine@);
    let table = query@.table;
    if outcome is Ok {
        let found = outcome->Ok_0;
        let facts = identified_facts(found@.records);
        assert forall|i: int| 0 <= i < facts.len() implies #[trigger] identified_fact(found, i)
            == facts[i] by {}
        lemma_identified_exactly(engine@, query@);
        assert forall|identifier: u64, bytes: Seq<u8>| #[trigger]
            identified_with(found, identifier, bytes) <==> {
            &&& tables.identified.dom().contains((table, identifier))
            &&& tables.identified[(table, identifier)] == bytes
            &&& identified_read_for(query@.node, identifier)
        } by {
            let fact = (
                identifier,
                RecordModel { key: KeyModel::Identifier(identifier), bytes },
            );
            if identified_with(found, identifier, bytes) {
                let i = choose|i: int|
                    0 <= i < found@.records.len() && #[trigger] identified_fact(found, i) == fact;
                assert(facts[i] == fact);
                assert(facts.contains(fact));
            }
            if facts.contains(fact) {
                let i = choose|i: int| 0 <= i < facts.len() && facts[i] == fact;
                assert(identified_fact(found, i) == fact);
                assert(identified_with(found, identifier, bytes));
            }
        }
        assert forall|i: int, j: int| 0 <= i < j < found@.records.len() implies (
        #[trigger] identified_fact(found, i)).0 < (#[trigger] identified_fact(found, j)).0 by {
            assert(facts[i].0 < facts[j].0);
        }
    }
}

/// A snapshot lies in a range: at or past its start, and at or before its
/// end where it has one.
pub open spec fn snapshot_inside(range: SequenceRangeModel, snapshot: u64) -> bool {
    range.start <= snapshot && match range.end {
        Some(end) => snapshot <= end,
        None => true,
    }
}

proof fn lemma_entries_within(entries: Seq<LogEntryModel>, range: SequenceRangeModel)
    ensures
        entries_within(entries, range) == entries.filter(
            |entry: LogEntryModel| snapshot_inside(range, entry.snapshot),
        ),
    decreases entries.len(),
{
    reveal(Seq::filter);
    if entries.len() > 0 {
        lemma_entries_within(entries.drop_last(), range);
    }
}

/// A range of the commit log is the commit log, kept where the snapshot
/// lies in the range.
pub proof fn lemma_log_range_call(
    engine: &Engine,
    range: SequenceRange,
    found: Vec<CommitLogEntry>,
    whole: Vec<CommitLogEntry>,
)
    requires
        call_ensures(Engine::commit_log_range, (engine, range), found),
        call_ensures(Engine::commit_log, (engine,), whole),
    ensures
        views(found@) == views(whole@).filter(
            |entry: LogEntryModel| snapshot_inside(range@, entry.snapshot),
        ),
{
    lemma_entries_within(views(whole@), range@);
}

/// A listing by rising number of a log holds every row of it, once, in
/// order.
pub open spec fn lists_log<X>(log: Map<u64, X>, start: int, found: Seq<X>) -> bool {
    exists|rows: Seq<(u64, X)>|
        {
            &&& #[trigger] number_rising(rows)
            &&& found.len() == rows.len()
            &&& forall|i: int| 0 <= i < rows.len() ==> (#[trigger] rows[i]).1 == found[i]
            &&& forall|i: int|
                0 <= i < rows.len() ==> {
                    &&& log.dom().contains((#[trigger] rows[i]).0)
                    &&& log[rows[i].0] == rows[i].1
                    &&& start <= rows[i].0
                }
            &&& forall|key: u64|
                #![trigger log.dom().contains(key)]
                log.dom().contains(key) && start <= key ==> exists|i: int|
                    0 <= i < rows.len() && (#[trigger] rows[i]).0 == key
        }
}

/// A log's listing holds every row of it.
pub proof fn lemma_lists_log<X>(log: Map<u64, X>, start: int)
    requires
        number_listed(from_number(log, start)),
    ensures
        lists_log(log, start, log_values(from_number(log, start))),
{
    let part = from_number(log, start);
    let rows = numbered(part);
    let found = log_values(part);
    lemma_number_rising(rows);
    assert forall|i: int| 0 <= i < rows.len() implies {
        &&& log.dom().contains((#[trigger] rows[i]).0)
        &&& log[rows[i].0] == rows[i].1
        &&& start <= rows[i].0
    } by {
        lemma_position::<u64, X>(rows, i);
        assert(part.dom().contains(rows[i].0));
    }
    assert forall|key: u64|
        #![trigger log.dom().contains(key)]
        log.dom().contains(key) && start <= key implies exists|i: int|
        0 <= i < rows.len() && (#[trigger] rows[i]).0 == key by {
        assert(part.dom().contains(key));
        assert(has_key(rows, key));
        let i = choose|i: int| keyed_at(rows, key, i);
        assert(rows[i].0 == key);
    }
    assert(number_rising(rows));
}

/// The log readers give back every row of their log from where they start,
/// once, in commit order.
pub proof fn lemma_log_calls(
    engine: &Engine,
    start: CommitSequence,
    commits: Vec<CommitLogEntry>,
    entries: Vec<VersionedCommitLogEntry>,
    commits_from: Vec<CommitLogEntry>,
    entries_from: Vec<VersionedCommitLogEntry>,
)
    requires
        call_ensures(Engine::commit_log, (engine,), commits),
        call_ensures(Engine::versioned_commit_log, (engine,), entries),
        call_ensures(Engine::replay_from_sequence, (engine, start), commits_from),
        call_ensures(Engine::versioned_replay_from_sequence, (engine, start), entries_from),
    ensures
        lists_log(engine@.store.commit_log, 0, views(commits@)),
        lists_log(engine@.store.versioned_log, 0, views(entries@)),
        lists_log(engine@.store.commit_log, start@ as int, views(commits_from@)),
        lists_log(engine@.store.versioned_log, start@ as int, views(entries_from@)),
{
    assert(from_number(engine@.store.commit_log, 0) =~= engine@.store.commit_log);
    assert(from_number(engine@.store.versioned_log, 0) =~= engine@.store.versioned_log);
    lemma_lists_log(engine@.store.commit_log, 0);
    lemma_lists_log(engine@.store.versioned_log, 0);
    lemma_lists_log(engine@.store.commit_log, start@ as int);
    lemma_lists_log(engine@.store.versioned_log, start@ as int);
}

} // verus!
