//! Calls of the write verbs: what a caller may conclude from what a call was
//! given and what it gave back.

use vstd::prelude::*;

use crate::atomic::{AtomicCommit, AtomicCommitReceipt};
use crate::catalog::registered;
use crate::engine::Engine;
use crate::engine_model::{
    announced, atomic_outcome, has_room, landed, standing_sequence, standing_snapshot,
    standing_tables, EngineModel,
};
use crate::error::{Error, Failure};
use crate::laws::requests::{
    all_admitted, apart, leaves_buffer, leaves_log, lemma_first_refused, lemma_group_accepted,
    lemma_group_refused, lemma_group_takes_effect, lemma_landed_logs, lemma_one_table_is_a_group,
    over, refusal_of, refused_at, takes_effect, Due, Request,
};
use crate::laws::writes::lemma_lone_write;
use crate::mutation::{
    write_models, Assertion, CommitReceipt, CommitRequest, IdentifiedAssertion, IdentifiedMutation,
    IdentifiedMutationReceipt, IdentifiedRetraction, KeyedAssertion, KeyedMutation, Mutation,
    MutationReceipt, Retraction, WriteModel, WriteOperation,
};
use crate::operation::SemaOperation;
use crate::record::{EncodedRecord, KeyModel, RecordModel};
use crate::table::counter_key_text;
use crate::tables::{identified_removal, identified_write, TablesModel};
use crate::text::decimal_text;

verus! {

/// What a call that asks for writes owes: where it succeeds every write took
/// effect; where it fails nothing changed, and the error is that of the
/// first request which refuses the group. It succeeds exactly where every
/// request is let in and no two are for one key.
pub open spec fn owed(
    before: EngineModel,
    after: EngineModel,
    requests: Seq<Request>,
    failure: Option<Failure>,
) -> bool {
    let tables = standing_tables(before);
    match failure {
        None => {
            &&& apart(requests)
            &&& all_admitted(before.catalog, tables, requests)
            &&& takes_effect(before, after, requests)
        },
        Some(error) => {
            &&& after == before
            &&& exists|at: int|
                {
                    &&& #[trigger] refused_at(before.catalog, tables, requests, at)
                    &&& error == refusal_of(
                        before.catalog,
                        tables,
                        requests.take(at),
                        requests[at],
                    )
                }
        },
    }
}

/// What a group comes to is what it owes.
proof fn lemma_group_owed(engine: EngineModel, requests: Seq<Request>)
    requires
        has_room(engine, 1),
        requests.len() > 0,
    ensures
        match atomic_outcome(engine, requests) {
            Ok(after) => owed(engine, after, requests, None),
            Err(failure) => owed(engine, engine, requests, Some(failure)),
        },
{
    let tables = standing_tables(engine);
    lemma_group_accepted(engine, requests);
    lemma_group_takes_effect(engine, requests);
    if atomic_outcome(engine, requests) is Err {
        lemma_first_refused(engine.catalog, tables, requests);
        let at = choose|at: int| #[trigger]
            refused_at(engine.catalog, tables, requests, at);
        lemma_group_refused(engine, requests, at);
    }
}

/// The failure of an outcome, if it failed.
pub open spec fn failure_of<T>(outcome: Result<T, Error>) -> Option<Failure> {
    match outcome {
        Ok(_) => None,
        Err(error) => Some(error@),
    }
}

/// The writes that a commit request asks for, in order.
pub open spec fn asked_by(request: CommitRequest<EncodedRecord>) -> Seq<Request> {
    let operations = request@.operations;
    Seq::new(
        operations.len(),
        |i: int|
            (
                request@.table,
                match operations[i] {
                    WriteOperation::Assert(record) => WriteModel::Assert(record@),
                    WriteOperation::Mutate(record) => WriteModel::Mutate(record@),
                    WriteOperation::Retract(key) => WriteModel::Retract(key@),
                },
            ),
    )
}

/// A commit of a bundle of writes to one table owes every one of them under
/// one snapshot, or refuses the bundle whole; its receipt names where the
/// engine stands and how many writes there were.
pub proof fn lemma_commit_call(
    engine: &mut Engine,
    request: CommitRequest<EncodedRecord>,
    outcome: Result<CommitReceipt, Error>,
)
    requires
        has_room(old(engine)@, 1),
        call_ensures(Engine::commit, (engine, request), outcome),
    ensures
        !registered(old(engine)@.catalog, request@.table) ==> failure_of(outcome) == Some(
            Failure::TableNotRegistered { table: request@.table },
        ) && final(engine)@ == old(engine)@,
        registered(old(engine)@.catalog, request@.table) && request@.operations.len() == 0
            ==> failure_of(outcome) == Some(Failure::EmptyCommit { table: request@.table })
            && final(engine)@ == old(engine)@,
        registered(old(engine)@.catalog, request@.table) && request@.operations.len() > 0
            ==> owed(old(engine)@, final(engine)@, asked_by(request), failure_of(outcome)),
        outcome matches Ok(receipt) ==> {
            &&& receipt@.table == request@.table
            &&& receipt@.commit_sequence == standing_sequence(old(engine)@) + 1
            &&& receipt@.snapshot == standing_snapshot(old(engine)@) + 1
            &&& receipt@.operation_count == request@.operations.len() as usize
        },
{
    let before = old(engine)@;
    let writes = write_models(request@.operations);
    lemma_one_table_is_a_group(before, request@.table, writes, writes[0]);
    assert(over(request@.table, writes) =~= asked_by(request));
    if request@.operations.len() > 0 {
        lemma_group_owed(before, asked_by(request));
    }
}

/// An atomic commit owes every write of its group, over whatever tables, or
/// refuses the group whole.
pub proof fn lemma_commit_atomic_call(
    engine: &mut Engine,
    commit: AtomicCommit,
    outcome: Result<AtomicCommitReceipt, Error>,
)
    requires
        has_room(old(engine)@, 1),
        call_ensures(Engine::commit_atomic, (engine, commit), outcome),
    ensures
        commit@.len() == 0 ==> failure_of(outcome) == Some(Failure::EmptyAtomicCommit)
            && final(engine)@ == old(engine)@,
        commit@.len() > 0 ==> owed(
            old(engine)@,
            final(engine)@,
            commit@,
            failure_of(outcome),
        ),
        outcome matches Ok(receipt) ==> {
            &&& receipt@.commit_sequence == standing_sequence(old(engine)@) + 1
            &&& receipt@.snapshot == standing_snapshot(old(engine)@) + 1
            &&& receipt@.operation_count == commit@.len() as usize
        },
{
    if commit@.len() > 0 {
        lemma_group_owed(old(engine)@, commit@);
    }
}

/// What a lone write owes, with its receipt.
pub open spec fn lone_owed(
    before: EngineModel,
    after: EngineModel,
    table: Seq<char>,
    operation: SemaOperation,
    write: WriteModel,
    key: KeyModel,
    outcome: Result<MutationReceipt, Error>,
) -> bool {
    &&& owed(before, after, seq![(table, write)], failure_of(outcome))
    &&& outcome matches Ok(receipt) ==> {
        &&& receipt@.operation == operation
        &&& receipt@.table == table
        &&& receipt@.key == key
        &&& receipt@.commit_sequence == standing_sequence(before) + 1
        &&& receipt@.snapshot == standing_snapshot(before) + 1
    }
}

/// An assertion owes its record under its key.
pub proof fn lemma_assert_call(
    engine: &mut Engine,
    assertion: Assertion<EncodedRecord>,
    outcome: Result<MutationReceipt, Error>,
)
    requires
        has_room(old(engine)@, 1),
        call_ensures(Engine::assert_record, (engine, assertion), outcome),
    ensures
        lone_owed(
            old(engine)@,
            final(engine)@,
            assertion@.table,
            SemaOperation::Assert,
            WriteModel::Assert(assertion@.record@),
            assertion@.record@.key,
            outcome,
        ),
{
    let write = WriteModel::Assert(assertion@.record@);
    lemma_one_table_is_a_group(old(engine)@, assertion@.table, Seq::empty(), write);
    lemma_group_owed(old(engine)@, seq![(assertion@.table, write)]);
}

/// A keyed assertion owes its record under the given key.
pub proof fn lemma_assert_keyed_call(
    engine: &mut Engine,
    assertion: KeyedAssertion<EncodedRecord>,
    outcome: Result<MutationReceipt, Error>,
)
    requires
        has_room(old(engine)@, 1),
        call_ensures(Engine::assert_keyed, (engine, assertion), outcome),
    ensures
        lone_owed(
            old(engine)@,
            final(engine)@,
            assertion@.table,
            SemaOperation::Assert,
            WriteModel::Assert(
                RecordModel { key: assertion@.key, bytes: assertion@.record@.bytes },
            ),
            assertion@.key,
            outcome,
        ),
{
    let write = WriteModel::Assert(
        RecordModel { key: assertion@.key, bytes: assertion@.record@.bytes },
    );
    lemma_one_table_is_a_group(old(engine)@, assertion@.table, Seq::empty(), write);
    lemma_group_owed(old(engine)@, seq![(assertion@.table, write)]);
}

/// A mutation owes its record under its key.
pub proof fn lemma_mutate_call(
    engine: &mut Engine,
    mutation: Mutation<EncodedRecord>,
    outcome: Result<MutationReceipt, Error>,
)
    requires
        has_room(old(engine)@, 1),
        call_ensures(Engine::mutate, (engine, mutation), outcome),
    ensures
        lone_owed(
            old(engine)@,
            final(engine)@,
            mutation@.table,
            SemaOperation::Mutate,
            WriteModel::Mutate(mutation@.record@),
            mutation@.record@.key,
            outcome,
        ),
{
    let write = WriteModel::Mutate(mutation@.record@);
    lemma_one_table_is_a_group(old(engine)@, mutation@.table, Seq::empty(), write);
    lemma_group_owed(old(engine)@, seq![(mutation@.table, write)]);
}

/// A keyed mutation owes its record under the given key.
pub proof fn lemma_mutate_keyed_call(
    engine: &mut Engine,
    mutation: KeyedMutation<EncodedRecord>,
    outcome: Result<MutationReceipt, Error>,
)
    requires
        has_room(old(engine)@, 1),
        call_ensures(Engine::mutate_keyed, (engine, mutation), outcome),
    ensures
        lone_owed(
            old(engine)@,
            final(engine)@,
            mutation@.table,
            SemaOperation::Mutate,
            WriteModel::Mutate(RecordModel { key: mutation@.key, bytes: mutation@.record@.bytes }),
            mutation@.key,
            outcome,
        ),
{
    let write = WriteModel::Mutate(
        RecordModel { key: mutation@.key, bytes: mutation@.record@.bytes },
    );
    lemma_one_table_is_a_group(old(engine)@, mutation@.table, Seq::empty(), write);
    lemma_group_owed(old(engine)@, seq![(mutation@.table, write)]);
}

/// A retraction owes that nothing stands under its key.
pub proof fn lemma_retract_call<RecordValue>(
    engine: &mut Engine,
    retraction: Retraction<RecordValue>,
    outcome: Result<MutationReceipt, Error>,
)
    requires
        has_room(old(engine)@, 1),
        call_ensures(Engine::retract::<RecordValue>, (engine, retraction), outcome),
    ensures
        lone_owed(
            old(engine)@,
            final(engine)@,
            retraction@.table,
            SemaOperation::Retract,
            WriteModel::Retract(retraction@.key),
            retraction@.key,
            outcome,
        ),
{
    let write = WriteModel::Retract(retraction@.key);
    lemma_one_table_is_a_group(old(engine)@, retraction@.table, Seq::empty(), write);
    lemma_group_owed(old(engine)@, seq![(retraction@.table, write)]);
}

/// What a write to an engine-identified table does: the identifier holds the
/// record, or nothing; no other record changes; it is logged as one commit,
/// or buffered while a session is engaged; and no subscriber is told.
pub open spec fn identified_effect(
    before: EngineModel,
    after: EngineModel,
    table: Seq<char>,
    verb: SemaOperation,
    identifier: u64,
    payload: Option<Seq<u8>>,
    counters: Map<Seq<char>, u64>,
) -> bool {
    let was = standing_tables(before);
    let is = standing_tables(after);
    let due = seq![Due { table, verb, key: KeyModel::Identifier(identifier), payload }];
    &&& is.records == was.records
    &&& is.identified == match payload {
        Some(bytes) => was.identified.insert((table, identifier), bytes),
        None => was.identified.remove((table, identifier)),
    }
    &&& is.counters == counters
    &&& after.deltas == before.deltas
    &&& match before.session {
        Some(_) => leaves_buffer(before, after, due),
        None => leaves_log(before, after, due),
    }
}

/// Landing one identified write has its effect.
proof fn lemma_identified_lands(
    engine: EngineModel,
    table: Seq<char>,
    identifier: u64,
    bytes: Seq<u8>,
    removed: Seq<u8>,
)
    requires
        has_room(engine, 1),
        registered(engine.catalog, table),
    ensures
        identified_effect(
            engine,
            landed(engine, seq![identified_write(SemaOperation::Mutate, table, identifier, bytes)]),
            table,
            SemaOperation::Mutate,
            identifier,
            Some(bytes),
            standing_tables(engine).counters,
        ),
        identified_effect(
            engine,
            landed(engine, seq![identified_removal(table, identifier, removed)]),
            table,
            SemaOperation::Retract,
            identifier,
            None,
            standing_tables(engine).counters,
        ),
        identified_effect(
            engine,
            landed(engine, seq![identified_write(SemaOperation::Assert, table, identifier, bytes)]),
            table,
            SemaOperation::Assert,
            identifier,
            Some(bytes),
            standing_tables(engine).counters.insert(
                counter_key_text(table),
                (identifier + 1) as u64,
            ),
        ),
{
    let key = KeyModel::Identifier(identifier);
    let mutated = identified_write(SemaOperation::Mutate, table, identifier, bytes);
    let retracted = identified_removal(table, identifier, removed);
    let asserted = identified_write(SemaOperation::Assert, table, identifier, bytes);
    lemma_lone_write(engine, mutated);
    lemma_lone_write(engine, retracted);
    lemma_lone_write(engine, asserted);
    let payload = Some(bytes);
    lemma_landed_logs(
        engine,
        seq![Due { table, verb: SemaOperation::Mutate, key, payload }],
        seq![mutated],
    );
    lemma_landed_logs(
        engine,
        seq![Due { table, verb: SemaOperation::Retract, key, payload: None }],
        seq![retracted],
    );
    lemma_landed_logs(
        engine,
        seq![Due { table, verb: SemaOperation::Assert, key, payload }],
        seq![asserted],
    );
    reveal_with_fuel(announced, 2);
    assert(seq![mutated].drop_last() =~= Seq::empty());
    assert(seq![retracted].drop_last() =~= Seq::empty());
    assert(seq![asserted].drop_last() =~= Seq::empty());
    assert(landed(engine, seq![mutated]).deltas =~= engine.deltas);
    assert(landed(engine, seq![retracted]).deltas =~= engine.deltas);
    assert(landed(engine, seq![asserted]).deltas =~= engine.deltas);
}

/// The identifier that a table hands out next: where its counter stands, and
/// one where it has none.
pub open spec fn handed_next(tables: TablesModel, table: Seq<char>) -> u64 {
    let counter = counter_key_text(table);
    if tables.counters.dom().contains(counter) {
        tables.counters[counter]
    } else {
        1
    }
}

/// An identified assertion owes its record under the identifier that the
/// table hands out next, which the receipt names, and the next is one
/// higher. Only an unregistered table refuses it.
pub proof fn lemma_assert_identified_call(
    engine: &mut Engine,
    assertion: IdentifiedAssertion<EncodedRecord>,
    outcome: Result<IdentifiedMutationReceipt, Error>,
)
    requires
        has_room(old(engine)@, 1),
        handed_next(standing_tables(old(engine)@), assertion@.table) < u64::MAX,
        call_ensures(Engine::assert_identified, (engine, assertion), outcome),
    ensures
        outcome is Ok <==> registered(old(engine)@.catalog, assertion@.table),
        match outcome {
            Ok(receipt) => {
                let before = old(engine)@;
                let minted = handed_next(standing_tables(before), assertion@.table);
                &&& identified_effect(
                    before,
                    final(engine)@,
                    assertion@.table,
                    SemaOperation::Assert,
                    minted,
                    Some(assertion@.record@.bytes),
                    standing_tables(before).counters.insert(
                        counter_key_text(assertion@.table),
                        (minted + 1) as u64,
                    ),
                )
                &&& receipt@.operation == SemaOperation::Assert
                &&& receipt@.table == assertion@.table
                &&& receipt@.identifier == minted
                &&& receipt@.commit_sequence == standing_sequence(before) + 1
                &&& receipt@.snapshot == standing_snapshot(before) + 1
            },
            Err(error) => {
                &&& final(engine)@ == old(engine)@
                &&& error@ == (Failure::TableNotRegistered { table: assertion@.table })
            },
        },
{
    let before = old(engine)@;
    let minted = handed_next(standing_tables(before), assertion@.table);
    let bytes = assertion@.record@.bytes;
    if registered(before.catalog, assertion@.table) {
        lemma_identified_lands(before, assertion@.table, minted, bytes, bytes);
    }
}

/// Why an identified record cannot be changed, if it cannot: its table is
/// not registered, or nothing stands under its identifier.
pub open spec fn identified_missing(
    engine: EngineModel,
    table: Seq<char>,
    identifier: u64,
) -> Option<Failure> {
    if !registered(engine.catalog, table) {
        Some(Failure::TableNotRegistered { table })
    } else if !standing_tables(engine).identified.dom().contains((table, identifier)) {
        Some(Failure::RecordNotFound { table, key: decimal_text(identifier as nat) })
    } else {
        None
    }
}

/// An identified mutation owes its record under the identifier, and is
/// refused exactly where none stands there.
pub proof fn lemma_mutate_identified_call(
    engine: &mut Engine,
    mutation: IdentifiedMutation<EncodedRecord>,
    outcome: Result<IdentifiedMutationReceipt, Error>,
)
    requires
        has_room(old(engine)@, 1),
        call_ensures(Engine::mutate_identified, (engine, mutation), outcome),
    ensures
        failure_of(outcome) == identified_missing(
            old(engine)@,
            mutation@.table,
            mutation@.identifier,
        ),
        outcome is Err ==> final(engine)@ == old(engine)@,
        outcome matches Ok(receipt) ==> {
            let before = old(engine)@;
            &&& identified_effect(
                before,
                final(engine)@,
                mutation@.table,
                SemaOperation::Mutate,
                mutation@.identifier,
                Some(mutation@.record@.bytes),
                standing_tables(before).counters,
            )
            &&& receipt@.operation == SemaOperation::Mutate
            &&& receipt@.table == mutation@.table
            &&& receipt@.identifier == mutation@.identifier
            &&& receipt@.commit_sequence == standing_sequence(before) + 1
            &&& receipt@.snapshot == standing_snapshot(before) + 1
        },
{
    let before = old(engine)@;
    let bytes = mutation@.record@.bytes;
    if registered(before.catalog, mutation@.table) {
        lemma_identified_lands(before, mutation@.table, mutation@.identifier, bytes, bytes);
    }
}

/// An identified retraction owes that nothing stands under the identifier,
/// and is refused exactly where nothing did.
pub proof fn lemma_retract_identified_call<RecordValue>(
    engine: &mut Engine,
    retraction: IdentifiedRetraction<RecordValue>,
    outcome: Result<IdentifiedMutationReceipt, Error>,
)
    requires
        has_room(old(engine)@, 1),
        call_ensures(Engine::retract_identified::<RecordValue>, (engine, retraction), outcome),
    ensures
        failure_of(outcome) == identified_missing(
            old(engine)@,
            retraction@.table,
            retraction@.identifier,
        ),
        outcome is Err ==> final(engine)@ == old(engine)@,
        outcome matches Ok(receipt) ==> {
            let before = old(engine)@;
            &&& identified_effect(
                before,
                final(engine)@,
                retraction@.table,
                SemaOperation::Retract,
                retraction@.identifier,
                None,
                standing_tables(before).counters,
            )
            &&& receipt@.operation == SemaOperation::Retract
            &&& receipt@.table == retraction@.table
            &&& receipt@.identifier == retraction@.identifier
            &&& receipt@.commit_sequence == standing_sequence(before) + 1
            &&& receipt@.snapshot == standing_snapshot(before) + 1
        },
{
    let before = old(engine)@;
    if registered(before.catalog, retraction@.table) {
        lemma_identified_lands(
            before,
            retraction@.table,
            retraction@.identifier,
            Seq::empty(),
            standing_tables(before).identified[(retraction@.table, retraction@.identifier)],
        );
    }
}

} // verus!
