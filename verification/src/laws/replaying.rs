//! Replay, call by call: replaying a log into a table is writing the
//! family's operations one by one, and it stops at the first that is
//! refused.

use vstd::prelude::*;

use crate::catalog::{family_at, registered};
use crate::engine::{message_views, reads_back, replays, Engine};
use crate::engine_model::{
    all_operations, atomic_outcome, read_at, replay_outcome, replayed, EngineModel, ReplayModel,
};
use crate::error::{Error, Failure};
use crate::laws::covering::foldable;
use crate::laws::declaring::{first_at_table, lemma_first_at_table};
use crate::laws::landing::{lemma_operations_in_order, operations_in_order};
use crate::laws::requests::{lemma_one_table_is_a_group, Request};
use crate::laws::subscribers::{after_groups, all_accepted};
use crate::mutation::WriteModel;
use crate::operation::record_head;
use crate::record::{EngineStoredValue, RecordModel};
use crate::versioning::{FamilyModel, OperationModel, ReplayReceipt, VersionedReplay};

verus! {

/// The operations of a family, in order.
pub open spec fn operations_of(family: FamilyModel, operations: Seq<OperationModel>) -> Seq<
    OperationModel,
> {
    operations.filter(|operation: OperationModel| operation.family.version() == family.version())
}

/// A logged operation as a write to a table.
pub open spec fn as_request(table: Seq<char>, operation: OperationModel) -> Request {
    let key = operation.key->0;
    if operation.operation is Retract {
        (table, WriteModel::Retract(key))
    } else if operation.operation is Mutate {
        (table, WriteModel::Mutate(RecordModel { key, bytes: operation.payload->0 }))
    } else {
        (table, WriteModel::Assert(RecordModel { key, bytes: operation.payload->0 }))
    }
}

/// Logged operations as writes, each by itself.
pub open spec fn as_groups(table: Seq<char>, operations: Seq<OperationModel>) -> Seq<
    Seq<Request>,
> {
    operations.map_values(|operation: OperationModel| seq![as_request(table, operation)])
}

/// An operation can be replayed: it can be applied, and the record it
/// writes, if any, read back.
pub open spec fn replayable(operation: OperationModel, unread: Option<Seq<char>>) -> bool {
    foldable(operation) && (operation.operation is Retract || unread is None)
}

/// Why an operation stops a replay: it names no key; it is no write; it
/// writes no record, or one that does not read back; or the write is
/// refused.
pub open spec fn stops_with(
    engine: EngineModel,
    table: Seq<char>,
    family: FamilyModel,
    operation: OperationModel,
    unread: Option<Seq<char>>,
    failure: Failure,
) -> bool {
    let writes = operation.operation is Assert || operation.operation is Mutate;
    if operation.key is None {
        failure == (Failure::ReplayMissingKey { family: family.family })
    } else if !writes && !(operation.operation is Retract) {
        failure == (Failure::ReplayUnsupportedOperation {
            operation: record_head(operation.operation),
        })
    } else if writes && operation.payload is None {
        failure == (Failure::ReplayTombstonePayload { table })
    } else if writes && unread is Some {
        failure == (Failure::VersionedPayloadDecode { table, message: unread->0 })
    } else {
        atomic_outcome(engine, seq![as_request(table, operation)]) == Err::<EngineModel, Failure>(
            failure,
        )
    }
}

/// A replay that ran through: every operation of the family was written, by
/// itself and in order, and every other was skipped.
pub open spec fn ran_through(
    engine: EngineModel,
    table: Seq<char>,
    family: FamilyModel,
    operations: Seq<OperationModel>,
    reads: Seq<Option<Seq<char>>>,
    after: EngineModel,
) -> bool {
    let groups = as_groups(table, operations_of(family, operations));
    &&& forall|i: int|
        0 <= i < operations.len() && (#[trigger] operations[i]).family.version()
            == family.version() ==> replayable(operations[i], read_at(reads, i))
    &&& all_accepted(engine, groups)
    &&& after == after_groups(engine, groups)
}

/// A replay that stopped at an operation: all before it ran through, and
/// what they wrote stands.
pub open spec fn stopped_at(
    engine: EngineModel,
    table: Seq<char>,
    family: FamilyModel,
    operations: Seq<OperationModel>,
    reads: Seq<Option<Seq<char>>>,
    after: EngineModel,
    at: int,
    failure: Failure,
) -> bool {
    &&& 0 <= at < operations.len()
    &&& ran_through(engine, table, family, operations.take(at), reads, after)
    &&& operations[at].family.version() == family.version()
    &&& stops_with(after, table, family, operations[at], read_at(reads, at), failure)
}

/// A replay runs through, with every operation counted as applied or
/// skipped, or stops at the first of the family's operations that is
/// refused.
#[verifier::rlimit(40)]
pub proof fn lemma_replay_runs(
    engine: EngineModel,
    table: Seq<char>,
    family: FamilyModel,
    operations: Seq<OperationModel>,
    reads: Seq<Option<Seq<char>>>,
)
    ensures
        ({
            let made = replayed(engine, table, family, operations, reads);
            match made.refusal {
                None => {
                    let own = operations_of(family, operations);
                    &&& ran_through(engine, table, family, operations, reads, made.engine)
                    &&& made.applied == own.len()
                    &&& made.skipped == operations.len() - own.len()
                },
                Some(failure) => exists|at: int| #[trigger]
                    stopped_at(
                        engine,
                        table,
                        family,
                        operations,
                        reads,
                        made.engine,
                        at,
                        failure,
                    ),
            }
        }),
    decreases operations.len(),
{
    let of_family = |operation: OperationModel| operation.family.version() == family.version();
    reveal(Seq::filter);
    let made = replayed(engine, table, family, operations, reads);
    if operations.len() == 0 {
        assert(operations_of(family, operations) =~= Seq::empty());
        assert(as_groups(table, Seq::empty()) =~= Seq::<Seq<Request>>::empty());
    } else {
        let less = operations.drop_last();
        let end = operations.len() - 1;
        let operation = operations[end];
        lemma_replay_runs(engine, table, family, less, reads);
        let before = replayed(engine, table, family, less, reads);
        match before.refusal {
            Some(failure) => {
                let at = choose|at: int| #[trigger]
                    stopped_at(
                        engine,
                        table,
                        family,
                        less,
                        reads,
                        before.engine,
                        at,
                        failure,
                    );
                assert(less.take(at) =~= operations.take(at));
                assert(stopped_at(
                    engine,
                    table,
                    family,
                    operations,
                    reads,
                    made.engine,
                    at,
                    failure,
                ));
            },
            None => {
                let own = operations_of(family, less);
                let all = operations_of(family, operations);
                assert(all == if of_family(operation) {
                    own.push(operation)
                } else {
                    own
                });
                assert(operations.take(end) =~= less);
                if of_family(operation) {
                    let request = as_request(table, operation);
                    lemma_one_table_is_a_group(before.engine, table, Seq::empty(), request.1);
                    let groups = as_groups(table, all);
                    assert(groups.drop_last() =~= as_groups(table, own));
                    assert(groups.last() == seq![request]);
                    if let Some(failure) = made.refusal {
                        assert(stops_with(
                            before.engine,
                            table,
                            family,
                            operation,
                            read_at(reads, end),
                            failure,
                        ));
                        assert(stopped_at(
                            engine,
                            table,
                            family,
                            operations,
                            reads,
                            made.engine,
                            end,
                            failure,
                        ));
                    } else {
                        assert(replayable(operation, read_at(reads, end)));
                    }
                }
                if made.refusal is None {
                    assert forall|i: int|
                        0 <= i < operations.len() && (
                        #[trigger] operations[i]).family.version() == family.version() implies
                        replayable(operations[i], read_at(reads, i)) by {
                        if i < end {
                            assert(less[i] == operations[i]);
                        }
                    }
                }
            },
        }
    }
}

/// What replaying entries into a table comes to: refused where the table is
/// not registered, and else a replay of every operation of the entries for
/// the family that is bound there.
pub open spec fn replays_as(
    before: EngineModel,
    after: EngineModel,
    table: Seq<char>,
    operations: Seq<OperationModel>,
    reads: Seq<Option<Seq<char>>>,
    outcome: Result<ReplayReceipt, Error>,
) -> bool {
    if !registered(before.catalog, table) {
        &&& outcome matches Err(error) && error@ == (Failure::TableNotRegistered { table })
        &&& after == before
    } else {
        exists|home: int|
            {
                let family = before.catalog[home];
                &&& #[trigger] first_at_table(before.catalog, table, home)
                &&& match outcome {
                    Ok(receipt) => {
                        let own = operations_of(family, operations);
                        &&& ran_through(before, table, family, operations, reads, after)
                        &&& receipt@.0 == own.len()
                        &&& receipt@.1 == operations.len() - own.len()
                    },
                    Err(error) => exists|at: int| #[trigger]
                        stopped_at(
                            before,
                            table,
                            family,
                            operations,
                            reads,
                            after,
                            at,
                            error@,
                        ),
                }
            }
    }
}

/// A replay's outcome, whatever reading the records came to.
proof fn lemma_replays_as(
    before: EngineModel,
    table: Seq<char>,
    made: ReplayModel,
    operations: Seq<OperationModel>,
    reads: Seq<Option<Seq<char>>>,
    outcome: Result<ReplayReceipt, Error>,
)
    requires
        made == match family_at(before.catalog, table) {
            Some(family) => replayed(before, table, family, operations, reads),
            None => ReplayModel {
                engine: before,
                applied: 0,
                skipped: 0,
                refusal: Some(Failure::TableNotRegistered { table }),
            },
        },
        match outcome {
            Ok(receipt) => {
                &&& made.refusal is None
                &&& receipt@.0 == made.applied
                &&& receipt@.1 == made.skipped
            },
            Err(error) => made.refusal == Some(error@),
        },
    ensures
        replays_as(before, made.engine, table, operations, reads, outcome),
{
    lemma_first_at_table(before.catalog, table);
    if let Some(family) = family_at(before.catalog, table) {
        let home = choose|home: int| #[trigger]
            first_at_table(before.catalog, table, home) && before.catalog[home] == family;
        assert(registered(before.catalog, table)) by {
            assert(before.catalog[home].table == table);
        }
        lemma_replay_runs(before, table, family, operations, reads);
        assert(first_at_table(before.catalog, table, home));
    }
}

/// A replay with given readings is a replay of all the entries' operations.
pub proof fn lemma_replay_read_call<RecordValue>(
    engine: &mut Engine,
    replay: VersionedReplay<RecordValue>,
    reads: Vec<Result<(), String>>,
    outcome: Result<ReplayReceipt, Error>,
)
    requires
        call_ensures(
            Engine::replay_versioned_read::<RecordValue>,
            (engine, replay, reads),
            outcome,
        ),
    ensures
        exists|found: Seq<Option<Seq<char>>>|
            {
                &&& #[trigger] replays_as(
                    old(engine)@,
                    final(engine)@,
                    replay@.0,
                    operations_in_order(replay@.1),
                    found,
                    outcome,
                )
                &&& found.len() == reads@.len()
                &&& forall|i: int|
                    0 <= i < found.len() ==> #[trigger] found[i] == match reads@[i] {
                        Ok(_) => None,
                        Err(message) => Some(message@),
                    }
            },
{
    let found = message_views(reads@);
    lemma_operations_in_order(replay@.1);
    lemma_replays_as(
        old(engine)@,
        replay@.0,
        replay_outcome(old(engine)@, replay@.0, replay@.1, found),
        operations_in_order(replay@.1),
        found,
        outcome,
    );
    assert(replays_as(
        old(engine)@,
        final(engine)@,
        replay@.0,
        operations_in_order(replay@.1),
        found,
        outcome,
    ));
}

/// A replay is a replay of all the entries' operations, with each record
/// read back as the table's own type.
pub proof fn lemma_replay_call<RecordValue: EngineStoredValue>(
    engine: &mut Engine,
    replay: VersionedReplay<RecordValue>,
    outcome: Result<ReplayReceipt, Error>,
)
    requires
        call_ensures(Engine::replay_versioned::<RecordValue>, (engine, replay), outcome),
    ensures
        exists|found: Seq<Option<Seq<char>>>|
            {
                &&& #[trigger] replays_as(
                    old(engine)@,
                    final(engine)@,
                    replay@.0,
                    operations_in_order(replay@.1),
                    found,
                    outcome,
                )
                &&& family_at(old(engine)@.catalog, replay@.0) matches Some(family)
                    ==> reads_back::<RecordValue>(family, operations_in_order(replay@.1), found)
            },
{
    let found = choose|found: Seq<Option<Seq<char>>>|
        {
            &&& #[trigger] replays(
                old(engine)@,
                final(engine)@,
                replay@.0,
                replay@.1,
                found,
                outcome,
            )
            &&& family_at(old(engine)@.catalog, replay@.0) matches Some(family)
                ==> reads_back::<RecordValue>(
                family,
                all_operations(replay@.1),
                found,
            )
        };
    lemma_operations_in_order(replay@.1);
    lemma_replays_as(
        old(engine)@,
        replay@.0,
        replay_outcome(old(engine)@, replay@.0, replay@.1, found),
        operations_in_order(replay@.1),
        found,
        outcome,
    );
    assert(replays_as(
        old(engine)@,
        final(engine)@,
        replay@.0,
        operations_in_order(replay@.1),
        found,
        outcome,
    ));
}

} // verus!
