//! Replay: every operation is counted once, and what is replayed into a
//! table is what the log folds to.

use vstd::prelude::*;

use crate::engine::lemma_landed_stands;
use crate::engine_model::{
    checked, has_room, landed, read_at, replayed, replayed_once, standing_tables, write_outcome, EngineModel,
};
use crate::fold::{fold_operation, fold_operations, FoldModel};
use crate::laws::folds::kept_at;
use crate::laws::rebuild::held_at;
use crate::mutation::WriteModel;
use crate::operation::SemaOperation;
use crate::record::{KeyModel, RecordModel};
use crate::tables::{applied, applied_all};
use crate::versioning::{FamilyModel, OperationModel};

verus! {

/// A replay counts every operation it walked, as applied or as skipped;
/// one that is not refused walked them all.
pub proof fn lemma_replay_counts(
    engine: EngineModel,
    table: Seq<char>,
    family: FamilyModel,
    operations: Seq<OperationModel>,
    reads: Seq<Option<Seq<char>>>,
)
    ensures
        ({
            let made = replayed(engine, table, family, operations, reads);
            &&& made.applied + made.skipped <= operations.len()
            &&& made.refusal is None ==> made.applied + made.skipped == operations.len()
        }),
    decreases operations.len(),
{
    if operations.len() > 0 {
        lemma_replay_counts(engine, table, family, operations.drop_last(), reads);
    }
}

/// A replay that is refused stays where it stopped.
pub proof fn lemma_refused_replay_stops(
    engine: EngineModel,
    table: Seq<char>,
    family: FamilyModel,
    operations: Seq<OperationModel>,
    reads: Seq<Option<Seq<char>>>,
    more: Seq<OperationModel>,
)
    requires
        replayed(engine, table, family, operations, reads).refusal is Some,
    ensures
        replayed(engine, table, family, operations + more, reads) == replayed(
            engine,
            table,
            family,
            operations,
            reads,
        ),
    decreases more.len(),
{
    let all = operations + more;
    if more.len() == 0 {
        assert(all =~= operations);
    } else {
        assert(all.drop_last() =~= operations + more.drop_last());
        lemma_refused_replay_stops(engine, table, family, operations, reads, more.drop_last());
    }
}

/// A table and a view hold the same records of a family.
pub open spec fn table_matches(
    engine: EngineModel,
    table: Seq<char>,
    family: FamilyModel,
    view: FoldModel,
) -> bool {
    forall|text: Seq<char>| #[trigger]
        held_at(standing_tables(engine), table, KeyModel::Domain(text)) == kept_at(
            view,
            (family.version(), KeyModel::Domain(text)),
        )
}

/// One replayed operation keeps a table and a view in step.
proof fn lemma_replay_step(
    engine: EngineModel,
    table: Seq<char>,
    family: FamilyModel,
    view: FoldModel,
    operation: OperationModel,
    unread: Option<Seq<char>>,
)
    requires
        has_room(engine, 1),
        table_matches(engine, table, family, view),
        operation.family.version() == family.version(),
        operation.key matches Some(key) ==> key is Domain,
        replayed_once(engine, table, family, operation, unread) is Ok,
        fold_operation(view, operation) is Ok,
    ensures
        table_matches(
            replayed_once(engine, table, family, operation, unread)->Ok_0,
            table,
            family,
            fold_operation(view, operation)->Ok_0,
        ),
{
    let key = operation.key->0;
    let write = match (operation.operation, operation.payload) {
        (SemaOperation::Assert, Some(bytes)) => WriteModel::Assert(RecordModel { key, bytes }),
        (SemaOperation::Mutate, Some(bytes)) => WriteModel::Mutate(RecordModel { key, bytes }),
        _ => WriteModel::Retract(key),
    };
    assert(replayed_once(engine, table, family, operation, unread) == write_outcome(engine, table, write));
    let fact = checked(standing_tables(engine), table, write)->Ok_0;
    let after = landed(engine, seq![fact]);
    lemma_landed_stands(engine, seq![fact]);
    reveal_with_fuel(applied_all, 2);
    assert(seq![fact].drop_last() =~= Seq::empty());
    assert(standing_tables(after) == applied(standing_tables(engine), fact));
    let next = fold_operation(view, operation)->Ok_0;
    assert forall|text: Seq<char>| #[trigger]
        held_at(standing_tables(after), table, KeyModel::Domain(text)) == kept_at(
            next,
            (family.version(), KeyModel::Domain(text)),
        ) by {
        assert(held_at(standing_tables(engine), table, KeyModel::Domain(text)) == kept_at(
            view,
            (family.version(), KeyModel::Domain(text)),
        ));
    }
}

/// What is replayed into a table is what the log folds to: if neither the
/// replay nor the fold is refused, the table holds exactly the family's
/// records of the fold.
pub proof fn lemma_replay_is_fold(
    engine: EngineModel,
    table: Seq<char>,
    family: FamilyModel,
    view: FoldModel,
    operations: Seq<OperationModel>,
    reads: Seq<Option<Seq<char>>>,
)
    requires
        has_room(engine, operations.len() as int),
        table_matches(engine, table, family, view),
        forall|i: int|
            0 <= i < operations.len() ==> ((#[trigger] operations[i]).key matches Some(key)
                ==> key is Domain),
        replayed(engine, table, family, operations, reads).refusal is None,
        fold_operations(view, operations) is Ok,
    ensures
        table_matches(
            replayed(engine, table, family, operations, reads).engine,
            table,
            family,
            fold_operations(view, operations)->Ok_0,
        ),
        has_room(
            replayed(engine, table, family, operations, reads).engine,
            operations.len() - replayed(engine, table, family, operations, reads).applied,
        ),
    decreases operations.len(),
{
    if operations.len() > 0 {
        let less = operations.drop_last();
        let operation = operations.last();
        assert forall|i: int| 0 <= i < less.len() implies ((#[trigger] less[i]).key matches Some(key)
            ==> key is Domain) by {
            assert(less[i] == operations[i]);
        }
        assert(operations[operations.len() - 1].key matches Some(key) ==> key is Domain);
        lemma_replay_room(engine, table, family, less, reads, operations.len() as int);
        lemma_replay_is_fold(engine, table, family, view, less, reads);
        lemma_replay_counts(engine, table, family, less, reads);
        let before = replayed(engine, table, family, less, reads).engine;
        let between = fold_operations(view, less)->Ok_0;
        let after = fold_operations(view, operations)->Ok_0;
        lemma_replay_room(
            engine,
            table,
            family,
            operations,
            reads,
            operations.len() as int,
        );
        if operation.family.version() != family.version() {
            assert forall|text: Seq<char>| #[trigger]
                held_at(standing_tables(before), table, KeyModel::Domain(text)) == kept_at(
                    after,
                    (family.version(), KeyModel::Domain(text)),
                ) by {
                assert(kept_at(after, (family.version(), KeyModel::Domain(text))) == kept_at(
                    between,
                    (family.version(), KeyModel::Domain(text)),
                ));
            }
        } else {
            lemma_replay_step(
                before,
                table,
                family,
                between,
                operation,
                read_at(reads, operations.len() - 1),
            );
        }
    }
}

/// A replay uses one commit for every operation it applied.
proof fn lemma_replay_room(
    engine: EngineModel,
    table: Seq<char>,
    family: FamilyModel,
    operations: Seq<OperationModel>,
    reads: Seq<Option<Seq<char>>>,
    room: int,
)
    requires
        has_room(engine, room),
        operations.len() <= room,
    ensures
        has_room(
            replayed(engine, table, family, operations, reads).engine,
            room - replayed(engine, table, family, operations, reads).applied,
        ),
        replayed(engine, table, family, operations, reads).applied <= operations.len(),
    decreases operations.len(),
{
    if operations.len() > 0 {
        lemma_replay_room(engine, table, family, operations.drop_last(), reads, room);
    }
}

} // verus!
