//! Registrations, call by call: which declarations are accepted, what is
//! refused, and what an evolution of a family carries forward.

use vstd::prelude::*;

use crate::catalog::{family_at, family_of, registered};
use crate::engine::{carried_all, Engine};
use crate::engine_model::{
    evolution_operations, evolved, evolves_from, operation_rows, rows_to_carry, standing_sequence,
    standing_snapshot, EngineModel,
};
use crate::error::{Error, Failure};
use crate::fold::{lemma_all_land, RowModel};
use crate::laws::landing::{lemma_rows_land, row_for, taken_at};
use crate::laws::rebuild::held_at;
use crate::laws::requests::row_at;
use crate::listing::{text_listed, text_rising};
use crate::log::{operations_metadata, LogEntryModel, LogOperationModel};
use crate::models::views;
use crate::operation::SemaOperation;
use crate::order::{lemma_text_irreflexive, text_precedes};
use crate::ordered_table::{has_key, keyed_at, map_of};
use crate::record::KeyModel;
use crate::store::StoreModel;
use crate::table::{
    counter_key_text, DescriptorModel, IdentifiedTableDescriptor, IdentifiedTableReference,
    PriorGenerations, TableDescriptor, TableReference,
};
use crate::tables::{domain_rows, rows_placed, TablesModel};
use crate::versioning::{family_text, sealed, store_schema, versions, FamilyModel, OperationModel};

verus! {

/// The first family that a catalog has at a table.
pub open spec fn first_at_table(catalog: Seq<FamilyModel>, table: Seq<char>, at: int) -> bool {
    &&& 0 <= at < catalog.len()
    &&& catalog[at].table == table
    &&& forall|i: int| 0 <= i < at ==> (#[trigger] catalog[i]).table != table
}

/// The first family that a catalog has under a name and a schema.
pub open spec fn first_of_version(
    catalog: Seq<FamilyModel>,
    version: (Seq<char>, Seq<u8>),
    at: int,
) -> bool {
    &&& 0 <= at < catalog.len()
    &&& catalog[at].version() == version
    &&& forall|i: int| 0 <= i < at ==> (#[trigger] catalog[i]).version() != version
}

/// No family of a catalog has this name and schema.
pub open spec fn version_free(catalog: Seq<FamilyModel>, version: (Seq<char>, Seq<u8>)) -> bool {
    forall|i: int| 0 <= i < catalog.len() ==> (#[trigger] catalog[i]).version() != version
}

/// Looking a table up gives the first family at it, or none.
pub proof fn lemma_first_at_table(catalog: Seq<FamilyModel>, table: Seq<char>)
    ensures
        match family_at(catalog, table) {
            Some(family) => exists|at: int| #[trigger]
                first_at_table(catalog, table, at) && catalog[at] == family,
            None => !registered(catalog, table),
        },
    decreases catalog.len(),
{
    if catalog.len() > 0 {
        let rest = catalog.drop_first();
        if catalog[0].table == table {
            assert(first_at_table(catalog, table, 0));
        } else {
            lemma_first_at_table(rest, table);
            match family_at(rest, table) {
                Some(family) => {
                    let at = choose|at: int| #[trigger]
                        first_at_table(rest, table, at) && rest[at] == family;
                    assert forall|i: int| 0 <= i < at + 1 implies (
                    #[trigger] catalog[i]).table != table by {
                        if i > 0 {
                            assert(rest[i - 1] == catalog[i]);
                        }
                    }
                    assert(first_at_table(catalog, table, at + 1));
                },
                None => {
                    assert forall|i: int| 0 <= i < catalog.len() implies (
                    #[trigger] catalog[i]).table != table by {
                        if i > 0 {
                            assert(rest[i - 1].table != table);
                        }
                    }
                },
            }
        }
    }
}

/// Looking a version up gives the first family of it, or none.
pub proof fn lemma_first_of_version(catalog: Seq<FamilyModel>, version: (Seq<char>, Seq<u8>))
    ensures
        match family_of(catalog, version) {
            Some(family) => exists|at: int| #[trigger]
                first_of_version(catalog, version, at) && catalog[at] == family,
            None => version_free(catalog, version),
        },
    decreases catalog.len(),
{
    if catalog.len() > 0 {
        let rest = catalog.drop_first();
        if catalog[0].version() == version {
            assert(first_of_version(catalog, version, 0));
        } else {
            lemma_first_of_version(rest, version);
            match family_of(rest, version) {
                Some(family) => {
                    let at = choose|at: int| #[trigger]
                        first_of_version(rest, version, at) && rest[at] == family;
                    assert forall|i: int| 0 <= i < at + 1 implies (
                    #[trigger] catalog[i]).version() != version by {
                        if i > 0 {
                            assert(rest[i - 1] == catalog[i]);
                        }
                    }
                    assert(first_of_version(catalog, version, at + 1));
                },
                None => {
                    assert forall|i: int| 0 <= i < catalog.len() implies (
                    #[trigger] catalog[i]).version() != version by {
                        if i > 0 {
                            assert(rest[i - 1].version() != version);
                        }
                    }
                },
            }
        }
    }
}

/// A declaration is known: its table is bound to exactly this identity.
pub open spec fn known(catalog: Seq<FamilyModel>, declared: FamilyModel) -> bool {
    exists|at: int| #[trigger]
        first_at_table(catalog, declared.table, at) && catalog[at] == declared
}

/// A declaration is new: neither its table nor its version is bound.
pub open spec fn unbound(catalog: Seq<FamilyModel>, declared: FamilyModel) -> bool {
    !registered(catalog, declared.table) && version_free(catalog, declared.version())
}

/// Why a declaration is refused: its table is bound to another identity, or
/// its version to another table.
pub open spec fn declaration_refused(
    catalog: Seq<FamilyModel>,
    declared: FamilyModel,
    failure: Failure,
) -> bool {
    if registered(catalog, declared.table) {
        exists|at: int| #[trigger]
            first_at_table(catalog, declared.table, at) && catalog[at] != declared && failure == (
            Failure::FamilyIdentityMismatch {
                table: declared.table,
                stored: family_text(catalog[at]),
                declared: family_text(declared),
            })
    } else {
        exists|at: int| #[trigger]
            first_of_version(catalog, declared.version(), at) && failure == (
            Failure::FamilyAlreadyBound {
                family: declared.family,
                existing: catalog[at].table,
                table: declared.table,
            })
    }
}

/// A family joined the catalog last, and the stored catalog under its table;
/// nothing else changed but, where there is one, the counter.
pub open spec fn family_joins(
    before: EngineModel,
    after: EngineModel,
    declared: FamilyModel,
    counter: bool,
) -> bool {
    let tables = before.store.tables;
    &&& after.catalog == before.catalog.push(declared)
    &&& after.store == (StoreModel {
        catalog: before.store.catalog.insert(declared.table, declared),
        tables: if counter {
            TablesModel {
                counters: tables.counters.insert(counter_key_text(declared.table), 1),
                ..tables
            }
        } else {
            tables
        },
        ..before.store
    })
    &&& after.subscriptions == before.subscriptions
    &&& after.policy == before.policy
    &&& after.topology == before.topology
    &&& after.deltas == before.deltas
    &&& after.session == before.session
}

/// What a registration comes to: accepted where the declaration is known,
/// with no change, or new; else refused with no change.
pub open spec fn declares(
    before: EngineModel,
    after: EngineModel,
    declared: FamilyModel,
    counter: bool,
    outcome: Result<Seq<char>, Failure>,
) -> bool {
    match outcome {
        Ok(table) => {
            &&& table == declared.table
            &&& if known(before.catalog, declared) {
                after == before
            } else {
                &&& unbound(before.catalog, declared)
                &&& family_joins(before, after, declared, counter)
            }
        },
        Err(failure) => {
            &&& !known(before.catalog, declared)
            &&& !unbound(before.catalog, declared)
            &&& declaration_refused(before.catalog, declared, failure)
            &&& after == before
        },
    }
}

/// Registering an engine-identified table: a new one starts its counter.
pub proof fn lemma_register_identified_call<RecordValue>(
    engine: &mut Engine,
    descriptor: IdentifiedTableDescriptor<RecordValue>,
    outcome: Result<IdentifiedTableReference<RecordValue>, Error>,
)
    requires
        call_ensures(
            Engine::register_identified_table::<RecordValue>,
            (engine, descriptor),
            outcome,
        ),
    ensures
        declares(
            old(engine)@,
            final(engine)@,
            descriptor@,
            true,
            match outcome {
                Ok(reference) => Ok(reference@),
                Err(error) => Err(error@),
            },
        ),
{
    lemma_lookups(old(engine)@.catalog, descriptor@);
}

/// What the lookups of a declaration say.
proof fn lemma_lookups(catalog: Seq<FamilyModel>, declared: FamilyModel)
    ensures
        registered(catalog, declared.table) <==> family_at(catalog, declared.table) is Some,
        known(catalog, declared) <==> family_at(catalog, declared.table) == Some(declared),
        version_free(catalog, declared.version()) <==> family_of(
            catalog,
            declared.version(),
        ) is None,
        family_at(catalog, declared.table) matches Some(stored) ==> exists|at: int| #[trigger]
            first_at_table(catalog, declared.table, at) && catalog[at] == stored,
        family_of(catalog, declared.version()) matches Some(stored) ==> exists|at: int| #[trigger]
            first_of_version(catalog, declared.version(), at) && catalog[at] == stored,
{
    lemma_first_at_table(catalog, declared.table);
    lemma_first_of_version(catalog, declared.version());
    if let Some(stored) = family_at(catalog, declared.table) {
        let at = choose|at: int| #[trigger]
            first_at_table(catalog, declared.table, at) && catalog[at] == stored;
        assert(catalog[at].table == declared.table);
        assert forall|other: int| #[trigger]
            first_at_table(catalog, declared.table, other) implies other == at by {
            assert(catalog[other].table == declared.table);
        }
    } else {
        assert forall|other: int| !#[trigger] first_at_table(
            catalog,
            declared.table,
            other,
        ) by {}
    }
    if let Some(stored) = family_of(catalog, declared.version()) {
        let at = choose|at: int| #[trigger]
            first_of_version(catalog, declared.version(), at) && catalog[at] == stored;
        assert(catalog[at].version() == declared.version());
    }
}

/// A stored family that a declaration evolves from: the one bound at its
/// table, of the same name and another identity, whose schema is a declared
/// prior.
pub open spec fn evolves(
    catalog: Seq<FamilyModel>,
    declared: FamilyModel,
    priors: Seq<Seq<u8>>,
    stored: FamilyModel,
) -> bool {
    &&& exists|at: int| #[trigger]
        first_at_table(catalog, declared.table, at) && catalog[at] == stored
    &&& stored != declared
    &&& stored.family == declared.family
    &&& exists|p: int| 0 <= p < priors.len() && #[trigger] priors[p] == stored.schema_hash
}

/// The rows of a domain-keyed table, each once, by rising key.
pub open spec fn rows_listed(
    tables: TablesModel,
    table: Seq<char>,
    rows: Seq<(Seq<char>, Seq<u8>)>,
) -> bool {
    &&& text_rising(rows)
    &&& forall|i: int|
        0 <= i < rows.len() ==> row_at(tables, table, (#[trigger] rows[i]).0) == Some(rows[i].1)
    &&& forall|key: Seq<char>| #[trigger]
        row_at(tables, table, key) is Some ==> exists|i: int|
            0 <= i < rows.len() && (#[trigger] rows[i]).0 == key
}

/// The operations of an evolution: of each row, its removal from the stored
/// generation, and right after it its assertion in the declared one.
pub open spec fn carries_over(
    operations: Seq<OperationModel>,
    stored: FamilyModel,
    declared: FamilyModel,
    rows: Seq<(Seq<char>, Seq<u8>)>,
    carried: Seq<Seq<u8>>,
) -> bool {
    &&& operations.len() == 2 * rows.len()
    &&& forall|i: int|
        0 <= i < rows.len() ==> #[trigger] pair_carried(
            operations,
            stored,
            declared,
            rows[i].0,
            carried[i],
            i,
        )
}

/// A row's removal from the stored generation and its assertion in the
/// declared one, at their places.
pub open spec fn pair_carried(
    operations: Seq<OperationModel>,
    stored: FamilyModel,
    declared: FamilyModel,
    key: Seq<char>,
    made: Seq<u8>,
    i: int,
) -> bool {
    &&& operations[2 * i] == (OperationModel {
        operation: SemaOperation::Retract,
        family: stored,
        key: Some(KeyModel::Domain(key)),
        payload: None,
    })
    &&& operations[2 * i + 1] == (OperationModel {
        operation: SemaOperation::Assert,
        family: declared,
        key: Some(KeyModel::Domain(key)),
        payload: Some(made),
    })
}

proof fn lemma_carries_over(
    stored: FamilyModel,
    declared: FamilyModel,
    rows: Seq<(Seq<char>, Seq<u8>)>,
    carried: Seq<Seq<u8>>,
)
    requires
        carried.len() == rows.len(),
    ensures
        carries_over(
            evolution_operations(stored, declared, rows, carried),
            stored,
            declared,
            rows,
            carried,
        ),
    decreases rows.len(),
{
    if rows.len() > 0 {
        let less = rows.drop_last();
        let fewer = carried.drop_last();
        lemma_carries_over(stored, declared, less, fewer);
        let operations = evolution_operations(stored, declared, rows, carried);
        let before = evolution_operations(stored, declared, less, fewer);
        assert forall|i: int| 0 <= i < rows.len() implies #[trigger] pair_carried(
            operations,
            stored,
            declared,
            rows[i].0,
            carried[i],
            i,
        ) by {
            if i < less.len() {
                assert(pair_carried(before, stored, declared, less[i].0, fewer[i], i));
                assert(operations[2 * i] == before[2 * i]);
                assert(operations[2 * i + 1] == before[2 * i + 1]);
            }
        }
    }
}

/// Operations that all name a key leave a row each.
proof fn lemma_row_each(operations: Seq<OperationModel>)
    requires
        forall|i: int| 0 <= i < operations.len() ==> (#[trigger] operations[i]).key is Some,
    ensures
        operation_rows(operations).len() == operations.len(),
        forall|i: int|
            0 <= i < operations.len() ==> #[trigger] operation_rows(operations)[i] == (RowModel {
                family: operations[i].family,
                key: operations[i].key->0,
                payload: operations[i].payload,
            }),
    decreases operations.len(),
{
    if operations.len() > 0 {
        let less = operations.drop_last();
        assert forall|i: int| 0 <= i < less.len() implies (#[trigger] less[i]).key is Some by {
            assert(less[i] == operations[i]);
        }
        lemma_row_each(less);
        assert(operations[operations.len() - 1].key is Some);
    }
}

/// What an evolution leaves in the tables: under every key of its table that
/// held a row, what the row was carried to; every other row, every
/// engine-identified record and every counter as it stood.
pub open spec fn carried_rows_stand(
    before: TablesModel,
    after: TablesModel,
    table: Seq<char>,
    rows: Seq<(Seq<char>, Seq<u8>)>,
    carried: Seq<Seq<u8>>,
) -> bool {
    &&& after.counters == before.counters
    &&& forall|i: int|
        0 <= i < rows.len() ==> row_at(after, table, (#[trigger] rows[i]).0) == Some(carried[i])
    &&& forall|key: Seq<char>|
        row_at(before, table, key) is None ==> #[trigger] row_at(after, table, key) is None
    &&& forall|other: Seq<char>, key: Seq<char>|
        other != table ==> #[trigger] row_at(after, other, key) == row_at(before, other, key)
    &&& forall|other: Seq<char>, identifier: u64| #[trigger]
        held_at(after, other, KeyModel::Identifier(identifier)) == held_at(
            before,
            other,
            KeyModel::Identifier(identifier),
        )
}

#[verifier::rlimit(40)]
proof fn lemma_carried_rows_stand(
    before: TablesModel,
    stored: FamilyModel,
    declared: FamilyModel,
    rows: Seq<(Seq<char>, Seq<u8>)>,
    carried: Seq<Seq<u8>>,
)
    requires
        stored.table == declared.table,
        carried.len() == rows.len(),
        rows_listed(before, declared.table, rows),
    ensures
        carried_rows_stand(
            before,
            rows_placed(
                before,
                operation_rows(evolution_operations(stored, declared, rows, carried)),
            ),
            declared.table,
            rows,
            carried,
        ),
{
    let table = declared.table;
    let operations = evolution_operations(stored, declared, rows, carried);
    lemma_carries_over(stored, declared, rows, carried);
    assert forall|j: int| 0 <= j < operations.len() implies {
        &&& (#[trigger] operations[j]).key == Some(KeyModel::Domain(rows[j / 2].0))
        &&& operations[j].family.table == table
    } by {
        let i = j / 2;
        assert(pair_carried(operations, stored, declared, rows[i].0, carried[i], i));
        assert(j == 2 * i || j == 2 * i + 1);
    }
    lemma_row_each(operations);
    let placed = operation_rows(operations);
    let taken = Seq::new(placed.len(), |i: int| true);
    lemma_all_land(placed, taken);
    lemma_rows_land(before, placed, taken);
    let after = rows_placed(before, placed);
    assert forall|i: int| 0 <= i < rows.len() implies row_at(
        after,
        table,
        (#[trigger] rows[i]).0,
    ) == Some(carried[i]) by {
        let at = 2 * i + 1;
        assert(pair_carried(operations, stored, declared, rows[i].0, carried[i], i));
        assert(operations[at].payload == Some(carried[i]));
        assert forall|j: int| at < j < placed.len() && taken_at(taken, j) implies !row_for(
            #[trigger] placed[j],
            placed[at].family.table,
            placed[at].key,
        ) by {
            assert(operations[j].key == Some(KeyModel::Domain(rows[j / 2].0)));
            assert(i < j / 2);
            lemma_text_irreflexive(rows[i].0);
            assert(text_precedes(rows[i].0, rows[j / 2].0));
        }
        assert(taken_at(taken, at));
        assert(held_at(after, placed[at].family.table, placed[at].key) == placed[at].payload);
        assert(held_at(after, table, KeyModel::Domain(rows[i].0)) == Some(carried[i]));
    }
    assert forall|other: Seq<char>, key: Seq<char>|
        other != table implies #[trigger] row_at(after, other, key) == row_at(
        before,
        other,
        key,
    ) by {
        assert(held_at(after, other, KeyModel::Domain(key)) == held_at(
            before,
            other,
            KeyModel::Domain(key),
        ));
    }
    assert forall|key: Seq<char>|
        row_at(before, table, key) is None implies #[trigger] row_at(
        after,
        table,
        key,
    ) is None by {
        assert forall|j: int| 0 <= j < placed.len() && taken_at(taken, j) implies !row_for(
            #[trigger] placed[j],
            table,
            KeyModel::Domain(key),
        ) by {
            assert(operations[j].key == Some(KeyModel::Domain(rows[j / 2].0)));
            assert(row_at(before, table, rows[j / 2].0) is Some);
        }
        assert(held_at(after, table, KeyModel::Domain(key)) == held_at(
            before,
            table,
            KeyModel::Domain(key),
        ));
    }
}

/// What an evolution does: the table is bound to the declared identity, in
/// its place in the catalog; where it has rows they are carried forward as
/// one commit, logged row by row, and nothing is announced; a table without
/// rows logs nothing.
pub open spec fn carries_forward(
    before: EngineModel,
    after: EngineModel,
    stored: FamilyModel,
    declared: FamilyModel,
    rows: Seq<(Seq<char>, Seq<u8>)>,
    carried: Seq<Seq<u8>>,
) -> bool {
    &&& after.catalog.len() == before.catalog.len()
    &&& forall|i: int|
        0 <= i < before.catalog.len() ==> #[trigger] after.catalog[i] == if before.catalog[i].table
            == declared.table {
            declared
        } else {
            before.catalog[i]
        }
    &&& after.store.catalog == before.store.catalog.insert(declared.table, declared)
    &&& after.deltas == before.deltas
    &&& after.subscriptions == before.subscriptions
    &&& after.session == before.session
    &&& after.policy == before.policy
    &&& after.topology == before.topology
    &&& if rows.len() == 0 {
        after.store == (StoreModel { catalog: after.store.catalog, ..before.store })
    } else {
        let number = (standing_sequence(before) + 1) as u64;
        let snapshot = (standing_snapshot(before) + 1) as u64;
        &&& carried_rows_stand(
            before.store.tables,
            after.store.tables,
            declared.table,
            rows,
            carried,
        )
        &&& after.store.commit_sequence == Some(number)
        &&& after.store.snapshot == Some(snapshot)
        &&& after.store.commit_log == before.store.commit_log.insert(
            number,
            after.store.commit_log[number],
        )
        &&& evolution_metadata(after.store.commit_log[number], number, snapshot, declared, rows)
        &&& match before.policy {
            None => {
                &&& after.store.versioned_log == before.store.versioned_log
                &&& after.store.outbox == before.store.outbox
                &&& after.store.chain_head == before.store.chain_head
            },
            Some(name) => {
                let entry = after.store.versioned_log[number];
                &&& after.store.versioned_log == before.store.versioned_log.insert(number, entry)
                &&& entry == sealed(entry)
                &&& entry.commit_sequence == number
                &&& entry.snapshot == snapshot
                &&& entry.store_name == name
                &&& entry.schema_hash == store_schema(versions(after.catalog))
                &&& entry.previous == before.store.chain_head
                &&& carries_over(entry.operations, stored, declared, rows, carried)
                &&& after.store.chain_head == Some(entry.digest)
                &&& after.store.outbox.dom().contains(number)
                &&& after.store.outbox[number].digest == entry.digest
            },
        }
    }
}

/// The metadata row of an evolution: of each row its removal and its
/// assertion, under the table.
pub open spec fn evolution_metadata(
    commit: LogEntryModel,
    number: u64,
    snapshot: u64,
    declared: FamilyModel,
    rows: Seq<(Seq<char>, Seq<u8>)>,
) -> bool {
    &&& commit.commit_sequence == number
    &&& commit.snapshot == snapshot
    &&& commit.operations.len() == 2 * rows.len()
    &&& forall|i: int|
        0 <= i < rows.len() ==> #[trigger] pair_told(
            commit.operations,
            declared.table,
            rows[i].0,
            i,
        )
}

/// A row's removal and its assertion, without payloads, at their places.
pub open spec fn pair_told(
    operations: Seq<LogOperationModel>,
    table: Seq<char>,
    key: Seq<char>,
    i: int,
) -> bool {
    &&& operations[2 * i] == (LogOperationModel {
        operation: SemaOperation::Retract,
        table,
        key: Some(KeyModel::Domain(key)),
    })
    &&& operations[2 * i + 1] == (LogOperationModel {
        operation: SemaOperation::Assert,
        table,
        key: Some(KeyModel::Domain(key)),
    })
}

proof fn lemma_evolution_metadata(
    commit: LogEntryModel,
    operations: Seq<OperationModel>,
    stored: FamilyModel,
    declared: FamilyModel,
    rows: Seq<(Seq<char>, Seq<u8>)>,
    carried: Seq<Seq<u8>>,
)
    requires
        stored.table == declared.table,
        carries_over(operations, stored, declared, rows, carried),
        commit.operations == operations_metadata(operations),
    ensures
        evolution_metadata(commit, commit.commit_sequence, commit.snapshot, declared, rows),
{
    assert(operations_metadata(operations).len() == operations.len());
    assert forall|i: int| 0 <= i < rows.len() implies #[trigger] pair_told(
        commit.operations,
        declared.table,
        rows[i].0,
        i,
    ) by {
        assert(pair_carried(operations, stored, declared, rows[i].0, carried[i], i));
    }
}

/// Evolving carries every row forward.
#[verifier::rlimit(40)]
pub proof fn lemma_carries_forward(
    engine: EngineModel,
    stored: FamilyModel,
    declared: FamilyModel,
    carried: Seq<Seq<u8>>,
)
    requires
        engine.session is None,
        stored.table == declared.table,
        text_listed(domain_rows(engine.store.tables.records, declared.table)),
        carried.len() == rows_to_carry(engine, declared.table).len(),
    ensures
        rows_listed(
            engine.store.tables,
            declared.table,
            rows_to_carry(engine, declared.table),
        ),
        carries_forward(
            engine,
            evolved(engine, stored, declared, carried),
            stored,
            declared,
            rows_to_carry(engine, declared.table),
            carried,
        ),
{
    let tables = engine.store.tables;
    let table = declared.table;
    let rows = rows_to_carry(engine, table);
    let map = domain_rows(tables.records, table);
    assert forall|i: int| 0 <= i < rows.len() implies row_at(
        tables,
        table,
        (#[trigger] rows[i]).0,
    ) == Some(rows[i].1) by {
        assert(keyed_at(rows, rows[i].0, i));
        assert(has_key(rows, rows[i].0));
        let j = choose|j: int| keyed_at(rows, rows[i].0, j);
        if i < j {
            assert(text_precedes(rows[i].0, rows[j].0));
        } else if j < i {
            assert(text_precedes(rows[j].0, rows[i].0));
        }
        lemma_text_irreflexive(rows[i].0);
        assert(map_of(rows).dom().contains(rows[i].0));
        assert(map.dom().contains(rows[i].0));
        assert(map[rows[i].0] == rows[i].1);
    }
    assert forall|key: Seq<char>| #[trigger] row_at(tables, table, key) is Some implies exists|
        i: int,
    | 0 <= i < rows.len() && (#[trigger] rows[i]).0 == key by {
        assert(map.dom().contains(key));
        assert(has_key(rows, key));
        let i = choose|i: int| keyed_at(rows, key, i);
        assert(rows[i].0 == key);
    }
    if rows.len() > 0 {
        lemma_carries_over(stored, declared, rows, carried);
        lemma_carried_rows_stand(tables, stored, declared, rows, carried);
        let after = evolved(engine, stored, declared, carried);
        let number = (standing_sequence(engine) + 1) as u64;
        let snapshot = (standing_snapshot(engine) + 1) as u64;
        let operations = evolution_operations(stored, declared, rows, carried);
        let commit = after.store.commit_log[number];
        assert(commit.operations == operations_metadata(operations));
        lemma_evolution_metadata(commit, operations, stored, declared, rows, carried);
        assert(after.store.commit_log =~= engine.store.commit_log.insert(number, commit));
    }
}

/// Registering a domain-keyed table: where the stored family is a declared
/// prior, its rows are carried forward, each as its prior's carry answered,
/// unless a session is engaged or a row is refused; else the declaration is
/// accepted or refused as it stands.
#[verifier::rlimit(40)]
pub proof fn lemma_register_call<RecordValue, Priors: PriorGenerations>(
    engine: &mut Engine,
    descriptor: TableDescriptor<RecordValue, Priors>,
    outcome: Result<TableReference<RecordValue>, Error>,
)
    requires
        call_ensures(
            Engine::register_table::<RecordValue, Priors>,
            (engine, descriptor),
            outcome,
        ),
    ensures
        ({
            let before = old(engine)@;
            let after = final(engine)@;
            let declared = descriptor@.identity;
            let priors = descriptor@.priors;
            &&& (forall|stored: FamilyModel| !#[trigger]
                evolves(before.catalog, declared, priors, stored)) ==> declares(
                before,
                after,
                declared,
                false,
                match outcome {
                    Ok(reference) => Ok(reference@),
                    Err(error) => Err(error@),
                },
            )
            &&& forall|stored: FamilyModel| #[trigger]
                evolves(before.catalog, declared, priors, stored) ==> match outcome {
                    Ok(reference) => {
                        &&& before.session is None
                        &&& reference@ == declared.table
                        &&& exists|rows: Seq<(Seq<char>, Seq<u8>)>, carried: Seq<Seq<u8>>|
                            {
                                &&& rows_listed(before.store.tables, declared.table, rows)
                                &&& carried_all(
                                    descriptor.generations(),
                                    stored.schema_hash,
                                    rows,
                                    carried,
                                )
                                &&& #[trigger] carries_forward(
                                    before,
                                    after,
                                    stored,
                                    declared,
                                    rows,
                                    carried,
                                )
                            }
                    },
                    Err(error) => {
                        &&& after == before
                        &&& before.session is Some ==> error@ is StagingSessionEngaged
                        &&& before.session is None ==> exists|
                            rows: Seq<(Seq<char>, Seq<u8>)>,
                            at: int,
                        |
                            {
                                &&& rows_listed(before.store.tables, declared.table, rows)
                                &&& 0 <= at < rows.len()
                                &&& descriptor.generations().answers(
                                    stored.schema_hash,
                                    #[trigger] rows[at],
                                    Err(error),
                                )
                            }
                    },
                }
        }),
{
    let before = old(engine)@;
    let declared = descriptor@.identity;
    let priors = descriptor@.priors;
    lemma_lookups(before.catalog, declared);
    lemma_evolves(before.catalog, declared, priors);
    assert forall|stored: FamilyModel| #[trigger]
        evolves(before.catalog, declared, priors, stored) && before.session is None implies
        rows_listed(
        before.store.tables,
        declared.table,
        rows_to_carry(before, declared.table),
    ) by {
        let rows = rows_to_carry(before, declared.table);
        let carried = Seq::new(rows.len(), |i: int| rows[i].1);
        lemma_carries_forward(before, stored, declared, carried);
    }
    if let Some(stored) = evolves_from(before.catalog, descriptor@) {
        assert(evolves(before.catalog, declared, priors, stored));
        if outcome is Ok {
            let rows = rows_to_carry(before, declared.table);
            let carried = choose|carried: Seq<Seq<u8>>|
                {
                    &&& carried_all(
                        descriptor.generations(),
                        stored.schema_hash,
                        rows,
                        carried,
                    )
                    &&& final(engine)@ == #[trigger] evolved(before, stored, declared, carried)
                };
            lemma_carries_forward(before, stored, declared, carried);
            assert(carries_forward(before, final(engine)@, stored, declared, rows, carried));
        }
    }
}

/// Registering a domain-keyed table whose rows were carried elsewhere: as
/// with a declaration that carries its own, with the rows that were handed
/// in.
pub proof fn lemma_register_carried_call<RecordValue, Priors>(
    engine: &mut Engine,
    descriptor: TableDescriptor<RecordValue, Priors>,
    carried: Result<Vec<Vec<u8>>, Error>,
    outcome: Result<TableReference<RecordValue>, Error>,
)
    requires
        text_listed(
            domain_rows(old(engine)@.store.tables.records, descriptor@.identity.table),
        ),
        carried matches Ok(rows) ==> rows@.len() == rows_to_carry(
            old(engine)@,
            descriptor@.identity.table,
        ).len(),
        call_ensures(
            Engine::register_carried_table::<RecordValue, Priors>,
            (engine, descriptor, carried),
            outcome,
        ),
    ensures
        ({
            let before = old(engine)@;
            let after = final(engine)@;
            let declared = descriptor@.identity;
            let priors = descriptor@.priors;
            &&& (forall|stored: FamilyModel| !#[trigger]
                evolves(before.catalog, declared, priors, stored)) ==> declares(
                before,
                after,
                declared,
                false,
                match outcome {
                    Ok(reference) => Ok(reference@),
                    Err(error) => Err(error@),
                },
            )
            &&& forall|stored: FamilyModel| #[trigger]
                evolves(before.catalog, declared, priors, stored) ==> match outcome {
                    Ok(reference) => {
                        &&& before.session is None
                        &&& carried is Ok
                        &&& reference@ == declared.table
                        &&& exists|rows: Seq<(Seq<char>, Seq<u8>)>|
                            {
                                &&& rows_listed(before.store.tables, declared.table, rows)
                                &&& #[trigger] carries_forward(
                                    before,
                                    after,
                                    stored,
                                    declared,
                                    rows,
                                    views(carried->Ok_0@),
                                )
                            }
                    },
                    Err(error) => {
                        &&& after == before
                        &&& if before.session is Some {
                            error@ is StagingSessionEngaged
                        } else {
                            carried == Err::<Vec<Vec<u8>>, Error>(error)
                        }
                    },
                }
        }),
{
    let before = old(engine)@;
    let declared = descriptor@.identity;
    let priors = descriptor@.priors;
    lemma_lookups(before.catalog, declared);
    lemma_evolves(before.catalog, declared, priors);
    if let Some(stored) = evolves_from(before.catalog, descriptor@) {
        assert(evolves(before.catalog, declared, priors, stored));
        if outcome is Ok {
            let rows = rows_to_carry(before, declared.table);
            let made = views(carried->Ok_0@);
            lemma_carries_forward(before, stored, declared, made);
            assert(carries_forward(before, final(engine)@, stored, declared, rows, made));
        }
    }
}

/// A declaration evolves from at most one stored family, that of its table.
proof fn lemma_evolves(catalog: Seq<FamilyModel>, declared: FamilyModel, priors: Seq<Seq<u8>>)
    ensures
        forall|stored: FamilyModel| #[trigger]
            evolves(catalog, declared, priors, stored) <==> Some(stored)
                == evolves_from(
                catalog,
                DescriptorModel { identity: declared, priors },
            ),
        forall|stored: FamilyModel| #[trigger]
            evolves(catalog, declared, priors, stored) ==> stored.table == declared.table,
{
    lemma_lookups(catalog, declared);
    assert forall|stored: FamilyModel| #[trigger]
        evolves(catalog, declared, priors, stored) implies Some(stored)
        == evolves_from(
        catalog,
        DescriptorModel { identity: declared, priors },
    ) by {
        let at = choose|at: int| #[trigger]
            first_at_table(catalog, declared.table, at) && catalog[at] == stored;
        assert(catalog[at].table == declared.table);
        assert(registered(catalog, declared.table));
        let other = choose|other: int| #[trigger]
            first_at_table(catalog, declared.table, other) && catalog[other] == family_at(
                catalog,
                declared.table,
            )->0;
        assert(at == other);
        let p = choose|p: int| 0 <= p < priors.len() && #[trigger] priors[p] == stored.schema_hash;
        assert(priors.contains(stored.schema_hash));
    }
}

} // verus!
