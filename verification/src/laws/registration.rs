//! Registration and subscriptions: a family is registered once, the
//! catalog survives a reopen, and a write is announced exactly once to
//! every subscription that asked for it.

use vstd::prelude::*;

use crate::catalog::{family_at, rebound, registered};
use crate::engine_model::{
    announced, delta_kind, landed, registration_state, stored_catalog, with_family, with_rebound,
    EngineModel,
};
use crate::error::Failure;
use crate::laws::rebuild::lemma_family_at;
use crate::listing::{lemma_lettered, row_values};
use crate::ordered_table::{
    has_key, keyed_at, lemma_listable_insert, lemma_listed, lemma_position, listable, listing_of,
};
use crate::record::{KeyModel, RecordModel};
use crate::subscribe::{fanned, told, ActiveModel, DeltaKind, DeltaModel};
use crate::tables::WriteFact;
use crate::versioning::FamilyModel;

verus! {

/// The stored catalog holds exactly the registered families, each under
/// its table.
pub open spec fn catalog_stored(
    stored: Map<Seq<char>, FamilyModel>,
    catalog: Seq<FamilyModel>,
) -> bool {
    &&& listable::<String, FamilyModel>(stored)
    &&& forall|table: Seq<char>| #[trigger]
        stored.dom().contains(table) == (family_at(catalog, table) is Some)
    &&& forall|table: Seq<char>| #[trigger]
        stored.dom().contains(table) ==> family_at(catalog, table) == Some(stored[table])
            && stored[table].table == table
}

/// A family at the end of a catalog that has none at its table.
proof fn lemma_family_at_push(catalog: Seq<FamilyModel>, declared: FamilyModel, table: Seq<char>)
    ensures
        family_at(catalog.push(declared), table) == match family_at(catalog, table) {
            Some(family) => Some(family),
            None => if declared.table == table {
                Some(declared)
            } else {
                None
            },
        },
    decreases catalog.len(),
{
    let longer = catalog.push(declared);
    if catalog.len() == 0 {
        reveal_with_fuel(family_at, 2);
        assert(longer.drop_first() =~= Seq::empty());
    } else {
        assert(longer.drop_first() =~= catalog.drop_first().push(declared));
        lemma_family_at_push(catalog.drop_first(), declared, table);
    }
}

/// Registering a family again is no news: once it is registered, the same
/// declaration is accepted and changes nothing.
pub proof fn lemma_registered_once(engine: EngineModel, declared: FamilyModel)
    requires
        registration_state(engine.catalog, declared) == Ok::<bool, Failure>(true),
    ensures
        registration_state(with_family(engine, declared).catalog, declared) == Ok::<
            bool,
            Failure,
        >(false),
{
    lemma_family_at_push(engine.catalog, declared, declared.table);
}

/// A table is never bound to a second identity by a registration.
pub proof fn lemma_table_keeps_identity(
    catalog: Seq<FamilyModel>,
    stored: FamilyModel,
    declared: FamilyModel,
)
    requires
        family_at(catalog, declared.table) == Some(stored),
    ensures
        registration_state(catalog, declared) is Ok == (stored == declared),
{
}

/// A registration is stored with the catalog.
pub proof fn lemma_registration_stored(engine: EngineModel, declared: FamilyModel)
    requires
        catalog_stored(engine.store.catalog, engine.catalog),
        registration_state(engine.catalog, declared) == Ok::<bool, Failure>(true),
    ensures
        catalog_stored(
            with_family(engine, declared).store.catalog,
            with_family(engine, declared).catalog,
        ),
{
    lemma_listable_insert::<String, FamilyModel>(
        engine.store.catalog,
        declared.table,
        declared,
    );
    let after = with_family(engine, declared);
    assert forall|table: Seq<char>| #[trigger]
        after.store.catalog.dom().contains(table) == (family_at(after.catalog, table) is Some) by {
        lemma_family_at_push(engine.catalog, declared, table);
        assert(engine.store.catalog.dom().contains(table) == (family_at(
            engine.catalog,
            table,
        ) is Some));
    }
    assert forall|table: Seq<char>| #[trigger]
        after.store.catalog.dom().contains(table) implies family_at(after.catalog, table) == Some(
        after.store.catalog[table],
    ) && after.store.catalog[table].table == table by {
        lemma_family_at_push(engine.catalog, declared, table);
        if table != declared.table {
            assert(engine.store.catalog.dom().contains(table));
        }
    }
}

/// The families of rows under their own tables.
proof fn lemma_family_at_rows(rows: Seq<(Seq<char>, FamilyModel)>, table: Seq<char>)
    requires
        forall|i: int| 0 <= i < rows.len() ==> (#[trigger] rows[i]).1.table == rows[i].0,
        forall|i: int, j: int|
            0 <= i < j < rows.len() ==> (#[trigger] rows[i]).0 != (#[trigger] rows[j]).0,
    ensures
        family_at(row_values(rows), table) is Some == has_key(rows, table),
        forall|at: int|
            #[trigger] keyed_at(rows, table, at) ==> family_at(row_values(rows), table) == Some(
                rows[at].1,
            ),
    decreases rows.len(),
{
    let families = row_values(rows);
    if rows.len() > 0 {
        let rest = rows.drop_first();
        assert(families.drop_first() =~= row_values(rest));
        assert forall|i: int| 0 <= i < rest.len() implies (#[trigger] rest[i]).1.table
            == rest[i].0 by {
            assert(rest[i] == rows[i + 1]);
        }
        assert forall|i: int, j: int| 0 <= i < j < rest.len() implies (#[trigger] rest[i]).0 != (
        #[trigger] rest[j]).0 by {
            assert(rest[i] == rows[i + 1] && rest[j] == rows[j + 1]);
        }
        lemma_family_at_rows(rest, table);
        assert(families[0].table == rows[0].0);
        if rows[0].0 == table {
            assert(keyed_at(rows, table, 0));
            assert forall|at: int| #[trigger] keyed_at(rows, table, at) implies family_at(
                families,
                table,
            ) == Some(rows[at].1) by {
                if at > 0 {
                    assert(rows[0].0 != rows[at].0);
                }
            }
        } else {
            assert forall|at: int| #[trigger] keyed_at(rows, table, at) implies family_at(
                families,
                table,
            ) == Some(rows[at].1) by {
                assert(keyed_at(rest, table, at - 1));
            }
            if has_key(rows, table) {
                let at = choose|at: int| keyed_at(rows, table, at);
                assert(keyed_at(rest, table, at - 1));
            }
            if has_key(rest, table) {
                let at = choose|at: int| keyed_at(rest, table, at);
                assert(keyed_at(rows, table, at + 1));
            }
        }
    }
}

/// The catalog survives a reopen: what is read back from the store names
/// the same family at every table.
pub proof fn lemma_catalog_survives_reopen(
    stored: Map<Seq<char>, FamilyModel>,
    catalog: Seq<FamilyModel>,
    table: Seq<char>,
)
    requires
        catalog_stored(stored, catalog),
    ensures
        family_at(stored_catalog(stored), table) == family_at(catalog, table),
{
    lemma_listed::<String, FamilyModel>(stored);
    let rows = listing_of::<String, FamilyModel>(stored);
    lemma_lettered(rows);
    assert forall|i: int| 0 <= i < rows.len() implies (#[trigger] rows[i]).1.table == rows[i].0 by {
        lemma_position::<String, FamilyModel>(rows, i);
        assert(stored.dom().contains(rows[i].0));
    }
    assert forall|i: int, j: int| 0 <= i < j < rows.len() implies (#[trigger] rows[i]).0 != (
    #[trigger] rows[j]).0 by {
        assert(<String as crate::ordered_table::TableKey>::precedes(rows[i].0, rows[j].0));
        <String as crate::ordered_table::TableKey>::lemma_irreflexive(rows[i].0);
    }
    lemma_family_at_rows(rows, table);
    assert(stored.dom().contains(table) == (family_at(catalog, table) is Some));
    if stored.dom().contains(table) {
        let at = choose|at: int| keyed_at(rows, table, at);
        assert(keyed_at(rows, table, at));
        lemma_position::<String, FamilyModel>(rows, at);
    }
}

/// A catalog that is read back from a store names every table once.
pub proof fn lemma_reopened_tables_apart(
    stored: Map<Seq<char>, FamilyModel>,
    catalog: Seq<FamilyModel>,
)
    requires
        catalog_stored(stored, catalog),
    ensures
        forall|i: int, j: int|
            0 <= i < j < stored_catalog(stored).len() ==> (
            #[trigger] stored_catalog(stored)[i]).table != (
            #[trigger] stored_catalog(stored)[j]).table,
{
    lemma_listed::<String, FamilyModel>(stored);
    let rows = listing_of::<String, FamilyModel>(stored);
    lemma_lettered(rows);
    let found = stored_catalog(stored);
    assert forall|i: int, j: int| 0 <= i < j < found.len() implies (#[trigger] found[i]).table != (
    #[trigger] found[j]).table by {
        lemma_position::<String, FamilyModel>(rows, i);
        lemma_position::<String, FamilyModel>(rows, j);
        assert(stored.dom().contains(rows[i].0));
        assert(stored.dom().contains(rows[j].0));
        assert(<String as crate::ordered_table::TableKey>::precedes(rows[i].0, rows[j].0));
        <String as crate::ordered_table::TableKey>::lemma_irreflexive(rows[i].0);
    }
}

/// A table that is bound anew is stored as it is bound: the catalog that a
/// reopen reads back names the declared identity.
pub proof fn lemma_rebinding_stored(engine: EngineModel, declared: FamilyModel)
    requires
        catalog_stored(engine.store.catalog, engine.catalog),
        registered(engine.catalog, declared.table),
    ensures
        catalog_stored(
            with_rebound(engine, declared).store.catalog,
            with_rebound(engine, declared).catalog,
        ),
{
    lemma_listable_insert::<String, FamilyModel>(
        engine.store.catalog,
        declared.table,
        declared,
    );
    let after = with_rebound(engine, declared);
    lemma_family_at(engine.catalog, declared.table);
    assert forall|table: Seq<char>| #[trigger]
        after.store.catalog.dom().contains(table) == (family_at(after.catalog, table) is Some) by {
        lemma_family_at_rebound(engine.catalog, declared, table);
        assert(engine.store.catalog.dom().contains(table) == (family_at(
            engine.catalog,
            table,
        ) is Some));
    }
    assert forall|table: Seq<char>| #[trigger]
        after.store.catalog.dom().contains(table) implies family_at(after.catalog, table) == Some(
        after.store.catalog[table],
    ) && after.store.catalog[table].table == table by {
        lemma_family_at_rebound(engine.catalog, declared, table);
        if table != declared.table {
            assert(engine.store.catalog.dom().contains(table));
        }
    }
}

/// What a catalog names at a table once one of its tables was bound anew.
proof fn lemma_family_at_rebound(
    catalog: Seq<FamilyModel>,
    declared: FamilyModel,
    table: Seq<char>,
)
    ensures
        family_at(rebound(catalog, declared), table) == if table == declared.table
            && family_at(catalog, table) is Some {
            Some(declared)
        } else {
            family_at(catalog, table)
        },
    decreases catalog.len(),
{
    if catalog.len() > 0 {
        lemma_family_at_rebound(catalog.drop_first(), declared, table);
        assert(rebound(catalog, declared).drop_first() =~= rebound(
            catalog.drop_first(),
            declared,
        ));
    }
}

/// The deltas of one write, told to each subscription once.
pub open spec fn told_of(
    subscriptions: Seq<ActiveModel>,
    table: Seq<char>,
    key: KeyModel,
) -> Seq<ActiveModel> {
    subscriptions.filter(|active: ActiveModel| told(active, table, key))
}

/// A write fans out to exactly the subscriptions that asked for it, each
/// once, in the order they were made.
pub proof fn lemma_fanned_once(
    subscriptions: Seq<ActiveModel>,
    kind: DeltaKind,
    table: Seq<char>,
    key: KeyModel,
    snapshot: u64,
    record: RecordModel,
)
    ensures
        fanned(subscriptions, kind, table, key, snapshot, record).len() == told_of(
            subscriptions,
            table,
            key,
        ).len(),
        forall|i: int|
            0 <= i < told_of(subscriptions, table, key).len() ==> (#[trigger] fanned(
                subscriptions,
                kind,
                table,
                key,
                snapshot,
                record,
            )[i]) == (DeltaModel {
                handle: told_of(subscriptions, table, key)[i].handle,
                kind,
                table,
                key,
                snapshot,
                record,
            }),
    decreases subscriptions.len(),
{
    reveal(Seq::filter);
    if subscriptions.len() > 0 {
        lemma_fanned_once(subscriptions.drop_last(), kind, table, key, snapshot, record);
    }
}

/// A committed write to a domain-keyed table is announced under the
/// snapshot it made, and nothing else is.
pub proof fn lemma_commit_announces_its_writes(engine: EngineModel, write: WriteFact)
    requires
        engine.session is None,
        write.slot is Domain,
    ensures
        landed(engine, seq![write]).deltas == engine.deltas + fanned(
            engine.subscriptions,
            delta_kind(write.operation),
            write.table,
            write.key,
            (crate::engine_model::standing_snapshot(engine) + 1) as u64,
            RecordModel { key: write.key, bytes: write.record },
        ),
{
    reveal_with_fuel(announced, 2);
    assert(seq![write].drop_last() =~= Seq::empty());
    let snapshot = (crate::engine_model::standing_snapshot(engine) + 1) as u64;
    let sent = fanned(
        engine.subscriptions,
        delta_kind(write.operation),
        write.table,
        write.key,
        snapshot,
        RecordModel { key: write.key, bytes: write.record },
    );
    assert(announced(engine.subscriptions, seq![write], snapshot) =~= sent);
}

/// A buffered write is announced to nobody.
pub proof fn lemma_staged_writes_are_silent(engine: EngineModel, writes: Seq<WriteFact>)
    requires
        engine.session is Some,
    ensures
        landed(engine, writes).deltas == engine.deltas,
{
}

} // verus!
