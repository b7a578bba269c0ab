//! The log planes: every commit keeps the logs, the chain head, the counts
//! and the outbox in step.

use vstd::prelude::*;

use crate::commit_log::derived_slots;
use crate::catalog::registered;
use crate::engine_model::{
    all_operations, commit_operations, entries_logged, group_flaw, has_log_room, has_room, landed,
    logged, next_commit, next_versioned, operations_landed, standing_sequence,
    versioned_operations, EngineModel,
};
use crate::fold::{fold_entries, fold_operations, head_after, FoldModel};
use crate::laws::rebuild::lemma_family_at;
use crate::listing::{
    lemma_number_rising, lemma_numbered, lemma_numbered_push, log_values, number_rising, numbered,
    row_values,
};
use crate::log::{entry_metadata, operations_metadata, LogEntryModel};
use crate::ordered_table::{
    has_key, keyed_at, lemma_listable_empty, lemma_position, listable, map_of, rising,
};
use crate::outbox::entry_head;
use crate::store::{counted_so_far, virgin_store, StoreModel};
use crate::tables::WriteFact;
use crate::versioning::{sealed, EntryModel, FamilyModel, OperationModel};

verus! {

/// The rows of a listable log rise and represent it.
pub proof fn lemma_log_listing<X>(log: Map<u64, X>)
    requires
        listable::<u64, X>(log),
    ensures
        number_rising(numbered(log)),
        map_of(numbered(log)) == log,
{
    let rows = choose|rows: Seq<(u64, X)>| #[trigger]
        rising::<u64, X>(rows) && map_of(rows) == log;
    lemma_number_rising(rows);
    lemma_numbered(rows);
}

/// A row past all others comes last.
pub proof fn lemma_log_push<X>(log: Map<u64, X>, key: u64, value: X)
    requires
        listable::<u64, X>(log),
        forall|other: u64| #[trigger] log.dom().contains(other) ==> other < key,
    ensures
        listable::<u64, X>(log.insert(key, value)),
        numbered(log.insert(key, value)) == numbered(log).push((key, value)),
        log_values(log.insert(key, value)) == log_values(log).push(value),
{
    lemma_log_listing(log);
    let rows = numbered(log);
    lemma_number_rising(rows);
    assert forall|i: int| 0 <= i < rows.len() implies (#[trigger] rows[i]).0 < key by {
        lemma_position::<u64, X>(rows, i);
    }
    lemma_numbered_push(rows, key, value);
    lemma_number_rising(rows.push((key, value)));
    assert(row_values(rows.push((key, value))) =~= row_values(rows).push(value));
}

/// The log planes of a store are in step: both logs can be listed, every
/// row stands under its own sequence, from one to the latest commit; the
/// chain is sealed and linked from `head` to the chain head; the counts
/// are the rows'; and the outbox rows are those of the versioned entries,
/// one beside each.
pub open spec fn coherent(store: StoreModel, head: Option<Seq<u8>>) -> bool {
    &&& listable::<u64, LogEntryModel>(store.commit_log)
    &&& listable::<u64, EntryModel>(store.versioned_log)
    &&& forall|key: u64| #[trigger]
        store.commit_log.dom().contains(key) ==> store.commit_log[key].commit_sequence == key
            && 0 < key <= counted_so_far(store.commit_sequence)
    &&& forall|key: u64| #[trigger]
        store.versioned_log.dom().contains(key) ==> store.versioned_log[key].commit_sequence
            == key && 0 < key <= counted_so_far(store.commit_sequence)
    &&& counted_so_far(store.commit_count) == log_values(store.commit_log).len()
    &&& counted_so_far(store.versioned_count) == log_values(store.versioned_log).len()
    &&& store.chain_head == head_after(head, log_values(store.versioned_log))
    &&& group_flaw(head, log_values(store.versioned_log)) is None
    &&& forall|key: u64| #[trigger]
        store.versioned_log.dom().contains(key) ==> store.outbox.dom().contains(key)
            && store.outbox[key] == entry_head(store.versioned_log[key])
    &&& forall|key: u64| #[trigger]
        store.outbox.dom().contains(key) ==> store.versioned_log.dom().contains(key)
}

/// Commits are logged without a gap: past `after`, every commit up to the
/// latest has its row in the commit log, and no other commit has one; the
/// latest row names the store's snapshot. Under a versioning policy it has its versioned entry too, written under the
/// policy's store name, and its commit log row is that entry without
/// payloads and links; without a policy no versioned entry was ever
/// written.
pub open spec fn contiguous(
    store: StoreModel,
    after: u64,
    policy: Option<Seq<char>>,
) -> bool {
    let latest = counted_so_far(store.commit_sequence);
    &&& after <= latest
    &&& forall|key: u64|
        store.commit_log.dom().contains(key) == (after < key && key <= latest)
    &&& after < latest ==> store.snapshot == Some(store.commit_log[latest].snapshot)
    &&& match policy {
        Some(name) => {
            &&& forall|key: u64|
                store.versioned_log.dom().contains(key) == (after < key && key <= latest)
            &&& forall|key: u64| #[trigger]
                store.versioned_log.dom().contains(key) ==> {
                    &&& store.versioned_log[key].store_name == name
                    &&& store.commit_log[key] == entry_metadata(store.versioned_log[key])
                }
        },
        None => store.versioned_log == Map::<u64, EntryModel>::empty(),
    }
}

/// The listing of a log that holds exactly the numbers from `after + 1` to
/// `latest`.
pub proof fn lemma_contiguous_listing<X>(log: Map<u64, X>, after: u64, latest: u64)
    requires
        after <= latest,
        forall|key: u64| log.dom().contains(key) == (after < key && key <= latest),
    ensures
        log_values(log).len() == latest - after,
        forall|i: int|
            0 <= i < latest - after ==> #[trigger] log_values(log)[i] == log[(after + 1 + i) as u64],
{
    let rows = Seq::new(
        (latest - after) as nat,
        |i: int| ((after + 1 + i) as u64, log[(after + 1 + i) as u64]),
    );
    assert(number_rising(rows));
    lemma_number_rising(rows);
    assert forall|key: u64| map_of(rows).dom().contains(key) == log.dom().contains(key) by {
        if log.dom().contains(key) {
            let i = key - after - 1;
            assert(keyed_at(rows, key, i));
        }
        if has_key(rows, key) {
            let i = choose|i: int| keyed_at(rows, key, i);
            assert(rows[i].0 == key);
        }
    }
    assert forall|key: u64| log.dom().contains(key) implies map_of(rows)[key] == log[key] by {
        let i = key - after - 1;
        lemma_position::<u64, X>(rows, i);
    }
    assert(map_of(rows) =~= log);
    lemma_numbered(rows);
}

/// The log is contiguous: past `after`, one entry per commit, numbered one
/// after the other, each continuing the one before it and the first
/// continuing `head`, all under the policy's store name; and the commit log
/// is the versioned log without payloads and links. A store that never had
/// a policy has no versioned log.
pub proof fn lemma_log_contiguous(
    store: StoreModel,
    head: Option<Seq<u8>>,
    after: u64,
    policy: Option<Seq<char>>,
)
    requires
        coherent(store, head),
        contiguous(store, after, policy),
    ensures
        ({
            let commits = log_values(store.commit_log);
            let entries = log_values(store.versioned_log);
            &&& commits.len() == counted_so_far(store.commit_sequence) - after
            &&& forall|i: int|
                0 <= i < commits.len() ==> (#[trigger] commits[i]).commit_sequence == after + 1 + i
            &&& match policy {
                Some(name) => {
                    &&& entries.len() == commits.len()
                    &&& forall|i: int|
                        0 <= i < entries.len() ==> {
                            &&& (#[trigger] entries[i]).commit_sequence == after + 1 + i
                            &&& entries[i].store_name == name
                            &&& entries[i].previous == if i == 0 {
                                head
                            } else {
                                Some(entries[i - 1].digest)
                            }
                            &&& entries[i] == sealed(entries[i])
                            &&& commits[i] == entry_metadata(entries[i])
                        }
                },
                None => entries.len() == 0,
            }
        }),
{
    let latest = counted_so_far(store.commit_sequence);
    lemma_contiguous_listing(store.commit_log, after, latest);
    let commits = log_values(store.commit_log);
    let entries = log_values(store.versioned_log);
    assert forall|i: int| 0 <= i < commits.len() implies (
    #[trigger] commits[i]).commit_sequence == after + 1 + i by {
        assert(store.commit_log.dom().contains((after + 1 + i) as u64));
    }
    match policy {
        Some(_) => {
            lemma_contiguous_listing(store.versioned_log, after, latest);
            assert forall|i: int| 0 <= i < entries.len() implies {
                &&& (#[trigger] entries[i]).commit_sequence == after + 1 + i
                &&& entries[i].store_name == policy->0
                &&& entries[i].previous == if i == 0 {
                    head
                } else {
                    Some(entries[i - 1].digest)
                }
                &&& entries[i] == sealed(entries[i])
                &&& commits[i] == entry_metadata(entries[i])
            } by {
                assert(store.versioned_log.dom().contains((after + 1 + i) as u64));
                assert(commits[i] == store.commit_log[(after + 1 + i) as u64]);
                lemma_links(head, entries, i);
            }
        },
        None => {
            lemma_empty_listing::<EntryModel>();
        },
    }
}

/// An entry of a chain without a flaw is sealed and continues the one
/// before it.
proof fn lemma_links(head: Option<Seq<u8>>, entries: Seq<EntryModel>, at: int)
    requires
        group_flaw(head, entries) is None,
        0 <= at < entries.len(),
    ensures
        entries[at] == sealed(entries[at]),
        entries[at].previous == if at == 0 {
            head
        } else {
            Some(entries[at - 1].digest)
        },
    decreases entries.len(),
{
    if at < entries.len() - 1 {
        lemma_links(head, entries.drop_last(), at);
    }
}

/// A virgin store is contiguous from its first commit on.
pub proof fn lemma_virgin_contiguous(policy: Option<Seq<char>>)
    ensures
        contiguous(virgin_store(), 0, policy),
{
}

/// Only the logs and the cursors matter: registrations, records, counters,
/// subscriptions, checkpoints and a parked group leave a log contiguous.
pub proof fn lemma_contiguous_elsewhere(
    a: StoreModel,
    b: StoreModel,
    after: u64,
    policy: Option<Seq<char>>,
)
    requires
        contiguous(a, after, policy),
        a.commit_log == b.commit_log,
        a.versioned_log == b.versioned_log,
        a.commit_sequence == b.commit_sequence,
        a.snapshot == b.snapshot,
    ensures
        contiguous(b, after, policy),
{
}

/// The metadata of a commit's versioned operations is the commit's own.
proof fn lemma_metadata_of_writes(catalog: Seq<FamilyModel>, writes: Seq<WriteFact>)
    requires
        forall|i: int| 0 <= i < writes.len() ==> registered(catalog, (#[trigger] writes[i]).table),
    ensures
        operations_metadata(versioned_operations(catalog, writes)) == commit_operations(writes),
{
    let found = operations_metadata(versioned_operations(catalog, writes));
    assert forall|i: int| 0 <= i < writes.len() implies #[trigger] found[i] == commit_operations(
        writes,
    )[i] by {
        assert(registered(catalog, writes[i].table));
        lemma_family_at(catalog, writes[i].table);
    }
    assert(found =~= commit_operations(writes));
}

/// A commit is logged as the next one.
pub proof fn lemma_landed_contiguous(engine: EngineModel, after: u64, writes: Seq<WriteFact>)
    requires
        contiguous(engine.store, after, engine.policy),
        engine.session is None,
        has_room(engine, 1),
        forall|i: int|
            0 <= i < writes.len() ==> registered(engine.catalog, (#[trigger] writes[i]).table),
    ensures
        contiguous(landed(engine, writes).store, after, engine.policy),
{
    lemma_metadata_of_writes(engine.catalog, writes);
}

/// An evolution is logged as the next commit.
pub proof fn lemma_operations_contiguous(
    engine: EngineModel,
    after: u64,
    operations: Seq<OperationModel>,
)
    requires
        contiguous(engine.store, after, engine.policy),
        engine.session is None,
        has_room(engine, 1),
    ensures
        contiguous(operations_landed(engine, operations).store, after, engine.policy),
{
}

/// Entries that follow `from` one by one, under one store name.
pub open spec fn follow_on(from: u64, name: Seq<char>, entries: Seq<EntryModel>) -> bool {
    forall|i: int|
        0 <= i < entries.len() ==> (#[trigger] entries[i]).commit_sequence == from + 1 + i
            && entries[i].store_name == name
}

/// Entries taken over are logged as the next commits.
pub proof fn lemma_entries_contiguous(
    store: StoreModel,
    after: u64,
    name: Seq<char>,
    entries: Seq<EntryModel>,
)
    requires
        contiguous(store, after, Some(name)),
        follow_on(counted_so_far(store.commit_sequence), name, entries),
    ensures
        contiguous(entries_logged(store, entries), after, Some(name)),
        counted_so_far(entries_logged(store, entries).commit_sequence) == counted_so_far(
            store.commit_sequence,
        ) + entries.len(),
    decreases entries.len(),
{
    if entries.len() > 0 {
        let less = entries.drop_last();
        assert(follow_on(counted_so_far(store.commit_sequence), name, less)) by {
            assert forall|i: int| 0 <= i < less.len() implies (
            #[trigger] less[i]).commit_sequence == counted_so_far(store.commit_sequence) + 1 + i
                && less[i].store_name == name by {
                assert(less[i] == entries[i]);
            }
        }
        lemma_entries_contiguous(store, after, name, less);
        assert(entries[entries.len() - 1].commit_sequence == counted_so_far(store.commit_sequence)
            + entries.len());
    }
}

/// Entries taken over keep the log planes in step.
pub proof fn lemma_entries_coherent(
    store: StoreModel,
    head: Option<Seq<u8>>,
    name: Seq<char>,
    entries: Seq<EntryModel>,
)
    requires
        coherent(store, head),
        has_log_room(store, entries.len() as int),
        follow_on(counted_so_far(store.commit_sequence), name, entries),
        group_flaw(store.chain_head, entries) is None,
    ensures
        coherent(entries_logged(store, entries), head),
        log_values(entries_logged(store, entries).versioned_log) == log_values(
            store.versioned_log,
        ) + entries,
        counted_so_far(entries_logged(store, entries).commit_sequence) == counted_so_far(
            store.commit_sequence,
        ) + entries.len(),
        entries_logged(store, entries).chain_head == head_after(store.chain_head, entries),
        counted_so_far(entries_logged(store, entries).commit_count) == counted_so_far(
            store.commit_count,
        ) + entries.len(),
        counted_so_far(entries_logged(store, entries).versioned_count) == counted_so_far(
            store.versioned_count,
        ) + entries.len(),
    decreases entries.len(),
{
    if entries.len() > 0 {
        let less = entries.drop_last();
        let entry = entries.last();
        assert(follow_on(counted_so_far(store.commit_sequence), name, less)) by {
            assert forall|i: int| 0 <= i < less.len() implies (
            #[trigger] less[i]).commit_sequence == counted_so_far(store.commit_sequence) + 1 + i
                && less[i].store_name == name by {
                assert(less[i] == entries[i]);
            }
        }
        lemma_entries_coherent(store, head, name, less);
        assert(entries[entries.len() - 1].commit_sequence == counted_so_far(store.commit_sequence)
            + entries.len());
        let before = entries_logged(store, less);
        lemma_logged_coherent(before, head, entry_metadata(entry), Some(entry));
        let after = logged(before, entry_metadata(entry), Some(entry));
        lemma_coherent_elsewhere(after, entries_logged(store, entries), head);
        assert(log_values(store.versioned_log) + entries =~= (log_values(store.versioned_log)
            + less).push(entry));
    } else {
        assert(log_values(store.versioned_log) + entries =~= log_values(store.versioned_log));
    }
}

/// A virgin store is in step.
pub proof fn lemma_virgin_coherent()
    ensures
        coherent(virgin_store(), None),
{
    lemma_listable_empty::<u64, LogEntryModel>();
    lemma_listable_empty::<u64, EntryModel>();
    lemma_log_listing(Map::<u64, LogEntryModel>::empty());
    lemma_log_listing(Map::<u64, EntryModel>::empty());
    lemma_empty_listing::<LogEntryModel>();
    lemma_empty_listing::<EntryModel>();
}

/// An empty log lists nothing.
pub proof fn lemma_empty_listing<X>()
    ensures
        log_values(Map::<u64, X>::empty()) == Seq::<X>::empty(),
{
    let rows = Seq::<(u64, X)>::empty();
    assert(map_of(rows) =~= Map::empty());
    lemma_numbered(rows);
    assert(row_values(rows) =~= Seq::empty());
}

/// Logging one commit keeps the log planes in step.
pub proof fn lemma_logged_coherent(
    store: StoreModel,
    head: Option<Seq<u8>>,
    commit: LogEntryModel,
    versioned: Option<EntryModel>,
)
    requires
        coherent(store, head),
        commit.commit_sequence == counted_so_far(store.commit_sequence) + 1,
        counted_so_far(store.commit_count) < u64::MAX,
        counted_so_far(store.versioned_count) < u64::MAX,
        versioned matches Some(entry) ==> {
            &&& entry.commit_sequence == commit.commit_sequence
            &&& entry == sealed(entry)
            &&& entry.previous == store.chain_head
        },
    ensures
        coherent(logged(store, commit, versioned), head),
        versioned matches Some(entry) ==> log_values(
            logged(store, commit, versioned).versioned_log,
        ) == log_values(store.versioned_log).push(entry),
{
    lemma_log_push(store.commit_log, commit.commit_sequence, commit);
    let after = logged(store, commit, versioned);
    if let Some(entry) = versioned {
        lemma_log_push(store.versioned_log, entry.commit_sequence, entry);
        let entries = log_values(after.versioned_log);
        assert(entries.drop_last() =~= log_values(store.versioned_log));
    }
}

/// A commit keeps the log planes in step.
pub proof fn lemma_landed_coherent(
    engine: EngineModel,
    head: Option<Seq<u8>>,
    writes: Seq<WriteFact>,
)
    requires
        coherent(engine.store, head),
        engine.session is None,
        has_room(engine, 1),
    ensures
        coherent(landed(engine, writes).store, head),
        engine.policy matches Some(name) ==> log_values(landed(engine, writes).store.versioned_log)
            == log_values(engine.store.versioned_log).push(
            next_versioned(engine, name, versioned_operations(engine.catalog, writes)),
        ),
{
    let tables = crate::tables::applied_all(engine.store.tables, writes);
    let store = StoreModel { tables, ..engine.store };
    assert(coherent(store, head));
    let commit = next_commit(engine, writes);
    let operations = versioned_operations(engine.catalog, writes);
    let versioned = match engine.policy {
        Some(name) => Some(next_versioned(engine, name, operations)),
        None => None,
    };
    lemma_logged_coherent(store, head, commit, versioned);
}

/// An evolution keeps the log planes in step.
pub proof fn lemma_operations_coherent(
    engine: EngineModel,
    head: Option<Seq<u8>>,
    operations: Seq<OperationModel>,
)
    requires
        coherent(engine.store, head),
        engine.session is None,
        has_room(engine, 1),
    ensures
        coherent(operations_landed(engine, operations).store, head),
{
    let tables = crate::tables::rows_placed(
        engine.store.tables,
        crate::engine_model::operation_rows(operations),
    );
    let store = StoreModel { tables, ..engine.store };
    assert(coherent(store, head));
    let commit = LogEntryModel {
        commit_sequence: (standing_sequence(engine) + 1) as u64,
        snapshot: (crate::engine_model::standing_snapshot(engine) + 1) as u64,
        operations: crate::log::operations_metadata(operations),
    };
    let versioned = match engine.policy {
        Some(name) => Some(next_versioned(engine, name, operations)),
        None => None,
    };
    lemma_logged_coherent(store, head, commit, versioned);
}

/// Only the log planes matter: registrations, counters, records,
/// subscriptions, checkpoints and a parked group leave a store in step.
pub proof fn lemma_coherent_elsewhere(a: StoreModel, b: StoreModel, head: Option<Seq<u8>>)
    requires
        coherent(a, head),
        a.commit_log == b.commit_log,
        a.versioned_log == b.versioned_log,
        a.commit_sequence == b.commit_sequence,
        a.commit_count == b.commit_count,
        a.versioned_count == b.versioned_count,
        a.chain_head == b.chain_head,
        a.outbox == b.outbox,
    ensures
        coherent(b, head),
{
}

/// What is recomputed from the logs is what was kept: a store in step
/// that is brought forward from an older layout keeps its chain head and
/// its counts.
pub proof fn lemma_derived_slots_agree(store: StoreModel, layout: u64)
    requires
        coherent(store, None),
    ensures
        derived_slots(store, layout).chain_head == store.chain_head,
        counted_so_far(derived_slots(store, layout).commit_count) == counted_so_far(
            store.commit_count,
        ),
        counted_so_far(derived_slots(store, layout).versioned_count) == counted_so_far(
            store.versioned_count,
        ),
{
}

/// A chain without a flaw is never refused for its links: folding it
/// comes to the fold of its operations.
pub proof fn lemma_unbroken_chain(
    view: FoldModel,
    head: Option<Seq<u8>>,
    entries: Seq<EntryModel>,
)
    requires
        group_flaw(head, entries) is None,
    ensures
        fold_entries(view, head, entries) == fold_operations(view, all_operations(entries)),
    decreases entries.len(),
{
    if entries.len() > 0 {
        lemma_unbroken_chain(view, head, entries.drop_last());
        lemma_operations_in_two(
            view,
            all_operations(entries.drop_last()),
            entries.last().operations,
        );
    }
}

/// Folding one run of operations after another is folding both at once.
pub proof fn lemma_operations_in_two(
    view: FoldModel,
    first: Seq<OperationModel>,
    second: Seq<OperationModel>,
)
    ensures
        fold_operations(view, first + second) == match fold_operations(view, first) {
            Ok(between) => fold_operations(between, second),
            Err(failure) => Err(failure),
        },
    decreases second.len(),
{
    let both = first + second;
    if second.len() == 0 {
        assert(both =~= first);
    } else {
        lemma_operations_in_two(view, first, second.drop_last());
        assert(both.drop_last() =~= first + second.drop_last());
    }
}

} // verus!
