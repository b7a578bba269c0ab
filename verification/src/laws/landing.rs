//! What lands: the rows, the log entries and the counters that a staged
//! group or an import takes over, and the deltas that a landed group queues.

use vstd::prelude::*;

use crate::engine::{answer_models, asked, consulted, given_answers, has_group_room, took, Engine};
use crate::engine_model::{
    all_operations, announcements, answered, counters_advanced, entries_logged, entry_announcements,
    group_flaw, group_landed, group_rows, has_log_room, landable, operation_rows, staging_landed,
    EngineModel,
};
use crate::error::{Error, Failure};
use crate::fold::{head_after, landed_rows, FamilyDirectory, RowModel};
use crate::laws::imports::lemma_entries_elsewhere;
use crate::laws::rebuild::held_at;
use crate::laws::requests::{audience, lemma_fans_out};
use crate::log::LogEntryModel;
use crate::operation::SemaOperation;
use crate::outbox::HeadModel;
use crate::record::{KeyModel, RecordModel};
use crate::staging::{
    pre_image_at, AnnouncementModel, GroupModel, MaterializeStagedReceipt, PreImageModel,
};
use crate::store::{counted_so_far, StoreModel};
use crate::subscribe::{fanned, ActiveModel, DeltaKind, DeltaModel};
use crate::table::{counter_key_text, TableName};
use crate::tables::{rows_placed, TablesModel};
use crate::versioning::{sealed, EntryModel, OperationModel};

verus! {

/// Lists joined one after the other end with the last of them.
pub proof fn lemma_flatten_last<A>(lists: Seq<Seq<A>>)
    ensures
        lists.len() == 0 ==> lists.flatten() == Seq::<A>::empty(),
        lists.len() > 0 ==> lists.flatten() == lists.drop_last().flatten() + lists.last(),
{
    lists.lemma_flatten_and_flatten_alt_are_equivalent();
    if lists.len() > 0 {
        lists.drop_last().lemma_flatten_and_flatten_alt_are_equivalent();
    } else {
        assert(lists.flatten() =~= Seq::<A>::empty());
    }
}

/// A row is for a key of a table.
pub open spec fn row_for(row: RowModel, table: Seq<char>, key: KeyModel) -> bool {
    row.family.table == table && row.key == key
}

/// A row of a list was taken.
pub open spec fn taken_at(taken: Seq<bool>, at: int) -> bool {
    at < taken.len() && taken[at]
}

/// The rows that were taken stand in the tables, the last one for a key
/// where there are several; every other row and every counter stands as it
/// stood.
pub open spec fn rows_land(
    before: TablesModel,
    after: TablesModel,
    rows: Seq<RowModel>,
    taken: Seq<bool>,
) -> bool {
    &&& after.counters == before.counters
    &&& forall|table: Seq<char>, key: KeyModel|
        (forall|i: int|
            0 <= i < rows.len() && taken_at(taken, i) ==> !row_for(#[trigger] rows[i], table, key))
            ==> #[trigger] held_at(after, table, key) == held_at(before, table, key)
    &&& forall|i: int|
        #![trigger rows[i]]
        0 <= i < rows.len() && taken_at(taken, i) && (forall|j: int|
            i < j < rows.len() && taken_at(taken, j) ==> !row_for(
                #[trigger] rows[j],
                rows[i].family.table,
                rows[i].key,
            )) ==> held_at(after, rows[i].family.table, rows[i].key) == rows[i].payload
}

/// Landing rows leaves exactly what was taken, and the last of it.
#[verifier::rlimit(40)]
pub proof fn lemma_rows_land(tables: TablesModel, rows: Seq<RowModel>, taken: Seq<bool>)
    ensures
        rows_land(tables, rows_placed(tables, landed_rows(rows, taken)), rows, taken),
    decreases rows.len(),
{
    let after = rows_placed(tables, landed_rows(rows, taken));
    if rows.len() > 0 {
        let less = rows.drop_last();
        let end = rows.len() - 1;
        let last = rows[end];
        lemma_rows_land(tables, less, taken);
        let between = rows_placed(tables, landed_rows(less, taken));
        if taken_at(taken, end) {
            let all = landed_rows(rows, taken);
            assert(all.drop_last() =~= landed_rows(less, taken));
            assert(all.last() == last);
        }
        assert forall|table: Seq<char>, key: KeyModel|
            !(taken_at(taken, end) && row_for(last, table, key)) implies #[trigger] held_at(
            after,
            table,
            key,
        ) == held_at(between, table, key) by {}
        assert(taken_at(taken, end) ==> held_at(after, last.family.table, last.key)
            == last.payload);
        assert forall|table: Seq<char>, key: KeyModel|
            (forall|i: int|
                0 <= i < rows.len() && taken_at(taken, i) ==> !row_for(
                    #[trigger] rows[i],
                    table,
                    key,
                )) implies #[trigger] held_at(after, table, key) == held_at(
            tables,
            table,
            key,
        ) by {
            assert(taken_at(taken, end) ==> !row_for(rows[end], table, key));
            assert forall|i: int| 0 <= i < less.len() && taken_at(taken, i) implies !row_for(
                #[trigger] less[i],
                table,
                key,
            ) by {
                assert(less[i] == rows[i]);
            }
        }
        assert forall|i: int|
            #![trigger rows[i]]
            0 <= i < rows.len() && taken_at(taken, i) && (forall|j: int|
                i < j < rows.len() && taken_at(taken, j) ==> !row_for(
                    #[trigger] rows[j],
                    rows[i].family.table,
                    rows[i].key,
                )) implies held_at(after, rows[i].family.table, rows[i].key)
            == rows[i].payload by {
            if i < end {
                assert(taken_at(taken, end) ==> !row_for(
                    rows[end],
                    rows[i].family.table,
                    rows[i].key,
                ));
                assert(less[i] == rows[i]);
                assert forall|j: int| i < j < less.len() && taken_at(taken, j) implies !row_for(
                    #[trigger] less[j],
                    less[i].family.table,
                    less[i].key,
                ) by {
                    assert(less[j] == rows[j]);
                }
                assert(held_at(between, less[i].family.table, less[i].key) == less[i].payload);
            }
        }
    }
}

/// A metadata row tells of a versioned entry: its place, and of each of its
/// operations the verb, the table and the key.
pub open spec fn tells_of(commit: LogEntryModel, entry: EntryModel) -> bool {
    &&& commit.commit_sequence == entry.commit_sequence
    &&& commit.snapshot == entry.snapshot
    &&& commit.operations.len() == entry.operations.len()
    &&& forall|i: int|
        0 <= i < entry.operations.len() ==> {
            &&& (#[trigger] commit.operations[i]).operation == entry.operations[i].operation
            &&& commit.operations[i].table == entry.operations[i].family.table
            &&& commit.operations[i].key == entry.operations[i].key
        }
}

/// An entry is the last of a list with its number.
pub open spec fn last_numbered(entries: Seq<EntryModel>, at: int) -> bool {
    forall|later: int|
        at < later < entries.len() ==> (#[trigger] entries[later]).commit_sequence
            != entries[at].commit_sequence
}

/// A number has no entry in a list.
pub open spec fn unnumbered(entries: Seq<EntryModel>, number: u64) -> bool {
    forall|e: int| 0 <= e < entries.len() ==> (#[trigger] entries[e]).commit_sequence != number
}

/// An entry stands under its number in the versioned log, with its metadata
/// row and its outbox row beside it.
pub open spec fn logged_under(store: StoreModel, entry: EntryModel) -> bool {
    let number = entry.commit_sequence;
    &&& store.versioned_log.dom().contains(number)
    &&& store.versioned_log[number] == entry
    &&& store.commit_log.dom().contains(number)
    &&& tells_of(store.commit_log[number], entry)
    &&& store.outbox.dom().contains(number)
    &&& store.outbox[number] == (HeadModel { commit_sequence: number, digest: entry.digest })
}

/// The log rows under a number are as they were.
pub open spec fn same_under(before: StoreModel, after: StoreModel, number: u64) -> bool {
    &&& after.versioned_log.dom().contains(number) == before.versioned_log.dom().contains(number)
    &&& after.versioned_log[number] == before.versioned_log[number]
    &&& after.commit_log.dom().contains(number) == before.commit_log.dom().contains(number)
    &&& after.commit_log[number] == before.commit_log[number]
    &&& after.outbox.dom().contains(number) == before.outbox.dom().contains(number)
    &&& after.outbox[number] == before.outbox[number]
}

/// The store stands at the last of the entries, which its counts have
/// counted.
pub open spec fn stands_after(
    before: StoreModel,
    after: StoreModel,
    entries: Seq<EntryModel>,
) -> bool {
    &&& if entries.len() == 0 {
        &&& after.commit_sequence == before.commit_sequence
        &&& after.snapshot == before.snapshot
        &&& after.chain_head == before.chain_head
    } else {
        &&& after.commit_sequence == Some(entries[entries.len() - 1].commit_sequence)
        &&& after.snapshot == Some(entries[entries.len() - 1].snapshot)
        &&& after.chain_head == Some(entries[entries.len() - 1].digest)
    }
    &&& counted_so_far(after.commit_count) == counted_so_far(before.commit_count) + entries.len()
    &&& counted_so_far(after.versioned_count) == counted_so_far(before.versioned_count)
        + entries.len()
}

/// Entries were taken over into the logs: each stands under its number; the
/// store stands at the last of them; every other log row is as it was.
pub open spec fn entries_join(
    before: StoreModel,
    after: StoreModel,
    entries: Seq<EntryModel>,
) -> bool {
    &&& forall|e: int|
        0 <= e < entries.len() && #[trigger] last_numbered(entries, e) ==> logged_under(
            after,
            entries[e],
        )
    &&& forall|number: u64| #[trigger]
        unnumbered(entries, number) ==> same_under(before, after, number)
    &&& stands_after(before, after, entries)
    &&& after.tables.records == before.tables.records
    &&& after.tables.identified == before.tables.identified
    &&& keeps_rest(before, after)
}

/// What no landing touches: the catalog, the subscriptions, the checkpoints
/// and the mirror's cursor.
pub open spec fn keeps_rest(before: StoreModel, after: StoreModel) -> bool {
    &&& after.catalog == before.catalog
    &&& after.next_subscription == before.next_subscription
    &&& after.subscriptions == before.subscriptions
    &&& after.latest_checkpoint == before.latest_checkpoint
    &&& after.checkpoints == before.checkpoints
    &&& after.segments == before.segments
    &&& after.layout == before.layout
    &&& after.mirror == before.mirror
}

/// One entry that is taken over.
#[verifier::rlimit(40)]
proof fn lemma_entry_joins(store: StoreModel, entries: Seq<EntryModel>)
    requires
        entries.len() > 0,
        has_log_room(store, entries.len() as int),
        stands_after(
            store,
            entries_logged(store, entries.drop_last()),
            entries.drop_last(),
        ),
    ensures
        ({
            let before = entries_logged(store, entries.drop_last());
            let after = entries_logged(store, entries);
            let last = entries[entries.len() - 1];
            &&& logged_under(after, last)
            &&& forall|number: u64|
                number != last.commit_sequence ==> #[trigger] same_under(before, after, number)
            &&& stands_after(store, after, entries)
            &&& after.tables.records == before.tables.records
            &&& after.tables.identified == before.tables.identified
            &&& keeps_rest(before, after)
            &&& after.staged == before.staged
        }),
{
}

/// Entries that are taken over join the logs, every one of them.
pub proof fn lemma_entries_join(store: StoreModel, entries: Seq<EntryModel>)
    requires
        has_log_room(store, entries.len() as int),
    ensures
        entries_join(store, entries_logged(store, entries), entries),
        entries_logged(store, entries).staged == store.staged,
    decreases entries.len(),
{
    let after = entries_logged(store, entries);
    if entries.len() > 0 {
        let less = entries.drop_last();
        let end = entries.len() - 1;
        let last = entries[end];
        lemma_entries_join(store, less);
        lemma_entry_joins(store, entries);
        let between = entries_logged(store, less);
        assert forall|e: int|
            0 <= e < entries.len() && #[trigger] last_numbered(
                entries,
                e,
            ) implies logged_under(after, entries[e]) by {
            if e < end {
                assert(entries[end].commit_sequence != entries[e].commit_sequence);
                assert forall|later: int| e < later < less.len() implies (
                #[trigger] less[later]).commit_sequence != less[e].commit_sequence by {
                    assert(less[later] == entries[later]);
                }
                assert(last_numbered(less, e));
                assert(logged_under(between, less[e]));
                assert(same_under(between, after, entries[e].commit_sequence));
            }
        }
        assert forall|number: u64| #[trigger] unnumbered(entries, number) implies same_under(
            store,
            after,
            number,
        ) by {
            assert(entries[end].commit_sequence != number);
            assert forall|e: int| 0 <= e < less.len() implies (
            #[trigger] less[e]).commit_sequence != number by {
                assert(less[e] == entries[e]);
            }
            assert(unnumbered(less, number));
            assert(same_under(between, after, number));
        }
    }
}

/// The identifier that an operation minted, if it minted one: that of an
/// assertion of an engine-identified record.
pub open spec fn minted(operation: OperationModel) -> Option<u64> {
    match operation.key {
        Some(KeyModel::Identifier(identifier)) => if operation.operation is Assert {
            Some(identifier)
        } else {
            None
        },
        _ => None,
    }
}

/// The least value that a table's counter may have once an identifier is
/// taken: the one after it, as far as there is one.
pub open spec fn beyond(identifier: u64) -> int {
    if identifier == u64::MAX {
        identifier as int
    } else {
        identifier + 1
    }
}

/// Counters stand past every identifier that operations minted, none has
/// moved back, and none has moved further than it had to.
pub open spec fn minted_past(
    before: Map<Seq<char>, u64>,
    after: Map<Seq<char>, u64>,
    operations: Seq<OperationModel>,
) -> bool {
    &&& forall|counter: Seq<char>| #[trigger]
        before.dom().contains(counter) ==> after.dom().contains(counter) && after[counter]
            >= before[counter]
    &&& forall|i: int|
        0 <= i < operations.len() && minted(#[trigger] operations[i]) is Some ==> {
            let counter = counter_key_text(operations[i].family.table);
            after.dom().contains(counter) && after[counter] >= beyond(minted(operations[i])->0)
        }
    &&& forall|counter: Seq<char>| #[trigger]
        after.dom().contains(counter) ==> {
            ||| before.dom().contains(counter) && after[counter] == before[counter]
            ||| exists|i: int|
                0 <= i < operations.len() && minted(#[trigger] operations[i]) is Some
                    && counter_key_text(operations[i].family.table) == counter
                    && after[counter] == beyond(minted(operations[i])->0)
        }
}

/// Taking operations over moves the counters past what they minted.
pub proof fn lemma_minted_past(counters: Map<Seq<char>, u64>, operations: Seq<OperationModel>)
    ensures
        minted_past(counters, counters_advanced(counters, operations), operations),
    decreases operations.len(),
{
    let after = counters_advanced(counters, operations);
    if operations.len() > 0 {
        let less = operations.drop_last();
        let end = operations.len() - 1;
        lemma_minted_past(counters, less);
        let between = counters_advanced(counters, less);
        assert forall|i: int|
            0 <= i < operations.len() && minted(#[trigger] operations[i]) is Some implies {
            let counter = counter_key_text(operations[i].family.table);
            after.dom().contains(counter) && after[counter] >= beyond(minted(operations[i])->0)
        } by {
            if i < end {
                assert(less[i] == operations[i]);
                assert(between.dom().contains(counter_key_text(less[i].family.table)));
            }
        }
        assert forall|counter: Seq<char>| #[trigger] after.dom().contains(counter) implies {
            ||| counters.dom().contains(counter) && after[counter] == counters[counter]
            ||| exists|i: int|
                0 <= i < operations.len() && minted(#[trigger] operations[i]) is Some
                    && counter_key_text(operations[i].family.table) == counter
                    && after[counter] == beyond(minted(operations[i])->0)
        } by {
            if between.dom().contains(counter) && after[counter] == between[counter] {
                if !(counters.dom().contains(counter) && after[counter] == counters[counter]) {
                    let i = choose|i: int|
                        0 <= i < less.len() && minted(#[trigger] less[i]) is Some
                            && counter_key_text(less[i].family.table) == counter
                            && between[counter] == beyond(minted(less[i])->0);
                    assert(operations[i] == less[i]);
                }
            } else {
                assert(minted(operations[end]) is Some);
            }
        }
    }
}

/// The record that stood under a removal: the first that was noted for its
/// place.
pub open spec fn noted(images: Seq<PreImageModel>, entry: int, operation: int) -> Option<
    Seq<u8>,
> {
    let found = images.filter(
        |image: PreImageModel| image.entry_index == entry && image.operation_index == operation,
    );
    if found.len() == 0 {
        None
    } else {
        Some(found[0].bytes)
    }
}

/// Pre-images are found by their place.
pub proof fn lemma_noted(images: Seq<PreImageModel>, entry: int, operation: int)
    ensures
        pre_image_at(images, entry, operation) == noted(images, entry, operation),
    decreases images.len(),
{
    let here = |image: PreImageModel|
        image.entry_index == entry && image.operation_index == operation;
    reveal(Seq::filter);
    if images.len() > 0 {
        let first = seq![images[0]];
        let rest = images.drop_first();
        lemma_noted(rest, entry, operation);
        assert(images =~= first + rest);
        Seq::filter_distributes_over_add(first, rest, here);
        assert(first.drop_last() =~= Seq::empty());
        assert(first.drop_last().filter(here) =~= Seq::empty());
        assert(first.filter(here) == if here(images[0]) {
            Seq::<PreImageModel>::empty().push(images[0])
        } else {
            Seq::empty()
        });
        if !here(images[0]) {
            assert(images.filter(here) =~= rest.filter(here));
        } else {
            assert(images.filter(here)[0] == images[0]);
        }
    } else {
        assert(images.filter(here) =~= Seq::empty());
    }
}

/// The kind of change that a logged operation is announced as.
pub open spec fn kind_told(operation: SemaOperation) -> DeltaKind {
    if operation is Retract {
        DeltaKind::Retract
    } else if operation is Mutate {
        DeltaKind::Mutate
    } else {
        DeltaKind::Assert
    }
}

/// What one logged operation of a group is announced as: with the record
/// that it wrote, or the record that stood before it was removed; nothing
/// where neither is known or it names no key.
pub open spec fn told_of(group: GroupModel, entry: int, at: int) -> Seq<AnnouncementModel> {
    let operation = group.entries[entry].operations[at];
    let record = if operation.payload is Some {
        operation.payload
    } else {
        noted(group.pre_images, entry, at)
    };
    if operation.key is Some && record is Some {
        seq![
            AnnouncementModel {
                kind: kind_told(operation.operation),
                family: operation.family,
                key: operation.key->0,
                snapshot: group.entries[entry].snapshot,
                bytes: record->0,
            },
        ]
    } else {
        Seq::empty()
    }
}

/// What the first operations of an entry are announced as, one by one.
pub open spec fn told_first(group: GroupModel, entry: int, count: nat) -> Seq<
    Seq<AnnouncementModel>,
> {
    Seq::new(count, |at: int| told_of(group, entry, at))
}

/// What the first entries of a group are announced as, entry by entry and
/// operation by operation.
pub open spec fn told_in_order(group: GroupModel, count: nat) -> Seq<Seq<AnnouncementModel>> {
    Seq::new(
        count,
        |entry: int|
            told_first(group, entry, group.entries[entry].operations.len()).flatten(),
    )
}

proof fn lemma_entry_told(group: GroupModel, entry: int, count: nat)
    requires
        0 <= entry < group.entries.len(),
        count <= group.entries[entry].operations.len(),
    ensures
        entry_announcements(
            group,
            entry,
            group.entries[entry].operations.take(count as int),
        ) == told_first(group, entry, count).flatten(),
    decreases count,
{
    let operations = group.entries[entry].operations;
    let lists = told_first(group, entry, count);
    lemma_flatten_last(lists);
    if count > 0 {
        let fewer = (count - 1) as nat;
        lemma_entry_told(group, entry, fewer);
        assert(lists.drop_last() =~= told_first(group, entry, fewer));
        assert(operations.take(count as int).drop_last() =~= operations.take(fewer as int));
        assert(operations.take(count as int).last() == operations[count - 1]);
        lemma_noted(group.pre_images, entry, count - 1);
        assert(entry_announcements(group, entry, operations.take(count as int))
            =~= entry_announcements(group, entry, operations.take(fewer as int)) + told_of(
            group,
            entry,
            count - 1,
        ));
    }
}

/// A group is announced entry by entry, every operation of it.
pub proof fn lemma_told_in_order(group: GroupModel, count: nat)
    requires
        count <= group.entries.len(),
    ensures
        announcements(group, count as int) == told_in_order(group, count).flatten(),
    decreases count,
{
    let lists = told_in_order(group, count);
    lemma_flatten_last(lists);
    if count > 0 {
        let fewer = (count - 1) as nat;
        lemma_told_in_order(group, fewer);
        assert(lists.drop_last() =~= told_in_order(group, fewer));
        let operations = group.entries[count - 1].operations;
        lemma_entry_told(group, count - 1, operations.len());
        assert(operations.take(operations.len() as int) =~= operations);
    }
}

/// The deltas due for an announcement, once a table was named for it: where
/// that is its family's own table, one for each subscription that is to be
/// told.
pub open spec fn delivered(
    subscriptions: Seq<ActiveModel>,
    told: AnnouncementModel,
    answer: Option<Seq<char>>,
) -> Seq<DeltaModel<RecordModel>> {
    if answer == Some(told.family.table) {
        audience(subscriptions, told.family.table, told.key).map_values(
            |active: ActiveModel|
                DeltaModel {
                    handle: active.handle,
                    kind: told.kind,
                    table: told.family.table,
                    key: told.key,
                    snapshot: told.snapshot,
                    record: RecordModel { key: told.key, bytes: told.bytes },
                },
        )
    } else {
        Seq::empty()
    }
}

/// The deltas due for announcements, one after the other.
pub open spec fn delivered_in_order(
    subscriptions: Seq<ActiveModel>,
    told: Seq<AnnouncementModel>,
    answers: Seq<Option<Seq<char>>>,
) -> Seq<Seq<DeltaModel<RecordModel>>> {
    Seq::new(told.len(), |i: int| delivered(subscriptions, told[i], answers[i]))
}

/// Announcements go out in order, each to its audience.
pub proof fn lemma_delivered_in_order(
    subscriptions: Seq<ActiveModel>,
    told: Seq<AnnouncementModel>,
    answers: Seq<Option<Seq<char>>>,
)
    requires
        answers.len() == told.len(),
    ensures
        answered(subscriptions, told, answers) == delivered_in_order(
            subscriptions,
            told,
            answers,
        ).flatten(),
    decreases told.len(),
{
    let lists = delivered_in_order(subscriptions, told, answers);
    lemma_flatten_last(lists);
    if told.len() > 0 {
        let less = told.drop_last();
        let fewer = answers.drop_last();
        lemma_delivered_in_order(subscriptions, less, fewer);
        assert(lists.drop_last() =~= delivered_in_order(subscriptions, less, fewer));
        let last = told.last();
        let record = RecordModel { key: last.key, bytes: last.bytes };
        lemma_fans_out(
            subscriptions,
            last.kind,
            last.family.table,
            last.key,
            last.snapshot,
            record,
        );
        if answers.last() == Some(last.family.table) {
            assert(fanned(
                subscriptions,
                last.kind,
                last.family.table,
                last.key,
                last.snapshot,
                record,
            ) =~= delivered(subscriptions, last, answers.last()));
        } else {
            assert(answered(subscriptions, less, fewer) + delivered(
                subscriptions,
                last,
                answers.last(),
            ) =~= answered(subscriptions, less, fewer));
        }
    }
}

/// A group waits to land.
pub open spec fn waits(store: StoreModel) -> bool {
    store.staged is Some && store.staged->0.entries.len() > 0
}

/// The store stands where the first entry of a group expects it.
pub open spec fn in_place(store: StoreModel, first: EntryModel) -> bool {
    &&& first.previous == store.chain_head
    &&& first.commit_sequence == counted_so_far(store.commit_sequence) + 1
    &&& first.snapshot == counted_so_far(store.snapshot) + 1
}

/// The digest that an entry of a list must name as the one before it.
pub open spec fn expected_before(
    head: Option<Seq<u8>>,
    entries: Seq<EntryModel>,
    at: int,
) -> Option<Seq<u8>> {
    if at == 0 {
        head
    } else {
        Some(entries[at - 1].digest)
    }
}

/// An entry of a list carries its own digest and names the one before it.
pub open spec fn fits(head: Option<Seq<u8>>, entries: Seq<EntryModel>, at: int) -> bool {
    &&& entries[at].digest == sealed(entries[at]).digest
    &&& entries[at].previous == expected_before(head, entries, at)
}

/// A list is refused at its first entry that does not fit, for its digest
/// before its place.
pub open spec fn misfit(
    head: Option<Seq<u8>>,
    entries: Seq<EntryModel>,
    at: int,
    failure: Failure,
) -> bool {
    let entry = entries[at];
    &&& 0 <= at < entries.len()
    &&& forall|e: int| 0 <= e < at ==> #[trigger] fits(head, entries, e)
    &&& !fits(head, entries, at)
    &&& if entry.digest != sealed(entry).digest {
        failure == (Failure::StagedGroupDigestMismatch {
            sequence: entry.commit_sequence,
            staged: entry.digest,
            computed: sealed(entry).digest,
        })
    } else {
        failure == (Failure::VersionedChainBroken { sequence: entry.commit_sequence })
    }
}

/// Entries fit as they do without the last.
proof fn lemma_fits_less(head: Option<Seq<u8>>, entries: Seq<EntryModel>, e: int)
    requires
        0 <= e < entries.len() - 1,
    ensures
        fits(head, entries, e) == fits(head, entries.drop_last(), e),
{
    let less = entries.drop_last();
    assert(less[e] == entries[e]);
    if e > 0 {
        assert(less[e - 1] == entries[e - 1]);
    }
}

/// A group is sound where every entry fits, and refused at the first that
/// does not.
#[verifier::rlimit(60)]
pub proof fn lemma_group_fits(head: Option<Seq<u8>>, entries: Seq<EntryModel>)
    ensures
        match group_flaw(head, entries) {
            None => forall|e: int| 0 <= e < entries.len() ==> #[trigger] fits(head, entries, e),
            Some(failure) => exists|at: int| #[trigger] misfit(head, entries, at, failure),
        },
    decreases entries.len(),
{
    if entries.len() > 0 {
        let less = entries.drop_last();
        let end = entries.len() - 1;
        lemma_group_fits(head, less);
        match group_flaw(head, less) {
            Some(failure) => {
                let at = choose|at: int| #[trigger] misfit(head, less, at, failure);
                assert forall|e: int| 0 <= e < at implies #[trigger] fits(head, entries, e) by {
                    assert(fits(head, less, e));
                    lemma_fits_less(head, entries, e);
                }
                lemma_fits_less(head, entries, at);
                assert(less[at] == entries[at]);
                assert(misfit(head, entries, at, failure));
            },
            None => {
                assert(entries[end] == sealed(entries[end]) <==> entries[end].digest == sealed(
                    entries[end],
                ).digest);
                assert(head_after(head, less) == expected_before(head, entries, end));
                assert forall|e: int| 0 <= e < end implies #[trigger] fits(head, entries, e) by {
                    assert(fits(head, less, e));
                    lemma_fits_less(head, entries, e);
                }
                if let Some(failure) = group_flaw(head, entries) {
                    assert(misfit(head, entries, end, failure));
                }
            },
        }
    }
}

/// Why a group may not land, where one may not: nothing waits; the store
/// has moved on; or an entry does not fit.
pub open spec fn may_not_land(store: StoreModel, failure: Failure) -> bool {
    if !waits(store) {
        failure == (Failure::StagingSlotEmpty { surface: "materialize_staged_group"@ })
    } else if !in_place(store, store.staged->0.entries[0]) {
        failure == (Failure::StagingBaseMoved { sequence: counted_so_far(store.commit_sequence) })
    } else {
        exists|at: int| #[trigger]
            misfit(store.chain_head, store.staged->0.entries, at, failure)
    }
}

/// A group may land.
pub open spec fn may_land(store: StoreModel) -> bool {
    &&& waits(store)
    &&& in_place(store, store.staged->0.entries[0])
    &&& forall|e: int|
        0 <= e < store.staged->0.entries.len() ==> #[trigger] fits(
            store.chain_head,
            store.staged->0.entries,
            e,
        )
}

/// The parked group lands exactly where it waits, in place and sound.
pub proof fn lemma_landable(store: StoreModel)
    ensures
        match landable(store) {
            Ok(group) => may_land(store) && store.staged == Some(group),
            Err(failure) => may_not_land(store, failure) && !may_land(store),
        },
{
    if waits(store) {
        lemma_group_fits(store.chain_head, store.staged->0.entries);
        if let Some(failure) = group_flaw(store.chain_head, store.staged->0.entries) {
            let at = choose|at: int| #[trigger]
                misfit(store.chain_head, store.staged->0.entries, at, failure);
            assert(!fits(store.chain_head, store.staged->0.entries, at));
        }
    }
}

/// The row that an operation leaves, where it names a key.
pub open spec fn rows_of(operation: OperationModel) -> Seq<RowModel> {
    if operation.key is Some {
        seq![
            RowModel {
                family: operation.family,
                key: operation.key->0,
                payload: operation.payload,
            },
        ]
    } else {
        Seq::empty()
    }
}

/// The rows that operations leave, one after the other.
pub open spec fn rows_in_order(operations: Seq<OperationModel>) -> Seq<Seq<RowModel>> {
    operations.map_values(|operation: OperationModel| rows_of(operation))
}

/// Every operation that names a key leaves its row, in order.
pub proof fn lemma_rows_in_order(operations: Seq<OperationModel>)
    ensures
        operation_rows(operations) == rows_in_order(operations).flatten(),
    decreases operations.len(),
{
    let lists = rows_in_order(operations);
    lemma_flatten_last(lists);
    if operations.len() > 0 {
        let less = operations.drop_last();
        lemma_rows_in_order(less);
        assert(lists.drop_last() =~= rows_in_order(less));
        assert(operation_rows(operations) =~= operation_rows(less) + rows_of(operations.last()));
    }
}

/// The operations of a list of entries, one entry after the other.
pub open spec fn operations_in_order(entries: Seq<EntryModel>) -> Seq<OperationModel> {
    entries.map_values(|entry: EntryModel| entry.operations).flatten()
}

/// The operations of entries are those of every entry, in order.
pub proof fn lemma_operations_in_order(entries: Seq<EntryModel>)
    ensures
        all_operations(entries) == operations_in_order(entries),
    decreases entries.len(),
{
    let lists = entries.map_values(|entry: EntryModel| entry.operations);
    lemma_flatten_last(lists);
    if entries.len() > 0 {
        let less = entries.drop_last();
        lemma_operations_in_order(less);
        assert(lists.drop_last() =~= less.map_values(|entry: EntryModel| entry.operations));
    }
}

/// A store in which entries landed: they joined its logs and moved its
/// counters past what they minted, the rows that were taken of them stand,
/// and the slot is free.
pub open spec fn lands_by_way_of(
    before: StoreModel,
    logged: StoreModel,
    after: StoreModel,
    entries: Seq<EntryModel>,
    taken: Seq<bool>,
) -> bool {
    let operations = operations_in_order(entries);
    &&& entries_join(before, logged, entries)
    &&& minted_past(before.tables.counters, logged.tables.counters, operations)
    &&& rows_land(
        logged.tables,
        after.tables,
        rows_in_order(operations).flatten(),
        taken,
    )
    &&& after == (StoreModel { tables: after.tables, staged: None, ..logged })
}

/// What landing a group does, once it is known which of its rows were taken
/// and which table was named for each announcement.
pub open spec fn group_lands(
    before: EngineModel,
    after: EngineModel,
    taken: Seq<bool>,
    answers: Seq<Option<Seq<char>>>,
) -> bool {
    let group = before.store.staged->0;
    let told = told_in_order(group, group.entries.len()).flatten();
    &&& after.store.staged is None
    &&& exists|logged: StoreModel| #[trigger]
        lands_by_way_of(before.store, logged, after.store, group.entries, taken)
    &&& after.deltas == before.deltas + delivered_in_order(
        before.subscriptions,
        told,
        answers,
    ).flatten()
    &&& after.catalog == before.catalog
    &&& after.subscriptions == before.subscriptions
    &&& after.policy == before.policy
    &&& after.topology == before.topology
    &&& after.session == before.session
}

/// A receipt names where the group's last entry leaves the store.
pub open spec fn group_receipted(store: StoreModel, receipt: MaterializeStagedReceipt) -> bool {
    let entries = store.staged->0.entries;
    let last = entries[entries.len() - 1];
    &&& receipt@.head == last.digest
    &&& receipt@.commit_sequence == last.commit_sequence
    &&& receipt@.snapshot == last.snapshot
    &&& receipt@.entry_count == entries.len() as usize
}

proof fn lemma_store_lands(store: StoreModel, group: GroupModel, taken: Seq<bool>)
    requires
        has_log_room(store, group.entries.len() as int),
    ensures
        lands_by_way_of(
            store,
            entries_logged(store, group.entries),
            group_landed(store, group, landed_rows(group_rows(group), taken)),
            group.entries,
            taken,
        ),
{
    let entries = group.entries;
    let operations = all_operations(entries);
    let logged = entries_logged(store, entries);
    lemma_operations_in_order(entries);
    lemma_rows_in_order(operations);
    lemma_entries_join(store, entries);
    lemma_entries_elsewhere(store, entries);
    lemma_minted_past(store.tables.counters, operations);
    lemma_rows_land(logged.tables, group_rows(group), taken);
}

proof fn lemma_group_lands(
    before: EngineModel,
    taken: Seq<bool>,
    answers: Seq<Option<Seq<char>>>,
)
    requires
        before.store.staged is Some,
        has_group_room(before.store),
        answers.len() == announcements(
            before.store.staged->0,
            before.store.staged->0.entries.len() as int,
        ).len(),
    ensures
        ({
            let group = before.store.staged->0;
            group_lands(
                before,
                staging_landed(before, group, landed_rows(group_rows(group), taken), answers),
                taken,
                answers,
            )
        }),
{
    let group = before.store.staged->0;
    let entries = group.entries;
    let after = staging_landed(before, group, landed_rows(group_rows(group), taken), answers);
    let logged = entries_logged(before.store, entries);
    lemma_store_lands(before.store, group, taken);
    lemma_told_in_order(group, entries.len());
    lemma_delivered_in_order(
        before.subscriptions,
        announcements(group, entries.len() as int),
        answers,
    );
    assert(lands_by_way_of(before.store, logged, after.store, entries, taken));
}

/// Landing the parked group with given verdicts: refused, with nothing
/// changed, exactly where the group may not land or the verdict is a
/// refusal; else every entry joins the logs, the taken rows stand, and each
/// announcement goes to the subscriptions that are to be told of it.
pub proof fn lemma_materialize_with_call(
    engine: &mut Engine,
    verdict: Result<Vec<bool>, Error>,
    answers: Vec<Option<TableName>>,
    outcome: Result<MaterializeStagedReceipt, Error>,
)
    requires
        has_group_room(old(engine)@.store),
        call_ensures(Engine::materialize_staged_with, (engine, verdict, answers), outcome),
    ensures
        match outcome {
            Ok(receipt) => {
                &&& may_land(old(engine)@.store)
                &&& verdict is Ok
                &&& group_receipted(old(engine)@.store, receipt)
                &&& exists|named: Seq<Option<Seq<char>>>|
                    {
                        &&& #[trigger] group_lands(
                            old(engine)@,
                            final(engine)@,
                            verdict->Ok_0@,
                            named,
                        )
                        &&& forall|i: int|
                            0 <= i < named.len() ==> #[trigger] named[i] == if i
                                < answers@.len() && answers@[i] is Some {
                                Some(answers@[i]->0@)
                            } else {
                                None
                            }
                    }
            },
            Err(error) => {
                &&& final(engine)@ == old(engine)@
                &&& if may_land(old(engine)@.store) {
                    verdict == Err::<Vec<bool>, Error>(error)
                } else {
                    may_not_land(old(engine)@.store, error@)
                }
            },
        },
{
    let before = old(engine)@;
    lemma_landable(before.store);
    if outcome is Ok {
        let group = before.store.staged->0;
        let told = announcements(group, group.entries.len() as int);
        let named = given_answers(answer_models(answers@), told.len());
        lemma_group_lands(before, verdict->Ok_0@, named);
        assert(group_lands(before, final(engine)@, verdict->Ok_0@, named));
    }
}

/// Landing the parked group through a directory: as with the verdicts that
/// the directory gave row by row, and the tables that it named announcement
/// by announcement.
pub proof fn lemma_materialize_call<Directory: FamilyDirectory>(
    engine: &mut Engine,
    directory: &Directory,
    outcome: Result<MaterializeStagedReceipt, Error>,
)
    requires
        has_group_room(old(engine)@.store),
        call_ensures(
            Engine::materialize_staged_group::<Directory>,
            (engine, directory),
            outcome,
        ),
    ensures
        match outcome {
            Ok(receipt) => {
                let group = old(engine)@.store.staged->0;
                let rows = rows_in_order(operations_in_order(group.entries)).flatten();
                let told = told_in_order(group, group.entries.len()).flatten();
                &&& may_land(old(engine)@.store)
                &&& group_receipted(old(engine)@.store, receipt)
                &&& exists|taken: Seq<bool>, named: Seq<Option<Seq<char>>>|
                    {
                        &&& #[trigger] group_lands(old(engine)@, final(engine)@, taken, named)
                        &&& taken.len() == rows.len()
                        &&& forall|i: int|
                            0 <= i < rows.len() ==> took(directory, #[trigger] rows[i], taken[i])
                        &&& asked(directory, told, named)
                    }
            },
            Err(error) => {
                &&& final(engine)@ == old(engine)@
                &&& !may_land(old(engine)@.store) ==> may_not_land(old(engine)@.store, error@)
            },
        },
{
    let before = old(engine)@;
    lemma_landable(before.store);
    if outcome is Ok {
        let group = before.store.staged->0;
        let told = announcements(group, group.entries.len() as int);
        let (taken, answers) = choose|taken: Seq<bool>, answers: Seq<Option<Seq<char>>>|
            {
                &&& consulted(directory, group_rows(group), Ok(taken))
                &&& asked(directory, told, answers)
                &&& final(engine)@ == #[trigger] staging_landed(
                    before,
                    group,
                    landed_rows(group_rows(group), taken),
                    answers,
                )
            };
        lemma_group_lands(before, taken, answers);
        lemma_operations_in_order(group.entries);
        lemma_rows_in_order(all_operations(group.entries));
        lemma_told_in_order(group, group.entries.len());
        assert(group_lands(before, final(engine)@, taken, answers));
    }
}

} // verus!
