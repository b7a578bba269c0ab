//! Mirroring: the shipped cursor only moves forward, a fork is never
//! acknowledged, and what a mirror confirmed stays confirmed.

use vstd::prelude::*;

use crate::engine::logged_digest;
use crate::engine_model::{has_room, landed, log_after, EngineModel};
use crate::error::Failure;
use crate::laws::checkpoints::lemma_from_number_listable;
use crate::laws::history::{coherent, lemma_landed_coherent, lemma_log_listing};
use crate::listing::{
    from_number, lemma_first_at, lemma_number_rising, lemma_numbered, lemma_tail, number_rising,
    numbered,
};
use crate::ordered_table::{has_key, keyed_at, lemma_position, listable, map_of};
use crate::outbox::{
    acknowledgement, commit_durability, entry_head, shipped_through, unshipped_rows, Durability,
    HeadModel,
};
use crate::store::{counted_so_far, StoreModel};
use crate::tables::WriteFact;
use crate::versioning::EntryModel;

verus! {

/// The store after a mirror's head was acknowledged.
pub open spec fn acknowledged(store: StoreModel, head: HeadModel) -> StoreModel {
    match acknowledgement(store, head, logged_digest(store, head.commit_sequence)) {
        Ok(made) => StoreModel { mirror: Some(made.cursor), ..store },
        Err(_) => store,
    }
}

/// The shipped cursor never moves back.
pub proof fn lemma_cursor_only_advances(store: StoreModel, head: HeadModel)
    ensures
        shipped_through(acknowledged(store, head)) >= shipped_through(store),
{
}

/// Acknowledging a head again changes nothing.
pub proof fn lemma_acknowledged_once(store: StoreModel, head: HeadModel)
    ensures
        acknowledged(acknowledged(store, head), head) == acknowledged(store, head),
        acknowledgement(store, head, logged_digest(store, head.commit_sequence)) is Ok ==> !(
        acknowledgement(
            acknowledged(store, head),
            head,
            logged_digest(store, head.commit_sequence),
        )->Ok_0.advanced),
{
}

/// A store in step acknowledges exactly the heads it logged: any other
/// digest at a logged sequence is a fork, and any other sequence is
/// unknown.
pub proof fn lemma_only_logged_heads(store: StoreModel, base: Option<Seq<u8>>, head: HeadModel)
    requires
        coherent(store, base),
    ensures
        ({
            let sequence = head.commit_sequence;
            let outcome = acknowledgement(store, head, logged_digest(store, sequence));
            store.versioned_log.dom().contains(sequence) ==> {
                let digest = store.versioned_log[sequence].digest;
                &&& outcome is Ok == (head.digest == digest)
                &&& head.digest != digest ==> outcome->Err_0 == (Failure::MirrorHeadForked {
                    sequence,
                    recorded: digest,
                    acknowledged: head.digest,
                })
            }
        }),
        !store.outbox.dom().contains(head.commit_sequence) ==> acknowledgement(
            store,
            head,
            logged_digest(store, head.commit_sequence),
        )->Err_0 == (Failure::MirrorHeadUnknown { sequence: head.commit_sequence }),
{
}

/// A refused acknowledgement changes nothing.
pub proof fn lemma_refused_head_changes_nothing(store: StoreModel, head: HeadModel)
    requires
        acknowledgement(store, head, logged_digest(store, head.commit_sequence)) is Err,
    ensures
        acknowledged(store, head) == store,
{
}

/// What a mirror confirmed stays confirmed: an acknowledged commit and
/// every logged commit before it are durable on the server, whatever is
/// acknowledged later.
pub proof fn lemma_confirmed_stays_confirmed(
    store: StoreModel,
    base: Option<Seq<u8>>,
    head: HeadModel,
    later: HeadModel,
    sequence: u64,
)
    requires
        coherent(store, base),
        acknowledgement(store, head, logged_digest(store, head.commit_sequence)) is Ok,
        store.versioned_log.dom().contains(sequence),
        sequence <= head.commit_sequence,
    ensures
        commit_durability(acknowledged(store, head), sequence) == Durability::ServerCommitted,
        commit_durability(acknowledged(acknowledged(store, head), later), sequence)
            == Durability::ServerCommitted,
{
    assert(store.outbox[sequence] == entry_head(store.versioned_log[sequence]));
    assert(store.versioned_log[sequence].commit_sequence == sequence);
    lemma_cursor_only_advances(acknowledged(store, head), later);
}

/// A new versioned commit waits for the mirror: it is queued until a head
/// at or past it is acknowledged.
pub proof fn lemma_new_commit_waits(
    engine: EngineModel,
    base: Option<Seq<u8>>,
    writes: Seq<WriteFact>,
)
    requires
        coherent(engine.store, base),
        engine.session is None,
        engine.policy is Some,
        has_room(engine, 1),
        shipped_through(engine.store) <= counted_so_far(engine.store.commit_sequence),
    ensures
        commit_durability(
            landed(engine, writes).store,
            (counted_so_far(engine.store.commit_sequence) + 1) as u64,
        ) == Durability::QueuedForMirror,
{
    lemma_landed_coherent(engine, base, writes);
}

/// The unshipped rows are exactly the log past the cursor: one for each
/// versioned entry, in commit order, with the digest that was logged.
pub proof fn lemma_unshipped_is_log(store: StoreModel, base: Option<Seq<u8>>)
    requires
        coherent(store, base),
    ensures
        ({
            let waiting = log_after(store, shipped_through(store));
            unshipped_rows(store) == Seq::new(waiting.len(), |i: int| entry_head(waiting[i]))
        }),
{
    let start = shipped_through(store) + 1;
    let tail = from_number(store.versioned_log, start);
    let queue = from_number(store.outbox, start);
    lemma_from_number_listable(store.versioned_log, start);
    let rows = numbered(tail);
    lemma_number_rising(rows);
    let heads = Seq::new(rows.len(), |i: int| (rows[i].0, entry_head(rows[i].1)));
    assert(number_rising(heads)) by {
        assert forall|i: int, j: int| 0 <= i < j < heads.len() implies (#[trigger] heads[i]).0 < (
        #[trigger] heads[j]).0 by {
            assert(rows[i].0 < rows[j].0);
        }
    }
    lemma_number_rising(heads);
    assert forall|key: u64| map_of(heads).dom().contains(key) == queue.dom().contains(key) by {
        if has_key(heads, key) {
            let i = choose|i: int| keyed_at(heads, key, i);
            lemma_position::<u64, EntryModel>(rows, i);
            assert(tail.dom().contains(key));
        }
        if queue.dom().contains(key) {
            assert(tail.dom().contains(key));
            assert(has_key(rows, key));
            let i = choose|i: int| keyed_at(rows, key, i);
            assert(keyed_at(heads, key, i));
        }
    }
    assert forall|key: u64| queue.dom().contains(key) implies map_of(heads)[key]
        == queue[key] by {
        assert(tail.dom().contains(key));
        assert(has_key(rows, key));
        let i = choose|i: int| keyed_at(rows, key, i);
        lemma_position::<u64, EntryModel>(rows, i);
        lemma_position::<u64, HeadModel>(heads, i);
    }
    assert(map_of(heads) =~= queue);
    lemma_numbered(heads);
    let waiting = log_after(store, shipped_through(store));
    assert(unshipped_rows(store) =~= Seq::new(waiting.len(), |i: int| entry_head(waiting[i])));
}

/// What is unshipped lies past the cursor.
pub proof fn lemma_unshipped_past_cursor(store: StoreModel, at: int)
    requires
        listable::<u64, HeadModel>(store.outbox),
        forall|key: u64| #[trigger]
            store.outbox.dom().contains(key) ==> store.outbox[key].commit_sequence == key,
        0 <= at < unshipped_rows(store).len(),
    ensures
        unshipped_rows(store)[at].commit_sequence > shipped_through(store),
        store.outbox.dom().contains(unshipped_rows(store)[at].commit_sequence),
{
    let rest = from_number(store.outbox, shipped_through(store) + 1);
    lemma_log_listing(store.outbox);
    let rows = numbered(store.outbox);
    lemma_number_rising(rows);
    let first = lemma_first_at(rows, shipped_through(store) + 1);
    lemma_tail(rows, first, shipped_through(store) + 1);
    let tail = rows.skip(first);
    lemma_number_rising(tail);
    lemma_position::<u64, HeadModel>(tail, at);
    assert(rest.dom().contains(tail[at].0));
}

} // verus!
