//! The mirror and the markers, call by call: what waits to be shipped, which
//! heads are confirmed, how durable a commit is, and where reads say the
//! store stands.

use vstd::prelude::*;

use crate::engine::Engine;
use crate::engine_model::EngineModel;
use crate::error::{Error, Failure};
use crate::laws::reads::{lemma_lists_log, lists_log};
use crate::listing::{from_number, log_values, number_rising};
use crate::models::views;
use crate::outbox::{Durability, HeadModel, MirrorAcknowledgement, MirrorHead, OutboxEntry};
use crate::sequence::CommitSequence;
use crate::store::StoreModel;
use crate::subscribe::SubscriptionRegistration;

verus! {

/// The commit up to which a mirror has confirmed a store, if it has
/// confirmed any.
pub open spec fn confirmed_to(store: StoreModel) -> int {
    match store.mirror {
        Some(head) => head.commit_sequence as int,
        None => 0,
    }
}

/// A commit waits in the outbox for a mirror.
pub open spec fn queued_at(store: StoreModel, sequence: u64) -> bool {
    store.outbox.dom().contains(sequence) && confirmed_to(store) < sequence
}

/// The unshipped rows are the outbox rows past the confirmed commit, every
/// one of them, once, in commit order.
pub proof fn lemma_unshipped_call(engine: &Engine, rows: Vec<OutboxEntry>)
    requires
        call_ensures(Engine::unshipped_outbox, (engine,), rows),
    ensures
        lists_log(engine@.store.outbox, confirmed_to(engine@.store) + 1, views(rows@)),
{
    lemma_lists_log(engine@.store.outbox, confirmed_to(engine@.store) + 1);
}

/// A head is confirmed exactly where the outbox and the log both hold its
/// digest at its sequence. A confirmed head moves the cursor where it lies
/// past it, and else changes nothing; a refused head changes nothing.
pub proof fn lemma_acknowledge_call(
    engine: &mut Engine,
    head: MirrorHead,
    outcome: Result<MirrorAcknowledgement, Error>,
)
    requires
        call_ensures(Engine::acknowledge_mirror, (engine, head), outcome),
    ensures
        ({
            let store = old(engine)@.store;
            let sequence = head@.commit_sequence;
            let queued = store.outbox.dom().contains(sequence);
            let recorded = store.outbox[sequence].digest;
            let logged = store.versioned_log.dom().contains(sequence)
                && store.versioned_log[sequence].digest == recorded;
            &&& outcome is Ok <==> queued && logged && recorded == head@.digest
            &&& match outcome {
                Ok(MirrorAcknowledgement::Advanced(cursor)) => {
                    &&& confirmed_to(store) < sequence || store.mirror is None
                    &&& cursor@ == head@
                    &&& final(engine)@.store.mirror == Some(head@)
                },
                Ok(MirrorAcknowledgement::Unchanged(cursor)) => {
                    &&& store.mirror is Some
                    &&& sequence <= confirmed_to(store)
                    &&& store.mirror == Some(cursor@)
                    &&& final(engine)@.store.mirror == store.mirror
                },
                Err(error) => {
                    &&& final(engine)@ == old(engine)@
                    &&& if !queued {
                        error@ == (Failure::MirrorHeadUnknown { sequence })
                    } else if !logged {
                        error@ == (Failure::OutboxEntryMismatch { sequence })
                    } else {
                        error@ == (Failure::MirrorHeadForked {
                            sequence,
                            recorded,
                            acknowledged: head@.digest,
                        })
                    }
                },
            }
            &&& final(engine)@ == (EngineModel {
                store: StoreModel { mirror: final(engine)@.store.mirror, ..store },
                ..old(engine)@
            })
        }),
{
}

/// The mirror's head reads back as it was confirmed.
pub proof fn lemma_mirror_head_call(engine: &Engine, head: Option<MirrorHead>)
    requires
        call_ensures(Engine::mirror_head, (engine,), head),
    ensures
        head is Some <==> engine@.store.mirror is Some,
        head matches Some(found) ==> engine@.store.mirror == Some(found@),
{
}

/// A logged commit is queued while it waits in the outbox, server-committed
/// once the mirror has confirmed it, and local where it was never queued; an
/// unlogged one has no durability.
pub proof fn lemma_durability_call(
    engine: &Engine,
    sequence: CommitSequence,
    outcome: Result<Durability, Error>,
)
    requires
        call_ensures(Engine::durability_of, (engine, sequence), outcome),
        engine@.store.outbox.dom().contains(sequence@) ==> engine@.store.outbox[
            sequence@
        ].commit_sequence == sequence@,
    ensures
        match outcome {
            Ok(durability) => {
                &&& engine@.store.commit_log.dom().contains(sequence@)
                &&& durability is LocalCommitted <==> !engine@.store.outbox.dom().contains(
                    sequence@,
                )
                &&& durability is ServerCommitted <==> engine@.store.outbox.dom().contains(
                    sequence@,
                ) && engine@.store.mirror is Some && sequence@ <= confirmed_to(engine@.store)
            },
            Err(error) => {
                &&& !engine@.store.commit_log.dom().contains(sequence@)
                &&& error@ == (Failure::UnknownCommitSequence { sequence: sequence@ })
            },
        },
{
}

/// A store without versioning is local; a versioned one is queued as long
/// as any commit waits for the mirror, and server-committed once none does.
pub proof fn lemma_store_durability_call(engine: &Engine, durability: Durability)
    requires
        call_ensures(Engine::store_durability, (engine,), durability),
    ensures
        durability is LocalCommitted <==> engine@.policy is None,
        engine@.policy is Some ==> (durability is QueuedForMirror <==> exists|sequence: u64|
         #[trigger] queued_at(engine@.store, sequence)),
        engine@.policy is Some ==> (durability is ServerCommitted <==> forall|sequence: u64|
            !#[trigger] queued_at(engine@.store, sequence)),
{
    if engine@.policy is Some {
        let store = engine@.store;
        let start = confirmed_to(store) + 1;
        lemma_lists_log(store.outbox, start);
        let found = log_values(from_number(store.outbox, start));
        let listed = choose|listed: Seq<(u64, HeadModel)>|
            {
                &&& #[trigger] number_rising(listed)
                &&& found.len() == listed.len()
                &&& forall|i: int| 0 <= i < listed.len() ==> (#[trigger] listed[i]).1 == found[i]
                &&& forall|i: int|
                    0 <= i < listed.len() ==> {
                        &&& store.outbox.dom().contains((#[trigger] listed[i]).0)
                        &&& store.outbox[listed[i].0] == listed[i].1
                        &&& start <= listed[i].0
                    }
                &&& forall|key: u64|
                    #![trigger store.outbox.dom().contains(key)]
                    store.outbox.dom().contains(key) && start <= key ==> exists|i: int|
                        0 <= i < listed.len() && (#[trigger] listed[i]).0 == key
            };
        if found.len() > 0 {
            assert(queued_at(store, listed[0].0));
        }
    }
}

/// The recorded subscriptions are listed, every one, by rising identifier.
pub proof fn lemma_registrations_call(
    engine: &Engine,
    registrations: Vec<SubscriptionRegistration>,
)
    requires
        call_ensures(Engine::subscription_registrations, (engine,), registrations),
    ensures
        lists_log(engine@.store.subscriptions, 0, views(registrations@)),
{
    assert(from_number(engine@.store.subscriptions, 0) =~= engine@.store.subscriptions);
    lemma_lists_log(engine@.store.subscriptions, 0);
}

} // verus!
