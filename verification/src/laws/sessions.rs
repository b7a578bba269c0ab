//! Staging sessions, call by call: when one begins, what parking keeps, and
//! what a parked group reports until it lands or is discarded.

use vstd::prelude::*;

use crate::engine::Engine;
use crate::engine_model::{standing_sequence, standing_snapshot, standing_tables, EngineModel};
use crate::error::{Error, Failure};
use crate::laws::landing::waits;
use crate::staging::{DiscardStagedReceipt, StageReceipt, StagedGroupSummary};
use crate::store::{counted_so_far, StoreModel};
use crate::versioning::{store_schema, versions};

verus! {

/// Only the session of an engine differs.
pub open spec fn same_but_session(before: EngineModel, after: EngineModel) -> bool {
    &&& after.store == before.store
    &&& after.catalog == before.catalog
    &&& after.subscriptions == before.subscriptions
    &&& after.policy == before.policy
    &&& after.topology == before.topology
    &&& after.deltas == before.deltas
}

/// A session begins exactly where none is engaged, the store is versioned
/// and no group is parked. It starts empty and sees what the store holds.
pub proof fn lemma_begin_call(engine: &mut Engine, outcome: Result<(), Error>)
    requires
        call_ensures(Engine::begin_staged_group, (engine,), outcome),
    ensures
        outcome is Ok <==> old(engine)@.session is None && old(engine)@.policy is Some
            && old(engine)@.store.staged is None,
        match outcome {
            Ok(_) => {
                let session = final(engine)@.session->0;
                let store = old(engine)@.store;
                &&& same_but_session(old(engine)@, final(engine)@)
                &&& final(engine)@.session is Some
                &&& session.entries.len() == 0
                &&& session.pre_images.len() == 0
                &&& session.tables == store.tables
                &&& session.chain_head == store.chain_head
                &&& session.commit_sequence == counted_so_far(store.commit_sequence)
                &&& session.snapshot == counted_so_far(store.snapshot)
                &&& session.base.chain_head == store.chain_head
                &&& session.base.commit_sequence == counted_so_far(store.commit_sequence)
                &&& session.base.snapshot == counted_so_far(store.snapshot)
                &&& session.store_name == old(engine)@.policy->0
                &&& session.schema_hash == store_schema(versions(old(engine)@.catalog))
            },
            Err(error) => {
                &&& final(engine)@ == old(engine)@
                &&& if old(engine)@.session is Some {
                    error@ is StagingSessionEngaged
                } else if old(engine)@.policy is None {
                    error@ == (Failure::VersioningNotEnabled { surface: "begin_staged_group"@ })
                } else {
                    error@ is StagingSlotOccupied
                }
            },
        },
{
}

/// Reads see the same rows at the same place when a session begins as
/// before it.
pub proof fn lemma_begin_shows_nothing(engine: &mut Engine)
    requires
        call_ensures(Engine::begin_staged_group, (engine,), Ok::<(), Error>(())),
    ensures
        standing_tables(final(engine)@) == standing_tables(old(engine)@),
        standing_sequence(final(engine)@) == standing_sequence(old(engine)@),
        standing_snapshot(final(engine)@) == standing_snapshot(old(engine)@),
{
}

/// The session's base is where the store stands.
pub open spec fn base_stands(engine: EngineModel) -> bool {
    let base = engine.session->0.base;
    &&& base.chain_head == engine.store.chain_head
    &&& base.commit_sequence == counted_so_far(engine.store.commit_sequence)
    &&& base.snapshot == counted_so_far(engine.store.snapshot)
}

/// Parking ends the session and keeps everything it buffered, in one slot
/// that must be free and over a store that must not have moved; a session
/// that buffered nothing just ends. The receipt names the entries.
pub proof fn lemma_park_call(engine: &mut Engine, outcome: Result<Option<StageReceipt>, Error>)
    requires
        call_ensures(Engine::park_staged_group, (engine,), outcome),
    ensures
        outcome is Ok <==> old(engine)@.session is Some && (old(
            engine,
        )@.session->0.entries.len() == 0 || (base_stands(old(engine)@) && old(
            engine,
        )@.store.staged is None)),
        match outcome {
            Ok(receipt) => {
                let session = old(engine)@.session->0;
                let count = session.entries.len();
                &&& final(engine)@.session is None
                &&& receipt is Some <==> count > 0
                &&& if count == 0 {
                    final(engine)@.store == old(engine)@.store
                } else {
                    let store = final(engine)@.store;
                    &&& store.staged is Some
                    &&& store.staged->0.entries == session.entries
                    &&& store.staged->0.pre_images == session.pre_images
                    &&& store == (StoreModel { staged: store.staged, ..old(engine)@.store })
                    &&& receipt->0@.prospective_head == session.entries[count - 1].digest
                    &&& receipt->0@.entry_count == count as usize
                    &&& receipt->0@.first_commit_sequence == session.entries[0].commit_sequence
                    &&& receipt->0@.last_commit_sequence == session.entries[count
                        - 1].commit_sequence
                }
                &&& final(engine)@.catalog == old(engine)@.catalog
                &&& final(engine)@.subscriptions == old(engine)@.subscriptions
                &&& final(engine)@.policy == old(engine)@.policy
                &&& final(engine)@.topology == old(engine)@.topology
                &&& final(engine)@.deltas == old(engine)@.deltas
            },
            Err(error) => {
                &&& final(engine)@ == old(engine)@
                &&& if old(engine)@.session is None {
                    error@ == (Failure::StagingSessionNotEngaged {
                        surface: "park_staged_group"@,
                    })
                } else if !base_stands(old(engine)@) {
                    error@ == (Failure::StagingBaseMoved {
                        sequence: counted_so_far(old(engine)@.store.commit_sequence),
                    })
                } else {
                    error@ is StagingSlotOccupied
                }
            },
        },
{
}

/// Abandoning a session drops what it buffered and nothing else.
pub proof fn lemma_abandon_call(engine: &mut Engine)
    requires
        call_ensures(Engine::abandon_staged_group, (engine,), ()),
    ensures
        final(engine)@.session is None,
        same_but_session(old(engine)@, final(engine)@),
{
}

/// A parked group is reported as it was parked, and reported exactly while
/// it waits.
pub proof fn lemma_staged_group_call(engine: &Engine, summary: Option<StagedGroupSummary>)
    requires
        call_ensures(Engine::staged_group, (engine,), summary),
    ensures
        summary is Some <==> waits(engine@.store),
        summary matches Some(found) ==> {
            let entries = engine@.store.staged->0.entries;
            let last = entries[entries.len() - 1];
            &&& found@.prospective_head == last.digest
            &&& found@.base_predecessor == entries[0].previous
            &&& found@.entry_count == entries.len() as usize
            &&& found@.first_commit_sequence == entries[0].commit_sequence
            &&& found@.last_commit_sequence == last.commit_sequence
        },
{
}

/// What parking reports, the parked group reports.
pub proof fn lemma_parked_is_reported(
    engine: &mut Engine,
    receipt: StageReceipt,
    later: &Engine,
    summary: Option<StagedGroupSummary>,
)
    requires
        call_ensures(Engine::park_staged_group, (engine,), Ok(Some(receipt))),
        later@ == final(engine)@,
        call_ensures(Engine::staged_group, (later,), summary),
    ensures
        summary is Some,
        summary->0@.prospective_head == receipt@.prospective_head,
        summary->0@.entry_count == receipt@.entry_count,
        summary->0@.first_commit_sequence == receipt@.first_commit_sequence,
        summary->0@.last_commit_sequence == receipt@.last_commit_sequence,
{
}

/// Discarding frees the slot and touches nothing else; it is refused
/// exactly where no group waits.
pub proof fn lemma_discard_call(
    engine: &mut Engine,
    outcome: Result<DiscardStagedReceipt, Error>,
)
    requires
        call_ensures(Engine::discard_staged_group, (engine,), outcome),
    ensures
        outcome is Ok <==> waits(old(engine)@.store),
        match outcome {
            Ok(receipt) => {
                let entries = old(engine)@.store.staged->0.entries;
                &&& receipt@.prospective_head == entries[entries.len() - 1].digest
                &&& receipt@.entry_count == entries.len() as usize
                &&& final(engine)@.store.staged is None
                &&& final(engine)@.store == (StoreModel { staged: None, ..old(engine)@.store })
                &&& final(engine)@.session == old(engine)@.session
                &&& final(engine)@.catalog == old(engine)@.catalog
                &&& final(engine)@.subscriptions == old(engine)@.subscriptions
                &&& final(engine)@.policy == old(engine)@.policy
                &&& final(engine)@.topology == old(engine)@.topology
                &&& final(engine)@.deltas == old(engine)@.deltas
            },
            Err(error) => {
                &&& error@ == (Failure::StagingSlotEmpty { surface: "discard_staged_group"@ })
                &&& final(engine)@ == old(engine)@
            },
        },
{
}

} // verus!
