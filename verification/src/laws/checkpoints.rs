//! Checkpoints: what the engine makes verifies, what is stored is read
//! back, and an import stands where its source stood.

use vstd::prelude::*;

use crate::checkpoint::{
    all_rows, chunked, lemma_chunked, misplaced_segment, rows_view_digest, segment_digest,
    segment_digests, verification, CheckpointModel, ReferenceModel,
};
use crate::engine_model::{
    checkpointed, covering_metadata, fresh, gathered, history, import_plan, loaded, log_after,
    references_of, resumed, segments_stored, twice_bound, with_checkpoint, EngineModel,
};
use crate::error::Failure;
use crate::fold::{empty_fold, fold_rows, folded, head_after, view_digest, FoldModel, RowModel};
use crate::laws::folds::{
    agree, lemma_checkpoint_stands_for_log, lemma_digest_of_records, lemma_folded_materializes,
    lemma_folded_sound, lemma_rows_hold_records, record_rows, sound,
};
use crate::listing::{
    from_number, lemma_first_at, lemma_number_rising, lemma_tail, log_values, number_rising,
    numbered,
};
use crate::ordered_table::{
    has_key, keyed_at, lemma_position, listable, map_of, rising,
};
use crate::store::StoreModel;
use crate::versioning::EntryModel;

verus! {

/// References made from segments are never out of place.
pub proof fn lemma_references_hold(segments: Seq<Seq<RowModel>>)
    ensures
        misplaced_segment(references_of(segments), segment_digests(segments)) is None,
    decreases segments.len(),
{
    if segments.len() > 0 {
        lemma_references_hold(segments.drop_last());
        assert(references_of(segments).drop_last() =~= references_of(segments.drop_last()));
        assert(segment_digests(segments).drop_last() =~= segment_digests(segments.drop_last()));
    }
}

/// The checkpoint of a history holds the history's records.
pub proof fn lemma_covering(engine: EngineModel)
    requires
        checkpointed(engine) is Ok,
    ensures
        ({
            let found = history(engine, "checkpoint"@, true)->Ok_0;
            let segments = chunked(record_rows(found.view));
            &&& history(engine, "checkpoint"@, true) is Ok
            &&& found.entries.len() > 0
            &&& sound(found.view)
            &&& checkpointed(engine)->Ok_0 == (CheckpointModel {
                metadata: covering_metadata(engine, found, segments),
                segments,
            })
            &&& all_rows(segments) == record_rows(found.view)
        }),
{
    let found = history(engine, "checkpoint"@, true)->Ok_0;
    let start = resumed(found.latest);
    lemma_folded_sound(start.rows, found.entries, start.head);
    lemma_folded_materializes(found.view, engine.catalog);
    lemma_chunked(record_rows(found.view));
}

/// What the engine checkpoints verifies: every content address holds, and
/// the rows fold to the view digest that the metadata names.
pub proof fn lemma_checkpoint_verifies(engine: EngineModel)
    requires
        checkpointed(engine) is Ok,
    ensures
        verification(checkpointed(engine)->Ok_0) is None,
        rows_view_digest(all_rows(checkpointed(engine)->Ok_0.segments)) == Ok::<
            Seq<u8>,
            Failure,
        >(view_digest(history(engine, "checkpoint"@, true)->Ok_0.view.cells)),
{
    lemma_covering(engine);
    let found = history(engine, "checkpoint"@, true)->Ok_0;
    let checkpoint = checkpointed(engine)->Ok_0;
    lemma_references_hold(checkpoint.segments);
    lemma_rows_hold_records(found.view);
    let back = fold_rows(empty_fold(), record_rows(found.view))->Ok_0;
    lemma_digest_of_records(back, found.view);
    assert(folded(record_rows(found.view), Seq::empty(), None) == Ok::<FoldModel, Failure>(back));
}

/// No two of these segments share a content address without being the
/// same.
pub open spec fn addresses_apart(segments: Seq<Seq<RowModel>>) -> bool {
    forall|i: int, j: int|
        0 <= i < segments.len() && 0 <= j < segments.len() && segment_digest(
            #[trigger] segments[i],
        ) == segment_digest(#[trigger] segments[j]) ==> segments[i] == segments[j]
}

/// Stored segments stand under their addresses.
proof fn lemma_segments_stored(
    stored: Map<Seq<u8>, Seq<RowModel>>,
    segments: Seq<Seq<RowModel>>,
    at: int,
)
    requires
        0 <= at < segments.len(),
        addresses_apart(segments),
    ensures
        segments_stored(stored, segments).dom().contains(segment_digest(segments[at])),
        segments_stored(stored, segments)[segment_digest(segments[at])] == segments[at],
    decreases segments.len(),
{
    let less = segments.drop_last();
    let end = segments.len() - 1;
    if segment_digest(segments[end]) == segment_digest(segments[at]) {
        assert(segments[end] == segments[at]);
    } else {
        assert(addresses_apart(less)) by {
            assert forall|i: int, j: int|
                0 <= i < less.len() && 0 <= j < less.len() && segment_digest(#[trigger] less[i])
                    == segment_digest(#[trigger] less[j]) implies less[i] == less[j] by {
                assert(segments[i] == less[i] && segments[j] == less[j]);
            }
        }
        lemma_segments_stored(stored, less, at);
    }
}

/// References to segments that stand under their addresses gather them.
proof fn lemma_gathered(
    stored: Map<Seq<u8>, Seq<RowModel>>,
    references: Seq<ReferenceModel>,
    segments: Seq<Seq<RowModel>>,
)
    requires
        references.len() == segments.len(),
        misplaced_segment(references, segment_digests(segments)) is None,
        forall|i: int|
            0 <= i < segments.len() ==> stored.dom().contains(
                segment_digest(#[trigger] segments[i]),
            ) && stored[segment_digest(segments[i])] == segments[i],
    ensures
        gathered(stored, references) == Ok::<Seq<Seq<RowModel>>, Failure>(segments),
    decreases segments.len(),
{
    if segments.len() > 0 {
        let less = segments.drop_last();
        assert forall|i: int| 0 <= i < less.len() implies stored.dom().contains(
            segment_digest(#[trigger] less[i]),
        ) && stored[segment_digest(less[i])] == less[i] by {
            assert(less[i] == segments[i]);
        }
        assert(segment_digests(segments).drop_last() =~= segment_digests(less));
        lemma_gathered(stored, references.drop_last(), less);
        let end = segments.len() - 1;
        assert(segment_digests(segments).last() == segment_digest(segments[end]));
        assert(stored.dom().contains(segment_digest(segments[end])));
        assert(less.push(segments[end]) =~= segments);
    } else {
        assert(segments =~= Seq::empty());
    }
}

/// A checkpoint that verifies is read back from a store that keeps it as
/// its latest. Two segments that collide under blake3 are left out.
pub proof fn lemma_kept_reads_back(store: StoreModel, checkpoint: CheckpointModel)
    requires
        verification(checkpoint) is None,
        addresses_apart(checkpoint.segments),
    ensures
        loaded(with_checkpoint(store, checkpoint)) == Ok::<Option<CheckpointModel>, Failure>(
            Some(checkpoint),
        ),
{
    let after = with_checkpoint(store, checkpoint);
    assert forall|i: int| 0 <= i < checkpoint.segments.len() implies after.segments.dom().contains(
        segment_digest(#[trigger] checkpoint.segments[i]),
    ) && after.segments[segment_digest(checkpoint.segments[i])] == checkpoint.segments[i] by {
        lemma_segments_stored(store.segments, checkpoint.segments, i);
    }
    lemma_gathered(after.segments, checkpoint.metadata.segments, checkpoint.segments);
}

/// A stored checkpoint is read back: a store that keeps the engine's
/// checkpoint as its latest loads exactly that checkpoint. Two segments
/// that collide under blake3 are left out.
pub proof fn lemma_checkpoint_reads_back(engine: EngineModel, store: StoreModel)
    requires
        checkpointed(engine) is Ok,
        addresses_apart(checkpointed(engine)->Ok_0.segments),
    ensures
        loaded(with_checkpoint(store, checkpointed(engine)->Ok_0)) == Ok::<
            Option<CheckpointModel>,
            Failure,
        >(Some(checkpointed(engine)->Ok_0)),
{
    lemma_checkpoint_verifies(engine);
    lemma_kept_reads_back(store, checkpointed(engine)->Ok_0);
}

/// A versioned log that can be listed, each entry under its own sequence.
pub open spec fn log_placed(log: Map<u64, EntryModel>) -> bool {
    &&& listable::<u64, EntryModel>(log)
    &&& forall|key: u64| #[trigger] log.dom().contains(key) ==> log[key].commit_sequence == key
}

/// The part of a listable log from a number on can be listed.
pub proof fn lemma_from_number_listable(log: Map<u64, EntryModel>, start: int)
    requires
        listable::<u64, EntryModel>(log),
    ensures
        listable::<u64, EntryModel>(from_number(log, start)),
        map_of(numbered(from_number(log, start))) == from_number(log, start),
        number_rising(numbered(from_number(log, start))),
{
    let rows = choose|rows: Seq<(u64, EntryModel)>| #[trigger]
        rising::<u64, EntryModel>(rows) && map_of(rows) == log;
    lemma_number_rising(rows);
    let at = lemma_first_at(rows, start);
    lemma_tail(rows, at, start);
    lemma_number_rising(rows.skip(at));
}

/// Nothing is logged past the last entry.
pub proof fn lemma_nothing_past_last(log: Map<u64, EntryModel>, after: u64)
    requires
        log_placed(log),
        log_values(from_number(log, after + 1)).len() > 0,
    ensures
        ({
            let last = log_values(from_number(log, after + 1)).last().commit_sequence;
            log_values(from_number(log, last + 1)).len() == 0
        }),
{
    let tail = from_number(log, after + 1);
    lemma_from_number_listable(log, after + 1);
    let rows = numbered(tail);
    lemma_number_rising(rows);
    lemma_position::<u64, EntryModel>(rows, rows.len() - 1);
    let last = rows.last().1.commit_sequence;
    assert(log.dom().contains(rows.last().0));
    assert(last == rows.last().0);
    lemma_from_number_listable(log, last + 1);
    let past = numbered(from_number(log, last + 1));
    if past.len() > 0 {
        lemma_number_rising(past);
        lemma_position::<u64, EntryModel>(past, 0);
        let key = past[0].0;
        assert(from_number(log, last + 1).dom().contains(key));
        assert(tail.dom().contains(key));
        let i = choose|i: int| keyed_at(rows, key, i);
        assert(has_key(rows, key));
        assert(rows[i].0 <= rows.last().0);
    }
}

/// A checkpoint changes nothing that the history comes to: once it is
/// kept, no logged entry is left to fold, and the fold holds the same
/// records under the same view digest.
pub proof fn lemma_checkpoint_keeps_history(engine: EngineModel, after: EngineModel)
    requires
        checkpointed(engine) is Ok,
        addresses_apart(checkpointed(engine)->Ok_0.segments),
        log_placed(engine.store.versioned_log),
        after == (EngineModel {
            store: with_checkpoint(engine.store, checkpointed(engine)->Ok_0),
            ..engine
        }),
    ensures
        ({
            let before = history(engine, "checkpoint"@, true)->Ok_0;
            let found = history(after, "checkpoint"@, false)->Ok_0;
            &&& history(after, "checkpoint"@, false) is Ok
            &&& found.latest == Some(checkpointed(engine)->Ok_0)
            &&& found.entries.len() == 0
            &&& agree(found.view, before.view)
            &&& view_digest(found.view.cells) == view_digest(before.view.cells)
        }),
{
    lemma_covering(engine);
    lemma_checkpoint_reads_back(engine, engine.store);
    let before = history(engine, "checkpoint"@, true)->Ok_0;
    let checkpoint = checkpointed(engine)->Ok_0;
    let start = resumed(before.latest);
    lemma_nothing_past_last(engine.store.versioned_log, start.after);
    let next = resumed(Some(checkpoint));
    let entries = log_after(after.store, next.after);
    assert(entries.len() == 0);
    assert(entries =~= Seq::empty());
    lemma_rows_hold_records(before.view);
    let back = fold_rows(empty_fold(), record_rows(before.view))->Ok_0;
    lemma_digest_of_records(back, before.view);
    assert(folded(next.rows, entries, next.head) == Ok::<FoldModel, Failure>(back));
}

/// An import stands where its source stood: restoring a checkpoint of the
/// source and the entries after it into a fresh store under the same name
/// is refused exactly when folding the source's whole history is, and
/// otherwise has the same view digest.
pub proof fn lemma_import_stands_where_source_stood(
    source: EngineModel,
    target: EngineModel,
    suffix: Seq<EntryModel>,
)
    requires
        checkpointed(source) is Ok,
        target.policy == source.policy,
        fresh(target),
        twice_bound(source.catalog) is None,
    ensures
        ({
            let found = history(source, "checkpoint"@, true)->Ok_0;
            let start = resumed(found.latest);
            match (
                import_plan(target, checkpointed(source)->Ok_0, suffix),
                folded(start.rows, found.entries + suffix, start.head),
            ) {
                (Ok(plan), Ok(view)) => plan.receipt.view_digest == view_digest(view.cells)
                    && plan.receipt.commit_sequence == (found.entries
                    + suffix).last().commit_sequence && plan.receipt.snapshot == (found.entries
                    + suffix).last().snapshot,
                (Err(a), Err(b)) => a == b,
                _ => false,
            }
        }),
{
    lemma_covering(source);
    let found = history(source, "checkpoint"@, true)->Ok_0;
    let start = resumed(found.latest);
    let checkpoint = checkpointed(source)->Ok_0;
    lemma_checkpoint_stands_for_log(found.entries, suffix, start.head, start.rows);
    assert(head_after(start.head, found.entries) == Some(checkpoint.metadata.entry_digest));
    lemma_folded_sound(
        all_rows(checkpoint.segments),
        suffix,
        Some(checkpoint.metadata.entry_digest),
    );
    match folded(
        all_rows(checkpoint.segments),
        suffix,
        Some(checkpoint.metadata.entry_digest),
    ) {
        Ok(view) => {
            lemma_folded_materializes(view, checkpoint.metadata.inventory.families);
        },
        Err(_) => {},
    }
}

} // verus!
