//! Checkpoints and compaction, call by call: what a fold accepts, what a
//! checkpoint covers and how it continues the one before it, when a stored
//! one loads, and what a compaction may drop.

use vstd::prelude::*;

use crate::checkpoint::{
    all_rows, chunked, chunking, lemma_chunked, metadata_input, misplaced_segment, row_weight,
    rows_view_digest, rows_weight, segment_digest, segment_digests, segment_fits, verification,
    Checkpoint, CheckpointModel, CheckpointReceipt, ReferenceModel, SEGMENT_BYTE_BUDGET,
};
use crate::digest::blake3_digest;
use crate::engine::Engine;
use crate::engine_model::{
    checkpointed, gathered, has_checkpoint_room, history, loaded, rooted, segments_stored,
    EngineModel, HistoryModel,
};
use crate::error::{Error, Failure};
use crate::fold::{
    coordinate_precedes, empty_fold, fold_entries, fold_operations, fold_rows, folded, head_after,
    kept_rows, view_digest, Coordinate, FoldModel, RowModel, ViewKey,
};
use crate::laws::checkpoints::{lemma_covering, lemma_from_number_listable};
use crate::laws::folds::{
    kept_at, lemma_folded_materializes, lemma_folded_sound, lemma_sound_select, record_rows,
    selected_cells, sound,
};
use crate::laws::landing::{expected_before, fits};
use crate::laws::reads::{lemma_lists_log, lists_log};
use crate::listing::{from_number, log_values};
use crate::ordered_table::{has_key, keyed_at, lemma_position, listable};
use crate::record::key_text;
use crate::store::{counted_so_far, StoreModel};
use crate::versioning::{
    sealed, store_schema, versions, EntryModel, OperationModel, VersionedHistoryAcknowledgement,
    VersionedHistoryCompaction, VersionedHistoryRetention, VersionedRecoveryTopology,
};

verus! {

/// A logged operation that can be applied: it names a key, and writes a
/// record or removes one.
pub open spec fn foldable(operation: OperationModel) -> bool {
    &&& operation.key is Some
    &&& operation.operation is Retract || ((operation.operation is Assert
        || operation.operation is Mutate) && operation.payload is Some)
}

/// Operations fold exactly where every one of them can be applied.
proof fn lemma_operations_fold(view: FoldModel, operations: Seq<OperationModel>)
    ensures
        fold_operations(view, operations) is Ok <==> forall|i: int|
            0 <= i < operations.len() ==> foldable(#[trigger] operations[i]),
    decreases operations.len(),
{
    if operations.len() > 0 {
        let less = operations.drop_last();
        let end = operations.len() - 1;
        lemma_operations_fold(view, less);
        if fold_operations(view, operations) is Ok {
            assert forall|i: int| 0 <= i < operations.len() implies foldable(
                #[trigger] operations[i],
            ) by {
                if i < end {
                    assert(foldable(less[i]));
                }
            }
        }
        if forall|i: int| 0 <= i < operations.len() ==> foldable(#[trigger] operations[i]) {
            assert forall|i: int| 0 <= i < less.len() implies foldable(#[trigger] less[i]) by {
                assert(less[i] == operations[i]);
            }
            assert(foldable(operations[end]));
        }
    }
}

/// Rows fold exactly where every one of them holds a record.
proof fn lemma_rows_fold(view: FoldModel, rows: Seq<RowModel>)
    ensures
        fold_rows(view, rows) is Ok <==> forall|i: int|
            0 <= i < rows.len() ==> (#[trigger] rows[i]).payload is Some,
    decreases rows.len(),
{
    if rows.len() > 0 {
        let less = rows.drop_last();
        let end = rows.len() - 1;
        lemma_rows_fold(view, less);
        if fold_rows(view, rows) is Ok {
            assert forall|i: int| 0 <= i < rows.len() implies (
            #[trigger] rows[i]).payload is Some by {
                if i < end {
                    assert(less[i].payload is Some);
                }
            }
        }
        if forall|i: int| 0 <= i < rows.len() ==> (#[trigger] rows[i]).payload is Some {
            assert forall|i: int| 0 <= i < less.len() implies (
            #[trigger] less[i]).payload is Some by {
                assert(less[i] == rows[i]);
            }
            assert(rows[end].payload is Some);
        }
    }
}

/// An entry of a log folds: it fits its place, and each of its operations
/// can be applied.
pub open spec fn entry_folds(head: Option<Seq<u8>>, entries: Seq<EntryModel>, e: int) -> bool {
    &&& fits(head, entries, e)
    &&& forall|i: int|
        0 <= i < entries[e].operations.len() ==> foldable(#[trigger] entries[e].operations[i])
}

proof fn lemma_entries_fold(view: FoldModel, head: Option<Seq<u8>>, entries: Seq<EntryModel>)
    ensures
        fold_entries(view, head, entries) is Ok <==> forall|e: int|
            0 <= e < entries.len() ==> #[trigger] entry_folds(head, entries, e),
    decreases entries.len(),
{
    if entries.len() > 0 {
        let less = entries.drop_last();
        let end = entries.len() - 1;
        let last = entries[end];
        lemma_entries_fold(view, head, less);
        assert forall|e: int| 0 <= e < end implies #[trigger] entry_folds(head, entries, e)
            == entry_folds(head, less, e) by {
            assert(less[e] == entries[e]);
            assert(e > 0 ==> less[e - 1] == entries[e - 1]);
        }
        assert(head_after(head, less) == expected_before(head, entries, end));
        assert(last == sealed(last) <==> last.digest == sealed(last).digest);
        if let Ok(before) = fold_entries(view, head, less) {
            lemma_operations_fold(before, last.operations);
        }
        if forall|e: int| 0 <= e < entries.len() ==> #[trigger] entry_folds(head, entries, e) {
            assert forall|e: int| 0 <= e < less.len() implies #[trigger] entry_folds(
                head,
                less,
                e,
            ) by {
                assert(entry_folds(head, entries, e));
            }
            assert(entry_folds(head, entries, end));
        }
        if fold_entries(view, head, entries) is Ok {
            assert forall|e: int| 0 <= e < entries.len() implies #[trigger] entry_folds(
                head,
                entries,
                e,
            ) by {
                if e < end {
                    assert(entry_folds(head, less, e));
                }
            }
        }
    }
}

/// A history folds exactly where every row it starts from holds a record,
/// every entry carries its own digest and names the one before it, and
/// every operation can be applied.
pub proof fn lemma_what_folds(
    rows: Seq<RowModel>,
    entries: Seq<EntryModel>,
    head: Option<Seq<u8>>,
)
    ensures
        folded(rows, entries, head) is Ok <==> {
            &&& forall|i: int| 0 <= i < rows.len() ==> (#[trigger] rows[i]).payload is Some
            &&& forall|e: int|
                0 <= e < entries.len() ==> #[trigger] entry_folds(head, entries, e)
        },
{
    lemma_rows_fold(empty_fold(), rows);
    if let Ok(view) = fold_rows(empty_fold(), rows) {
        lemma_entries_fold(view, head, entries);
    }
}

/// Segments are kept under the digest of what they hold.
pub open spec fn addressed(references: Seq<ReferenceModel>, segments: Seq<Seq<RowModel>>) -> bool {
    &&& references.len() == segments.len()
    &&& forall|i: int|
        0 <= i < references.len() ==> (#[trigger] references[i]).digest == segment_digest(
            segments[i],
        )
}

proof fn lemma_misplaced(references: Seq<ReferenceModel>, segments: Seq<Seq<RowModel>>)
    requires
        references.len() == segments.len(),
    ensures
        misplaced_segment(references, segment_digests(segments)) is None <==> addressed(
            references,
            segments,
        ),
        misplaced_segment(references, segment_digests(segments)) matches Some(failure)
            ==> exists|i: int|
            {
                &&& 0 <= i < references.len()
                &&& (#[trigger] references[i]).digest != segment_digest(segments[i])
                &&& forall|j: int|
                    0 <= j < i ==> (#[trigger] references[j]).digest == segment_digest(segments[j])
                &&& failure == (Failure::SegmentDigestMismatch {
                    referenced: references[i].digest,
                    computed: segment_digest(segments[i]),
                })
            },
    decreases references.len(),
{
    if references.len() > 0 {
        let less = references.drop_last();
        let fewer = segments.drop_last();
        let end = references.len() - 1;
        lemma_misplaced(less, fewer);
        assert(segment_digests(segments).drop_last() =~= segment_digests(fewer));
        match misplaced_segment(less, segment_digests(fewer)) {
            Some(failure) => {
                let i = choose|i: int|
                    {
                        &&& 0 <= i < less.len()
                        &&& (#[trigger] less[i]).digest != segment_digest(fewer[i])
                        &&& forall|j: int|
                            0 <= j < i ==> (#[trigger] less[j]).digest == segment_digest(fewer[j])
                        &&& failure == (Failure::SegmentDigestMismatch {
                            referenced: less[i].digest,
                            computed: segment_digest(fewer[i]),
                        })
                    };
                assert(references[i].digest != segment_digest(segments[i]));
                assert forall|j: int| 0 <= j < i implies (
                #[trigger] references[j]).digest == segment_digest(segments[j]) by {
                    assert(less[j].digest == segment_digest(fewer[j]));
                }
            },
            None => {
                assert forall|j: int| 0 <= j < end implies (
                #[trigger] references[j]).digest == segment_digest(segments[j]) by {
                    assert(less[j].digest == segment_digest(fewer[j]));
                }
                assert(references[end] == references.last());
            },
        }
    }
}

/// A checkpoint that holds together: its metadata carries its own digest,
/// every segment stands under its address, no segment is missing or left
/// over, and the rows come to the view that the metadata names.
pub open spec fn holds_together(checkpoint: CheckpointModel) -> bool {
    let metadata = checkpoint.metadata;
    &&& metadata.digest == blake3_digest(metadata_input(metadata))
    &&& addressed(metadata.segments, checkpoint.segments)
    &&& forall|i: int|
        0 <= i < all_rows(checkpoint.segments).len() ==> (#[trigger] all_rows(
            checkpoint.segments,
        )[i]).payload is Some
    &&& rows_view_digest(all_rows(checkpoint.segments))->Ok_0 == metadata.view_digest
}

/// Verification passes exactly the checkpoints that hold together.
pub proof fn lemma_verification(checkpoint: CheckpointModel)
    ensures
        verification(checkpoint) is None <==> holds_together(checkpoint),
{
    let rows = all_rows(checkpoint.segments);
    lemma_what_folds(rows, Seq::empty(), None);
    if checkpoint.metadata.segments.len() == checkpoint.segments.len() {
        lemma_misplaced(checkpoint.metadata.segments, checkpoint.segments);
    }
}

/// What the references of a checkpoint name is all stored.
pub open spec fn all_stored(
    stored: Map<Seq<u8>, Seq<RowModel>>,
    references: Seq<ReferenceModel>,
) -> bool {
    forall|i: int|
        0 <= i < references.len() ==> stored.dom().contains((#[trigger] references[i]).digest)
}

/// Gathering gives, one for one, what stands under each address, or stops
/// at the first that is missing.
pub proof fn lemma_gathered(stored: Map<Seq<u8>, Seq<RowModel>>, references: Seq<ReferenceModel>)
    ensures
        match gathered(stored, references) {
            Ok(found) => {
                &&& all_stored(stored, references)
                &&& found.len() == references.len()
                &&& forall|i: int|
                    0 <= i < found.len() ==> #[trigger] found[i] == stored[references[i].digest]
            },
            Err(failure) => exists|i: int|
                {
                    &&& 0 <= i < references.len()
                    &&& !stored.dom().contains((#[trigger] references[i]).digest)
                    &&& forall|j: int|
                        0 <= j < i ==> stored.dom().contains((#[trigger] references[j]).digest)
                    &&& failure == (Failure::SegmentMissing { digest: references[i].digest })
                },
        },
    decreases references.len(),
{
    if references.len() > 0 {
        let less = references.drop_last();
        let end = references.len() - 1;
        lemma_gathered(stored, less);
        match gathered(stored, less) {
            Ok(found) => {
                assert forall|j: int| 0 <= j < end implies stored.dom().contains(
                    (#[trigger] references[j]).digest,
                ) by {
                    assert(stored.dom().contains(less[j].digest));
                }
                assert(references[end] == references.last());
            },
            Err(failure) => {
                let i = choose|i: int|
                    {
                        &&& 0 <= i < less.len()
                        &&& !stored.dom().contains((#[trigger] less[i]).digest)
                        &&& forall|j: int|
                            0 <= j < i ==> stored.dom().contains((#[trigger] less[j]).digest)
                        &&& failure == (Failure::SegmentMissing { digest: less[i].digest })
                    };
                assert(references[i] == less[i]);
                assert forall|j: int| 0 <= j < i implies stored.dom().contains(
                    (#[trigger] references[j]).digest,
                ) by {
                    assert(less[j] == references[j]);
                }
            },
        }
    }
}

/// The stored checkpoint that a store's latest sequence names.
pub open spec fn stored_latest(store: StoreModel) -> CheckpointModel {
    let metadata = store.checkpoints[store.latest_checkpoint->0];
    CheckpointModel {
        metadata,
        segments: metadata.segments.map_values(
            |reference: ReferenceModel| store.segments[reference.digest],
        ),
    }
}

/// The latest checkpoint is stored whole and holds together.
pub open spec fn latest_sound(store: StoreModel) -> bool {
    let sequence = store.latest_checkpoint->0;
    &&& store.latest_checkpoint is Some
    &&& store.checkpoints.dom().contains(sequence)
    &&& all_stored(store.segments, store.checkpoints[sequence].segments)
    &&& holds_together(stored_latest(store))
}

/// Loading gives the latest checkpoint as it is stored, and only a sound
/// one.
pub proof fn lemma_loaded(store: StoreModel)
    ensures
        match loaded(store) {
            Ok(None) => store.latest_checkpoint is None,
            Ok(Some(checkpoint)) => latest_sound(store) && checkpoint == stored_latest(store),
            Err(_) => store.latest_checkpoint is Some && !latest_sound(store),
        },
{
    if let Some(sequence) = store.latest_checkpoint {
        if store.checkpoints.dom().contains(sequence) {
            let metadata = store.checkpoints[sequence];
            lemma_gathered(store.segments, metadata.segments);
            if let Ok(found) = gathered(store.segments, metadata.segments) {
                assert(found =~= stored_latest(store).segments);
                lemma_verification(stored_latest(store));
            }
        }
    }
}

/// The latest checkpoint reads back as it is stored, is refused where it is
/// not whole or does not hold together, and is none in a store that has
/// none.
pub proof fn lemma_latest_checkpoint_call(
    engine: &Engine,
    outcome: Result<Option<Checkpoint>, Error>,
)
    requires
        call_ensures(Engine::latest_checkpoint, (engine,), outcome),
    ensures
        match outcome {
            Ok(None) => engine@.store.latest_checkpoint is None,
            Ok(Some(checkpoint)) => {
                &&& latest_sound(engine@.store)
                &&& checkpoint@ == stored_latest(engine@.store)
            },
            Err(_) => {
                &&& engine@.store.latest_checkpoint is Some
                &&& !latest_sound(engine@.store)
            },
        },
{
    lemma_loaded(engine@.store);
}

/// The last commit that the latest checkpoint covers.
pub open spec fn covered_to(store: StoreModel) -> int {
    match store.latest_checkpoint {
        Some(_) => stored_latest(store).metadata.covered.last as int,
        None => 0,
    }
}

/// The rows that the latest checkpoint starts a fold from.
pub open spec fn covered_rows(store: StoreModel) -> Seq<RowModel> {
    match store.latest_checkpoint {
        Some(_) => all_rows(stored_latest(store).segments),
        None => Seq::empty(),
    }
}

/// The digest that the log must continue from.
pub open spec fn covered_digest(store: StoreModel) -> Option<Seq<u8>> {
    match store.latest_checkpoint {
        Some(_) => Some(stored_latest(store).metadata.entry_digest),
        None => None,
    }
}

/// A history can be folded: the store is versioned, every commit has its
/// entry, the latest checkpoint is sound if there is one, and the entries
/// past it fold onto it.
pub open spec fn history_stands(engine: EngineModel, entries: Seq<EntryModel>) -> bool {
    let store = engine.store;
    &&& engine.policy is Some
    &&& counted_so_far(store.commit_count) == counted_so_far(store.versioned_count)
    &&& store.latest_checkpoint is None || latest_sound(store)
    &&& folded(covered_rows(store), entries, covered_digest(store)) is Ok
}

/// The entries past the latest checkpoint.
pub open spec fn uncovered(store: StoreModel) -> Seq<EntryModel> {
    log_values(from_number(store.versioned_log, covered_to(store) + 1))
}

/// What folding a history comes to.
pub proof fn lemma_history_stands(engine: EngineModel, surface: Seq<char>, required: bool)
    ensures
        history(engine, surface, required) is Ok <==> history_stands(
            engine,
            uncovered(engine.store),
        ) && (required ==> uncovered(engine.store).len() > 0),
        history(engine, surface, required) matches Ok(found) ==> {
            let store = engine.store;
            &&& found.entries == uncovered(store)
            &&& found.latest == if store.latest_checkpoint is Some {
                Some(stored_latest(store))
            } else {
                None
            }
            &&& Ok::<FoldModel, Failure>(found.view) == folded(
                covered_rows(store),
                uncovered(store),
                covered_digest(store),
            )
        },
        engine.policy is None ==> history(engine, surface, required) == Err::<
            HistoryModel,
            Failure,
        >(Failure::VersioningNotEnabled { surface }),
        engine.policy is Some && counted_so_far(engine.store.commit_count) != counted_so_far(
            engine.store.versioned_count,
        ) ==> history(engine, surface, required) == Err::<HistoryModel, Failure>(
            Failure::VersionedLogIncomplete {
                commits: counted_so_far(engine.store.commit_count),
                versioned: counted_so_far(engine.store.versioned_count),
            },
        ),
{
    lemma_loaded(engine.store);
}

/// Rows that stand for a view: one for each record of it, under the family
/// version and the key of the record, in the order of the view.
pub open spec fn rows_of_view(rows: Seq<RowModel>, view: FoldModel) -> bool {
    &&& forall|i: int|
        0 <= i < rows.len() ==> {
            &&& (#[trigger] rows[i]).payload is Some
            &&& kept_at(view, (rows[i].family.version(), rows[i].key)) == rows[i].payload
        }
    &&& forall|at: Coordinate| #[trigger]
        kept_at(view, at) is Some ==> exists|i: int|
            0 <= i < rows.len() && (#[trigger] rows[i]).family.version() == at.0 && rows[i].key
                == at.1
    &&& forall|i: int, j: int|
        0 <= i < j < rows.len() ==> coordinate_precedes(
            ((#[trigger] rows[i]).family.version(), rows[i].key),
            ((#[trigger] rows[j]).family.version(), rows[j].key),
        )
}

/// The rows of a view's records stand for it.
pub proof fn lemma_record_rows(view: FoldModel)
    requires
        sound(view),
    ensures
        rows_of_view(record_rows(view), view),
{
    lemma_sound_select(view, true);
    let cells = kept_rows(view.cells);
    let rows = record_rows(view);
    assert forall|i: int| 0 <= i < rows.len() implies {
        &&& (#[trigger] rows[i]).payload is Some
        &&& rows[i].family.version() == cells[i].0.0
        &&& kept_at(view, (rows[i].family.version(), rows[i].key)) == rows[i].payload
    } by {
        lemma_position::<ViewKey, Option<Seq<u8>>>(cells, i);
        assert(view.identities.dom().contains(cells[i].0.0));
        assert(selected_cells(view.cells, true).dom().contains(cells[i].0));
    }
    assert forall|at: Coordinate| #[trigger] kept_at(view, at) is Some implies exists|i: int|
        0 <= i < rows.len() && (#[trigger] rows[i]).family.version() == at.0 && rows[i].key
            == at.1 by {
        assert(selected_cells(view.cells, true).dom().contains(at));
        assert(has_key(cells, at));
        let i = choose|i: int| keyed_at(cells, at, i);
        assert(rows[i].family.version() == cells[i].0.0);
    }
    assert forall|i: int, j: int| 0 <= i < j < rows.len() implies
        coordinate_precedes(
        ((#[trigger] rows[i]).family.version(), rows[i].key),
        ((#[trigger] rows[j]).family.version(), rows[j].key),
    ) by {
        assert(rows[i].family.version() == cells[i].0.0);
        assert(rows[j].family.version() == cells[j].0.0);
    }
}

/// Segments that are as full as they may be: none is empty; one of several
/// rows keeps to the budget; and no segment had room for the first row of
/// the next.
pub open spec fn filled(segments: Seq<Seq<RowModel>>) -> bool {
    &&& forall|i: int|
        0 <= i < segments.len() ==> {
            &&& (#[trigger] segments[i]).len() > 0
            &&& segments[i].len() > 1 ==> rows_weight(segments[i]) <= SEGMENT_BYTE_BUDGET
        }
    &&& forall|i: int|
        0 <= i < segments.len() - 1 ==> rows_weight(#[trigger] segments[i]) + row_weight(
            segments[i + 1][0],
        ) > SEGMENT_BYTE_BUDGET
}

proof fn lemma_chunking_filled(rows: Seq<RowModel>)
    ensures
        ({
            let (finished, current) = chunking(rows);
            &&& rows.len() > 0 ==> current.len() > 0
            &&& forall|i: int|
                0 <= i < finished.len() - 1 ==> rows_weight(#[trigger] finished[i])
                    + row_weight(finished[i + 1][0]) > SEGMENT_BYTE_BUDGET
            &&& finished.len() > 0 ==> rows_weight(finished.last()) + row_weight(current[0])
                > SEGMENT_BYTE_BUDGET
        }),
    decreases rows.len(),
{
    if rows.len() > 0 {
        lemma_chunking_filled(rows.drop_last());
    }
}

/// Chunking fills every segment as far as the budget lets it.
pub proof fn lemma_chunked_filled(rows: Seq<RowModel>)
    ensures
        filled(chunked(rows)),
        all_rows(chunked(rows)) == rows,
{
    lemma_chunked(rows);
    lemma_chunking_filled(rows);
    let segments = chunked(rows);
    assert forall|i: int| 0 <= i < segments.len() implies {
        &&& (#[trigger] segments[i]).len() > 0
        &&& segments[i].len() > 1 ==> rows_weight(segments[i]) <= SEGMENT_BYTE_BUDGET
    } by {
        assert(segment_fits(segments[i]));
    }
}

/// The weight of a row is that of its record and its key, and of one byte
/// for the kind of its key.
pub proof fn lemma_row_weight(row: RowModel, record: Seq<u8>)
    ensures
        row_weight(RowModel { payload: Some(record), ..row }) == record.len() + row_weight(
            RowModel { payload: None, ..row },
        ),
        row_weight(RowModel { payload: None, ..row }) == 1 + vstd::utf8::encode_utf8(
            key_text(row.key),
        ).len(),
{
}

/// A new checkpoint as it follows from the store: numbered after the latest
/// and linked to it; for the store's name and families; covering from where
/// the latest covered to the last entry of the log, and naming where that
/// entry stands; with the rows of the whole history in filled segments,
/// each referenced by its address.
pub open spec fn follows_on(
    engine: EngineModel,
    checkpoint: CheckpointModel,
    entries: Seq<EntryModel>,
) -> bool {
    let metadata = checkpoint.metadata;
    let store = engine.store;
    let last = entries[entries.len() - 1];
    let latest = stored_latest(store).metadata;
    let view = folded(covered_rows(store), entries, covered_digest(store))->Ok_0;
    &&& metadata.digest == blake3_digest(metadata_input(metadata))
    &&& metadata.store_name == engine.policy->0
    &&& metadata.store_schema_hash == store_schema(versions(engine.catalog))
    &&& metadata.inventory.families == engine.catalog
    &&& if store.latest_checkpoint is Some {
        &&& metadata.sequence == latest.sequence + 1
        &&& metadata.previous == Some(latest.digest)
        &&& metadata.covered.first == latest.covered.first
    } else {
        &&& metadata.sequence == 1
        &&& metadata.previous is None
        &&& metadata.covered.first == entries[0].commit_sequence
    }
    &&& metadata.covered.last == last.commit_sequence
    &&& metadata.snapshot == last.snapshot
    &&& metadata.entry_digest == last.digest
    &&& metadata.view_digest == view_digest(view.cells)
    &&& addressed(metadata.segments, checkpoint.segments)
    &&& filled(checkpoint.segments)
    &&& rows_of_view(all_rows(checkpoint.segments), view)
}

/// Only the checkpoints of a store differ.
pub open spec fn same_but_checkpoints(before: StoreModel, after: StoreModel) -> bool {
    after == (StoreModel {
        checkpoints: after.checkpoints,
        segments: after.segments,
        latest_checkpoint: after.latest_checkpoint,
        ..before
    })
}

/// A checkpoint is kept: as the latest, under its number, with every
/// segment of it under an address it is found by, beside all that was kept
/// before.
pub open spec fn kept_as_latest(
    before: StoreModel,
    after: StoreModel,
    checkpoint: CheckpointModel,
) -> bool {
    &&& after.latest_checkpoint == Some(checkpoint.metadata.sequence)
    &&& after.checkpoints == before.checkpoints.insert(
        checkpoint.metadata.sequence,
        checkpoint.metadata,
    )
    &&& forall|i: int|
        0 <= i < checkpoint.segments.len() ==> after.segments.dom().contains(
            segment_digest(#[trigger] checkpoint.segments[i]),
        )
    &&& forall|digest: Seq<u8>| #[trigger]
        before.segments.dom().contains(digest) ==> after.segments.dom().contains(digest)
    &&& forall|digest: Seq<u8>| #[trigger]
        after.segments.dom().contains(digest) ==> {
            ||| before.segments.dom().contains(digest) && after.segments[digest]
                == before.segments[digest]
            ||| exists|i: int|
                0 <= i < checkpoint.segments.len() && segment_digest(
                    #[trigger] checkpoint.segments[i],
                ) == digest && after.segments[digest] == checkpoint.segments[i]
        }
}

/// Segments that are stored stand under an address they are found by, beside
/// all that stood before.
pub proof fn lemma_segments_kept(
    stored: Map<Seq<u8>, Seq<RowModel>>,
    segments: Seq<Seq<RowModel>>,
)
    ensures
        ({
            let after = segments_stored(stored, segments);
            &&& forall|i: int|
                0 <= i < segments.len() ==> after.dom().contains(
                    segment_digest(#[trigger] segments[i]),
                )
            &&& forall|digest: Seq<u8>| #[trigger]
                stored.dom().contains(digest) ==> after.dom().contains(digest)
            &&& forall|digest: Seq<u8>| #[trigger]
                after.dom().contains(digest) ==> {
                    ||| stored.dom().contains(digest) && after[digest] == stored[digest]
                    ||| exists|i: int|
                        0 <= i < segments.len() && segment_digest(#[trigger] segments[i])
                            == digest && after[digest] == segments[i]
                }
        }),
    decreases segments.len(),
{
    if segments.len() > 0 {
        let less = segments.drop_last();
        let end = segments.len() - 1;
        lemma_segments_kept(stored, less);
        let between = segments_stored(stored, less);
        let after = segments_stored(stored, segments);
        assert forall|i: int| 0 <= i < segments.len() implies after.dom().contains(
            segment_digest(#[trigger] segments[i]),
        ) by {
            if i < end {
                assert(between.dom().contains(segment_digest(less[i])));
            }
        }
        assert forall|digest: Seq<u8>| #[trigger] after.dom().contains(digest) implies {
            ||| stored.dom().contains(digest) && after[digest] == stored[digest]
            ||| exists|i: int|
                0 <= i < segments.len() && segment_digest(#[trigger] segments[i]) == digest
                    && after[digest] == segments[i]
        } by {
            if digest == segment_digest(segments[end]) {
                assert(after[digest] == segments[end]);
            } else {
                assert(between.dom().contains(digest));
                if !(stored.dom().contains(digest) && after[digest] == stored[digest]) {
                    let i = choose|i: int|
                        0 <= i < less.len() && segment_digest(#[trigger] less[i]) == digest
                            && between[digest] == less[i];
                    assert(segments[i] == less[i]);
                }
            }
        }
    }
}

/// A checkpoint is made exactly where the history stands and has entries
/// that no checkpoint covers. It follows on from the latest, is kept as the
/// latest, and touches nothing else; the receipt tells of it.
#[verifier::rlimit(40)]
pub proof fn lemma_checkpoint_call(engine: &mut Engine, outcome: Result<CheckpointReceipt, Error>)
    requires
        has_checkpoint_room(old(engine)@.store),
        listable::<u64, EntryModel>(old(engine)@.store.versioned_log),
        call_ensures(Engine::checkpoint, (engine,), outcome),
    ensures
        outcome is Ok <==> history_stands(old(engine)@, uncovered(old(engine)@.store))
            && uncovered(old(engine)@.store).len() > 0,
        lists_log(
            old(engine)@.store.versioned_log,
            covered_to(old(engine)@.store) + 1,
            uncovered(old(engine)@.store),
        ),
        match outcome {
            Ok(receipt) => exists|made: CheckpointModel|
                {
                    &&& #[trigger] follows_on(
                        old(engine)@,
                        made,
                        uncovered(old(engine)@.store),
                    )
                    &&& kept_as_latest(old(engine)@.store, final(engine)@.store, made)
                    &&& receipt@.sequence == made.metadata.sequence
                    &&& receipt@.covered == made.metadata.covered
                    &&& receipt@.view_digest == made.metadata.view_digest
                    &&& receipt@.checkpoint_digest == made.metadata.digest
                    &&& receipt@.segment_count == made.segments.len()
                    &&& receipt@.row_count == all_rows(made.segments).len()
                    &&& same_but_checkpoints(old(engine)@.store, final(engine)@.store)
                    &&& final(engine)@ == (EngineModel {
                        store: final(engine)@.store,
                        ..old(engine)@
                    })
                },
            Err(error) => {
                &&& final(engine)@ == old(engine)@
                &&& old(engine)@.policy is None ==> error@ == (Failure::VersioningNotEnabled {
                    surface: "checkpoint"@,
                })
                &&& history_stands(old(engine)@, uncovered(old(engine)@.store))
                    ==> error@ is CheckpointNothingToCover
            },
        },
{
    let before = old(engine)@;
    let store = before.store;
    lemma_history_stands(before, "checkpoint"@, true);
    lemma_loaded(store);
    lemma_from_number_listable(store.versioned_log, covered_to(store) + 1);
    lemma_lists_log(store.versioned_log, covered_to(store) + 1);
    if let Ok(found) = history(before, "checkpoint"@, true) {
        lemma_folded_sound(covered_rows(store), found.entries, covered_digest(store));
        lemma_folded_materializes(found.view, before.catalog);
    }
    if outcome is Ok {
        let made = checkpointed(before)->Ok_0;
        let found = history(before, "checkpoint"@, true)->Ok_0;
        lemma_covering(before);
        lemma_record_rows(found.view);
        lemma_chunked_filled(record_rows(found.view));
        lemma_segments_kept(store.segments, made.segments);
        assert(addressed(made.metadata.segments, made.segments));
        if store.latest_checkpoint is Some {
            assert(stored_latest(store).metadata.sequence < u64::MAX);
        }
        assert(follows_on(before, made, uncovered(store)));
        assert(kept_as_latest(store, final(engine)@.store, made));
    }
}

/// A budget of entries and an acknowledgement that let the first entries of
/// the log go: the acknowledgement is of the store's topology, and a
/// mirror's is the head it confirmed last, at or past the last entry that
/// goes.
pub open spec fn may_go(
    engine: EngineModel,
    floor: u64,
    acknowledgement: VersionedHistoryAcknowledgement,
) -> bool {
    match acknowledgement {
        VersionedHistoryAcknowledgement::LocalCheckpoint => true,
        VersionedHistoryAcknowledgement::Mirror(head) => {
            &&& engine.store.mirror == Some(head@)
            &&& floor <= head@.commit_sequence
        },
    }
}

/// An acknowledgement is of a topology.
pub open spec fn of_topology(
    acknowledgement: VersionedHistoryAcknowledgement,
    topology: VersionedRecoveryTopology,
) -> bool {
    match acknowledgement {
        VersionedHistoryAcknowledgement::LocalCheckpoint => topology is LocalCheckpoint,
        VersionedHistoryAcknowledgement::Mirror(_) => topology is Mirror,
    }
}

/// The one checkpoint of a compacted history: numbered after the latest,
/// linked to none, covering all that was covered or logged, and naming where
/// the last of it stands, with the rows of the whole history.
pub open spec fn roots(engine: EngineModel, checkpoint: CheckpointModel) -> bool {
    let metadata = checkpoint.metadata;
    let store = engine.store;
    let entries = uncovered(store);
    let latest = stored_latest(store).metadata;
    let view = folded(covered_rows(store), entries, covered_digest(store))->Ok_0;
    &&& metadata.digest == blake3_digest(metadata_input(metadata))
    &&& metadata.store_name == engine.policy->0
    &&& metadata.store_schema_hash == store_schema(versions(engine.catalog))
    &&& metadata.inventory.families == engine.catalog
    &&& metadata.previous is None
    &&& metadata.sequence == if store.latest_checkpoint is Some {
        latest.sequence + 1
    } else {
        1
    }
    &&& metadata.covered.first == if store.latest_checkpoint is Some {
        latest.covered.first
    } else {
        entries[0].commit_sequence
    }
    &&& if entries.len() > 0 {
        let last = entries[entries.len() - 1];
        &&& metadata.covered.last == last.commit_sequence
        &&& metadata.snapshot == last.snapshot
        &&& metadata.entry_digest == last.digest
    } else {
        &&& metadata.covered.last == latest.covered.last
        &&& metadata.snapshot == latest.snapshot
        &&& metadata.entry_digest == latest.entry_digest
    }
    &&& metadata.view_digest == view_digest(view.cells)
    &&& addressed(metadata.segments, checkpoint.segments)
    &&& filled(checkpoint.segments)
    &&& rows_of_view(all_rows(checkpoint.segments), view)
}

/// Log rows up to a number left, and every other stayed.
pub open spec fn cut<X>(before: Map<u64, X>, after: Map<u64, X>, floor: u64) -> bool {
    forall|number: u64|
        {
            &&& #[trigger] after.dom().contains(number) <==> before.dom().contains(number)
                && floor < number
            &&& after.dom().contains(number) ==> after[number] == before[number]
        }
}

/// A compaction is refused without versioning, under another topology than
/// the store's, or while a mirror has not confirmed what would go; within
/// the budget it changes nothing; else exactly the entries over the budget
/// leave the logs and the outbox, and one checkpoint stands for the whole
/// history.
#[verifier::rlimit(40)]
pub proof fn lemma_compaction_call(
    engine: &mut Engine,
    retention: VersionedHistoryRetention,
    acknowledgement: VersionedHistoryAcknowledgement,
    outcome: Result<VersionedHistoryCompaction, Error>,
)
    requires
        has_checkpoint_room(old(engine)@.store),
        call_ensures(
            Engine::compact_versioned_history,
            (engine, retention, acknowledgement),
            outcome,
        ),
    ensures
        ({
            let before = old(engine)@;
            let store = before.store;
            let entries = log_values(store.versioned_log);
            let over = entries.len() - retention@;
            let floor = entries[over - 1].commit_sequence;
            match outcome {
                Ok(made) => {
                    let after = final(engine)@.store;
                    &&& before.policy is Some
                    &&& of_topology(acknowledgement, before.topology)
                    &&& final(engine)@ == (EngineModel { store: after, ..before })
                    &&& if over <= 0 {
                        &&& after == store
                        &&& made@.compacted_entries == 0
                        &&& made@.retained_entries == entries.len() as u64
                        &&& made@.checkpoint_sequence is None
                    } else {
                        &&& may_go(before, floor, acknowledgement)
                        &&& history_stands(before, uncovered(store))
                        &&& cut(store.versioned_log, after.versioned_log, floor)
                        &&& cut(store.commit_log, after.commit_log, floor)
                        &&& cut(store.outbox, after.outbox, floor)
                        &&& made@.compacted_entries == over as u64
                        &&& made@.retained_entries == retention@
                        &&& made@.checkpoint_sequence == after.latest_checkpoint
                        &&& exists|root: CheckpointModel|
                            {
                                &&& #[trigger] roots(before, root)
                                &&& kept_as_latest(
                                    StoreModel {
                                        checkpoints: Map::empty(),
                                        segments: Map::empty(),
                                        ..store
                                    },
                                    after,
                                    root,
                                )
                            }
                        &&& after.tables == store.tables
                        &&& after.catalog == store.catalog
                        &&& after.commit_sequence == store.commit_sequence
                        &&& after.snapshot == store.snapshot
                        &&& after.chain_head == store.chain_head
                        &&& after.mirror == store.mirror
                        &&& after.staged == store.staged
                        &&& after.subscriptions == store.subscriptions
                        &&& after.next_subscription == store.next_subscription
                        &&& after.layout == store.layout
                    }
                },
                Err(error) => {
                    &&& final(engine)@ == before
                    &&& if before.policy is None {
                        error@ == (Failure::VersioningNotEnabled {
                            surface: "compact_versioned_history"@,
                        })
                    } else if !of_topology(acknowledgement, before.topology) {
                        error@ is HistoryCompactionTopologyMismatch
                    } else {
                        &&& over > 0
                        &&& !may_go(before, floor, acknowledgement) ==> error@ == (
                        Failure::HistoryCompactionUnacknowledged {
                            required: floor,
                            acknowledged: match store.mirror {
                                Some(cursor) => Some(cursor.commit_sequence),
                                None => None,
                            },
                        })
                        &&& may_go(before, floor, acknowledgement) ==> !history_stands(
                            before,
                            uncovered(store),
                        ) || (uncovered(store).len() == 0 && store.latest_checkpoint is None)
                    }
                },
            }
        }),
{
    let before = old(engine)@;
    let store = before.store;
    lemma_history_stands(before, "compact_versioned_history"@, false);
    if let Ok(found) = history(before, "compact_versioned_history"@, false) {
        lemma_folded_sound(covered_rows(store), found.entries, covered_digest(store));
        lemma_folded_materializes(found.view, before.catalog);
    }
    if outcome is Ok {
        let after = final(engine)@.store;
        if log_values(store.versioned_log).len() > retention@ {
            let root = rooted(before)->Ok_0;
            let found = history(before, "compact_versioned_history"@, false)->Ok_0;
            lemma_loaded(store);
            lemma_record_rows(found.view);
            lemma_chunked_filled(record_rows(found.view));
            lemma_segments_kept(Map::empty(), root.segments);
            assert(addressed(root.metadata.segments, root.segments));
            if store.latest_checkpoint is Some {
                assert(stored_latest(store).metadata.sequence < u64::MAX);
            }
            assert(roots(before, root));
        }
    }
}

} // verus!
