//! Compaction: once a checkpoint stands for a stretch of the log, entries of
//! that stretch can leave the store without changing what it comes to.

use vstd::prelude::*;

use crate::checkpoint::{all_rows, chunked, lemma_chunked, verification, CheckpointModel};
use crate::engine_model::{
    all_operations, compacted, history, history_compaction, loaded, log_after, log_gap,
    rebuild_plan, resumed, root_metadata, rooted, with_root, with_rows, EngineModel, ResumeModel,
};
use crate::error::Failure;
use crate::fold::{empty_fold, fold_rows, folded, head_after, Coordinate, FoldModel};
use crate::laws::checkpoints::{
    addresses_apart, lemma_kept_reads_back, lemma_nothing_past_last, lemma_references_hold,
};
use crate::laws::folds::{
    agree, kept_at, lemma_checkpoint_stands_for_log, lemma_digest_of_records, lemma_fold_in_two,
    lemma_folded_materializes, lemma_folded_sound, lemma_rows_hold_records, record_rows, sound,
};
use crate::laws::history::{
    coherent, contiguous, lemma_coherent_elsewhere, lemma_contiguous_elsewhere,
    lemma_contiguous_listing, lemma_log_contiguous, lemma_unbroken_chain,
};
use crate::laws::rebuild::{
    held_at, identities_home, in_catalog, lemma_flawless_parts, lemma_history_agrees,
    lemma_home_parts, lemma_last_logged, lemma_operations_declare_home, lemma_operations_join,
    lemma_rebuild_changes_nothing, lemma_rows_declare_home, log_fold, log_tells_all,
    operations_home, stands_for, start_view, tables_match, told, view_registered,
};
use crate::listing::{
    from_number, lemma_first_at, lemma_number_rising, lemma_tail, log_values,
};
use crate::ordered_table::{listable, map_of, rising};
use crate::record::KeyModel;
use crate::store::{counted_so_far, StoreModel};
use crate::tables::TablesModel;
use crate::versioning::{FamilyModel, VersionedHistoryAcknowledgement};

verus! {

/// The engine after the entries up to a commit left its logs and its outbox.
pub open spec fn compacted_engine(engine: EngineModel, floor: u64) -> EngineModel {
    EngineModel { store: compacted(engine.store, floor), ..engine }
}

/// Where the log of a compacted engine starts: at what its first `count`
/// entries came to.
pub open spec fn start_past(engine: EngineModel, start: ResumeModel, count: int) -> ResumeModel {
    let gone = log_values(engine.store.versioned_log).take(count);
    ResumeModel {
        rows: record_rows(folded(start.rows, gone, start.head)->Ok_0),
        head: head_after(start.head, gone),
        after: (start.after + count) as u64,
    }
}

/// The rows of a listable map from a number on can be listed.
proof fn lemma_rest_listable<X>(log: Map<u64, X>, start: int)
    requires
        listable::<u64, X>(log),
    ensures
        listable::<u64, X>(from_number(log, start)),
{
    let rows = choose|rows: Seq<(u64, X)>| #[trigger]
        rising::<u64, X>(rows) && map_of(rows) == log;
    lemma_number_rising(rows);
    let at = lemma_first_at(rows, start);
    lemma_tail(rows, at, start);
    lemma_number_rising(rows.skip(at));
}

/// A log that holds exactly the numbers from `after + 1` to `latest` holds
/// the rest of them past any of them.
proof fn lemma_rest_listing<X>(log: Map<u64, X>, after: u64, floor: u64, latest: u64)
    requires
        after <= floor <= latest,
        forall|key: u64| log.dom().contains(key) == (after < key && key <= latest),
    ensures
        log_values(from_number(log, floor + 1)) == log_values(log).skip(floor - after),
        log_values(log).len() == latest - after,
        forall|key: u64|
            #[trigger] from_number(log, floor + 1).dom().contains(key) == (floor < key && key <= latest),
{
    lemma_contiguous_listing(log, after, latest);
    lemma_contiguous_listing(from_number(log, floor + 1), floor, latest);
    assert(log_values(from_number(log, floor + 1)) =~= log_values(log).skip(floor - after));
}

/// The log planes of a compacted store are contiguous.
proof fn lemma_compacted_contiguous(
    store: StoreModel,
    after: u64,
    policy: Option<Seq<char>>,
    floor: u64,
)
    requires
        contiguous(store, after, policy),
        policy is Some,
        after <= floor <= counted_so_far(store.commit_sequence),
    ensures
        contiguous(compacted(store, floor), floor, policy),
        log_values(compacted(store, floor).versioned_log) == log_values(
            store.versioned_log,
        ).skip(floor - after),
        log_values(compacted(store, floor).commit_log) == log_values(store.commit_log).skip(
            floor - after,
        ),
        log_values(store.versioned_log).len() == counted_so_far(store.commit_sequence) - after,
        log_values(store.commit_log).len() == counted_so_far(store.commit_sequence) - after,
{
    let latest = counted_so_far(store.commit_sequence);
    lemma_rest_listing(store.versioned_log, after, floor, latest);
    lemma_rest_listing(store.commit_log, after, floor, latest);
}

/// The log planes of a compacted store are in step.
proof fn lemma_compacted_coherent(
    store: StoreModel,
    head: Option<Seq<u8>>,
    after: u64,
    policy: Option<Seq<char>>,
    floor: u64,
)
    requires
        coherent(store, head),
        contiguous(store, after, policy),
        policy is Some,
        after <= floor <= counted_so_far(store.commit_sequence),
    ensures
        coherent(
            compacted(store, floor),
            head_after(head, log_values(store.versioned_log).take(floor - after)),
        ),
{
    let entries = log_values(store.versioned_log);
    let gone = entries.take(floor - after);
    let rest = entries.skip(floor - after);
    lemma_compacted_contiguous(store, after, policy, floor);
    lemma_rest_listable(store.versioned_log, floor + 1);
    lemma_rest_listable(store.commit_log, floor + 1);
    assert(gone + rest =~= entries);
    lemma_flawless_parts(head, gone, rest);
    assert(head_after(head_after(head, gone), rest) == head_after(head, entries)) by {
        if rest.len() > 0 {
            assert(rest.last() == entries.last());
        } else {
            assert(gone =~= entries);
        }
    }
}

/// The log planes of a compacted engine are in step and contiguous.
proof fn lemma_compacted_planes(engine: EngineModel, start: ResumeModel, count: int)
    requires
        coherent(engine.store, start.head),
        contiguous(engine.store, start.after, engine.policy),
        engine.policy is Some,
        0 <= count <= log_values(engine.store.versioned_log).len(),
    ensures
        ({
            let past = start_past(engine, start, count);
            let after = compacted_engine(engine, past.after);
            let entries = log_values(engine.store.versioned_log);
            &&& coherent(after.store, past.head)
            &&& contiguous(after.store, past.after, after.policy)
            &&& log_values(after.store.versioned_log) == entries.skip(count)
            &&& past.after == start.after + count
            &&& past.after <= counted_so_far(engine.store.commit_sequence)
        }),
{
    let store = engine.store;
    lemma_compacted_contiguous(store, start.after, engine.policy, start.after);
    let floor = (start.after + count) as u64;
    lemma_compacted_contiguous(store, start.after, engine.policy, floor);
    lemma_compacted_coherent(store, start.head, start.after, engine.policy, floor);
}

/// What the entries that left came to is told at home.
proof fn lemma_start_past_home(engine: EngineModel, start: ResumeModel, count: int)
    requires
        log_tells_all(engine, start),
        0 <= count <= log_values(engine.store.versioned_log).len(),
    ensures
        ({
            let entries = log_values(engine.store.versioned_log);
            let past = start_past(engine, start, count);
            let view = folded(start.rows, entries.take(count), start.head)->Ok_0;
            &&& folded(start.rows, entries.take(count), start.head) is Ok
            &&& sound(view)
            &&& fold_rows(empty_fold(), past.rows) is Ok
            &&& agree(start_view(past), view)
            &&& identities_home(engine.catalog, start_view(past))
            &&& operations_home(engine.catalog, all_operations(entries.skip(count)))
        }),
{
    let entries = log_values(engine.store.versioned_log);
    let gone = entries.take(count);
    let rest = entries.skip(count);
    let base = start_view(start);
    assert(gone + rest =~= entries);
    lemma_fold_in_two(base, start.head, gone, rest);
    lemma_folded_sound(start.rows, gone, start.head);
    let view = folded(start.rows, gone, start.head)->Ok_0;
    lemma_rows_hold_records(view);
    lemma_flawless_parts(start.head, gone, rest);
    lemma_operations_join(gone, rest);
    lemma_home_parts(engine.catalog, gone, rest);
    lemma_unbroken_chain(base, start.head, gone);
    lemma_operations_declare_home(engine.catalog, base, all_operations(gone));
    let rows = record_rows(view);
    lemma_rows_declare_home(engine.catalog, view, rows.len() as int);
    assert(rows.take(rows.len() as int) =~= rows);
}

/// What is left of the log folds, from what the entries that left came to,
/// to the records that the whole log folds to.
proof fn lemma_left_folds(engine: EngineModel, start: ResumeModel, count: int)
    requires
        log_tells_all(engine, start),
        0 <= count <= log_values(engine.store.versioned_log).len(),
    ensures
        ({
            let past = start_past(engine, start, count);
            let rest = log_values(engine.store.versioned_log).skip(count);
            let left = folded(past.rows, rest, past.head);
            &&& left is Ok
            &&& agree(log_fold(engine.store, start)->Ok_0, left->Ok_0)
            &&& view_registered(engine.catalog, left->Ok_0)
            &&& tables_match(engine.catalog, engine.store.tables, left->Ok_0)
        }),
{
    let past = start_past(engine, start, count);
    let entries = log_values(engine.store.versioned_log);
    let gone = entries.take(count);
    let rest = entries.skip(count);
    lemma_start_past_home(engine, start, count);
    assert(gone + rest =~= entries);
    lemma_checkpoint_stands_for_log(gone, rest, start.head, start.rows);
    let whole = log_fold(engine.store, start)->Ok_0;
    let left = folded(past.rows, rest, past.head)->Ok_0;
    lemma_flawless_parts(start.head, gone, rest);
    lemma_unbroken_chain(start_view(past), past.head, rest);
    lemma_operations_declare_home(engine.catalog, start_view(past), all_operations(rest));
    lemma_agree_matches(engine.catalog, engine.store.tables, whole, left);
}

/// Tables that match a view match every view that holds the same records.
proof fn lemma_agree_matches(
    catalog: Seq<FamilyModel>,
    tables: TablesModel,
    whole: FoldModel,
    left: FoldModel,
)
    requires
        agree(whole, left),
        view_registered(catalog, whole),
        tables_match(catalog, tables, whole),
        identities_home(catalog, left),
    ensures
        view_registered(catalog, left),
        tables_match(catalog, tables, left),
{
    assert forall|at: Coordinate| #[trigger] kept_at(left, at) is Some implies exists|
        family: FamilyModel,
    | #[trigger] in_catalog(catalog, family) && family.version() == at.0 by {
        assert(kept_at(whole, at) == kept_at(left, at));
    }
    assert forall|family: FamilyModel, key: KeyModel|
        #![trigger in_catalog(catalog, family), held_at(tables, family.table, key)]
        in_catalog(catalog, family) implies held_at(tables, family.table, key) == kept_at(
        left,
        (family.version(), key),
    ) by {
        assert(kept_at(whole, (family.version(), key)) == kept_at(left, (family.version(), key)));
    }
}

/// The log of a compacted engine tells of all records.
proof fn lemma_compacted_tells(engine: EngineModel, start: ResumeModel, count: int)
    requires
        log_tells_all(engine, start),
        contiguous(engine.store, start.after, engine.policy),
        engine.policy is Some,
        0 <= count <= log_values(engine.store.versioned_log).len(),
    ensures
        log_tells_all(
            compacted_engine(engine, start_past(engine, start, count).after),
            start_past(engine, start, count),
        ),
{
    lemma_compacted_planes(engine, start, count);
    lemma_start_past_home(engine, start, count);
    lemma_left_folds(engine, start, count);
}

/// The checkpoint of a compacted engine stands for what is left of its
/// stretch.
proof fn lemma_compacted_stands(
    engine: EngineModel,
    start: ResumeModel,
    checkpoint: CheckpointModel,
    covered: int,
    count: int,
)
    requires
        log_tells_all(engine, start),
        contiguous(engine.store, start.after, engine.policy),
        engine.policy is Some,
        stands_for(engine, start, checkpoint, covered),
        0 <= count <= covered,
    ensures
        ({
            let past = start_past(engine, start, count);
            let after = compacted_engine(engine, past.after);
            &&& stands_for(after, past, checkpoint, covered - count)
            &&& log_after(after.store, checkpoint.metadata.covered.last) == log_after(
                engine.store,
                checkpoint.metadata.covered.last,
            )
        }),
{
    let past = start_past(engine, start, count);
    let after = compacted_engine(engine, past.after);
    let entries = log_values(engine.store.versioned_log);
    let gone = entries.take(count);
    let left = entries.skip(count);
    let last = checkpoint.metadata.covered.last;
    let latest = counted_so_far(engine.store.commit_sequence);
    lemma_compacted_planes(engine, start, count);
    lemma_start_past_home(engine, start, count);
    // The range of the checkpoint ends where its stretch does.
    lemma_contiguous_listing(engine.store.versioned_log, start.after, latest);
    lemma_contiguous_listing(from_number(engine.store.versioned_log, last + 1), last, latest);
    assert(last == start.after + covered);
    assert(from_number(after.store.versioned_log, last + 1) =~= from_number(
        engine.store.versioned_log,
        last + 1,
    ));
    assert(entries.skip(covered) =~= left.skip(covered - count));
    let between = left.take(covered - count);
    assert(gone + between =~= entries.take(covered));
    lemma_checkpoint_stands_for_log(gone, between, start.head, start.rows);
    let whole = folded(start.rows, entries.take(covered), start.head)->Ok_0;
    let stretch = folded(past.rows, between, past.head)->Ok_0;
    let rows = fold_rows(empty_fold(), all_rows(checkpoint.segments))->Ok_0;
    assert(agree(rows, stretch)) by {
        assert forall|at: Coordinate| #[trigger] kept_at(rows, at) == kept_at(stretch, at) by {
            assert(kept_at(rows, at) == kept_at(whole, at));
            assert(kept_at(whole, at) == kept_at(stretch, at));
        }
    }
    assert(head_after(past.head, between) == head_after(start.head, entries.take(covered)));
}

/// Compaction keeps what the store comes to: once the latest checkpoint
/// stands for a stretch of the log, any first entries of that stretch can
/// leave the logs and the outbox. A rebuild plans exactly what it would have
/// planned and changes no record, the records, the cursors, the chain head
/// and the checkpoint stay as they were, and the log that is left goes on
/// telling of all records, without a gap.
pub proof fn lemma_compaction_keeps_view(
    engine: EngineModel,
    start: ResumeModel,
    checkpoint: CheckpointModel,
    covered: int,
    count: int,
)
    requires
        told(engine, start),
        contiguous(engine.store, start.after, engine.policy),
        engine.policy is Some,
        loaded(engine.store) == Ok::<Option<CheckpointModel>, Failure>(Some(checkpoint)),
        stands_for(engine, start, checkpoint, covered),
        0 <= count <= covered,
    ensures
        ({
            let past = start_past(engine, start, count);
            let after = compacted_engine(engine, past.after);
            &&& told(after, past)
            &&& contiguous(after.store, past.after, after.policy)
            &&& log_values(after.store.versioned_log) == log_values(
                engine.store.versioned_log,
            ).skip(count)
            &&& rebuild_plan(after) == rebuild_plan(engine)
            &&& rebuild_plan(after) is Ok
            &&& with_rows(after, rebuild_plan(after)->Ok_0.rows) == after
            &&& loaded(after.store) == loaded(engine.store)
            &&& after.store.tables == engine.store.tables
            &&& after.store.commit_sequence == engine.store.commit_sequence
            &&& after.store.snapshot == engine.store.snapshot
            &&& after.store.chain_head == engine.store.chain_head
        }),
{
    let past = start_past(engine, start, count);
    let after = compacted_engine(engine, past.after);
    lemma_compacted_planes(engine, start, count);
    lemma_compacted_tells(engine, start, count);
    lemma_compacted_stands(engine, start, checkpoint, covered, count);
    assert(told(after, past));
    lemma_log_contiguous(engine.store, start.head, start.after, engine.policy);
    lemma_log_contiguous(after.store, past.head, past.after, after.policy);
    assert(log_gap(engine.store) is None);
    assert(log_gap(after.store) is None);
    assert(history(after, "rebuild_from_log"@, false) == history(
        engine,
        "rebuild_from_log"@,
        false,
    ));
    lemma_rebuild_changes_nothing(after, past);
}

/// The one checkpoint that a compaction leaves holds the history's records,
/// and verifies.
proof fn lemma_root_verifies(engine: EngineModel)
    requires
        rooted(engine) is Ok,
    ensures
        ({
            let found = history(engine, "compact_versioned_history"@, false)->Ok_0;
            let segments = chunked(record_rows(found.view));
            &&& history(engine, "compact_versioned_history"@, false) is Ok
            &&& sound(found.view)
            &&& rooted(engine)->Ok_0 == (CheckpointModel {
                metadata: root_metadata(engine, found, segments),
                segments,
            })
            &&& all_rows(segments) == record_rows(found.view)
            &&& found.entries.len() > 0 || found.latest is Some
        }),
        verification(rooted(engine)->Ok_0) is None,
{
    let found = history(engine, "compact_versioned_history"@, false)->Ok_0;
    let from = resumed(found.latest);
    lemma_folded_sound(from.rows, found.entries, from.head);
    lemma_folded_materializes(found.view, engine.catalog);
    lemma_chunked(record_rows(found.view));
    lemma_references_hold(rooted(engine)->Ok_0.segments);
    lemma_rows_hold_records(found.view);
    let back = fold_rows(empty_fold(), record_rows(found.view))->Ok_0;
    lemma_digest_of_records(back, found.view);
    assert(folded(record_rows(found.view), Seq::empty(), None) == Ok::<FoldModel, Failure>(back));
}

/// The engine with one checkpoint in place of all that it kept.
pub open spec fn rooted_engine(engine: EngineModel) -> EngineModel {
    EngineModel { store: with_root(engine.store, rooted(engine)->Ok_0), ..engine }
}

/// Where the one checkpoint ends: at the last logged entry, or where the
/// checkpoint before it ended.
proof fn lemma_root_ends(engine: EngineModel, start: ResumeModel)
    requires
        told(engine, start),
        contiguous(engine.store, start.after, engine.policy),
        engine.policy is Some,
        rooted(engine) is Ok,
    ensures
        ({
            let metadata = rooted(engine)->Ok_0.metadata;
            let entries = log_values(engine.store.versioned_log);
            &&& log_after(engine.store, metadata.covered.last).len() == 0
            &&& start.after <= metadata.covered.last <= counted_so_far(
                engine.store.commit_sequence,
            )
            &&& Some(metadata.entry_digest) == head_after(start.head, entries)
        }),
{
    let found = history(engine, "compact_versioned_history"@, false)->Ok_0;
    let entries = log_values(engine.store.versioned_log);
    let from = resumed(found.latest);
    lemma_root_verifies(engine);
    lemma_log_contiguous(engine.store, start.head, start.after, engine.policy);
    lemma_history_agrees(engine, start, "compact_versioned_history"@, false);
    if found.entries.len() > 0 {
        lemma_nothing_past_last(engine.store.versioned_log, from.after);
        lemma_last_logged(engine.store, start.head, from.after);
    } else {
        let latest = found.latest->0;
        let count = choose|count: int| #[trigger] stands_for(engine, start, latest, count);
        assert(entries.skip(count).len() == 0);
        assert(entries.take(count) =~= entries);
    }
}

/// With one checkpoint in place of all others the log tells as before, and
/// the checkpoint stands for all of it.
proof fn lemma_root_told(engine: EngineModel, start: ResumeModel)
    requires
        told(engine, start),
        contiguous(engine.store, start.after, engine.policy),
        engine.policy is Some,
        rooted(engine) is Ok,
        addresses_apart(rooted(engine)->Ok_0.segments),
    ensures
        told(rooted_engine(engine), start),
        contiguous(rooted_engine(engine).store, start.after, engine.policy),
        loaded(rooted_engine(engine).store) == Ok::<Option<CheckpointModel>, Failure>(
            Some(rooted(engine)->Ok_0),
        ),
        stands_for(
            rooted_engine(engine),
            start,
            rooted(engine)->Ok_0,
            log_values(engine.store.versioned_log).len() as int,
        ),
{
    let checkpoint = rooted(engine)->Ok_0;
    let after = rooted_engine(engine);
    let entries = log_values(engine.store.versioned_log);
    let found = history(engine, "compact_versioned_history"@, false)->Ok_0;
    lemma_coherent_elsewhere(engine.store, after.store, start.head);
    lemma_contiguous_elsewhere(engine.store, after.store, start.after, engine.policy);
    lemma_log_contiguous(engine.store, start.head, start.after, engine.policy);
    lemma_root_verifies(engine);
    lemma_root_ends(engine, start);
    lemma_history_agrees(engine, start, "compact_versioned_history"@, false);
    lemma_kept_reads_back(
        StoreModel { checkpoints: Map::empty(), segments: Map::empty(), ..engine.store },
        checkpoint,
    );
    assert(log_tells_all(after, start));
    assert(log_after(after.store, checkpoint.metadata.covered.last) =~= entries.skip(
        entries.len() as int,
    ));
    assert(entries.take(entries.len() as int) =~= entries);
    lemma_rows_hold_records(found.view);
    let rows = record_rows(found.view);
    let back = fold_rows(empty_fold(), rows)->Ok_0;
    let whole = log_fold(engine.store, start)->Ok_0;
    assert(agree(back, whole)) by {
        assert forall|at: Coordinate| #[trigger] kept_at(back, at) == kept_at(whole, at) by {
            assert(kept_at(found.view, at) == kept_at(whole, at));
        }
    }
    lemma_rows_declare_home(engine.catalog, found.view, rows.len() as int);
    assert(rows.take(rows.len() as int) =~= rows);
    assert(stands_for(after, start, checkpoint, entries.len() as int));
}

/// Compacting the version history keeps what the store comes to, before and
/// after a restart: the records, the catalog, the cursors and the chain head
/// stay; the log that is left is the last entries of the budget, and goes on
/// telling of all records without a gap; a rebuild changes nothing. Two
/// segments that collide under blake3 are left out.
pub proof fn lemma_history_compaction_keeps_view(
    engine: EngineModel,
    start: ResumeModel,
    budget: u64,
    acknowledgement: VersionedHistoryAcknowledgement,
)
    requires
        told(engine, start),
        contiguous(engine.store, start.after, engine.policy),
        history_compaction(engine, budget, acknowledgement) is Ok,
        rooted(engine) matches Ok(checkpoint) ==> addresses_apart(checkpoint.segments),
    ensures
        ({
            let (store, made) = history_compaction(engine, budget, acknowledgement)->Ok_0;
            let after = EngineModel { store, ..engine };
            let count = made.compacted_entries as int;
            let past = if count == 0 {
                start
            } else {
                start_past(engine, start, count)
            };
            &&& told(after, past)
            &&& contiguous(store, past.after, engine.policy)
            &&& log_values(store.versioned_log) == log_values(engine.store.versioned_log).skip(
                count,
            )
            &&& log_values(store.versioned_log).len() <= budget
            &&& store.tables == engine.store.tables
            &&& store.catalog == engine.store.catalog
            &&& store.commit_sequence == engine.store.commit_sequence
            &&& store.snapshot == engine.store.snapshot
            &&& store.chain_head == engine.store.chain_head
            &&& rebuild_plan(after) is Ok
            &&& with_rows(after, rebuild_plan(after)->Ok_0.rows) == after
        }),
{
    let entries = log_values(engine.store.versioned_log);
    let (store, made) = history_compaction(engine, budget, acknowledgement)->Ok_0;
    lemma_log_contiguous(engine.store, start.head, start.after, engine.policy);
    if entries.len() <= budget {
        assert(entries.skip(0) =~= entries);
        assert(log_gap(engine.store) is None);
        lemma_rebuild_changes_nothing(engine, start);
        assert((EngineModel { store, ..engine }) == engine);
    } else {
        let count = entries.len() - budget;
        let checkpoint = rooted(engine)->Ok_0;
        let rooted_one = rooted_engine(engine);
        lemma_root_told(engine, start);
        assert(entries[count - 1].commit_sequence == start.after + count);
        lemma_compaction_keeps_view(
            rooted_one,
            start,
            checkpoint,
            entries.len() as int,
            count,
        );
        assert(start_past(rooted_one, start, count) == start_past(engine, start, count));
    }
}

} // verus!
