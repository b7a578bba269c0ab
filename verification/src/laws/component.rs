//! The reusable log, call by call: what an entry does to a view, what a
//! transition carries over, what a log hands out, and how frames read back.

use vstd::prelude::*;

use crate::digest::{blake3_digest, joined};
use crate::laws::digests::lemma_joined_front;
use crate::laws::versioned::{in_order, lemma_commit_comes_last, lemma_short_delimited};
use crate::models::{option_view, views};
use crate::ordered_table::{
    has_key, keyed_at, lemma_listed, lemma_position, listable, listing_of, TableKey,
};
use crate::versioned::envelope::{
    envelope_input, envelope_refusal, short_framed, EnvelopeModel, OperationKind, ReplayEnvelope,
};
use crate::versioned::error::{VersionedError, VersionedFailure};
use crate::versioned::family::{family_hash, RecordFamily};
use crate::versioned::frames::{
    big_endian, bodies_from, frame, frame_end, framed_bodies, lemma_frames_round_trip, number_at,
    split_frames,
};
use crate::versioned::identity::{
    no_predecessor, CommitSequence, EntryDigest, RecordKey, SchemaHash,
};
use crate::versioned::log::{
    entries_since, has_next, next_envelope, CommitVerbs, LogHead, SameFileLog, VersionedLog,
};
use crate::versioned::migration::{
    archived_pair, found_reducer, lemma_transition_round_trip, pair_archive, Reducer, ReducerSet,
    SchemaTransition,
};
use crate::versioned::record::{ComponentRecord, FoldCoordinate, FoldKey};
use crate::versioned::view::{
    all_keys, applied_entry, carried, carried_record, family_keys, folded_entries, migrated,
    of_family, state_input, state_part, MaterializedView,
};

verus! {

/// The first step of a set that goes from one schema to another.
pub open spec fn first_step<Step: Reducer>(
    reducers: Seq<Step>,
    from: Seq<u8>,
    to: Seq<u8>,
    at: int,
) -> bool {
    &&& 0 <= at < reducers.len()
    &&& reducers[at].source() == from
    &&& reducers[at].target() == to
    &&& forall|i: int|
        0 <= i < at ==> (#[trigger] reducers[i]).source() != from || reducers[i].target() != to
}

/// A set has no step from one schema to another.
pub open spec fn no_step<Step: Reducer>(
    reducers: Seq<Step>,
    from: Seq<u8>,
    to: Seq<u8>,
) -> bool {
    forall|i: int|
        0 <= i < reducers.len() ==> (#[trigger] reducers[i]).source() != from
            || reducers[i].target() != to
}

/// The step of a transition is the first that goes from its one schema to
/// its other, and there is none exactly where no step does.
pub proof fn lemma_first_step<Step: Reducer>(
    reducers: Seq<Step>,
    from: Seq<u8>,
    to: Seq<u8>,
)
    ensures
        match found_reducer(reducers, from, to) {
            Some(step) => exists|at: int| #[trigger]
                first_step(reducers, from, to, at) && reducers[at] == step,
            None => no_step(reducers, from, to),
        },
    decreases reducers.len(),
{
    if reducers.len() > 0 {
        let rest = reducers.drop_first();
        if reducers[0].source() == from && reducers[0].target() == to {
            assert(first_step(reducers, from, to, 0));
        } else {
            lemma_first_step(rest, from, to);
            match found_reducer(rest, from, to) {
                Some(step) => {
                    let at = choose|at: int| #[trigger]
                        first_step(rest, from, to, at) && rest[at] == step;
                    assert forall|i: int| 0 <= i < at + 1 implies (
                    #[trigger] reducers[i]).source() != from || reducers[i].target() != to by {
                        if i > 0 {
                            assert(rest[i - 1] == reducers[i]);
                        }
                    }
                    assert(first_step(reducers, from, to, at + 1));
                },
                None => {
                    assert forall|i: int| 0 <= i < reducers.len() implies (
                    #[trigger] reducers[i]).source() != from || reducers[i].target() != to by {
                        if i > 0 {
                            assert(rest[i - 1] == reducers[i]);
                        }
                    }
                },
            }
        }
    }
}

/// What a step makes of the record at a coordinate: the record's bytes,
/// migrated, and decoded under the new schema.
pub open spec fn made_of<Record: ComponentRecord, Step: Reducer>(
    records: Map<FoldCoordinate, Record>,
    key: FoldCoordinate,
    step: Step,
    to: Seq<u8>,
) -> Result<Record, VersionedFailure> {
    match records[key].reencoded() {
        Ok(encoded) => match step.migrated(encoded.1) {
            Ok(payload) => Record::decoded(to, payload),
            Err(failure) => Err(failure),
        },
        Err(failure) => Err(failure),
    }
}

/// What a step makes of a family leaves it, and no two records of it come
/// to stand at one coordinate.
pub open spec fn leaves_apart<Record: ComponentRecord, Step: Reducer>(
    records: Map<FoldCoordinate, Record>,
    from: Seq<u8>,
    step: Step,
    to: Seq<u8>,
) -> bool {
    &&& forall|key: FoldCoordinate| #[trigger]
        records.dom().contains(key) && key.0 == from && made_of(records, key, step, to) is Ok
            ==> made_of(records, key, step, to)->Ok_0.coordinate().0 != from
    &&& forall|key: FoldCoordinate, other: FoldCoordinate|
        #![trigger records.dom().contains(key), records.dom().contains(other)]
        records.dom().contains(key) && records.dom().contains(other) && key.0 == from && other.0
            == from && key != other && made_of(records, key, step, to) is Ok && made_of(
            records,
            other,
            step,
            to,
        ) is Ok ==> made_of(records, key, step, to)->Ok_0.coordinate() != made_of(
            records,
            other,
            step,
            to,
        )->Ok_0.coordinate()
}

/// A coordinate is where a step puts a record of the keys.
pub open spec fn put_at<Record: ComponentRecord, Step: Reducer>(
    records: Map<FoldCoordinate, Record>,
    keys: Seq<FoldCoordinate>,
    step: Step,
    to: Seq<u8>,
    place: FoldCoordinate,
) -> bool {
    exists|i: int|
        0 <= i < keys.len() && (made_of(records, #[trigger] keys[i], step, to) matches Ok(record)
            && record.coordinate() == place)
}

#[verifier::rlimit(40)]
proof fn lemma_carried<Record: ComponentRecord, Step: Reducer>(
    records: Map<FoldCoordinate, Record>,
    keys: Seq<FoldCoordinate>,
    from: Seq<u8>,
    step: Step,
    to: Seq<u8>,
)
    requires
        leaves_apart(records, from, step, to),
        keys.no_duplicates(),
        forall|i: int|
            0 <= i < keys.len() ==> (#[trigger] keys[i]).0 == from && records.dom().contains(
                keys[i],
            ),
    ensures
        ({
            let (after, refusal) = carried(records, keys, step, to);
            match refusal {
                None => {
                    &&& forall|i: int|
                        #![trigger keys[i]]
                        0 <= i < keys.len() ==> {
                            let made = made_of(records, keys[i], step, to);
                            &&& made is Ok
                            &&& !after.dom().contains(keys[i])
                            &&& after.dom().contains(made->Ok_0.coordinate())
                            &&& after[made->Ok_0.coordinate()] == made->Ok_0
                        }
                    &&& forall|place: FoldCoordinate|
                        !keys.contains(place) && !put_at(records, keys, step, to, place) ==> {
                            &&& #[trigger] after.dom().contains(place) == records.dom().contains(
                                place,
                            )
                            &&& after[place] == records[place]
                        }
                },
                Some(failure) => exists|i: int|
                    {
                        &&& 0 <= i < keys.len()
                        &&& made_of(records, #[trigger] keys[i], step, to) == Err::<
                            Record,
                            VersionedFailure,
                        >(failure)
                        &&& forall|j: int|
                            0 <= j < i ==> made_of(records, #[trigger] keys[j], step, to) is Ok
                    },
            }
        }),
    decreases keys.len(),
{
    if keys.len() > 0 {
        let less = keys.drop_last();
        let end = keys.len() - 1;
        let key = keys[end];
        assert forall|i: int| 0 <= i < less.len() implies (#[trigger] less[i]).0 == from
            && records.dom().contains(less[i]) by {
            assert(less[i] == keys[i]);
        }
        lemma_carried(records, less, from, step, to);
        let (between, stopped) = carried(records, less, step, to);
        let (after, refusal) = carried(records, keys, step, to);
        match stopped {
            Some(failure) => {
                let i = choose|i: int|
                    {
                        &&& 0 <= i < less.len()
                        &&& made_of(records, #[trigger] less[i], step, to) == Err::<
                            Record,
                            VersionedFailure,
                        >(failure)
                        &&& forall|j: int|
                            0 <= j < i ==> made_of(records, #[trigger] less[j], step, to) is Ok
                    };
                assert(keys[i] == less[i]);
                assert forall|j: int| 0 <= j < i implies made_of(
                    records,
                    #[trigger] keys[j],
                    step,
                    to,
                ) is Ok by {
                    assert(less[j] == keys[j]);
                }
            },
            None => {
                assert(!less.contains(key)) by {
                    if less.contains(key) {
                        let i = choose|i: int| 0 <= i < less.len() && less[i] == key;
                        assert(keys[i] == keys[end]);
                    }
                }
                assert(!put_at(records, less, step, to, key)) by {
                    if put_at(records, less, step, to, key) {
                        let i = choose|i: int|
                            0 <= i < less.len() && (made_of(
                                records,
                                #[trigger] less[i],
                                step,
                                to,
                            ) matches Ok(record) && record.coordinate() == key);
                        assert(records.dom().contains(less[i]));
                        assert(key.0 == from);
                    }
                }
                assert(between.dom().contains(key));
                assert(between[key] == records[key]);
                let made = made_of(records, key, step, to);
                assert(made == carried_record(records[key], step, to));
                assert forall|j: int| 0 <= j < end implies made_of(
                    records,
                    #[trigger] keys[j],
                    step,
                    to,
                ) is Ok by {
                    assert(less[j] == keys[j]);
                }
                if let Ok(record) = made {
                    let place = record.coordinate();
                    assert(place.0 != from);
                    assert forall|i: int|
                        #![trigger keys[i]]
                        0 <= i < keys.len() implies {
                        let made = made_of(records, keys[i], step, to);
                        &&& made is Ok
                        &&& !after.dom().contains(keys[i])
                        &&& after.dom().contains(made->Ok_0.coordinate())
                        &&& after[made->Ok_0.coordinate()] == made->Ok_0
                    } by {
                        if i < end {
                            assert(less[i] == keys[i]);
                            assert(keys[i] != keys[end]);
                            assert(records.dom().contains(keys[i]));
                            assert(records.dom().contains(keys[end]));
                            let other = made_of(records, keys[i], step, to)->Ok_0;
                            assert(other.coordinate() != place);
                            assert(other.coordinate() != key);
                        }
                    }
                    assert forall|spot: FoldCoordinate|
                        !keys.contains(spot) && !put_at(
                            records,
                            keys,
                            step,
                            to,
                            spot,
                        ) implies {
                        &&& #[trigger] after.dom().contains(spot) == records.dom().contains(spot)
                        &&& after[spot] == records[spot]
                    } by {
                        assert(!less.contains(spot)) by {
                            if less.contains(spot) {
                                let i = choose|i: int| 0 <= i < less.len() && less[i] == spot;
                                assert(keys[i] == spot);
                            }
                        }
                        assert(!put_at(records, less, step, to, spot)) by {
                            if put_at(records, less, step, to, spot) {
                                let i = choose|i: int|
                                    0 <= i < less.len() && (made_of(
                                        records,
                                        #[trigger] less[i],
                                        step,
                                        to,
                                    ) matches Ok(record) && record.coordinate() == spot);
                                assert(keys[i] == less[i]);
                            }
                        }
                        assert(spot != place) by {
                            if spot == place {
                                assert(made_of(records, keys[end], step, to) is Ok);
                                assert(put_at(records, keys, step, to, spot));
                            }
                        }
                        assert(keys.contains(keys[end]));
                        assert(between.dom().contains(spot) == records.dom().contains(spot));
                    }
                }
            },
        }
    }
}

/// The keys of a family are the coordinates of it that hold a record, each
/// once.
pub proof fn lemma_family_keys<Record>(records: Map<FoldCoordinate, Record>, family: Seq<u8>)
    requires
        listable::<FoldKey, Record>(records),
    ensures
        family_keys(records, family).no_duplicates(),
        forall|key: FoldCoordinate| #[trigger]
            family_keys(records, family).contains(key) <==> records.dom().contains(key) && key.0
                == family,
{
    lemma_listed::<FoldKey, Record>(records);
    let rows = listing_of::<FoldKey, Record>(records);
    let all = all_keys(records);
    let wanted = of_family(family);
    assert forall|i: int, j: int| 0 <= i < j < all.len() implies all[i] != all[j] by {
        assert(<FoldKey as TableKey>::precedes(rows[i].0, rows[j].0));
        <FoldKey as TableKey>::lemma_irreflexive(rows[i].0);
    }
    assert(all.no_duplicates());
    lemma_filter_apart(all, wanted);
    let found = all.filter(wanted);
    assert forall|key: FoldCoordinate| #[trigger]
        found.contains(key) <==> records.dom().contains(key) && key.0 == family by {
        if found.contains(key) {
            let i = choose|i: int| 0 <= i < found.len() && found[i] == key;
            lemma_kept(all, wanted, i);
            let j = choose|j: int| 0 <= j < all.len() && all[j] == key;
            lemma_position::<FoldKey, Record>(rows, j);
        }
        if records.dom().contains(key) && key.0 == family {
            assert(has_key(rows, key));
            let j = choose|j: int| keyed_at(rows, key, j);
            assert(all[j] == key);
            all.lemma_filter_contains(wanted, j);
        }
    }
}

/// What is picked is wanted, and is one of the items.
proof fn lemma_kept<A>(items: Seq<A>, wanted: spec_fn(A) -> bool, i: int)
    requires
        0 <= i < items.filter(wanted).len(),
    ensures
        wanted(items.filter(wanted)[i]),
        items.contains(items.filter(wanted)[i]),
    decreases items.len(),
{
    reveal(Seq::filter);
    let less = items.drop_last();
    if i < less.filter(wanted).len() {
        lemma_kept(less, wanted, i);
        let j = choose|j: int| 0 <= j < less.len() && less[j] == less.filter(wanted)[i];
        assert(items[j] == less[j]);
    } else {
        assert(items[items.len() - 1] == items.last());
    }
}

/// Picking from items that are all different leaves items that are.
proof fn lemma_filter_apart(items: Seq<FoldCoordinate>, wanted: spec_fn(FoldCoordinate) -> bool)
    requires
        items.no_duplicates(),
    ensures
        items.filter(wanted).no_duplicates(),
    decreases items.len(),
{
    reveal(Seq::filter);
    if items.len() > 0 {
        let less = items.drop_last();
        lemma_filter_apart(less, wanted);
        let found = less.filter(wanted);
        if found.contains(items.last()) {
            let i = choose|i: int| 0 <= i < found.len() && found[i] == items.last();
            lemma_kept(less, wanted, i);
            let j = choose|j: int| 0 <= j < less.len() && less[j] == items.last();
            assert(items[j] == items[items.len() - 1]);
        }
        assert forall|i: int, j: int|
            0 <= i < j < items.filter(wanted).len() implies items.filter(wanted)[i]
            != items.filter(wanted)[j] by {
            if j < found.len() {
                assert(found[i] != found[j]);
            } else {
                assert(found.contains(found[i]));
            }
        }
    }
}

/// What a transition leaves of a view: every record of the family stands
/// where its migrated self belongs, none is left under the old schema, and
/// every other coordinate that nothing was carried to is as it was.
pub open spec fn carried_over<Record: ComponentRecord, Step: Reducer>(
    before: Map<FoldCoordinate, Record>,
    after: Map<FoldCoordinate, Record>,
    from: Seq<u8>,
    step: Step,
    to: Seq<u8>,
) -> bool {
    &&& forall|key: FoldCoordinate| #[trigger]
        before.dom().contains(key) && key.0 == from ==> {
            let made = made_of(before, key, step, to);
            &&& made is Ok
            &&& !after.dom().contains(key)
            &&& after.dom().contains(made->Ok_0.coordinate())
            &&& after[made->Ok_0.coordinate()] == made->Ok_0
        }
    &&& forall|place: FoldCoordinate|
        place.0 != from && (forall|key: FoldCoordinate| #[trigger]
            before.dom().contains(key) && key.0 == from ==> made_of(
                before,
                key,
                step,
                to,
            )->Ok_0.coordinate() != place) ==> {
            &&& #[trigger] after.dom().contains(place) == before.dom().contains(place)
            &&& after[place] == before[place]
        }
    &&& forall|key: FoldCoordinate| #[trigger] after.dom().contains(key) ==> key.0 != from
}

proof fn lemma_migrated<Record: ComponentRecord, Step: Reducer>(
    records: Map<FoldCoordinate, Record>,
    from: Seq<u8>,
    to: Seq<u8>,
    reducers: Seq<Step>,
    at: int,
)
    requires
        listable::<FoldKey, Record>(records),
        first_step(reducers, from, to, at),
        leaves_apart(records, from, reducers[at], to),
    ensures
        match migrated(records, (from, to), reducers) {
            (after, None) => carried_over(records, after, from, reducers[at], to),
            (_, Some(failure)) => exists|key: FoldCoordinate| #[trigger]
                records.dom().contains(key) && key.0 == from && made_of(
                    records,
                    key,
                    reducers[at],
                    to,
                ) == Err::<Record, VersionedFailure>(failure),
        },
{
    let step = reducers[at];
    lemma_first_step(reducers, from, to);
    let found = choose|other: int| #[trigger]
        first_step(reducers, from, to, other) && reducers[other] == found_reducer(
            reducers,
            from,
            to,
        )->0;
    assert(found == at) by {
        assert(reducers[at].source() == from);
        assert(reducers[found].source() == from);
    }
    let keys = family_keys(records, from);
    lemma_family_keys(records, from);
    assert forall|i: int| 0 <= i < keys.len() implies (#[trigger] keys[i]).0 == from
        && records.dom().contains(keys[i]) by {
        assert(keys.contains(keys[i]));
    }
    lemma_carried(records, keys, from, step, to);
    let (after, refusal) = carried(records, keys, step, to);
    match refusal {
        Some(failure) => {
            let i = choose|i: int|
                0 <= i < keys.len() && made_of(records, #[trigger] keys[i], step, to) == Err::<
                    Record,
                    VersionedFailure,
                >(failure);
            assert(records.dom().contains(keys[i]));
        },
        None => {
            assert forall|key: FoldCoordinate| #[trigger]
                records.dom().contains(key) && key.0 == from implies {
                let made = made_of(records, key, step, to);
                &&& made is Ok
                &&& !after.dom().contains(key)
                &&& after.dom().contains(made->Ok_0.coordinate())
                &&& after[made->Ok_0.coordinate()] == made->Ok_0
            } by {
                assert(keys.contains(key));
                let i = choose|i: int| 0 <= i < keys.len() && keys[i] == key;
                assert(keys[i] == key);
            }
            assert forall|place: FoldCoordinate|
                place.0 != from && (forall|key: FoldCoordinate| #[trigger]
                    records.dom().contains(key) && key.0 == from ==> made_of(
                        records,
                        key,
                        step,
                        to,
                    )->Ok_0.coordinate() != place) implies {
                &&& #[trigger] after.dom().contains(place) == records.dom().contains(place)
                &&& after[place] == records[place]
            } by {
                assert(!keys.contains(place));
                assert(!put_at(records, keys, step, to, place)) by {
                    if put_at(records, keys, step, to, place) {
                        let i = choose|i: int|
                            0 <= i < keys.len() && (made_of(
                                records,
                                #[trigger] keys[i],
                                step,
                                to,
                            ) matches Ok(record) && record.coordinate() == place);
                        assert(records.dom().contains(keys[i]));
                    }
                }
            }
            assert forall|key: FoldCoordinate| #[trigger] after.dom().contains(key) implies key.0
                != from by {
                if key.0 == from {
                    if keys.contains(key) {
                        let i = choose|i: int| 0 <= i < keys.len() && keys[i] == key;
                        assert(!after.dom().contains(keys[i]));
                    } else {
                        assert(!put_at(records, keys, step, to, key)) by {
                            if put_at(records, keys, step, to, key) {
                                let i = choose|i: int|
                                    0 <= i < keys.len() && (made_of(
                                        records,
                                        #[trigger] keys[i],
                                        step,
                                        to,
                                    ) matches Ok(record) && record.coordinate() == key);
                                assert(records.dom().contains(keys[i]));
                            }
                        }
                        assert(records.dom().contains(key));
                    }
                }
            }
        },
    }
}

/// The two schemas that a transition's payload ends with.
pub open spec fn named_schemas(payload: Seq<u8>) -> (Seq<u8>, Seq<u8>) {
    let len = payload.len() as int;
    (payload.subrange(len - 64, len - 32), payload.subrange(len - 32, len))
}

/// Applying an entry to a view. An assertion puts its record at the record's
/// own coordinate; a retraction clears the coordinate that it names; a
/// checkpoint changes no record; a transition carries its family over by the
/// first step for it. Nothing else moves. A refused entry is not counted as
/// applied.
#[verifier::rlimit(40)]
pub proof fn lemma_apply_call<Record: ComponentRecord, Step: Reducer>(
    view: &mut MaterializedView<Record>,
    entry: &ReplayEnvelope,
    reducers: &ReducerSet<Step>,
    outcome: Result<(), VersionedError>,
)
    requires
        call_ensures(
            MaterializedView::<Record>::apply::<Step>,
            (view, entry, reducers),
            outcome,
        ),
    ensures
        final(view)@.applied == if outcome is Ok {
            Some(entry@.sequence)
        } else {
            old(view)@.applied
        },
        entry@.operation is Assert ==> match outcome {
            Ok(()) => {
                let made = Record::decoded(entry@.schema_hash, entry@.payload);
                &&& made is Ok
                &&& final(view)@.records == old(view)@.records.insert(
                    made->Ok_0.coordinate(),
                    made->Ok_0,
                )
            },
            Err(error) => {
                &&& Record::decoded(entry@.schema_hash, entry@.payload) == Err::<
                    Record,
                    VersionedFailure,
                >(error@)
                &&& final(view)@.records == old(view)@.records
            },
        },
        entry@.operation is Retract ==> outcome is Ok && final(view)@.records == old(
            view,
        )@.records.remove((entry@.schema_hash, entry@.key)),
        entry@.operation is Checkpoint ==> outcome is Ok && final(view)@.records == old(
            view,
        )@.records,
        entry@.operation is SchemaTransition && entry@.payload.len() < 64 ==> {
            &&& outcome matches Err(error) && error@ is Decode
            &&& final(view)@.records == old(view)@.records
        },
        entry@.operation is SchemaTransition && entry@.payload.len() >= 64 ==> {
            let (from, to) = named_schemas(entry@.payload);
            &&& no_step(reducers@, from, to) ==> {
                &&& outcome matches Err(error) && error@ == (VersionedFailure::MissingReducer {
                    from,
                    to,
                })
                &&& final(view)@.records == old(view)@.records
            }
            &&& forall|at: int| #[trigger]
                first_step(reducers@, from, to, at) && listable::<FoldKey, Record>(
                    old(view)@.records,
                ) && leaves_apart(old(view)@.records, from, reducers@[at], to)
                    ==> match outcome {
                    Ok(()) => carried_over(
                        old(view)@.records,
                        final(view)@.records,
                        from,
                        reducers@[at],
                        to,
                    ),
                    Err(error) => exists|key: FoldCoordinate| #[trigger]
                        old(view)@.records.dom().contains(key) && key.0 == from && made_of(
                            old(view)@.records,
                            key,
                            reducers@[at],
                            to,
                        ) == Err::<Record, VersionedFailure>(error@),
                }
        },
{
    if entry@.operation is SchemaTransition && entry@.payload.len() >= 64 {
        let (from, to) = named_schemas(entry@.payload);
        assert(archived_pair(entry@.payload) == Some((from, to)));
        lemma_first_step(reducers@, from, to);
        if found_reducer(reducers@, from, to) is Some {
            assert(!no_step(reducers@, from, to)) by {
                let at = choose|at: int| #[trigger] first_step(reducers@, from, to, at);
                assert(reducers@[at].source() == from && reducers@[at].target() == to);
            }
        }
        assert forall|at: int| #[trigger]
            first_step(reducers@, from, to, at) && listable::<FoldKey, Record>(
                old(view)@.records,
            ) && leaves_apart(old(view)@.records, from, reducers@[at], to) implies match outcome {
            Ok(()) => carried_over(
                old(view)@.records,
                final(view)@.records,
                from,
                reducers@[at],
                to,
            ),
            Err(error) => exists|key: FoldCoordinate| #[trigger]
                old(view)@.records.dom().contains(key) && key.0 == from && made_of(
                    old(view)@.records,
                    key,
                    reducers@[at],
                    to,
                ) == Err::<Record, VersionedFailure>(error@),
        } by {
            lemma_migrated(old(view)@.records, from, to, reducers@, at);
        }
    }
}

/// An entry that is sound after another: its digest is that of its own
/// fields, and it records the digest before it, or nothing before the first.
pub open spec fn sound_after(entry: EnvelopeModel, prior: Option<Seq<u8>>) -> bool {
    &&& entry.digest == blake3_digest(envelope_input(entry))
    &&& entry.previous == match prior {
        Some(digest) => digest,
        None => Seq::new(32, |i: int| 0u8),
    }
}

/// Verification passes exactly the entries that are sound after another.
pub proof fn lemma_verify_call(
    entry: &ReplayEnvelope,
    prior: Option<EntryDigest>,
    outcome: Result<(), VersionedError>,
)
    requires
        call_ensures(ReplayEnvelope::verify, (entry, prior), outcome),
    ensures
        outcome is Ok <==> sound_after(entry@, option_view(prior)),
        outcome matches Err(error) ==> if entry@.digest != blake3_digest(envelope_input(entry@)) {
            error@ == (VersionedFailure::CorruptEntry { sequence: entry@.sequence })
        } else {
            error@ is BrokenChain
        },
{
}

/// The digest of the entry before a place of a log.
pub open spec fn before_place(entries: Seq<EnvelopeModel>, at: int) -> Option<Seq<u8>> {
    if at > 0 {
        Some(entries[at - 1].digest)
    } else {
        None
    }
}

/// A log that rebuilds is sound throughout, and the view has applied its
/// last entry; a log that does not rebuild has an entry that is unsound or
/// that is refused by what stood before it.
pub proof fn lemma_rebuilt_is_sound<Record: ComponentRecord, Step: Reducer>(
    entries: Seq<EnvelopeModel>,
    reducers: Seq<Step>,
)
    ensures
        folded_entries::<Record, Step>(entries, reducers).refusal is None ==> {
            &&& forall|i: int|
                0 <= i < entries.len() ==> #[trigger] sound_after(
                    entries[i],
                    before_place(entries, i),
                )
            &&& folded_entries::<Record, Step>(entries, reducers).view.applied == if entries.len()
                == 0 {
                None
            } else {
                Some(entries[entries.len() - 1].sequence)
            }
        },
        folded_entries::<Record, Step>(entries, reducers).refusal matches Some(failure)
            ==> exists|at: int|
            {
                let before = folded_entries::<Record, Step>(entries.take(at), reducers);
                &&& 0 <= at < entries.len()
                &&& before.refusal is None
                &&& !(#[trigger] sound_after(entries[at], before_place(entries, at)))
                    || applied_entry(before.view, entries[at], reducers).refusal == Some(failure)
            },
    decreases entries.len(),
{
    if entries.len() > 0 {
        let less = entries.drop_last();
        let end = entries.len() - 1;
        lemma_rebuilt_is_sound::<Record, Step>(less, reducers);
        assert(entries.take(end) =~= less);
        let before = folded_entries::<Record, Step>(less, reducers);
        let after = folded_entries::<Record, Step>(entries, reducers);
        assert(envelope_refusal(entries[end], before_place(entries, end)) is None <==> sound_after(
            entries[end],
            before_place(entries, end),
        ));
        if before.refusal is Some {
            let failure = before.refusal->0;
            let at = choose|at: int|
                {
                    let before = folded_entries::<Record, Step>(less.take(at), reducers);
                    &&& 0 <= at < less.len()
                    &&& before.refusal is None
                    &&& !(#[trigger] sound_after(less[at], before_place(less, at)))
                        || applied_entry(before.view, less[at], reducers).refusal == Some(failure)
                };
            assert(less.take(at) =~= entries.take(at));
            assert(less[at] == entries[at]);
            assert(before_place(less, at) == before_place(entries, at));
            assert(sound_after(entries[at], before_place(entries, at)) == sound_after(
                less[at],
                before_place(less, at),
            ));
        } else if after.refusal is Some {
            assert(!sound_after(entries[end], before_place(entries, end)) || applied_entry(
                before.view,
                entries[end],
                reducers,
            ).refusal == after.refusal);
        } else {
            assert forall|i: int| 0 <= i < entries.len() implies #[trigger] sound_after(
                entries[i],
                before_place(entries, i),
            ) by {
                if i < end {
                    assert(less[i] == entries[i]);
                    assert(before_place(less, i) == before_place(entries, i));
                    assert(sound_after(less[i], before_place(less, i)));
                }
            }
        }
    }
}

/// An entry is about a coordinate: an assertion is about the coordinate of
/// its record, a retraction about the one that it names.
pub open spec fn about<Record: ComponentRecord>(
    entry: EnvelopeModel,
    place: FoldCoordinate,
) -> bool {
    match entry.operation {
        OperationKind::Assert => Record::decoded(entry.schema_hash, entry.payload) matches Ok(
            record,
        ) && record.coordinate() == place,
        OperationKind::Retract => place == (entry.schema_hash, entry.key),
        _ => false,
    }
}

/// The last entry about a coordinate decides what a rebuilt view holds
/// there: its record where it asserts, nothing where it retracts, and
/// nothing where no entry is about it. For logs without transitions.
pub proof fn lemma_last_entry_decides<Record: ComponentRecord, Step: Reducer>(
    entries: Seq<EnvelopeModel>,
    reducers: Seq<Step>,
    place: FoldCoordinate,
)
    requires
        folded_entries::<Record, Step>(entries, reducers).refusal is None,
        forall|i: int|
            0 <= i < entries.len() ==> !((#[trigger] entries[i]).operation is SchemaTransition),
    ensures
        ({
            let records = folded_entries::<Record, Step>(entries, reducers).view.records;
            &&& (forall|i: int|
                0 <= i < entries.len() ==> !about::<Record>(#[trigger] entries[i], place))
                ==> !records.dom().contains(place)
            &&& forall|i: int|
                #![trigger entries[i]]
                0 <= i < entries.len() && about::<Record>(entries[i], place) && (forall|j: int|
                    i < j < entries.len() ==> !about::<Record>(#[trigger] entries[j], place))
                    ==> {
                    &&& entries[i].operation is Retract ==> !records.dom().contains(place)
                    &&& entries[i].operation is Assert ==> records.dom().contains(place)
                        && Record::decoded(entries[i].schema_hash, entries[i].payload) == Ok::<
                        Record,
                        VersionedFailure,
                    >(records[place])
                }
        }),
    decreases entries.len(),
{
    if entries.len() > 0 {
        let less = entries.drop_last();
        let end = entries.len() - 1;
        assert forall|i: int| 0 <= i < less.len() implies !((
        #[trigger] less[i]).operation is SchemaTransition) by {
            assert(less[i] == entries[i]);
        }
        lemma_last_entry_decides::<Record, Step>(less, reducers, place);
        assert(!(entries[end].operation is SchemaTransition));
        let before = folded_entries::<Record, Step>(less, reducers).view.records;
        let records = folded_entries::<Record, Step>(entries, reducers).view.records;
        assert(!about::<Record>(entries[end], place) ==> records.dom().contains(place)
            == before.dom().contains(place) && records[place] == before[place]);
        if forall|i: int|
            0 <= i < entries.len() ==> !about::<Record>(#[trigger] entries[i], place) {
            assert(!about::<Record>(entries[end], place));
            assert forall|i: int| 0 <= i < less.len() implies !about::<Record>(
                #[trigger] less[i],
                place,
            ) by {
                assert(less[i] == entries[i]);
            }
        }
        assert forall|i: int|
            #![trigger entries[i]]
            0 <= i < entries.len() && about::<Record>(entries[i], place) && (forall|j: int|
                i < j < entries.len() ==> !about::<Record>(
                    #[trigger] entries[j],
                    place,
                )) implies {
            &&& entries[i].operation is Retract ==> !records.dom().contains(place)
            &&& entries[i].operation is Assert ==> records.dom().contains(place)
                && Record::decoded(entries[i].schema_hash, entries[i].payload) == Ok::<
                Record,
                VersionedFailure,
            >(records[place])
        } by {
            if i < end {
                assert(!about::<Record>(entries[end], place));
                assert(less[i] == entries[i]);
                assert forall|j: int| i < j < less.len() implies !about::<Record>(
                    #[trigger] less[j],
                    place,
                ) by {
                    assert(less[j] == entries[j]);
                }
            }
        }
    }
}

/// A new entry of a log: numbered after the last, from zero; recording the
/// last entry's digest, or nothing; with what it was made of, under its own
/// digest.
pub open spec fn next_in_line(
    entries: Seq<EnvelopeModel>,
    entry: EnvelopeModel,
    operation: OperationKind,
    schema_hash: Seq<u8>,
    key: Seq<u8>,
    payload: Seq<u8>,
) -> bool {
    &&& entry.sequence == if entries.len() == 0 {
        0
    } else {
        entries[entries.len() - 1].sequence + 1
    }
    &&& sound_after(entry, before_place(entries, entries.len() as int))
    &&& entry.operation == operation
    &&& entry.schema_hash == schema_hash
    &&& entry.key == key
    &&& entry.payload == payload
}

/// What is committed stands last in the log, as the next in line.
pub proof fn lemma_committed_last(
    entries: Seq<EnvelopeModel>,
    operation: OperationKind,
    schema_hash: Seq<u8>,
    key: Seq<u8>,
    payload: Seq<u8>,
)
    requires
        in_order(entries),
        has_next(entries),
    ensures
        ({
            let after = SameFileLog::appended(
                entries,
                next_envelope(entries, operation, schema_hash, key, payload),
            );
            &&& after.len() == entries.len() + 1
            &&& after.drop_last() == entries
            &&& next_in_line(entries, after.last(), operation, schema_hash, key, payload)
            &&& in_order(after)
        }),
{
    let entry = next_envelope(entries, operation, schema_hash, key, payload);
    lemma_commit_comes_last(entries, operation, schema_hash, key, payload);
    assert(entries.push(entry).drop_last() =~= entries);
    let input = envelope_input(EnvelopeModel { digest: no_predecessor(), ..entry });
    assert(envelope_input(entry) == input);
}

/// Reading a log from a place gives every entry at or past it, and no
/// other, in the log's order.
pub proof fn lemma_entries_from_call(
    log: &SameFileLog,
    start: CommitSequence,
    outcome: Result<Vec<ReplayEnvelope>, VersionedError>,
)
    requires
        call_ensures(<SameFileLog as VersionedLog>::entries_from, (log, start), outcome),
        in_order(log.entries()),
    ensures
        outcome is Ok,
        ({
            let found = views(outcome->Ok_0@);
            &&& in_order(found)
            &&& forall|entry: EnvelopeModel| #[trigger]
                found.contains(entry) <==> log.entries().contains(entry) && start@
                    <= entry.sequence
        }),
{
    let entries = log.entries();
    let found = views(outcome->Ok_0@);
    let from = start@;
    let wanted = |entry: EnvelopeModel| entry.sequence >= from;
    assert(found == entries.filter(wanted));
    lemma_since_in_order(entries, start@);
    assert forall|entry: EnvelopeModel| #[trigger]
        found.contains(entry) <==> entries.contains(entry) && start@ <= entry.sequence by {
        if found.contains(entry) {
            let i = choose|i: int| 0 <= i < found.len() && found[i] == entry;
            lemma_kept(entries, wanted, i);
        }
        if entries.contains(entry) && start@ <= entry.sequence {
            let i = choose|i: int| 0 <= i < entries.len() && entries[i] == entry;
            entries.lemma_filter_contains(wanted, i);
        }
    }
}

proof fn lemma_since_in_order(entries: Seq<EnvelopeModel>, start: u64)
    requires
        in_order(entries),
    ensures
        in_order(entries_since(entries, start)),
    decreases entries.len(),
{
    reveal(Seq::filter);
    if entries.len() > 0 {
        let less = entries.drop_last();
        let wanted = |entry: EnvelopeModel| entry.sequence >= start;
        assert forall|i: int, j: int| 0 <= i < j < less.len() implies (
        #[trigger] less[i]).sequence < (#[trigger] less[j]).sequence by {
            assert(entries[i].sequence < entries[j].sequence);
        }
        lemma_since_in_order(less, start);
        let before = entries_since(less, start);
        let after = entries_since(entries, start);
        assert forall|i: int, j: int| 0 <= i < j < after.len() implies (
        #[trigger] after[i]).sequence < (#[trigger] after[j]).sequence by {
            if j < before.len() {
                assert(before[i].sequence < before[j].sequence);
            } else {
                lemma_kept(less, wanted, i);
                let p = choose|p: int| 0 <= p < less.len() && less[p] == before[i];
                assert(entries[p].sequence < entries[entries.len() - 1].sequence);
            }
        }
    }
}

/// The head of a log is where its last entry stands.
pub proof fn lemma_head_call(log: &SameFileLog, outcome: Result<Option<LogHead>, VersionedError>)
    requires
        call_ensures(<SameFileLog as VersionedLog>::head, (log,), outcome),
    ensures
        outcome is Ok,
        outcome->Ok_0 is Some <==> log.entries().len() > 0,
        outcome->Ok_0 matches Some(head) ==> {
            let last = log.entries()[log.entries().len() - 1];
            head@ == (last.sequence, last.digest)
        },
{
}

/// A row of a view whose schema is thirty-two bytes long and whose other
/// lengths fit their four bytes.
pub open spec fn row_fits<Record: ComponentRecord>(row: (FoldCoordinate, Record)) -> bool {
    &&& row.0.0.len() == 32
    &&& row.0.1.len() <= u32::MAX
    &&& row.1.contribution().len() <= u32::MAX
}

spec fn state_parts<Record: ComponentRecord>(rows: Seq<(FoldCoordinate, Record)>) -> Seq<Seq<u8>> {
    Seq::new(rows.len(), |i: int| state_part(rows[i]))
}

proof fn lemma_state_covers<Record: ComponentRecord>(
    a: Seq<(FoldCoordinate, Record)>,
    b: Seq<(FoldCoordinate, Record)>,
)
    requires
        forall|i: int| 0 <= i < a.len() ==> row_fits(#[trigger] a[i]),
        forall|i: int| 0 <= i < b.len() ==> row_fits(#[trigger] b[i]),
        joined(state_parts(a)) == joined(state_parts(b)),
    ensures
        a.len() == b.len(),
        forall|i: int|
            0 <= i < a.len() ==> (#[trigger] a[i]).0 == b[i].0 && a[i].1.contribution()
                == b[i].1.contribution(),
    decreases a.len(),
{
    if a.len() > 0 {
        lemma_joined_front(state_parts(a));
        assert(row_fits(a[0]));
    }
    if b.len() > 0 {
        lemma_joined_front(state_parts(b));
        assert(row_fits(b[0]));
    }
    if a.len() == 0 {
        if b.len() > 0 {
            assert(joined(state_parts(b)).len() >= 32);
        }
    } else {
        assert(joined(state_parts(a)).len() >= 32);
        assert(b.len() > 0);
        let p = a.drop_first();
        let q = b.drop_first();
        assert(state_parts(a).drop_first() =~= state_parts(p));
        assert(state_parts(b).drop_first() =~= state_parts(q));
        let x = joined(state_parts(p));
        let y = joined(state_parts(q));
        let (one, other) = (a[0], b[0]);
        let whole = joined(state_parts(a));
        let ends = short_framed(one.1.contribution()) + x;
        let finishes = short_framed(other.1.contribution()) + y;
        assert(whole =~= one.0.0 + (short_framed(one.0.1) + ends));
        assert(whole =~= other.0.0 + (short_framed(other.0.1) + finishes));
        assert(one.0.0 =~= whole.take(32));
        assert(other.0.0 =~= whole.take(32));
        assert(short_framed(one.0.1) + ends =~= whole.skip(32));
        assert(short_framed(other.0.1) + finishes =~= whole.skip(32));
        lemma_short_delimited(one.0.1, other.0.1, ends, finishes);
        lemma_short_delimited(one.1.contribution(), other.1.contribution(), x, y);
        assert forall|i: int| 0 <= i < p.len() implies row_fits(#[trigger] p[i]) by {
            assert(p[i] == a[i + 1]);
        }
        assert forall|i: int| 0 <= i < q.len() implies row_fits(#[trigger] q[i]) by {
            assert(q[i] == b[i + 1]);
        }
        lemma_state_covers(p, q);
        assert forall|i: int| 0 <= i < a.len() implies (#[trigger] a[i]).0 == b[i].0
            && a[i].1.contribution() == b[i].1.contribution() by {
            if i > 0 {
                assert(p[i - 1] == a[i]);
                assert(q[i - 1] == b[i]);
            }
        }
    }
}

/// A view's state digest covers its records: views with the same digest
/// input hold records at the same coordinates, of the same contributions.
/// A key or a contribution of four gigabytes or more is left out.
pub proof fn lemma_state_digest_covers<Record: ComponentRecord>(
    a: Map<FoldCoordinate, Record>,
    b: Map<FoldCoordinate, Record>,
)
    requires
        listable::<FoldKey, Record>(a),
        listable::<FoldKey, Record>(b),
        forall|key: FoldCoordinate| #[trigger] a.dom().contains(key) ==> row_fits((key, a[key])),
        forall|key: FoldCoordinate| #[trigger] b.dom().contains(key) ==> row_fits((key, b[key])),
        state_input(a) == state_input(b),
    ensures
        a.dom() == b.dom(),
        forall|key: FoldCoordinate| #[trigger]
            a.dom().contains(key) ==> a[key].contribution() == b[key].contribution(),
{
    lemma_listed::<FoldKey, Record>(a);
    lemma_listed::<FoldKey, Record>(b);
    let rows = listing_of::<FoldKey, Record>(a);
    let others = listing_of::<FoldKey, Record>(b);
    assert forall|i: int| 0 <= i < rows.len() implies row_fits(#[trigger] rows[i]) by {
        lemma_position::<FoldKey, Record>(rows, i);
        assert(a.dom().contains(rows[i].0));
    }
    assert forall|i: int| 0 <= i < others.len() implies row_fits(#[trigger] others[i]) by {
        lemma_position::<FoldKey, Record>(others, i);
        assert(b.dom().contains(others[i].0));
    }
    assert(state_parts(rows) =~= Seq::new(rows.len(), |i: int| state_part(rows[i])));
    assert(state_parts(others) =~= Seq::new(others.len(), |i: int| state_part(others[i])));
    lemma_state_covers(rows, others);
    assert forall|key: FoldCoordinate| #[trigger] a.dom().contains(key) implies b.dom().contains(
        key,
    ) && a[key].contribution() == b[key].contribution() by {
        assert(has_key(rows, key));
        let i = choose|i: int| keyed_at(rows, key, i);
        lemma_position::<FoldKey, Record>(rows, i);
        lemma_position::<FoldKey, Record>(others, i);
    }
    assert forall|key: FoldCoordinate| #[trigger] b.dom().contains(key) implies a.dom().contains(
        key,
    ) by {
        assert(has_key(others, key));
        let i = choose|i: int| keyed_at(others, key, i);
        lemma_position::<FoldKey, Record>(rows, i);
        assert(rows[i].0 == key);
    }
    assert(a.dom() =~= b.dom());
}

/// A set of steps finds for a transition the first step that goes from its
/// one schema to its other.
pub proof fn lemma_find_call<Step: Reducer>(
    reducers: &ReducerSet<Step>,
    from: SchemaHash,
    to: SchemaHash,
    found: Option<&Step>,
)
    requires
        call_ensures(ReducerSet::<Step>::find, (reducers, from, to), found),
    ensures
        match found {
            Some(step) => exists|at: int| #[trigger]
                first_step(reducers@, from@, to@, at) && reducers@[at] == *step,
            None => no_step(reducers@, from@, to@),
        },
{
    lemma_first_step(reducers@, from@, to@);
}

/// A commit into a log of one table: an assertion stands last, under its
/// family's schema, with the value's key and its encoding.
pub proof fn lemma_commit_assert_call<Family: RecordFamily>(
    log: &mut SameFileLog,
    value: &Family::Value,
    outcome: Result<CommitSequence, VersionedError>,
)
    requires
        in_order(old(log).entries()),
        has_next(old(log).entries()),
        call_ensures(
            <SameFileLog as CommitVerbs>::commit_assert::<Family>,
            (log, value),
            outcome,
        ),
    ensures
        outcome is Ok <==> Family::encoded(*value) is Ok,
        match outcome {
            Ok(sequence) => {
                let after = final(log).entries();
                &&& after.drop_last() == old(log).entries()
                &&& next_in_line(
                    old(log).entries(),
                    after.last(),
                    OperationKind::Assert,
                    family_hash(Family::label()),
                    Family::key_of(*value),
                    Family::encoded(*value)->Ok_0,
                )
                &&& sequence@ == after.last().sequence
            },
            Err(_) => final(log).entries() == old(log).entries(),
        },
{
    if outcome is Ok {
        lemma_committed_last(
            old(log).entries(),
            OperationKind::Assert,
            family_hash(Family::label()),
            Family::key_of(*value),
            Family::encoded(*value)->Ok_0,
        );
    }
}

/// A retraction stands last, under its family's schema, with the key that it
/// names and no payload.
pub proof fn lemma_commit_retract_call<Family: RecordFamily>(
    log: &mut SameFileLog,
    key: RecordKey,
    outcome: Result<CommitSequence, VersionedError>,
)
    requires
        in_order(old(log).entries()),
        has_next(old(log).entries()),
        call_ensures(
            <SameFileLog as CommitVerbs>::commit_retract::<Family>,
            (log, key),
            outcome,
        ),
    ensures
        outcome is Ok,
        ({
            let after = final(log).entries();
            &&& after.drop_last() == old(log).entries()
            &&& next_in_line(
                old(log).entries(),
                after.last(),
                OperationKind::Retract,
                family_hash(Family::label()),
                key@,
                Seq::empty(),
            )
            &&& outcome->Ok_0@ == after.last().sequence
        }),
{
    lemma_committed_last(
        old(log).entries(),
        OperationKind::Retract,
        family_hash(Family::label()),
        key@,
        Seq::empty(),
    );
}

/// A transition stands last and names its two schemas.
pub proof fn lemma_commit_transition_call(
    log: &mut SameFileLog,
    transition: &SchemaTransition,
    outcome: Result<CommitSequence, VersionedError>,
)
    requires
        in_order(old(log).entries()),
        has_next(old(log).entries()),
        call_ensures(
            <SameFileLog as CommitVerbs>::commit_transition,
            (log, transition),
            outcome,
        ),
    ensures
        outcome is Ok,
        ({
            let after = final(log).entries();
            &&& after.drop_last() == old(log).entries()
            &&& after.last().operation is SchemaTransition
            &&& named_schemas(after.last().payload) == transition@
            &&& sound_after(
                after.last(),
                before_place(old(log).entries(), old(log).entries().len() as int),
            )
            &&& outcome->Ok_0@ == after.last().sequence
        }),
{
    let payload = pair_archive(transition@.0, transition@.1);
    lemma_committed_last(
        old(log).entries(),
        OperationKind::SchemaTransition,
        family_hash("__versioned.schema_transition"@),
        Seq::empty(),
        payload,
    );
    lemma_transition_round_trip(*transition);
    assert(archived_pair(payload) == Some(named_schemas(payload)));
}

/// A frame starts with the length of its body, the most significant byte
/// first, and goes on with the body.
pub proof fn lemma_frame(body: Seq<u8>)
    requires
        body.len() <= u32::MAX,
    ensures
        frame(body).len() == 4 + body.len(),
        frame(body)[0] * 16777216 + frame(body)[1] * 65536 + frame(body)[2] * 256 + frame(body)[3]
            == body.len(),
        frame(body).skip(4) == body,
{
    let value = body.len() as u32;
    assert(value / 0x100_0000 < 0x100);
    assert(value == (value / 0x100_0000) * 0x100_0000 + (value / 0x1_0000 % 0x100) * 0x1_0000 + (
    value / 0x100 % 0x100) * 0x100 + value % 0x100);
    assert(frame(body).skip(4) =~= body);
}

/// What frames split to, framed again, is what was split: nothing is lost,
/// and nothing but whole frames splits.
pub proof fn lemma_split_is_whole(data: Seq<u8>, at: int)
    requires
        0 <= at <= data.len() <= u64::MAX,
        bodies_from(data, at) is Ok,
    ensures
        framed_bodies(bodies_from(data, at)->Ok_0) == data.skip(at),
        forall|i: int|
            0 <= i < bodies_from(data, at)->Ok_0.len() ==> (#[trigger] bodies_from(
                data,
                at,
            )->Ok_0[i]).len() <= u32::MAX,
    decreases data.len() - at,
{
    let found = bodies_from(data, at)->Ok_0;
    if at < data.len() {
        let end = frame_end(data, at)->Ok_0;
        lemma_split_is_whole(data, end);
        let rest = bodies_from(data, end)->Ok_0;
        let body = data.subrange(at + 4, end);
        assert(found =~= seq![body] + rest);
        assert(found.drop_first() =~= rest);
        lemma_number_back(data, at);
        assert(frame(body) =~= data.subrange(at, end));
        assert(framed_bodies(found) =~= data.skip(at));
        assert forall|i: int| 0 <= i < found.len() implies (#[trigger] found[i]).len()
            <= u32::MAX by {
            if i > 0 {
                assert(found[i] == rest[i - 1]);
            }
        }
    } else {
        assert(framed_bodies(found) =~= data.skip(at));
    }
}

/// Four bytes of data are those of the number that they hold.
proof fn lemma_number_back(data: Seq<u8>, at: int)
    requires
        0 <= at,
        at + 4 <= data.len(),
    ensures
        0 <= number_at(data, at) <= u32::MAX,
        big_endian(
            number_at(data, at) as u32,
        ) == data.subrange(at, at + 4),
{
    let value = number_at(data, at);
    let (a, b, c, d) = (data[at], data[at + 1], data[at + 2], data[at + 3]);
    assert(value == a * 0x100_0000 + b * 0x1_0000 + c * 0x100 + d);
    assert(value <= u32::MAX);
    let number = value as u32;
    assert(number / 0x100_0000 == a);
    assert(number / 0x1_0000 % 0x100 == b);
    assert(number / 0x100 % 0x100 == c);
    assert(number % 0x100 == d);
    assert(big_endian(number) =~= data.subrange(at, at + 4));
}

/// Splitting succeeds exactly on whole frames, one after the other, and
/// gives their bodies.
pub proof fn lemma_split_call(data: &[u8], outcome: Result<Vec<Vec<u8>>, VersionedError>)
    requires
        data@.len() <= u64::MAX,
        call_ensures(split_frames, (data,), outcome),
    ensures
        outcome matches Ok(bodies) ==> framed_bodies(views(bodies@)) == data@,
        outcome matches Err(error) ==> error@ is TruncatedFrame,
        outcome is Err ==> forall|bodies: Seq<Seq<u8>>|
            (forall|i: int| 0 <= i < bodies.len() ==> (#[trigger] bodies[i]).len() <= u32::MAX)
                ==> #[trigger] framed_bodies(bodies) != data@,
{
    if outcome is Ok {
        lemma_split_is_whole(data@, 0);
        assert(data@.skip(0) =~= data@);
    } else {
        lemma_truncated(data@, 0);
        assert forall|bodies: Seq<Seq<u8>>|
            (forall|i: int|
                0 <= i < bodies.len() ==> (#[trigger] bodies[i]).len() <= u32::MAX) implies
            #[trigger] framed_bodies(bodies) != data@ by {
            if framed_bodies(bodies) == data@ {
                lemma_frames_round_trip(bodies);
            }
        }
    }
}

proof fn lemma_truncated(data: Seq<u8>, at: int)
    requires
        bodies_from(data, at) is Err,
    ensures
        bodies_from(data, at)->Err_0 is TruncatedFrame,
    decreases data.len() - at,
{
    if frame_end(data, at) is Ok {
        lemma_truncated(data, frame_end(data, at)->Ok_0);
    }
}

} // verus!
