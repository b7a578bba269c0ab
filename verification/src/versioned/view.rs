//! The view that a fold over the log gives, and the digest of its state.

use vstd::prelude::*;

use crate::digest::{blake3_digest, blake3_hash, joined, lemma_joined_push};
use crate::models::{lemma_views_push, option_view, views};
use crate::ordered_table::{listing_of, OrderedTable};
use crate::versioned::envelope::{
    envelope_refusal, short_framed, update_short, EnvelopeModel, OperationKind, ReplayEnvelope,
};
use crate::versioned::error::{VersionedError, VersionedFailure};
use crate::versioned::identity::{CommitSequence, EntryDigest};
use crate::versioned::migration::{
    archived_pair, found_reducer, Reducer, ReducerSet, SchemaTransition,
};
use crate::versioned::record::{ComponentRecord, FoldCoordinate, FoldKey};

verus! {

/// A record as the view holds it.
pub struct Held<Record> {
    record: Record,
}

impl<Record> View for Held<Record> {
    type V = Record;

    closed spec fn view(&self) -> Record {
        self.record
    }
}

/// The records by where they stand, and the last entry applied.
pub struct ViewModel<Record> {
    pub records: Map<FoldCoordinate, Record>,
    pub applied: Option<u64>,
}

/// A view after some work, and why the work stopped, if it did.
pub struct ViewOutcome<Record> {
    pub view: ViewModel<Record>,
    pub refusal: Option<VersionedFailure>,
}

/// The keys of a family, in order.
pub open spec fn family_keys<Record>(
    records: Map<FoldCoordinate, Record>,
    family: Seq<u8>,
) -> Seq<FoldCoordinate> {
    all_keys(records).filter(of_family(family))
}

/// The keys of all records, in order.
pub open spec fn all_keys<Record>(records: Map<FoldCoordinate, Record>) -> Seq<FoldCoordinate> {
    let rows = listing_of::<FoldKey, Record>(records);
    Seq::new(rows.len(), |i: int| rows[i].0)
}

/// The keys that belong to a family.
pub open spec fn of_family(family: Seq<u8>) -> spec_fn(FoldCoordinate) -> bool {
    |key: FoldCoordinate| key.0 == family
}

/// A record carried over by a reducer: encoded, migrated, and decoded
/// under the new schema hash.
pub open spec fn carried_record<Record: ComponentRecord, Step: Reducer>(
    record: Record,
    step: Step,
    to: Seq<u8>,
) -> Result<Record, VersionedFailure> {
    match record.reencoded() {
        Err(failure) => Err(failure),
        Ok(encoded) => match step.migrated(encoded.1) {
            Err(failure) => Err(failure),
            Ok(payload) => Record::decoded(to, payload),
        },
    }
}

/// The view once the first records of `keys` are carried over, up to the
/// first that cannot be: each leaves its place before it is carried.
pub open spec fn carried<Record: ComponentRecord, Step: Reducer>(
    records: Map<FoldCoordinate, Record>,
    keys: Seq<FoldCoordinate>,
    step: Step,
    to: Seq<u8>,
) -> (Map<FoldCoordinate, Record>, Option<VersionedFailure>)
    decreases keys.len(),
{
    if keys.len() == 0 {
        (records, None)
    } else {
        let before = carried(records, keys.drop_last(), step, to);
        let key = keys.last();
        if before.1 is Some || !before.0.dom().contains(key) {
            before
        } else {
            match carried_record(before.0[key], step, to) {
                Err(failure) => (before.0.remove(key), Some(failure)),
                Ok(record) => (before.0.remove(key).insert(record.coordinate(), record), None),
            }
        }
    }
}

/// The records after a transition.
pub open spec fn migrated<Record: ComponentRecord, Step: Reducer>(
    records: Map<FoldCoordinate, Record>,
    transition: (Seq<u8>, Seq<u8>),
    reducers: Seq<Step>,
) -> (Map<FoldCoordinate, Record>, Option<VersionedFailure>) {
    match found_reducer(reducers, transition.0, transition.1) {
        None => (
            records,
            Some(VersionedFailure::MissingReducer { from: transition.0, to: transition.1 }),
        ),
        Some(step) => carried(records, family_keys(records, transition.0), step, transition.1),
    }
}

/// The view after one entry.
pub open spec fn applied_entry<Record: ComponentRecord, Step: Reducer>(
    view: ViewModel<Record>,
    entry: EnvelopeModel,
    reducers: Seq<Step>,
) -> ViewOutcome<Record> {
    let after: (Map<FoldCoordinate, Record>, Option<VersionedFailure>) = match entry.operation {
        OperationKind::Assert => match Record::decoded(entry.schema_hash, entry.payload) {
            Ok(record) => (view.records.insert(record.coordinate(), record), None),
            Err(failure) => (view.records, Some(failure)),
        },
        OperationKind::Retract => (view.records.remove((entry.schema_hash, entry.key)), None),
        OperationKind::SchemaTransition => match archived_pair(entry.payload) {
            Some(transition) => migrated(view.records, transition, reducers),
            None => (view.records, Some(VersionedFailure::Decode)),
        },
        OperationKind::Checkpoint => (view.records, None),
    };
    ViewOutcome {
        view: ViewModel {
            records: after.0,
            applied: if after.1 is Some {
                view.applied
            } else {
                Some(entry.sequence)
            },
        },
        refusal: after.1,
    }
}

/// A view of nothing.
pub open spec fn blank_view<Record>() -> ViewModel<Record> {
    ViewModel { records: Map::empty(), applied: None }
}

/// The digest of the entry before position `at`.
pub open spec fn digest_before(entries: Seq<EnvelopeModel>, at: int) -> Option<Seq<u8>> {
    if at <= 0 {
        None
    } else {
        Some(entries[at - 1].digest)
    }
}

/// The view folded from entries, each held against the one before it, up
/// to the first that is refused.
pub open spec fn folded_entries<Record: ComponentRecord, Step: Reducer>(
    entries: Seq<EnvelopeModel>,
    reducers: Seq<Step>,
) -> ViewOutcome<Record>
    decreases entries.len(),
{
    if entries.len() == 0 {
        ViewOutcome { view: blank_view(), refusal: None }
    } else {
        let before = folded_entries::<Record, Step>(entries.drop_last(), reducers);
        let refusal = envelope_refusal(
            entries.last(),
            digest_before(entries, entries.len() - 1),
        );
        if before.refusal is Some {
            before
        } else if refusal is Some {
            ViewOutcome { view: before.view, refusal }
        } else {
            applied_entry(before.view, entries.last(), reducers)
        }
    }
}

/// What one record adds to the digest of the state.
pub open spec fn state_part<Record: ComponentRecord>(row: (FoldCoordinate, Record)) -> Seq<u8> {
    row.0.0 + short_framed(row.0.1) + short_framed(row.1.contribution())
}

/// The digest input of the state: every record in order.
pub open spec fn state_input<Record: ComponentRecord>(
    records: Map<FoldCoordinate, Record>,
) -> Seq<u8> {
    let rows = listing_of::<FoldKey, Record>(records);
    joined(Seq::new(rows.len(), |i: int| state_part(rows[i])))
}

/// The view that any replay of the log rebuilds.
pub struct MaterializedView<Record: ComponentRecord> {
    records: OrderedTable<FoldKey, Held<Record>>,
    applied_through: Option<CommitSequence>,
}

impl<Record: ComponentRecord> View for MaterializedView<Record> {
    type V = ViewModel<Record>;

    closed spec fn view(&self) -> ViewModel<Record> {
        ViewModel { records: self.records@, applied: option_view(self.applied_through) }
    }
}

impl<Record: ComponentRecord> Default for MaterializedView<Record> {
    fn default() -> (view: Self)
        ensures
            view@ == blank_view::<Record>(),
    {
        MaterializedView::new()
    }
}

impl<Record: ComponentRecord> MaterializedView<Record> {
    pub fn new() -> (view: Self)
        ensures
            view@ == blank_view::<Record>(),
    {
        MaterializedView { records: OrderedTable::new(), applied_through: None }
    }

    /// Fold entries into a fresh view, holding each against the one before
    /// it.
    pub fn from_entries<Step: Reducer>(
        entries: &[ReplayEnvelope],
        reducers: &ReducerSet<Step>,
    ) -> (outcome: Result<Self, VersionedError>)
        ensures
            match outcome {
                Ok(view) => folded_entries::<Record, Step>(views(entries@), reducers@)
                    == (ViewOutcome { view: view@, refusal: None }),
                Err(error) => folded_entries::<Record, Step>(
                    views(entries@),
                    reducers@,
                ).refusal == Some(error@),
            },
    {
        let mut view: MaterializedView<Record> = MaterializedView::new();
        let mut prior: Option<EntryDigest> = None;
        let mut at: usize = 0;
        let ghost all = views(entries@);
        while at < entries.len()
            invariant
                at <= entries@.len(),
                all == views(entries@),
                option_view(prior) == digest_before(all, at as int),
                folded_entries::<Record, Step>(all.take(at as int), reducers@) == (ViewOutcome {
                    view: view@,
                    refusal: None,
                }),
            decreases entries@.len() - at,
        {
            let entry = &entries[at];
            proof {
                assert(all.take(at + 1).drop_last() =~= all.take(at as int));
                assert(all.take(at + 1).last() == entry@);
                assert(digest_before(all.take(at + 1), at as int) == digest_before(
                    all,
                    at as int,
                ));
            }
            match entry.verify(prior) {
                Ok(()) => {},
                Err(error) => {
                    proof {
                        lemma_fold_refused::<Record, Step>(all, reducers@, at + 1, error@);
                    }
                    return Err(error);
                },
            }
            match view.apply(entry, reducers) {
                Ok(()) => {},
                Err(error) => {
                    proof {
                        lemma_fold_refused::<Record, Step>(all, reducers@, at + 1, error@);
                    }
                    return Err(error);
                },
            }
            prior = Some(entry.entry_digest());
            at = at + 1;
        }
        assert(all.take(at as int) =~= all);
        Ok(view)
    }

    /// Apply one entry and move the watermark to it. A refused entry leaves
    /// the watermark; a transition that is refused midway leaves the
    /// records carried so far, without the one that could not be carried.
    pub fn apply<Step: Reducer>(
        &mut self,
        envelope: &ReplayEnvelope,
        reducers: &ReducerSet<Step>,
    ) -> (outcome: Result<(), VersionedError>)
        ensures
            applied_entry(old(self)@, envelope@, reducers@) == (ViewOutcome {
                view: final(self)@,
                refusal: match outcome {
                    Ok(()) => None,
                    Err(error) => Some(error@),
                },
            }),
    {
        match envelope.operation() {
            OperationKind::Assert => {
                match Record::decode(envelope.schema_hash(), envelope.payload()) {
                    Ok(record) => {
                        let key: FoldKey = record.fold_key();
                        self.records.insert(key, Held { record });
                    },
                    Err(error) => {
                        return Err(error);
                    },
                }
            },
            OperationKind::Retract => {
                let key: FoldKey = FoldKey::new(envelope.schema_hash(), envelope.key().clone());
                self.records.remove(&key);
            },
            OperationKind::SchemaTransition => {
                match SchemaTransition::decode(envelope.payload()) {
                    Ok(transition) => {
                        match self.migrate_family(&transition, reducers) {
                            Ok(()) => {},
                            Err(error) => {
                                return Err(error);
                            },
                        }
                    },
                    Err(error) => {
                        return Err(error);
                    },
                }
            },
            OperationKind::Checkpoint => {},
        }
        self.applied_through = Some(envelope.sequence());
        Ok(())
    }

    /// The keys of a family, in order.
    fn keys_of(&self, family: crate::versioned::identity::SchemaHash) -> (keys: Vec<FoldKey>)
        ensures
            views(keys@) == family_keys(self@.records, family@),
    {
        let count: usize = self.records.len();
        let ghost rows = self.records.listing();
        let ghost all = all_keys(self@.records);
        let ghost chosen = of_family(family@);
        let mut keys: Vec<FoldKey> = Vec::new();
        let mut at: usize = 0;
        proof {
            reveal(Seq::filter);
            assert(views(keys@) =~= all.take(0).filter(chosen));
        }
        while at < count
            invariant
                at <= count,
                count == rows.len(),
                rows == self.records.listing(),
                all.len() == rows.len(),
                forall|i: int| 0 <= i < all.len() ==> #[trigger] all[i] == rows[i].0,
                chosen == of_family(family@),
                views(keys@) == all.take(at as int).filter(chosen),
            decreases count - at,
        {
            let key = self.records.key_at(at);
            proof {
                reveal(Seq::filter);
                assert(all.take(at + 1).drop_last() =~= all.take(at as int));
                assert(all.take(at + 1).last() == key@);
            }
            if key.family() == family {
                let copy: FoldKey = key.clone();
                proof {
                    lemma_views_push(keys@, copy);
                }
                keys.push(copy);
            }
            at = at + 1;
        }
        assert(all.take(at as int) =~= all);
        keys
    }

    /// Carry every record of a family over a transition.
    fn migrate_family<Step: Reducer>(
        &mut self,
        transition: &SchemaTransition,
        reducers: &ReducerSet<Step>,
    ) -> (outcome: Result<(), VersionedError>)
        ensures
            final(self)@.applied == old(self)@.applied,
            migrated(old(self)@.records, transition@, reducers@) == (
                final(self)@.records,
                match outcome {
                    Ok(()) => None,
                    Err(error) => Some(error@),
                },
            ),
    {
        let from = transition.from();
        let to = transition.to();
        let step: &Step = match reducers.find(from, to) {
            Some(found) => found,
            None => {
                return Err(VersionedError::MissingReducer { from, to });
            },
        };
        let keys: Vec<FoldKey> = self.keys_of(from);
        let ghost all = views(keys@);
        let ghost before = self@;
        let mut at: usize = 0;
        while at < keys.len()
            invariant
                at <= keys@.len(),
                all == views(keys@),
                to@ == transition@.1,
                before == old(self)@,
                all == family_keys(before.records, transition@.0),
                found_reducer(reducers@, transition@.0, transition@.1) == Some(*step),
                self@.applied == before.applied,
                carried(before.records, all.take(at as int), *step, to@) == (
                    self@.records,
                    None::<VersionedFailure>,
                ),
            decreases keys@.len() - at,
        {
            let key = &keys[at];
            proof {
                assert(all.take(at + 1).drop_last() =~= all.take(at as int));
                assert(all.take(at + 1).last() == key@);
            }
            let replaced: Result<Record, VersionedError> = match self.records.get(key) {
                None => {
                    at = at + 1;
                    continue;
                },
                Some(held) => {
                    let record = &held.record;
                    match record.reencode() {
                        Err(error) => Err(error),
                        Ok(encoded) => match step.migrate(encoded.1.as_slice()) {
                            Err(error) => Err(error),
                            Ok(payload) => Record::decode(to, payload.as_slice()),
                        },
                    }
                },
            };
            self.records.remove(key);
            match replaced {
                Err(error) => {
                    proof {
                        lemma_carry_refused(before.records, all, *step, to@, at + 1, error@);
                    }
                    return Err(error);
                },
                Ok(record) => {
                    let place: FoldKey = record.fold_key();
                    self.records.insert(place, Held { record });
                },
            }
            at = at + 1;
        }
        assert(all.take(at as int) =~= all);
        Ok(())
    }

    /// The digest of the whole state, in key order whatever order it was
    /// written in.
    pub fn state_digest(&self) -> (digest: [u8; 32])
        ensures
            digest@ == blake3_digest(state_input(self@.records)),
    {
        let count: usize = self.records.len();
        let ghost rows = self.records.listing();
        let ghost parts = Seq::new(rows.len(), |i: int| state_part(rows[i]));
        let mut input: Vec<u8> = Vec::new();
        let mut at: usize = 0;
        assert(parts.take(0) =~= Seq::empty());
        while at < count
            invariant
                at <= count,
                count == rows.len(),
                rows == self.records.listing(),
                parts == Seq::new(rows.len(), |i: int| state_part(rows[i])),
                input@ == joined(parts.take(at as int)),
            decreases count - at,
        {
            let key = self.records.key_at(at);
            let record = &self.records.value_at(at).record;
            let ghost before = input@;
            input.extend_from_slice(key.family().as_bytes());
            update_short(&mut input, key.key().as_bytes());
            let contribution: Vec<u8> = record.digest_contribution();
            update_short(&mut input, contribution.as_slice());
            proof {
                assert(rows[at as int].1 == record);
                assert(input@ =~= before + parts[at as int]);
                lemma_joined_push(parts.take(at as int), parts[at as int]);
                assert(parts.take(at + 1) =~= parts.take(at as int).push(parts[at as int]));
            }
            at = at + 1;
        }
        assert(parts.take(at as int) =~= parts);
        blake3_hash(input.as_slice())
    }

    pub fn applied_through(&self) -> (sequence: Option<CommitSequence>)
        ensures
            option_view(sequence) == self@.applied,
    {
        self.applied_through
    }

    pub fn record_count(&self) -> (count: usize)
        ensures
            count == listing_of::<FoldKey, Record>(self@.records).len(),
    {
        self.records.len()
    }
}

/// A fold that is refused stays refused.
proof fn lemma_fold_refused<Record: ComponentRecord, Step: Reducer>(
    entries: Seq<EnvelopeModel>,
    reducers: Seq<Step>,
    at: int,
    failure: VersionedFailure,
)
    requires
        0 <= at <= entries.len(),
        folded_entries::<Record, Step>(entries.take(at), reducers).refusal == Some(failure),
    ensures
        folded_entries::<Record, Step>(entries, reducers).refusal == Some(failure),
    decreases entries.len() - at,
{
    if at == entries.len() {
        assert(entries.take(at) =~= entries);
    } else {
        assert(entries.take(at + 1).drop_last() =~= entries.take(at));
        lemma_fold_refused::<Record, Step>(entries, reducers, at + 1, failure);
    }
}

/// A migration that is refused stays where it stopped.
proof fn lemma_carry_refused<Record: ComponentRecord, Step: Reducer>(
    records: Map<FoldCoordinate, Record>,
    keys: Seq<FoldCoordinate>,
    step: Step,
    to: Seq<u8>,
    at: int,
    failure: VersionedFailure,
)
    requires
        0 <= at <= keys.len(),
        carried(records, keys.take(at), step, to).1 == Some(failure),
    ensures
        carried(records, keys, step, to) == carried(records, keys.take(at), step, to),
    decreases keys.len() - at,
{
    if at == keys.len() {
        assert(keys.take(at) =~= keys);
    } else {
        assert(keys.take(at + 1).drop_last() =~= keys.take(at));
        lemma_carry_refused(records, keys, step, to, at + 1, failure);
    }
}

} // verus!
