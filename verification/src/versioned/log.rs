//! The log: append-only, hash-linked, and holding its payloads.

use vstd::prelude::*;

use crate::listing::{
    lemma_number_rising, lemma_numbered, log_values, numbered, row_values, values,
};
use crate::models::{lemma_views_push, option_view, views};
use crate::ordered_table::{lemma_position, map_of, OrderedTable};
use crate::versioned::envelope::{sealed_envelope, EnvelopeModel, OperationKind, ReplayEnvelope};
use crate::versioned::error::{VersionedError, VersionedFailure};
use crate::versioned::family::{family_hash, RecordFamily};
use crate::versioned::identity::{no_predecessor, CommitSequence, EntryDigest, RecordKey};
use crate::versioned::migration::{pair_archive, Reducer, ReducerSet, SchemaTransition};
use crate::versioned::record::ComponentRecord;
use crate::versioned::view::{folded_entries, MaterializedView, ViewOutcome};

verus! {

/// The last entry's position and digest: what a peer names to ask for
/// everything after it.
#[derive(Debug, Clone, Copy)]
pub struct LogHead {
    sequence: CommitSequence,
    digest: EntryDigest,
}

impl View for LogHead {
    type V = (u64, Seq<u8>);

    closed spec fn view(&self) -> (u64, Seq<u8>) {
        (self.sequence@, self.digest@)
    }
}

impl LogHead {
    pub fn new(sequence: CommitSequence, digest: EntryDigest) -> (head: Self)
        ensures
            head@ == (sequence@, digest@),
    {
        LogHead { sequence, digest }
    }

    pub fn sequence(&self) -> (sequence: CommitSequence)
        ensures
            sequence@ == self@.0,
    {
        self.sequence
    }

    pub fn digest(&self) -> (digest: EntryDigest)
        ensures
            digest@ == self@.1,
    {
        self.digest
    }
}

/// The entries at or past a position.
pub open spec fn entries_since(entries: Seq<EnvelopeModel>, start: u64) -> Seq<EnvelopeModel> {
    entries.filter(|entry: EnvelopeModel| entry.sequence >= start)
}

/// The last entry's position and digest.
pub open spec fn head_of(entries: Seq<EnvelopeModel>) -> Option<(u64, Seq<u8>)> {
    if entries.len() == 0 {
        None
    } else {
        Some((entries.last().sequence, entries.last().digest))
    }
}

/// The entries at or past a position, in the order they are given.
pub fn entries_at_or_past(all: &[ReplayEnvelope], start: CommitSequence) -> (found: Vec<
    ReplayEnvelope,
>)
    ensures
        views(found@) == entries_since(views(all@), start@),
{
    let ghost entries = views(all@);
    let ghost wanted = |entry: EnvelopeModel| entry.sequence >= start@;
    let mut found: Vec<ReplayEnvelope> = Vec::new();
    let mut at: usize = 0;
    proof {
        reveal(Seq::filter);
        assert(views(found@) =~= entries.take(0).filter(wanted));
    }
    while at < all.len()
        invariant
            at <= all@.len(),
            entries == views(all@),
            wanted == (|entry: EnvelopeModel| entry.sequence >= start@),
            views(found@) == entries.take(at as int).filter(wanted),
        decreases all@.len() - at,
    {
        let entry = &all[at];
        proof {
            reveal(Seq::filter);
            assert(entries.take(at + 1).drop_last() =~= entries.take(at as int));
            assert(entries.take(at + 1).last() == entry@);
        }
        if entry.sequence().value() >= start.value() {
            let copy: ReplayEnvelope = entry.clone();
            proof {
                lemma_views_push(found@, copy);
            }
            found.push(copy);
        }
        at = at + 1;
    }
    assert(entries.take(at as int) =~= entries);
    found
}

/// The position and digest of the last of some entries.
pub fn last_head(entries: &[ReplayEnvelope]) -> (found: Option<LogHead>)
    ensures
        option_view(found) == head_of(views(entries@)),
{
    if entries.len() == 0 {
        None
    } else {
        let last = &entries[entries.len() - 1];
        assert(views(entries@).last() == last@);
        Some(LogHead::new(last.sequence(), last.entry_digest()))
    }
}

/// The position after the last entry can be counted.
pub open spec fn has_next(entries: Seq<EnvelopeModel>) -> bool {
    head_of(entries) matches Some(head) ==> head.0 < u64::MAX
}

/// Where the next entry stands, and the predecessor it records.
pub open spec fn next_place(entries: Seq<EnvelopeModel>) -> (int, Seq<u8>) {
    match head_of(entries) {
        Some(head) => (head.0 + 1, head.1),
        None => (0, no_predecessor()),
    }
}

/// The entry that a commit appends.
pub open spec fn next_envelope(
    entries: Seq<EnvelopeModel>,
    operation: OperationKind,
    schema_hash: Seq<u8>,
    key: Seq<u8>,
    payload: Seq<u8>,
) -> EnvelopeModel {
    sealed_envelope(
        EnvelopeModel {
            sequence: next_place(entries).0 as u64,
            operation,
            schema_hash,
            key,
            payload,
            previous: next_place(entries).1,
            digest: no_predecessor(),
        },
    )
}

/// A log. A backend says where entries rest; the commit verbs and the
/// rebuild are the same for all.
/// A verified implementor defines the spec functions; of one that does not
/// define them nothing is known.
pub trait VersionedLog: Sized {
    /// The entries in the order they are read.
    open spec fn entries(&self) -> Seq<EnvelopeModel> {
        arbitrary()
    }

    /// The storage under the log answers.
    open spec fn available(&self) -> bool {
        arbitrary()
    }

    /// The entries once one more is appended.
    open spec fn appended(entries: Seq<EnvelopeModel>, entry: EnvelopeModel) -> Seq<EnvelopeModel> {
        arbitrary()
    }

    /// Append a sealed entry: the durable commit point.
    fn append(&mut self, envelope: &ReplayEnvelope) -> (outcome: Result<(), VersionedError>)
        ensures
            old(self).available() ==> outcome is Ok,
            outcome is Ok ==> final(self).entries() == Self::appended(
                old(self).entries(),
                envelope@,
            ),
    ;

    /// Every entry at or past `start`, in order.
    fn entries_from(&self, start: CommitSequence) -> (outcome: Result<
        Vec<ReplayEnvelope>,
        VersionedError,
    >)
        ensures
            self.available() ==> outcome is Ok,
            outcome matches Ok(found) ==> views(found@) == entries_since(self.entries(), start@),
    ;

    /// The head, or none for an empty log.
    fn head(&self) -> (outcome: Result<Option<LogHead>, VersionedError>)
        ensures
            self.available() ==> outcome is Ok,
            outcome matches Ok(found) ==> option_view(found) == head_of(self.entries()),
    ;
}

/// The verbs that every log has.
pub trait CommitVerbs: VersionedLog {
    /// The position and the predecessor of a new entry.
    fn next_coordinates(&self) -> (outcome: Result<(CommitSequence, EntryDigest), VersionedError>)
        requires
            has_next(self.entries()),
        ensures
            self.available() ==> outcome is Ok,
            outcome matches Ok(place) ==> (place.0@ as int, place.1@) == next_place(
                self.entries(),
            ),
    ;

    /// Commit an assertion of a family's value.
    fn commit_assert<Family: RecordFamily>(&mut self, value: &Family::Value) -> (outcome: Result<
        CommitSequence,
        VersionedError,
    >)
        requires
            has_next(old(self).entries()),
        ensures
            match outcome {
                Ok(sequence) => sequence@ == next_place(old(self).entries()).0
                    && Family::encoded(*value) is Ok && final(self).entries() == Self::appended(
                    old(self).entries(),
                    next_envelope(
                        old(self).entries(),
                        OperationKind::Assert,
                        family_hash(Family::label()),
                        Family::key_of(*value),
                        Family::encoded(*value)->Ok_0,
                    ),
                ),
                Err(error) => old(self).available() ==> Family::encoded(*value) == Err::<
                    Seq<u8>,
                    VersionedFailure,
                >(error@) && final(self).entries() == old(self).entries(),
            },
    ;

    /// Commit a retraction of a key of a family.
    fn commit_retract<Family: RecordFamily>(&mut self, key: RecordKey) -> (outcome: Result<
        CommitSequence,
        VersionedError,
    >)
        requires
            has_next(old(self).entries()),
        ensures
            match outcome {
                Ok(sequence) => sequence@ == next_place(old(self).entries()).0
                    && final(self).entries() == Self::appended(
                    old(self).entries(),
                    next_envelope(
                        old(self).entries(),
                        OperationKind::Retract,
                        family_hash(Family::label()),
                        key@,
                        Seq::empty(),
                    ),
                ),
                Err(_) => !old(self).available(),
            },
    ;

    /// Commit a schema transition. The entry records that the family
    /// migrates; the reducer runs at replay.
    fn commit_transition(&mut self, transition: &SchemaTransition) -> (outcome: Result<
        CommitSequence,
        VersionedError,
    >)
        requires
            has_next(old(self).entries()),
        ensures
            match outcome {
                Ok(sequence) => sequence@ == next_place(old(self).entries()).0
                    && final(self).entries() == Self::appended(
                    old(self).entries(),
                    next_envelope(
                        old(self).entries(),
                        OperationKind::SchemaTransition,
                        family_hash("__versioned.schema_transition"@),
                        Seq::empty(),
                        pair_archive(transition@.0, transition@.1),
                    ),
                ),
                Err(_) => !old(self).available(),
            },
    ;

    /// Rebuild the view by folding the whole log.
    fn rebuild<Record: ComponentRecord, Step: Reducer>(
        &self,
        reducers: &ReducerSet<Step>,
    ) -> (outcome: Result<MaterializedView<Record>, VersionedError>)
        ensures
            match outcome {
                Ok(view) => folded_entries::<Record, Step>(self.entries(), reducers@) == (
                ViewOutcome { view: view@, refusal: None }),
                Err(error) => self.available() ==> folded_entries::<Record, Step>(
                    self.entries(),
                    reducers@,
                ).refusal == Some(error@),
            },
    ;
}

impl<Log: VersionedLog> CommitVerbs for Log {
    fn next_coordinates(&self) -> (outcome: Result<(CommitSequence, EntryDigest), VersionedError>) {
        match self.head() {
            Err(error) => Err(error),
            Ok(Some(head)) => Ok((head.sequence().next(), head.digest())),
            Ok(None) => Ok((CommitSequence::genesis(), EntryDigest::zero())),
        }
    }

    fn commit_assert<Family: RecordFamily>(&mut self, value: &Family::Value) -> (outcome: Result<
        CommitSequence,
        VersionedError,
    >) {
        let place: (CommitSequence, EntryDigest) = match self.next_coordinates() {
            Ok(place) => place,
            Err(error) => {
                return Err(error);
            },
        };
        let payload: Vec<u8> = match Family::encode(value) {
            Ok(payload) => payload,
            Err(error) => {
                return Err(error);
            },
        };
        let envelope = ReplayEnvelope::new(
            place.0,
            OperationKind::Assert,
            Family::schema_hash(),
            Family::record_key(value),
            payload,
            place.1,
        );
        match self.append(&envelope) {
            Ok(()) => Ok(place.0),
            Err(error) => Err(error),
        }
    }

    fn commit_retract<Family: RecordFamily>(&mut self, key: RecordKey) -> (outcome: Result<
        CommitSequence,
        VersionedError,
    >) {
        let place: (CommitSequence, EntryDigest) = match self.next_coordinates() {
            Ok(place) => place,
            Err(error) => {
                return Err(error);
            },
        };
        let envelope = ReplayEnvelope::new(
            place.0,
            OperationKind::Retract,
            Family::schema_hash(),
            key,
            Vec::new(),
            place.1,
        );
        match self.append(&envelope) {
            Ok(()) => Ok(place.0),
            Err(error) => Err(error),
        }
    }

    fn commit_transition(&mut self, transition: &SchemaTransition) -> (outcome: Result<
        CommitSequence,
        VersionedError,
    >) {
        let place: (CommitSequence, EntryDigest) = match self.next_coordinates() {
            Ok(place) => place,
            Err(error) => {
                return Err(error);
            },
        };
        let payload: Vec<u8> = match transition.encode() {
            Ok(payload) => payload,
            Err(error) => {
                return Err(error);
            },
        };
        let envelope = ReplayEnvelope::new(
            place.0,
            OperationKind::SchemaTransition,
            SchemaTransition::marker_hash(),
            RecordKey::empty(),
            payload,
            place.1,
        );
        match self.append(&envelope) {
            Ok(()) => Ok(place.0),
            Err(error) => Err(error),
        }
    }

    fn rebuild<Record: ComponentRecord, Step: Reducer>(
        &self,
        reducers: &ReducerSet<Step>,
    ) -> (outcome: Result<MaterializedView<Record>, VersionedError>) {
        let entries: Vec<ReplayEnvelope> = match self.entries_from(CommitSequence::genesis()) {
            Ok(entries) => entries,
            Err(error) => {
                return Err(error);
            },
        };
        proof {
            lemma_entries_since_start(self.entries());
        }
        MaterializedView::from_entries(entries.as_slice(), reducers)
    }
}

/// Every entry is at or past the start.
proof fn lemma_entries_since_start(entries: Seq<EnvelopeModel>)
    ensures
        entries_since(entries, 0) == entries,
    decreases entries.len(),
{
    reveal(Seq::filter);
    if entries.len() > 0 {
        lemma_entries_since_start(entries.drop_last());
        assert(entries.drop_last().push(entries.last()) =~= entries);
    } else {
        assert(entries_since(entries, 0) =~= entries);
    }
}

/// Entries under their own positions.
pub open spec fn by_sequence(entries: Seq<EnvelopeModel>) -> Seq<(u64, EnvelopeModel)> {
    Seq::new(entries.len(), |i: int| (entries[i].sequence, entries[i]))
}

/// The log as one table keyed by position, beside the records it
/// describes: an entry under a position that is taken replaces it.
#[derive(Debug)]
pub struct SameFileLog {
    table: OrderedTable<u64, ReplayEnvelope>,
}

impl View for SameFileLog {
    type V = Map<u64, EnvelopeModel>;

    closed spec fn view(&self) -> Map<u64, EnvelopeModel> {
        self.table@
    }
}

impl SameFileLog {
    /// Every entry stands under its own position.
    #[verifier::type_invariant]
    pub closed spec fn placed(self) -> bool {
        forall|key: u64| #[trigger]
            self.table@.dom().contains(key) ==> self.table@[key].sequence == key
    }

    /// An empty log.
    pub fn new() -> (log: Self)
        ensures
            log@ == Map::<u64, EnvelopeModel>::empty(),
    {
        SameFileLog { table: OrderedTable::new() }
    }
}

/// The listing of a table whose entries stand under their own positions.
proof fn lemma_placed(rows: Seq<(u64, EnvelopeModel)>)
    requires
        crate::ordered_table::rising::<u64, EnvelopeModel>(rows),
        forall|key: u64| #[trigger]
            map_of(rows).dom().contains(key) ==> map_of(rows)[key].sequence == key,
    ensures
        numbered(map_of(rows)) == rows,
        by_sequence(log_values(map_of(rows))) == rows,
{
    lemma_number_rising(rows);
    lemma_numbered(rows);
    assert forall|i: int| 0 <= i < rows.len() implies (#[trigger] rows[i]).1.sequence
        == rows[i].0 by {
        lemma_position::<u64, EnvelopeModel>(rows, i);
    }
    assert(by_sequence(row_values(rows)) =~= rows);
}

impl SameFileLog {
    /// Put an entry under its position.
    fn place(&mut self, envelope: &ReplayEnvelope)
        ensures
            log_values(final(self)@) == log_values(
                map_of(by_sequence(log_values(old(self)@))).insert(
                    envelope@.sequence,
                    envelope@,
                ),
            ),
    {
        let mut table: OrderedTable<u64, ReplayEnvelope> = OrderedTable::new();
        proof {
            use_type_invariant(&*self);
        }
        std::mem::swap(&mut table, &mut self.table);
        let count: usize = table.len();
        proof {
            lemma_placed(table.listing());
        }
        table.insert(envelope.sequence().value(), envelope.clone());
        self.table = table;
    }

    /// The entries at or past a position.
    fn since(&self, start: CommitSequence) -> (found: Vec<ReplayEnvelope>)
        ensures
            views(found@) == entries_since(log_values(self@), start@),
    {
        entries_at_or_past(values(&self.table).as_slice(), start)
    }

    /// The last entry's position and digest.
    fn last(&self) -> (found: Option<LogHead>)
        ensures
            option_view(found) == head_of(log_values(self@)),
    {
        let count: usize = self.table.len();
        proof {
            lemma_number_rising(self.table.listing());
            lemma_numbered(self.table.listing());
        }
        if count == 0 {
            None
        } else {
            let last = self.table.value_at(count - 1);
            Some(LogHead::new(last.sequence(), last.entry_digest()))
        }
    }
}

impl VersionedLog for SameFileLog {
    open spec fn entries(&self) -> Seq<EnvelopeModel> {
        log_values(self@)
    }

    open spec fn available(&self) -> bool {
        true
    }

    open spec fn appended(entries: Seq<EnvelopeModel>, entry: EnvelopeModel) -> Seq<
        EnvelopeModel,
    > {
        log_values(map_of(by_sequence(entries)).insert(entry.sequence, entry))
    }

    fn append(&mut self, envelope: &ReplayEnvelope) -> (outcome: Result<(), VersionedError>) {
        self.place(envelope);
        Ok(())
    }

    fn entries_from(&self, start: CommitSequence) -> (outcome: Result<
        Vec<ReplayEnvelope>,
        VersionedError,
    >) {
        Ok(self.since(start))
    }

    fn head(&self) -> (outcome: Result<Option<LogHead>, VersionedError>) {
        Ok(self.last())
    }
}

} // verus!
