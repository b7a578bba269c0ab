//! Mirror outbox: the durable queue between local commits and a mirror.
//! Every versioned commit log entry gets an outbox row when it lands, so
//! the unshipped suffix is complete. A mirror acknowledges the head it
//! has stored, which advances a durable shipped cursor.

use vstd::prelude::*;
use vstd::std_specs::convert::FromSpecImpl;

use crate::error::{Error, Failure};
use crate::listing::{from_number, log_values, number_listed, values_after};
use crate::models::{option_view, views, Duplicate};
use crate::sequence::CommitSequence;
use crate::store::{Store, StoreModel};
use crate::versioning::{EntryDigest, EntryModel, VersionedCommitLogEntry};

verus! {

/// One durable outbox row: the queue position of a versioned entry and
/// the digest that an acknowledgement must echo.
#[derive(Debug, Clone, Copy, PartialEq, Eq)]
pub struct OutboxEntry {
    commit_sequence: CommitSequence,
    entry_digest: EntryDigest,
}

/// A position in the versioned history: a commit sequence and the digest
/// of the entry there.
pub struct HeadModel {
    pub commit_sequence: u64,
    pub digest: Seq<u8>,
}

/// The history position of a versioned entry.
pub open spec fn entry_head(entry: EntryModel) -> HeadModel {
    HeadModel { commit_sequence: entry.commit_sequence, digest: entry.digest }
}

impl View for OutboxEntry {
    type V = HeadModel;

    closed spec fn view(&self) -> HeadModel {
        HeadModel { commit_sequence: self.commit_sequence@, digest: self.entry_digest@ }
    }
}

impl Duplicate for OutboxEntry {
    fn duplicate(&self) -> (copy: Self) {
        *self
    }
}

impl OutboxEntry {
    /// An outbox row as storage holds it.
    pub fn new(commit_sequence: CommitSequence, entry_digest: EntryDigest) -> (row: Self)
        ensures
            row@ == (HeadModel { commit_sequence: commit_sequence@, digest: entry_digest@ }),
    {
        OutboxEntry { commit_sequence, entry_digest }
    }

    pub fn commit_sequence(&self) -> (sequence: CommitSequence)
        ensures
            sequence@ == self@.commit_sequence,
    {
        self.commit_sequence
    }

    pub fn entry_digest(&self) -> (digest: EntryDigest)
        ensures
            digest@ == self@.digest,
    {
        self.entry_digest
    }
}

/// The outbox row of a versioned entry.
impl<'a> From<&'a VersionedCommitLogEntry> for OutboxEntry {
    fn from(entry: &'a VersionedCommitLogEntry) -> (row: Self)
        ensures
            row@ == entry_head(entry@),
    {
        OutboxEntry {
            commit_sequence: entry.commit_sequence(),
            entry_digest: entry.entry_digest(),
        }
    }
}

impl<'a> FromSpecImpl<&'a VersionedCommitLogEntry> for OutboxEntry {
    open spec fn obeys_from_spec() -> bool {
        false
    }

    open spec fn from_spec(entry: &'a VersionedCommitLogEntry) -> OutboxEntry {
        arbitrary()
    }
}

/// A server-confirmed mirror head: the highest commit the mirror stored
/// durably, named by sequence and entry digest.
#[derive(Debug, Clone, Copy, PartialEq, Eq)]
pub struct MirrorHead {
    commit_sequence: CommitSequence,
    entry_digest: EntryDigest,
}

impl View for MirrorHead {
    type V = HeadModel;

    closed spec fn view(&self) -> HeadModel {
        HeadModel { commit_sequence: self.commit_sequence@, digest: self.entry_digest@ }
    }
}

impl MirrorHead {
    pub fn new(commit_sequence: CommitSequence, entry_digest: EntryDigest) -> (head: Self)
        ensures
            head@ == (HeadModel { commit_sequence: commit_sequence@, digest: entry_digest@ }),
    {
        MirrorHead { commit_sequence, entry_digest }
    }

    pub fn commit_sequence(&self) -> (sequence: CommitSequence)
        ensures
            sequence@ == self@.commit_sequence,
    {
        self.commit_sequence
    }

    pub fn entry_digest(&self) -> (digest: EntryDigest)
        ensures
            digest@ == self@.digest,
    {
        self.entry_digest
    }
}

/// The head that an outbox row names.
impl<'a> From<&'a OutboxEntry> for MirrorHead {
    fn from(row: &'a OutboxEntry) -> (head: Self)
        ensures
            head@ == row@,
    {
        MirrorHead { commit_sequence: row.commit_sequence(), entry_digest: row.entry_digest() }
    }
}

impl<'a> FromSpecImpl<&'a OutboxEntry> for MirrorHead {
    open spec fn obeys_from_spec() -> bool {
        false
    }

    open spec fn from_spec(row: &'a OutboxEntry) -> MirrorHead {
        arbitrary()
    }
}

/// Typed outcome of acknowledging a mirror head.
#[derive(Debug, Clone, Copy, PartialEq, Eq)]
pub enum MirrorAcknowledgement {
    /// The head advanced the durable shipped cursor.
    Advanced(MirrorHead),
    /// The head was already covered by the cursor, which this carries.
    Unchanged(MirrorHead),
}

impl MirrorAcknowledgement {
    /// The durable shipped cursor after the acknowledgement.
    pub fn head(&self) -> (head: MirrorHead)
        ensures
            match *self {
                MirrorAcknowledgement::Advanced(cursor) => head == cursor,
                MirrorAcknowledgement::Unchanged(cursor) => head == cursor,
            },
    {
        match self {
            MirrorAcknowledgement::Advanced(head) => *head,
            MirrorAcknowledgement::Unchanged(head) => *head,
        }
    }
}

/// How durable one committed write, or a store's whole state, is.
#[derive(Debug, Clone, Copy, PartialEq, Eq, Structural)]
pub enum Durability {
    /// Committed locally with no mirror queue position: the store runs
    /// without a versioning policy, so nothing ever queues.
    LocalCommitted,
    /// An outbox row exists; no acknowledgement covers it yet.
    QueuedForMirror,
    /// Covered by the acknowledged mirror head.
    ServerCommitted,
}

/// The commit sequence up to which the mirror has confirmed.
pub open spec fn shipped_through(store: StoreModel) -> u64 {
    match store.mirror {
        Some(head) => head.commit_sequence,
        None => 0,
    }
}

/// The outbox rows past the shipped cursor, in commit order.
pub open spec fn unshipped_rows(store: StoreModel) -> Seq<HeadModel> {
    log_values(from_number(store.outbox, shipped_through(store) + 1))
}

/// The store after a versioned entry got its outbox row.
pub open spec fn queued(store: StoreModel, entry: EntryModel) -> StoreModel {
    StoreModel { outbox: store.outbox.insert(entry.commit_sequence, entry_head(entry)), ..store }
}

/// An acknowledgement's outcome as plain values: whether it advanced the
/// cursor, and the cursor after it.
pub struct AcknowledgementModel {
    pub advanced: bool,
    pub cursor: HeadModel,
}

/// What acknowledging a head comes to, given the digest of the logged
/// entry there.
pub open spec fn acknowledgement(
    store: StoreModel,
    head: HeadModel,
    logged: Option<Seq<u8>>,
) -> Result<AcknowledgementModel, Failure> {
    let sequence = head.commit_sequence;
    if !store.outbox.dom().contains(sequence) {
        Err(Failure::MirrorHeadUnknown { sequence })
    } else {
        let recorded = store.outbox[sequence];
        if logged != Some(recorded.digest) {
            Err(Failure::OutboxEntryMismatch { sequence })
        } else if recorded.digest != head.digest {
            Err(
                Failure::MirrorHeadForked {
                    sequence,
                    recorded: recorded.digest,
                    acknowledged: head.digest,
                },
            )
        } else {
            match store.mirror {
                Some(cursor) if sequence <= cursor.commit_sequence => Ok(
                    AcknowledgementModel { advanced: false, cursor },
                ),
                _ => Ok(AcknowledgementModel { advanced: true, cursor: head }),
            }
        }
    }
}

/// The model of an acknowledgement's outcome.
pub open spec fn acknowledgement_model(made: MirrorAcknowledgement) -> AcknowledgementModel {
    match made {
        MirrorAcknowledgement::Advanced(head) => AcknowledgementModel {
            advanced: true,
            cursor: head@,
        },
        MirrorAcknowledgement::Unchanged(head) => AcknowledgementModel {
            advanced: false,
            cursor: head@,
        },
    }
}

/// How durable the commit at a sequence is.
pub open spec fn commit_durability(store: StoreModel, sequence: u64) -> Durability {
    if !store.outbox.dom().contains(sequence) {
        Durability::LocalCommitted
    } else {
        match store.mirror {
            Some(head) if store.outbox[sequence].commit_sequence <= head.commit_sequence => {
                Durability::ServerCommitted
            },
            _ => Durability::QueuedForMirror,
        }
    }
}

/// How durable a versioned store's whole state is.
pub open spec fn mirrored_durability(store: StoreModel) -> Durability {
    if unshipped_rows(store).len() == 0 {
        Durability::ServerCommitted
    } else {
        Durability::QueuedForMirror
    }
}

/// The outbox of a store.
pub struct Outbox<'store> {
    store: &'store Store,
}

impl<'store> View for Outbox<'store> {
    type V = StoreModel;

    closed spec fn view(&self) -> StoreModel {
        self.store@
    }
}

impl<'store> Outbox<'store> {
    pub fn new(store: &'store Store) -> (outbox: Self)
        ensures
            outbox@ == store@,
    {
        Outbox { store }
    }

    /// The durable shipped cursor.
    pub fn mirror_head(&self) -> (head: Option<MirrorHead>)
        ensures
            option_view(head) == self@.mirror,
    {
        self.store.mirror_cursor
    }

    /// Every outbox row past the shipped cursor, in commit order.
    pub fn unshipped(&self) -> (rows: Vec<OutboxEntry>)
        ensures
            views(rows@) == unshipped_rows(self@),
            number_listed(from_number(self@.outbox, shipped_through(self@) + 1)),
    {
        let after: u64 = match self.store.mirror_cursor {
            Some(head) => head.commit_sequence().value(),
            None => 0,
        };
        values_after(&self.store.outbox, after)
    }

    /// The outbox row at one commit sequence.
    pub fn row_at(&self, sequence: CommitSequence) -> (row: Option<OutboxEntry>)
        ensures
            match row {
                Some(found) => {
                    &&& self@.outbox.dom().contains(sequence@)
                    &&& found@ == self@.outbox[sequence@]
                },
                None => !self@.outbox.dom().contains(sequence@),
            },
    {
        match self.store.outbox.get(&sequence.value()) {
            Some(row) => Some(*row),
            None => None,
        }
    }

    /// Write the outbox row beside the versioned entry it mirrors.
    pub fn record(store: &mut Store, entry: &VersionedCommitLogEntry)
        ensures
            final(store)@ == queued(old(store)@, entry@),
    {
        store.outbox.insert(entry.commit_sequence().value(), OutboxEntry::from(entry));
    }

    /// Record a server-confirmed head. A head at or behind the cursor
    /// changes nothing; one that no outbox row names, that the log
    /// disagrees with, or whose digest differs from the row's is refused.
    pub fn acknowledge(
        store: &mut Store,
        head: MirrorHead,
        logged_digest: Option<EntryDigest>,
    ) -> (outcome: Result<MirrorAcknowledgement, Error>)
        ensures
            match (outcome, acknowledgement(old(store)@, head@, option_view(logged_digest))) {
                (Ok(made), Ok(expected)) => {
                    &&& acknowledgement_model(made) == expected
                    &&& final(store)@ == (StoreModel {
                        mirror: Some(expected.cursor),
                        ..old(store)@
                    })
                },
                (Err(error), Err(failure)) => {
                    &&& error@ == failure
                    &&& final(store)@ == old(store)@
                },
                _ => false,
            },
    {
        let sequence: CommitSequence = head.commit_sequence();
        let recorded: OutboxEntry = match (Outbox { store: &*store }).row_at(sequence) {
            Some(row) => row,
            None => {
                return Err(Error::MirrorHeadUnknown { sequence: sequence.value() });
            },
        };
        let logged: bool = match logged_digest {
            Some(digest) => digest == recorded.entry_digest(),
            None => false,
        };
        if !logged {
            return Err(Error::OutboxEntryMismatch { sequence: sequence.value() });
        }
        if recorded.entry_digest() != head.entry_digest() {
            return Err(
                Error::MirrorHeadForked {
                    sequence: sequence.value(),
                    recorded: recorded.entry_digest(),
                    acknowledged: head.entry_digest(),
                },
            );
        }
        if let Some(current) = store.mirror_cursor {
            if sequence.value() <= current.commit_sequence().value() {
                return Ok(MirrorAcknowledgement::Unchanged(current));
            }
        }
        store.mirror_cursor = Some(head);
        Ok(MirrorAcknowledgement::Advanced(head))
    }

    /// How durable a commit is, given that it exists.
    pub fn durability_of(&self, sequence: CommitSequence) -> (durability: Durability)
        ensures
            durability == commit_durability(self@, sequence@),
    {
        match self.row_at(sequence) {
            None => Durability::LocalCommitted,
            Some(row) => match self.store.mirror_cursor {
                Some(head) => {
                    if row.commit_sequence().value() <= head.commit_sequence().value() {
                        Durability::ServerCommitted
                    } else {
                        Durability::QueuedForMirror
                    }
                },
                None => Durability::QueuedForMirror,
            },
        }
    }

    /// How durable a versioned store's whole state is.
    pub fn store_durability(&self) -> (durability: Durability)
        ensures
            durability == mirrored_durability(self@),
            number_listed(from_number(self@.outbox, shipped_through(self@) + 1)),
    {
        let rows: Vec<OutboxEntry> = self.unshipped();
        assert(rows@.len() == views(rows@).len());
        if rows.len() == 0 {
            Durability::ServerCommitted
        } else {
            Durability::QueuedForMirror
        }
    }
}

} // verus!
