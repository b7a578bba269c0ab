//! The commit log and the hash-chained versioned log: their rows, the
//! chain head that the next entry names, and the row counts. Every append
//! moves the head and the counts together with the row.

use vstd::prelude::*;

use crate::error::Error;
use crate::fold::{folded, CanonicalView};
use crate::listing::{from_number, log_values, number_listed, values, values_from};
use crate::log::{CommitLogEntry, LogEntryModel};
use crate::models::{lemma_views_push, option_view, views};
use crate::sequence::CommitSequence;
use crate::store::{counted_so_far, read_counter, Store, StoreModel};
use crate::subscribe::{sequence_contains, SequenceRange, SequenceRangeModel};
use crate::versioning::{EntryDigest, EntryModel, VersionedCommitLogEntry};

verus! {

/// The entries whose committed state lies in a range.
pub open spec fn entries_within(
    entries: Seq<LogEntryModel>,
    range: SequenceRangeModel,
) -> Seq<LogEntryModel>
    decreases entries.len(),
{
    if entries.len() == 0 {
        Seq::empty()
    } else {
        let before = entries_within(entries.drop_last(), range);
        if sequence_contains(range, entries.last().snapshot) {
            before.push(entries.last())
        } else {
            before
        }
    }
}

/// The store after a commit log row and the row count that goes with it.
pub open spec fn commit_appended(
    store: StoreModel,
    entry: LogEntryModel,
    count: u64,
) -> StoreModel {
    StoreModel {
        commit_log: store.commit_log.insert(entry.commit_sequence, entry),
        commit_count: Some(count),
        ..store
    }
}

/// The store after a versioned row, the head it leaves, and the row count
/// that goes with it.
pub open spec fn versioned_appended(
    store: StoreModel,
    entry: EntryModel,
    count: u64,
) -> StoreModel {
    StoreModel {
        versioned_log: store.versioned_log.insert(entry.commit_sequence, entry),
        chain_head: Some(entry.digest),
        versioned_count: Some(count),
        ..store
    }
}

/// The head and the counts as the logs themselves give them.
pub open spec fn derived_slots(store: StoreModel, layout: u64) -> StoreModel {
    let entries = log_values(store.versioned_log);
    StoreModel {
        chain_head: if entries.len() == 0 {
            None
        } else {
            Some(entries.last().digest)
        },
        commit_count: Some(log_values(store.commit_log).len() as u64),
        versioned_count: Some(entries.len() as u64),
        layout: Some(layout),
        ..store
    }
}

/// The row counts of the two logs.
#[derive(Debug, Clone, Copy, PartialEq, Eq, Structural)]
pub struct LogCounts {
    commits: u64,
    versioned: u64,
}

/// Log counts as plain numbers.
pub struct CountsModel {
    pub commits: u64,
    pub versioned: u64,
}

impl View for LogCounts {
    type V = CountsModel;

    closed spec fn view(&self) -> CountsModel {
        CountsModel { commits: self.commits, versioned: self.versioned }
    }
}

impl LogCounts {
    pub fn new(commits: u64, versioned: u64) -> (counts: Self)
        ensures
            counts@ == (CountsModel { commits, versioned }),
    {
        LogCounts { commits, versioned }
    }

    pub fn commits(self) -> (count: u64)
        ensures
            count == self@.commits,
    {
        self.commits
    }

    pub fn versioned(self) -> (count: u64)
        ensures
            count == self@.versioned,
    {
        self.versioned
    }

    /// The commit count after one more entry.
    pub fn next_commit(self) -> (count: u64)
        requires
            self@.commits < u64::MAX,
        ensures
            count == self@.commits + 1,
    {
        self.commits + 1
    }

    /// The versioned count after one more entry.
    pub fn next_versioned(self) -> (count: u64)
        requires
            self@.versioned < u64::MAX,
        ensures
            count == self@.versioned + 1,
    {
        self.versioned + 1
    }
}

/// The logs of a store.
pub struct CommitLog<'store> {
    store: &'store Store,
}

impl<'store> View for CommitLog<'store> {
    type V = StoreModel;

    closed spec fn view(&self) -> StoreModel {
        self.store@
    }
}

impl<'store> CommitLog<'store> {
    pub fn new(store: &'store Store) -> (log: Self)
        ensures
            log@ == store@,
    {
        CommitLog { store }
    }

    /// Every commit log entry, in commit order.
    pub fn entries(&self) -> (entries: Vec<CommitLogEntry>)
        ensures
            views(entries@) == log_values(self@.commit_log),
            number_listed(self@.commit_log),
    {
        values(&self.store.commit_log)
    }

    /// Commit log entries from `start` on, in commit order.
    pub fn entries_from(&self, start: CommitSequence) -> (entries: Vec<CommitLogEntry>)
        ensures
            views(entries@) == log_values(from_number(self@.commit_log, start@ as int)),
            number_listed(from_number(self@.commit_log, start@ as int)),
    {
        values_from(&self.store.commit_log, start.value())
    }

    /// Commit log entries whose committed state lies in `range`.
    pub fn entries_in(&self, range: SequenceRange) -> (entries: Vec<CommitLogEntry>)
        ensures
            views(entries@) == entries_within(log_values(self@.commit_log), range@),
            number_listed(self@.commit_log),
    {
        let all: Vec<CommitLogEntry> = self.entries();
        let ghost logged = views(all@);
        let mut found: Vec<CommitLogEntry> = Vec::new();
        let mut at: usize = 0;
        assert(logged.take(0) =~= Seq::empty());
        assert(views(found@) =~= Seq::empty());
        while at < all.len()
            invariant
                at <= all.len(),
                logged == views(all@),
                views(found@) == entries_within(logged.take(at as int), range@),
            decreases all.len() - at,
        {
            assert(logged.take(at + 1).drop_last() =~= logged.take(at as int));
            assert(logged.take(at + 1).last() == all@[at as int]@);
            if range.contains(all[at].snapshot()) {
                let entry: CommitLogEntry = all[at].clone();
                proof {
                    lemma_views_push(found@, entry);
                }
                found.push(entry);
            }
            at = at + 1;
        }
        assert(logged.take(at as int) =~= logged);
        found
    }

    /// Every versioned entry, in commit order.
    pub fn versioned_entries(&self) -> (entries: Vec<VersionedCommitLogEntry>)
        ensures
            views(entries@) == log_values(self@.versioned_log),
            number_listed(self@.versioned_log),
    {
        values(&self.store.versioned_commit_log)
    }

    /// Versioned entries from `start` on, in commit order.
    pub fn versioned_entries_from(&self, start: CommitSequence) -> (entries: Vec<
        VersionedCommitLogEntry,
    >)
        ensures
            views(entries@) == log_values(from_number(self@.versioned_log, start@ as int)),
            number_listed(from_number(self@.versioned_log, start@ as int)),
    {
        values_from(&self.store.versioned_commit_log, start.value())
    }

    /// The versioned entry at one commit sequence.
    pub fn versioned_entry_at(&self, sequence: CommitSequence) -> (entry: Option<
        VersionedCommitLogEntry,
    >)
        ensures
            match entry {
                Some(found) => {
                    &&& self@.versioned_log.dom().contains(sequence@)
                    &&& found@ == self@.versioned_log[sequence@]
                },
                None => !self@.versioned_log.dom().contains(sequence@),
            },
    {
        match self.store.versioned_commit_log.get(&sequence.value()) {
            Some(entry) => Some(entry.clone()),
            None => None,
        }
    }

    /// Whether a commit sequence names a committed write.
    pub fn entry_present(&self, sequence: CommitSequence) -> (present: bool)
        ensures
            present == self@.commit_log.dom().contains(sequence@),
    {
        self.store.commit_log.contains_key(&sequence.value())
    }

    /// The digest that the next versioned entry names as its predecessor.
    pub fn chain_head(&self) -> (head: Option<EntryDigest>)
        ensures
            option_view(head) == self@.chain_head,
    {
        self.store.chain_head
    }

    /// The row counts of both logs, as they were kept with the rows.
    pub fn counts(&self) -> (counts: LogCounts)
        ensures
            counts@ == (CountsModel {
                commits: counted_so_far(self@.commit_count),
                versioned: counted_so_far(self@.versioned_count),
            }),
    {
        LogCounts::new(
            read_counter(self.store.commit_log_count),
            read_counter(self.store.versioned_log_count),
        )
    }

    /// Both logs are empty.
    pub fn logs_empty(&self) -> (empty: bool)
        ensures
            empty == (self@.commit_log == Map::<u64, LogEntryModel>::empty() && self@.versioned_log
                == Map::<u64, EntryModel>::empty()),
    {
        self.store.commit_log.is_empty() && self.store.versioned_commit_log.is_empty()
    }

    /// Append a commit log row and move the commit count with it.
    pub fn append_commit(store: &mut Store, entry: CommitLogEntry, commit_count: u64)
        ensures
            final(store)@ == commit_appended(old(store)@, entry@, commit_count),
    {
        store.commit_log.insert(entry.commit_sequence().value(), entry);
        store.commit_log_count = Some(commit_count);
    }

    /// Append a versioned row and move the head and the versioned count
    /// with it.
    pub fn append_versioned(
        store: &mut Store,
        entry: VersionedCommitLogEntry,
        versioned_count: u64,
    )
        ensures
            final(store)@ == versioned_appended(old(store)@, entry@, versioned_count),
    {
        store.chain_head = Some(entry.entry_digest());
        store.versioned_commit_log.insert(entry.commit_sequence().value(), entry);
        store.versioned_log_count = Some(versioned_count);
    }

    /// Recompute the head and the counts from the logs, and stamp the
    /// layout. The whole chain is folded first, so a log that does not
    /// verify changes nothing.
    pub fn rebuild_derived_slots(store: &mut Store, layout: u64) -> (outcome: Result<(), Error>)
        ensures
            match (
                outcome,
                folded(Seq::empty(), log_values(old(store)@.versioned_log), None),
            ) {
                (Ok(()), Ok(_)) => final(store)@ == derived_slots(old(store)@, layout),
                (Err(error), Err(failure)) => error@ == failure && final(store)@ == old(store)@,
                _ => false,
            },
    {
        let entries: Vec<VersionedCommitLogEntry> = values(&store.versioned_commit_log);
        let commits: Vec<CommitLogEntry> = values(&store.commit_log);
        let rows: Vec<crate::fold::ViewRow> = Vec::new();
        assert(views(rows@) =~= Seq::empty());
        match CanonicalView::fold(rows.as_slice(), entries.as_slice(), None) {
            Ok(_) => {},
            Err(error) => {
                return Err(error);
            },
        }
        store.chain_head = if entries.len() == 0 {
            None
        } else {
            Some(entries[entries.len() - 1].entry_digest())
        };
        store.commit_log_count = Some(commits.len() as u64);
        store.versioned_log_count = Some(entries.len() as u64);
        store.storage_layout = Some(layout);
        assert(entries@.len() == log_values(old(store)@.versioned_log).len());
        assert(commits@.len() == log_values(old(store)@.commit_log).len());
        Ok(())
    }

    /// The versioned log holds an entry.
    pub fn versioned_log_present(store: &Store) -> (present: bool)
        ensures
            present == (store@.versioned_log != Map::<u64, EntryModel>::empty()),
    {
        !store.versioned_commit_log.is_empty()
    }
}

} // verus!
