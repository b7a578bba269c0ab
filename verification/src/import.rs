//! Restoring a fresh store from a checkpoint and the log that continues
//! it: what a restore is given, and what it reports.

use vstd::prelude::*;

use crate::checkpoint::{
    verification, Checkpoint, CheckpointModel, CommitSequenceRange, RangeModel,
};
use crate::engine::{imports, Engine};
use crate::engine_model::has_log_room;
use crate::error::{Error, Failure};
use crate::fold::{FamilyDirectory, ViewDigest};
use crate::models::{option_view, views};
use crate::sequence::CommitSequence;
use crate::snapshot::SnapshotIdentifier;
use crate::versioning::{EntryModel, VersionedCommitLogEntry};

verus! {

/// Receipt of a restore: what the checkpoint covered, how much log
/// continued it, and where the restored store now stands.
#[derive(Debug, Clone, Copy, PartialEq, Eq)]
pub struct ImportReceipt {
    covered: CommitSequenceRange,
    suffix_count: usize,
    view_digest: ViewDigest,
    row_count: usize,
    commit_sequence: CommitSequence,
    snapshot: SnapshotIdentifier,
}

/// An import receipt as plain values.
pub struct ImportReceiptModel {
    pub covered: RangeModel,
    pub suffix_count: usize,
    pub view_digest: Seq<u8>,
    pub row_count: usize,
    pub commit_sequence: u64,
    pub snapshot: u64,
}

impl View for ImportReceipt {
    type V = ImportReceiptModel;

    closed spec fn view(&self) -> ImportReceiptModel {
        ImportReceiptModel {
            covered: self.covered@,
            suffix_count: self.suffix_count,
            view_digest: self.view_digest@,
            row_count: self.row_count,
            commit_sequence: self.commit_sequence@,
            snapshot: self.snapshot@,
        }
    }
}

impl ImportReceipt {
    pub fn new(
        covered: CommitSequenceRange,
        suffix_count: usize,
        view_digest: ViewDigest,
        row_count: usize,
        commit_sequence: CommitSequence,
        snapshot: SnapshotIdentifier,
    ) -> (made: Self)
        ensures
            made@ == (ImportReceiptModel {
                covered: covered@,
                suffix_count: suffix_count,
                view_digest: view_digest@,
                row_count: row_count,
                commit_sequence: commit_sequence@,
                snapshot: snapshot@,
            }),
    {
        ImportReceipt { covered, suffix_count, view_digest, row_count, commit_sequence, snapshot }
    }

    pub fn covered(&self) -> (found: CommitSequenceRange)
        ensures
            found@ == self@.covered,
    {
        self.covered
    }

    pub fn suffix_count(&self) -> (found: usize)
        ensures
            found == self@.suffix_count,
    {
        self.suffix_count
    }

    pub fn view_digest(&self) -> (found: ViewDigest)
        ensures
            found@ == self@.view_digest,
    {
        self.view_digest
    }

    pub fn row_count(&self) -> (found: usize)
        ensures
            found == self@.row_count,
    {
        self.row_count
    }

    pub fn commit_sequence(&self) -> (found: CommitSequence)
        ensures
            found@ == self@.commit_sequence,
    {
        self.commit_sequence
    }

    pub fn snapshot(&self) -> (found: SnapshotIdentifier)
        ensures
            found@ == self@.snapshot,
    {
        self.snapshot
    }
}

/// One restore into a fresh store: exactly one checkpoint, and the log
/// entries that continue past what it covers.
#[derive(Debug, PartialEq, Eq)]
pub struct ImportSession {
    checkpoint: Option<Checkpoint>,
    suffix: Vec<VersionedCommitLogEntry>,
}

impl View for ImportSession {
    type V = (Option<CheckpointModel>, Seq<EntryModel>);

    closed spec fn view(&self) -> (Option<CheckpointModel>, Seq<EntryModel>) {
        (option_view(self.checkpoint), views(self.suffix@))
    }
}

impl ImportSession {
    pub(crate) fn new() -> (session: Self)
        ensures
            session@ == (None::<CheckpointModel>, Seq::<EntryModel>::empty()),
    {
        let session = ImportSession { checkpoint: None, suffix: Vec::new() };
        assert(session@.1 =~= Seq::empty());
        session
    }

    /// Take the checkpoint to restore from, if every content address of
    /// it holds and there is none yet.
    pub fn ingest_checkpoint(&mut self, checkpoint: Checkpoint) -> (outcome: Result<(), Error>)
        ensures
            match outcome {
                Ok(()) => {
                    &&& old(self)@.0 is None
                    &&& verification(checkpoint@) is None
                    &&& final(self)@ == (Some(checkpoint@), old(self)@.1)
                },
                Err(error) => {
                    &&& error@ == if old(self)@.0 is Some {
                        Failure::ImportCheckpointAlreadyIngested
                    } else {
                        verification(checkpoint@)->0
                    }
                    &&& old(self)@.0 is Some || verification(checkpoint@) is Some
                    &&& final(self)@ == old(self)@
                },
            },
    {
        if self.checkpoint.is_some() {
            return Err(Error::ImportCheckpointAlreadyIngested);
        }
        match checkpoint.verify() {
            Ok(()) => {
                self.checkpoint = Some(checkpoint);
                Ok(())
            },
            Err(error) => Err(error),
        }
    }

    /// Take log entries that continue past what the checkpoint covers, in
    /// commit order. Their chain is verified when the session commits.
    pub fn ingest_suffix(&mut self, entries: Vec<VersionedCommitLogEntry>)
        ensures
            final(self)@ == (old(self)@.0, old(self)@.1 + views(entries@)),
    {
        let mut rest: Vec<VersionedCommitLogEntry> = entries;
        self.suffix.append(&mut rest);
        assert(self@.1 =~= old(self)@.1 + views(entries@));
    }

    /// Restore the engine's fresh store from what was taken. The
    /// directory has its say on every row.
    pub fn commit<Directory: FamilyDirectory>(
        self,
        engine: &mut Engine,
        directory: &Directory,
    ) -> (outcome: Result<ImportReceipt, Error>)
        requires
            has_log_room(old(engine)@.store, self@.1.len() as int),
        ensures
            match self@.0 {
                None => {
                    &&& outcome matches Err(error) && error@ == Failure::ImportMissingCheckpoint
                    &&& final(engine)@ == old(engine)@
                },
                Some(checkpoint) => imports(
                    old(engine)@,
                    final(engine)@,
                    checkpoint,
                    self@.1,
                    directory,
                    outcome,
                ),
            },
    {
        match self.checkpoint {
            Some(checkpoint) => engine.apply_import(checkpoint, self.suffix, directory),
            None => Err(Error::ImportMissingCheckpoint),
        }
    }
}

} // verus!
