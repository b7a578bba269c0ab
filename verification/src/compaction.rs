//! Durable boundary for a multi-table history compaction.
//!
//! The staging slot holds the complete typed retraction plan. This
//! record makes its lifecycle durable: it survives applying that plan
//! until a verified checkpoint and the history floor agree with it.

use vstd::prelude::*;

use crate::models::option_view;
use crate::sequence::CommitSequence;

verus! {

#[derive(Debug, Clone, Copy, PartialEq, Eq, Structural)]
pub enum CompactionPhase {
    Planned,
    Applied,
    Checkpointed,
}

/// How far a compaction has come, and the last sequence it covers once
/// its retractions are applied.
#[derive(Debug, Clone, Copy, PartialEq, Eq, Structural)]
pub struct CompactionIntent {
    phase: CompactionPhase,
    final_sequence: Option<CommitSequence>,
}

impl View for CompactionIntent {
    type V = (CompactionPhase, Option<u64>);

    closed spec fn view(&self) -> (CompactionPhase, Option<u64>) {
        (self.phase, option_view(self.final_sequence))
    }
}

impl CompactionIntent {
    pub fn planned() -> (intent: Self)
        ensures
            intent@ == (CompactionPhase::Planned, None::<u64>),
    {
        CompactionIntent { phase: CompactionPhase::Planned, final_sequence: None }
    }

    pub fn applied(final_sequence: CommitSequence) -> (intent: Self)
        ensures
            intent@ == (CompactionPhase::Applied, Some(final_sequence@)),
    {
        CompactionIntent { phase: CompactionPhase::Applied, final_sequence: Some(final_sequence) }
    }

    pub fn checkpointed(final_sequence: CommitSequence) -> (intent: Self)
        ensures
            intent@ == (CompactionPhase::Checkpointed, Some(final_sequence@)),
    {
        CompactionIntent {
            phase: CompactionPhase::Checkpointed,
            final_sequence: Some(final_sequence),
        }
    }

    pub fn phase(&self) -> (phase: CompactionPhase)
        ensures
            phase == self@.0,
    {
        self.phase
    }

    pub fn is_planned(&self) -> (planned: bool)
        ensures
            planned == (self@.0 == CompactionPhase::Planned),
    {
        matches!(self.phase, CompactionPhase::Planned)
    }

    pub fn final_sequence(&self) -> (sequence: Option<CommitSequence>)
        ensures
            option_view(sequence) == self@.1,
    {
        self.final_sequence
    }
}

/// Deterministic interruption points, each after a durable phase.
#[derive(Debug, Clone, Copy, PartialEq, Eq, Structural)]
pub enum CompactionFault {
    AfterPlanPersisted,
    AfterRetractionsApplied,
    AfterCheckpointPublished,
    /// The history floor and checkpoint artifacts are durable; only
    /// intent cleanup remains.
    AfterHistoryFloorAdvanced,
}

} // verus!
