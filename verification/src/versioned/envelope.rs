//! Log entries: typed in motion, bytes at rest.

use vstd::bytes::{spec_u32_to_le_bytes, spec_u64_to_le_bytes, u32_to_le_bytes};
use vstd::prelude::*;

use crate::digest::{blake3_digest, blake3_hash, update_tag, update_u64};
use crate::models::{option_view, Duplicate};
use crate::versioned::error::{VersionedError, VersionedFailure};
use crate::versioned::identity::{
    no_predecessor, CommitSequence, EntryDigest, RecordKey, SchemaHash,
};

verus! {

/// What an entry does to the view.
#[derive(Debug, Clone, Copy, PartialEq, Eq, Structural)]
pub enum OperationKind {
    Assert,
    Retract,
    SchemaTransition,
    Checkpoint,
}

/// The byte that stands for an operation in digest inputs.
pub open spec fn operation_tag(operation: OperationKind) -> u8 {
    match operation {
        OperationKind::Assert => 0,
        OperationKind::Retract => 1,
        OperationKind::SchemaTransition => 2,
        OperationKind::Checkpoint => 3,
    }
}

impl OperationKind {
    pub fn tag(self) -> (tag: u8)
        ensures
            tag == operation_tag(self),
    {
        match self {
            OperationKind::Assert => 0,
            OperationKind::Retract => 1,
            OperationKind::SchemaTransition => 2,
            OperationKind::Checkpoint => 3,
        }
    }
}

/// A byte string behind its length: four bytes, least significant first.
/// The length is taken modulo the range of those bytes.
pub open spec fn short_framed(bytes: Seq<u8>) -> Seq<u8> {
    spec_u32_to_le_bytes(bytes.len() as u32) + bytes
}

/// Append a byte string behind its four-byte length to a digest input.
pub fn update_short(input: &mut Vec<u8>, bytes: &[u8])
    ensures
        final(input)@ == old(input)@ + short_framed(bytes@),
{
    let ghost start = input@;
    let len: usize = bytes.len();
    let mut prefix: Vec<u8> = u32_to_le_bytes(#[verifier::truncate] (len as u32));
    input.append(&mut prefix);
    let ghost middle = input@;
    input.extend_from_slice(bytes);
    assert(input@ =~= middle + bytes@);
    assert(input@ =~= start + short_framed(bytes@));
}

/// One log entry.
#[derive(Debug, PartialEq, Eq)]
pub struct ReplayEnvelope {
    sequence: CommitSequence,
    operation: OperationKind,
    schema_hash: SchemaHash,
    key: RecordKey,
    payload: Vec<u8>,
    previous_digest: EntryDigest,
    entry_digest: EntryDigest,
}

/// A log entry as plain values.
pub struct EnvelopeModel {
    pub sequence: u64,
    pub operation: OperationKind,
    pub schema_hash: Seq<u8>,
    pub key: Seq<u8>,
    pub payload: Seq<u8>,
    pub previous: Seq<u8>,
    pub digest: Seq<u8>,
}

/// The digest input of an entry: every field but the digest itself.
pub open spec fn envelope_input(entry: EnvelopeModel) -> Seq<u8> {
    spec_u64_to_le_bytes(entry.sequence) + seq![operation_tag(entry.operation)]
        + entry.schema_hash + short_framed(entry.key) + short_framed(entry.payload)
        + entry.previous
}

/// The entry whose digest is computed over its own fields.
pub open spec fn sealed_envelope(entry: EnvelopeModel) -> EnvelopeModel {
    EnvelopeModel { digest: blake3_digest(envelope_input(entry)), ..entry }
}

/// The predecessor that an entry after `prior` must record.
pub open spec fn predecessor(prior: Option<Seq<u8>>) -> Seq<u8> {
    match prior {
        Some(digest) => digest,
        None => no_predecessor(),
    }
}

/// Why an entry does not follow `prior`, if it does not.
pub open spec fn envelope_refusal(entry: EnvelopeModel, prior: Option<Seq<u8>>) -> Option<
    VersionedFailure,
> {
    if entry != sealed_envelope(entry) {
        Some(VersionedFailure::CorruptEntry { sequence: entry.sequence })
    } else if entry.previous != predecessor(prior) {
        Some(
            VersionedFailure::BrokenChain {
                sequence: entry.sequence,
                recorded: entry.previous,
                actual: predecessor(prior),
            },
        )
    } else {
        None
    }
}

impl View for ReplayEnvelope {
    type V = EnvelopeModel;

    closed spec fn view(&self) -> EnvelopeModel {
        EnvelopeModel {
            sequence: self.sequence@,
            operation: self.operation,
            schema_hash: self.schema_hash@,
            key: self.key@,
            payload: self.payload@,
            previous: self.previous_digest@,
            digest: self.entry_digest@,
        }
    }
}

impl Clone for ReplayEnvelope {
    fn clone(&self) -> (copy: Self)
        ensures
            copy@ == self@,
    {
        ReplayEnvelope {
            sequence: self.sequence,
            operation: self.operation,
            schema_hash: self.schema_hash,
            key: self.key.clone(),
            payload: self.payload.duplicate(),
            previous_digest: self.previous_digest,
            entry_digest: self.entry_digest,
        }
    }
}

impl Duplicate for ReplayEnvelope {
    fn duplicate(&self) -> (copy: Self) {
        self.clone()
    }
}

impl ReplayEnvelope {
    /// An entry sealed with the digest of its own fields.
    pub fn new(
        sequence: CommitSequence,
        operation: OperationKind,
        schema_hash: SchemaHash,
        key: RecordKey,
        payload: Vec<u8>,
        previous_digest: EntryDigest,
    ) -> (entry: Self)
        ensures
            entry@ == sealed_envelope(
                EnvelopeModel {
                    sequence: sequence@,
                    operation,
                    schema_hash: schema_hash@,
                    key: key@,
                    payload: payload@,
                    previous: previous_digest@,
                    digest: no_predecessor(),
                },
            ),
    {
        let unsealed = ReplayEnvelope {
            sequence,
            operation,
            schema_hash,
            key,
            payload,
            previous_digest,
            entry_digest: EntryDigest::zero(),
        };
        let entry_digest = unsealed.compute_digest();
        unsealed.stored(entry_digest)
    }

    /// The same entry under a stored digest, which nothing checks: how an
    /// entry is read back from storage, for `verify` to accept or refuse.
    pub fn stored(self, entry_digest: EntryDigest) -> (entry: Self)
        ensures
            entry@ == (EnvelopeModel { digest: entry_digest@, ..self@ }),
    {
        ReplayEnvelope {
            sequence: self.sequence,
            operation: self.operation,
            schema_hash: self.schema_hash,
            key: self.key,
            payload: self.payload,
            previous_digest: self.previous_digest,
            entry_digest,
        }
    }

    pub fn sequence(&self) -> (sequence: CommitSequence)
        ensures
            sequence@ == self@.sequence,
    {
        self.sequence
    }

    pub fn operation(&self) -> (operation: OperationKind)
        ensures
            operation == self@.operation,
    {
        self.operation
    }

    pub fn schema_hash(&self) -> (hash: SchemaHash)
        ensures
            hash@ == self@.schema_hash,
    {
        self.schema_hash
    }

    pub fn key(&self) -> (key: &RecordKey)
        ensures
            key@ == self@.key,
    {
        &self.key
    }

    pub fn payload(&self) -> (payload: &[u8])
        ensures
            payload@ == self@.payload,
    {
        self.payload.as_slice()
    }

    pub fn previous_digest(&self) -> (digest: EntryDigest)
        ensures
            digest@ == self@.previous,
    {
        self.previous_digest
    }

    pub fn entry_digest(&self) -> (digest: EntryDigest)
        ensures
            digest@ == self@.digest,
    {
        self.entry_digest
    }

    /// The digest of the entry's own fields.
    pub fn compute_digest(&self) -> (digest: EntryDigest)
        ensures
            digest@ == sealed_envelope(self@).digest,
    {
        let mut input: Vec<u8> = Vec::new();
        update_u64(&mut input, self.sequence.value());
        update_tag(&mut input, self.operation.tag());
        input.extend_from_slice(self.schema_hash.as_bytes());
        update_short(&mut input, self.key.as_bytes());
        update_short(&mut input, self.payload.as_slice());
        input.extend_from_slice(self.previous_digest.as_bytes());
        assert(input@ =~= envelope_input(self@));
        EntryDigest::from_bytes(blake3_hash(input.as_slice()))
    }

    /// Hold the entry's digest against its fields, and its recorded
    /// predecessor against the entry before it.
    pub fn verify(&self, prior: Option<EntryDigest>) -> (outcome: Result<(), VersionedError>)
        ensures
            match outcome {
                Ok(()) => envelope_refusal(self@, option_view(prior)) is None,
                Err(error) => envelope_refusal(self@, option_view(prior)) == Some(error@),
            },
    {
        self.verify_against(self.compute_digest(), prior)
    }

    /// Hold the entry against a digest computed over its fields, and its
    /// recorded predecessor against the entry before it.
    pub fn verify_against(&self, computed: EntryDigest, prior: Option<EntryDigest>) -> (outcome:
        Result<(), VersionedError>)
        ensures
            match outcome {
                Ok(()) => computed@ == self@.digest && self@.previous == predecessor(
                    option_view(prior),
                ),
                Err(error) => error@ == if computed@ != self@.digest {
                    VersionedFailure::CorruptEntry { sequence: self@.sequence }
                } else {
                    VersionedFailure::BrokenChain {
                        sequence: self@.sequence,
                        recorded: self@.previous,
                        actual: predecessor(option_view(prior)),
                    }
                } && (computed@ != self@.digest || self@.previous != predecessor(
                    option_view(prior),
                )),
            },
    {
        if computed != self.entry_digest {
            return Err(VersionedError::CorruptEntry { sequence: self.sequence.value() });
        }
        let expected: EntryDigest = match prior {
            Some(digest) => digest,
            None => EntryDigest::zero(),
        };
        if self.previous_digest != expected {
            return Err(
                VersionedError::BrokenChain {
                    sequence: self.sequence.value(),
                    recorded: self.previous_digest,
                    actual: expected,
                },
            );
        }
        Ok(())
    }
}

} // verus!
