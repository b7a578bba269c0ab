//! Every way a log or a replay is refused.

use vstd::prelude::*;

use crate::versioned::identity::{EntryDigest, SchemaHash};

verus! {

/// `rkyv::rancor::BoxedError`, carried without a look inside.
#[verifier::external_type_specification]
#[verifier::external_body]
pub struct ExRancorError(rkyv::rancor::BoxedError);

/// A refusal of the versioned log.
#[allow(inconsistent_fields)]
#[derive(Debug)]
pub enum VersionedError {
    /// The storage that a log rests in failed.
    Storage { message: String },
    /// A payload or an entry could not be archived.
    Encode(rkyv::rancor::BoxedError),
    /// Bytes did not hold a valid archive.
    Decode(rkyv::rancor::BoxedError),
    /// A frame's length or body runs past the end of the bytes.
    TruncatedFrame { offset: u64 },
    /// An entry's digest is not that of its own fields.
    CorruptEntry { sequence: u64 },
    /// An entry records another predecessor than the entry before it.
    BrokenChain { sequence: u64, recorded: EntryDigest, actual: EntryDigest },
    /// No family of the component decodes payloads under this hash.
    UnknownSchemaHash(SchemaHash),
    /// No reducer carries this transition.
    MissingReducer { from: SchemaHash, to: SchemaHash },
}

/// A refusal as plain values.
#[allow(inconsistent_fields)]
pub enum VersionedFailure {
    Storage { message: Seq<char> },
    Encode,
    Decode,
    TruncatedFrame { offset: u64 },
    CorruptEntry { sequence: u64 },
    BrokenChain { sequence: u64, recorded: Seq<u8>, actual: Seq<u8> },
    UnknownSchemaHash(Seq<u8>),
    MissingReducer { from: Seq<u8>, to: Seq<u8> },
}

impl View for VersionedError {
    type V = VersionedFailure;

    open spec fn view(&self) -> VersionedFailure {
        match *self {
            VersionedError::Storage { message } => VersionedFailure::Storage { message: message@ },
            VersionedError::Encode(_) => VersionedFailure::Encode,
            VersionedError::Decode(_) => VersionedFailure::Decode,
            VersionedError::TruncatedFrame { offset } => VersionedFailure::TruncatedFrame {
                offset,
            },
            VersionedError::CorruptEntry { sequence } => VersionedFailure::CorruptEntry {
                sequence,
            },
            VersionedError::BrokenChain { sequence, recorded, actual } => {
                VersionedFailure::BrokenChain {
                    sequence,
                    recorded: recorded@,
                    actual: actual@,
                }
            },
            VersionedError::UnknownSchemaHash(hash) => VersionedFailure::UnknownSchemaHash(hash@),
            VersionedError::MissingReducer { from, to } => VersionedFailure::MissingReducer {
                from: from@,
                to: to@,
            },
        }
    }
}

} // verus!
