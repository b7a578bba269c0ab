//! Record families: one concrete type set at one schema version.

use vstd::prelude::*;
use vstd::utf8::encode_utf8;

use crate::digest::blake3_digest;
use crate::versioned::error::{VersionedError, VersionedFailure};
use crate::versioned::identity::{RecordKey, SchemaHash};

verus! {

/// Marks the types that a component closes its family set over.
pub trait Sealed {

}

/// One record family.
/// A verified implementor defines the spec functions; of one that does not
/// define them nothing is known.
pub trait RecordFamily: Sealed + Sized {
    type Value;

    /// The stable label of the exact type set.
    open spec fn label() -> Seq<char> {
        arbitrary()
    }

    /// The key of a value.
    open spec fn key_of(value: Self::Value) -> Seq<u8> {
        arbitrary()
    }

    /// The payload of a value.
    open spec fn encoded(value: Self::Value) -> Result<Seq<u8>, VersionedFailure> {
        arbitrary()
    }

    fn schema_label() -> (label: &'static str)
        ensures
            label@ == Self::label(),
    ;

    /// The content-addressed selector of the family.
    fn schema_hash() -> (hash: SchemaHash)
        ensures
            hash@ == family_hash(Self::label()),
    {
        SchemaHash::of_label(Self::schema_label())
    }

    fn record_key(value: &Self::Value) -> (key: RecordKey)
        ensures
            key@ == Self::key_of(*value),
    ;

    fn encode(value: &Self::Value) -> (outcome: Result<Vec<u8>, VersionedError>)
        ensures
            match outcome {
                Ok(bytes) => Self::encoded(*value) == Ok::<Seq<u8>, VersionedFailure>(bytes@),
                Err(error) => Self::encoded(*value) == Err::<Seq<u8>, VersionedFailure>(error@),
            },
    ;

    fn decode(bytes: &[u8]) -> Result<Self::Value, VersionedError>;
}

/// The schema hash of a family label.
pub open spec fn family_hash(label: Seq<char>) -> Seq<u8> {
    blake3_digest(encode_utf8(label))
}

} // verus!
