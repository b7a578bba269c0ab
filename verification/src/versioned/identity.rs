//! What names a family, an entry, a position in the log, and a record.

use vstd::prelude::*;
use vstd::std_specs::cmp::PartialEqSpecImpl;
use vstd::string::*;
use vstd::utf8::encode_utf8;

use crate::digest::{blake3_digest, blake3_hash};
use crate::models::Duplicate;
use crate::order::same_bytes;

verus! {

/// Content-addressed identity of one record family at one schema version:
/// what selects the decoder of a payload.
#[derive(Debug, Clone, Copy, Eq, PartialOrd, Ord, Hash)]
pub struct SchemaHash {
    bytes: [u8; 32],
}

impl View for SchemaHash {
    type V = Seq<u8>;

    closed spec fn view(&self) -> Seq<u8> {
        self.bytes@
    }
}

impl PartialEq for SchemaHash {
    fn eq(&self, other: &Self) -> (same: bool) {
        same_bytes(&self.bytes, &other.bytes)
    }
}

impl PartialEqSpecImpl for SchemaHash {
    open spec fn obeys_eq_spec() -> bool {
        true
    }

    open spec fn eq_spec(&self, other: &Self) -> bool {
        self@ == other@
    }
}

impl SchemaHash {
    pub fn from_bytes(bytes: [u8; 32]) -> (digest: Self)
        ensures
            digest@ == bytes@,
    {
        SchemaHash { bytes }
    }

    pub fn as_bytes(&self) -> (bytes: &[u8; 32])
        ensures
            bytes@ == self@,
    {
        &self.bytes
    }

    /// The hash of a family's stable label.
    pub fn of_label(label: &str) -> (hash: Self)
        ensures
            hash@ == blake3_digest(encode_utf8(label@)),
    {
        SchemaHash { bytes: blake3_hash(label.as_bytes()) }
    }

    /// A digest is thirty-two bytes long.
    pub proof fn lemma_len(self)
        ensures
            self@.len() == 32,
    {
    }
}

/// Digest of one log entry. Each entry records the one before it, so the
/// digest of the last names the whole log.
#[derive(Debug, Clone, Copy, Eq, PartialOrd, Ord, Hash)]
pub struct EntryDigest {
    bytes: [u8; 32],
}

impl View for EntryDigest {
    type V = Seq<u8>;

    closed spec fn view(&self) -> Seq<u8> {
        self.bytes@
    }
}

impl PartialEq for EntryDigest {
    fn eq(&self, other: &Self) -> (same: bool) {
        same_bytes(&self.bytes, &other.bytes)
    }
}

impl PartialEqSpecImpl for EntryDigest {
    open spec fn obeys_eq_spec() -> bool {
        true
    }

    open spec fn eq_spec(&self, other: &Self) -> bool {
        self@ == other@
    }
}

impl EntryDigest {
    pub fn from_bytes(bytes: [u8; 32]) -> (digest: Self)
        ensures
            digest@ == bytes@,
    {
        EntryDigest { bytes }
    }

    pub fn as_bytes(&self) -> (bytes: &[u8; 32])
        ensures
            bytes@ == self@,
    {
        &self.bytes
    }

    /// What the first entry records as its predecessor.
    pub fn zero() -> (digest: Self)
        ensures
            digest@ == no_predecessor(),
    {
        let digest = EntryDigest { bytes: [0; 32] };
        assert(digest@ =~= no_predecessor());
        digest
    }

    /// A digest is thirty-two bytes long.
    pub proof fn lemma_len(self)
        ensures
            self@.len() == 32,
    {
    }
}

/// The predecessor digest of the first entry: thirty-two zero bytes.
pub open spec fn no_predecessor() -> Seq<u8> {
    Seq::new(32, |i: int| 0u8)
}

/// Position of an entry in the log, counting from zero.
#[derive(Debug, Clone, Copy, PartialEq, Eq, PartialOrd, Ord, Hash, Structural)]
pub struct CommitSequence {
    value: u64,
}

impl View for CommitSequence {
    type V = u64;

    closed spec fn view(&self) -> u64 {
        self.value
    }
}

impl CommitSequence {
    pub fn new(value: u64) -> (made: Self)
        ensures
            made@ == value,
    {
        CommitSequence { value }
    }

    pub fn genesis() -> (made: Self)
        ensures
            made@ == 0,
    {
        CommitSequence { value: 0 }
    }

    pub fn value(self) -> (value: u64)
        ensures
            value == self@,
    {
        self.value
    }

    pub fn next(self) -> (made: Self)
        requires
            self@ < u64::MAX,
        ensures
            made@ == self@ + 1,
    {
        CommitSequence { value: self.value + 1 }
    }
}

/// A record's key within its family, as bytes.
#[derive(Debug, PartialEq, Eq, PartialOrd, Ord, Hash)]
pub struct RecordKey {
    bytes: Vec<u8>,
}

impl View for RecordKey {
    type V = Seq<u8>;

    closed spec fn view(&self) -> Seq<u8> {
        self.bytes@
    }
}

impl Clone for RecordKey {
    fn clone(&self) -> (copy: Self)
        ensures
            copy@ == self@,
    {
        RecordKey { bytes: self.bytes.duplicate() }
    }
}

impl RecordKey {
    pub fn new(bytes: Vec<u8>) -> (key: Self)
        ensures
            key@ == bytes@,
    {
        RecordKey { bytes }
    }

    pub fn empty() -> (key: Self)
        ensures
            key@ == Seq::<u8>::empty(),
    {
        RecordKey { bytes: Vec::new() }
    }

    pub fn as_bytes(&self) -> (bytes: &[u8])
        ensures
            bytes@ == self@,
    {
        self.bytes.as_slice()
    }
}

} // verus!
