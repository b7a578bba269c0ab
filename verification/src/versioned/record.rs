//! Where a record stands in the view, and what a component says of its
//! records.

use vstd::prelude::*;

use crate::order::{
    bytes_precede, lemma_bytes_irreflexive, lemma_bytes_total, lemma_bytes_transitive,
    relate_bytes, Relation,
};
use crate::ordered_table::TableKey;
use crate::versioned::error::{VersionedError, VersionedFailure};
use crate::versioned::identity::{RecordKey, SchemaHash};

verus! {

/// Where a record stands: its family and its key, as bytes.
pub type FoldCoordinate = (Seq<u8>, Seq<u8>);

/// The order of the view: by family, then by key.
pub open spec fn fold_precedes(a: FoldCoordinate, b: FoldCoordinate) -> bool {
    bytes_precede(a.0, b.0) || (a.0 == b.0 && bytes_precede(a.1, b.1))
}

/// Where a record stands in the view: family-qualified, so that two
/// families never collide on a key.
#[derive(Debug, PartialEq, Eq)]
pub struct FoldKey {
    family: SchemaHash,
    key: RecordKey,
}

impl View for FoldKey {
    type V = FoldCoordinate;

    closed spec fn view(&self) -> FoldCoordinate {
        (self.family@, self.key@)
    }
}

impl Clone for FoldKey {
    fn clone(&self) -> (copy: Self)
        ensures
            copy@ == self@,
    {
        FoldKey { family: self.family, key: self.key.clone() }
    }
}

impl FoldKey {
    pub fn new(family: SchemaHash, key: RecordKey) -> (made: Self)
        ensures
            made@ == (family@, key@),
    {
        FoldKey { family, key }
    }

    pub fn family(&self) -> (family: SchemaHash)
        ensures
            family@ == self@.0,
    {
        self.family
    }

    pub fn key(&self) -> (key: &RecordKey)
        ensures
            key@ == self@.1,
    {
        &self.key
    }
}

impl TableKey for FoldKey {
    open spec fn precedes(a: FoldCoordinate, b: FoldCoordinate) -> bool {
        fold_precedes(a, b)
    }

    proof fn lemma_irreflexive(a: FoldCoordinate) {
        lemma_bytes_irreflexive(a.0);
        lemma_bytes_irreflexive(a.1);
    }

    proof fn lemma_transitive(a: FoldCoordinate, b: FoldCoordinate, c: FoldCoordinate) {
        if bytes_precede(a.0, b.0) && bytes_precede(b.0, c.0) {
            lemma_bytes_transitive(a.0, b.0, c.0);
        } else if !bytes_precede(a.0, b.0) && !bytes_precede(b.0, c.0) {
            lemma_bytes_transitive(a.1, b.1, c.1);
        }
    }

    proof fn lemma_total(a: FoldCoordinate, b: FoldCoordinate) {
        lemma_bytes_total(a.0, b.0);
        lemma_bytes_total(a.1, b.1);
    }

    fn relate(&self, other: &Self) -> (relation: Relation) {
        proof {
            lemma_bytes_irreflexive(self@.0);
            if bytes_precede(self@.0, other@.0) && bytes_precede(other@.0, self@.0) {
                lemma_bytes_transitive(self@.0, other@.0, self@.0);
            }
        }
        let families = relate_bytes(self.family.as_bytes(), other.family.as_bytes());
        if families == Relation::Same {
            relate_bytes(self.key.as_bytes(), other.key.as_bytes())
        } else {
            families
        }
    }
}

/// A component's closed sum over its record families. Decoding picks the
/// family by schema hash and refuses a hash that no family has.
/// A verified implementor defines the spec functions; of one that does not
/// define them nothing is known.
pub trait ComponentRecord: Sized {
    /// What a payload decodes to under a schema hash.
    open spec fn decoded(schema_hash: Seq<u8>, payload: Seq<u8>) -> Result<Self, VersionedFailure> {
        arbitrary()
    }

    /// Where the record stands in the view.
    open spec fn coordinate(&self) -> FoldCoordinate {
        arbitrary()
    }

    /// The bytes that the record contributes to the view's digest.
    open spec fn contribution(&self) -> Seq<u8> {
        arbitrary()
    }

    /// The record's schema hash and payload.
    open spec fn reencoded(&self) -> Result<FoldCoordinate, VersionedFailure> {
        arbitrary()
    }

    fn decode(schema_hash: SchemaHash, payload: &[u8]) -> (outcome: Result<Self, VersionedError>)
        ensures
            match outcome {
                Ok(record) => Self::decoded(schema_hash@, payload@) == Ok::<
                    Self,
                    VersionedFailure,
                >(record),
                Err(error) => Self::decoded(schema_hash@, payload@) == Err::<
                    Self,
                    VersionedFailure,
                >(error@),
            },
    ;

    fn fold_key(&self) -> (key: FoldKey)
        ensures
            key@ == self.coordinate(),
    ;

    fn digest_contribution(&self) -> (bytes: Vec<u8>)
        ensures
            bytes@ == self.contribution(),
    ;

    fn reencode(&self) -> (outcome: Result<(SchemaHash, Vec<u8>), VersionedError>)
        ensures
            match outcome {
                Ok(pair) => self.reencoded() == Ok::<FoldCoordinate, VersionedFailure>(
                    (pair.0@, pair.1@),
                ),
                Err(error) => self.reencoded() == Err::<FoldCoordinate, VersionedFailure>(error@),
            },
    ;
}

} // verus!
