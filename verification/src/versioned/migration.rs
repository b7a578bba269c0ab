//! Migration as a log entry and a reducer that the component supplies.

use vstd::prelude::*;

use crate::versioned::error::{VersionedError, VersionedFailure};
use crate::versioned::family::family_hash;
use crate::versioned::identity::SchemaHash;

verus! {

/// The archive of a pair of hashes: the first, then the second.
pub open spec fn pair_archive(from: Seq<u8>, to: Seq<u8>) -> Seq<u8> {
    from + to
}

/// Calls `rkyv::to_bytes` on the pair. A tuple of byte arrays is archived
/// in place and without padding, and nothing that is written to memory is
/// refused, so the archive is the sixty-four bytes in order.
#[verifier::external_body]
fn archive_pair(from: &[u8; 32], to: &[u8; 32]) -> (outcome: Result<Vec<u8>, rkyv::rancor::BoxedError>)
    ensures
        outcome is Ok,
        outcome->Ok_0@ == pair_archive(from@, to@),
{
    rkyv::to_bytes::<rkyv::rancor::BoxedError>(&(*from, *to)).map(|bytes| bytes.to_vec())
}

/// The pair that an archive holds: its last sixty-four bytes, if it has
/// as many.
pub open spec fn archived_pair(bytes: Seq<u8>) -> Option<(Seq<u8>, Seq<u8>)> {
    let len = bytes.len() as int;
    if len < 64 {
        None
    } else {
        Some((bytes.subrange(len - 64, len - 32), bytes.subrange(len - 32, len)))
    }
}

/// Calls `rkyv::from_bytes` for a pair of byte arrays. The root of an
/// archive stands at its end, and any sixty-four bytes are a valid pair;
/// fewer bytes are refused.
#[verifier::external_body]
fn read_pair(bytes: &[u8]) -> (outcome: Result<([u8; 32], [u8; 32]), rkyv::rancor::BoxedError>)
    ensures
        match outcome {
            Ok(pair) => archived_pair(bytes@) == Some((pair.0@, pair.1@)),
            Err(_) => archived_pair(bytes@) is None,
        },
{
    rkyv::from_bytes::<([u8; 32], [u8; 32]), rkyv::rancor::BoxedError>(bytes)
}

/// The data of a transition entry: a family's old and new schema hash.
#[derive(Debug, Clone, Copy, PartialEq, Eq)]
pub struct SchemaTransition {
    from: SchemaHash,
    to: SchemaHash,
}

impl View for SchemaTransition {
    type V = (Seq<u8>, Seq<u8>);

    closed spec fn view(&self) -> (Seq<u8>, Seq<u8>) {
        (self.from@, self.to@)
    }
}

impl SchemaTransition {
    pub fn new(from: SchemaHash, to: SchemaHash) -> (transition: Self)
        ensures
            transition@ == (from@, to@),
    {
        SchemaTransition { from, to }
    }

    pub fn from(&self) -> (hash: SchemaHash)
        ensures
            hash@ == self@.0,
    {
        self.from
    }

    pub fn to(&self) -> (hash: SchemaHash)
        ensures
            hash@ == self@.1,
    {
        self.to
    }

    /// The selector that transition entries carry in place of a family's.
    pub fn marker_hash() -> (hash: SchemaHash)
        ensures
            hash@ == family_hash("__versioned.schema_transition"@),
    {
        SchemaHash::of_label("__versioned.schema_transition")
    }

    pub fn encode(&self) -> (outcome: Result<Vec<u8>, VersionedError>)
        ensures
            outcome matches Ok(bytes) && bytes@ == pair_archive(self@.0, self@.1),
    {
        match archive_pair(self.from.as_bytes(), self.to.as_bytes()) {
            Ok(bytes) => Ok(bytes),
            Err(error) => Err(VersionedError::Encode(error)),
        }
    }

    pub fn decode(bytes: &[u8]) -> (outcome: Result<Self, VersionedError>)
        ensures
            match outcome {
                Ok(transition) => archived_pair(bytes@) == Some(transition@),
                Err(error) => archived_pair(bytes@) is None && error@ == VersionedFailure::Decode,
            },
    {
        match read_pair(bytes) {
            Ok(pair) => Ok(
                SchemaTransition {
                    from: SchemaHash::from_bytes(pair.0),
                    to: SchemaHash::from_bytes(pair.1),
                },
            ),
            Err(error) => Err(VersionedError::Decode(error)),
        }
    }
}

/// What is archived of a transition is what is read back.
pub proof fn lemma_transition_round_trip(transition: SchemaTransition)
    ensures
        archived_pair(pair_archive(transition@.0, transition@.1)) == Some(transition@),
{
    transition.from.lemma_len();
    transition.to.lemma_len();
    let bytes = pair_archive(transition@.0, transition@.1);
    assert(bytes.subrange(0, 32) =~= transition@.0);
    assert(bytes.subrange(32, 64) =~= transition@.1);
}

/// A migration step that a component supplies: from payloads under one
/// schema hash to payloads under another.
/// A verified implementor defines the spec functions; of one that does not
/// define them nothing is known.
pub trait Reducer {
    open spec fn source(&self) -> Seq<u8> {
        arbitrary()
    }

    open spec fn target(&self) -> Seq<u8> {
        arbitrary()
    }

    open spec fn migrated(&self, payload: Seq<u8>) -> Result<Seq<u8>, VersionedFailure> {
        arbitrary()
    }

    fn from_schema(&self) -> (hash: SchemaHash)
        ensures
            hash@ == self.source(),
    ;

    fn to_schema(&self) -> (hash: SchemaHash)
        ensures
            hash@ == self.target(),
    ;

    fn migrate(&self, old_payload: &[u8]) -> (outcome: Result<Vec<u8>, VersionedError>)
        ensures
            match outcome {
                Ok(bytes) => self.migrated(old_payload@) == Ok::<Seq<u8>, VersionedFailure>(
                    bytes@,
                ),
                Err(error) => self.migrated(old_payload@) == Err::<Seq<u8>, VersionedFailure>(
                    error@,
                ),
            },
    ;
}

/// A reducer of one of two types, so that a set can hold steps of both.
pub enum EitherReducer<First, Second> {
    First(First),
    Second(Second),
}

impl<First: Reducer, Second: Reducer> Reducer for EitherReducer<First, Second> {
    open spec fn source(&self) -> Seq<u8> {
        match self {
            EitherReducer::First(step) => step.source(),
            EitherReducer::Second(step) => step.source(),
        }
    }

    open spec fn target(&self) -> Seq<u8> {
        match self {
            EitherReducer::First(step) => step.target(),
            EitherReducer::Second(step) => step.target(),
        }
    }

    open spec fn migrated(&self, payload: Seq<u8>) -> Result<Seq<u8>, VersionedFailure> {
        match self {
            EitherReducer::First(step) => step.migrated(payload),
            EitherReducer::Second(step) => step.migrated(payload),
        }
    }

    fn from_schema(&self) -> (hash: SchemaHash) {
        match self {
            EitherReducer::First(step) => step.from_schema(),
            EitherReducer::Second(step) => step.from_schema(),
        }
    }

    fn to_schema(&self) -> (hash: SchemaHash) {
        match self {
            EitherReducer::First(step) => step.to_schema(),
            EitherReducer::Second(step) => step.to_schema(),
        }
    }

    fn migrate(&self, old_payload: &[u8]) -> (outcome: Result<Vec<u8>, VersionedError>) {
        match self {
            EitherReducer::First(step) => step.migrate(old_payload),
            EitherReducer::Second(step) => step.migrate(old_payload),
        }
    }
}

/// The first reducer of a set for a transition.
pub open spec fn found_reducer<Step: Reducer>(
    reducers: Seq<Step>,
    from: Seq<u8>,
    to: Seq<u8>,
) -> Option<Step>
    decreases reducers.len(),
{
    if reducers.len() == 0 {
        None
    } else if reducers[0].source() == from && reducers[0].target() == to {
        Some(reducers[0])
    } else {
        found_reducer(reducers.drop_first(), from, to)
    }
}

/// The reducers of a component. Steps of several types are held as one
/// through `EitherReducer`.
pub struct ReducerSet<Step: Reducer> {
    reducers: Vec<Step>,
}

impl<Step: Reducer> View for ReducerSet<Step> {
    type V = Seq<Step>;

    closed spec fn view(&self) -> Seq<Step> {
        self.reducers@
    }
}

impl<Step: Reducer> Default for ReducerSet<Step> {
    fn default() -> (set: Self)
        ensures
            set@ == Seq::<Step>::empty(),
    {
        ReducerSet::new()
    }
}

impl<Step: Reducer> ReducerSet<Step> {
    pub fn new() -> (set: Self)
        ensures
            set@ == Seq::<Step>::empty(),
    {
        ReducerSet { reducers: Vec::new() }
    }

    pub fn with(self, reducer: Step) -> (set: Self)
        ensures
            set@ == self@.push(reducer),
    {
        let mut reducers: Vec<Step> = self.reducers;
        reducers.push(reducer);
        ReducerSet { reducers }
    }

    pub fn find(&self, from: SchemaHash, to: SchemaHash) -> (reducer: Option<&Step>)
        ensures
            match reducer {
                Some(found) => found_reducer(self@, from@, to@) == Some(*found),
                None => found_reducer(self@, from@, to@) is None,
            },
    {
        let mut at: usize = 0;
        let ghost all = self@;
        assert(all.skip(0) =~= all);
        while at < self.reducers.len()
            invariant
                at <= self.reducers.len(),
                all == self@,
                found_reducer(all, from@, to@) == found_reducer(all.skip(at as int), from@, to@),
            decreases self.reducers.len() - at,
        {
            let reducer = &self.reducers[at];
            assert(all.skip(at as int)[0] == *reducer);
            assert(all.skip(at as int).drop_first() =~= all.skip(at + 1));
            if reducer.from_schema() == from && reducer.to_schema() == to {
                return Some(reducer);
            }
            at = at + 1;
        }
        None
    }
}

} // verus!
