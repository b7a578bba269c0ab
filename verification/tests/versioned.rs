//! The small log: families, reducers, backends and the rebuild.

use rkyv::rancor::BoxedError;
use sema_engine::versioned::envelope::{OperationKind, ReplayEnvelope};
use sema_engine::versioned::error::VersionedError;
use sema_engine::versioned::family::{RecordFamily, Sealed};
use sema_engine::versioned::frames::{frame_of, next_frame, split_frames};
use sema_engine::versioned::identity::{CommitSequence, EntryDigest, RecordKey, SchemaHash};
use sema_engine::versioned::log::{
    entries_at_or_past, last_head, CommitVerbs, LogHead, SameFileLog, VersionedLog,
};
use sema_engine::versioned::migration::{EitherReducer, Reducer, ReducerSet, SchemaTransition};
use sema_engine::versioned::record::{ComponentRecord, FoldKey};
use sema_engine::versioned::view::MaterializedView;

#[derive(Clone, Debug, PartialEq)]
struct EntryV1 {
    id: u64,
    name: String,
}

#[derive(Clone, Debug, PartialEq)]
struct EntryV2 {
    id: u64,
    name: String,
    score: u32,
}

#[derive(Clone, Debug, PartialEq)]
struct Referent {
    entry_id: u64,
    label: String,
}

impl Sealed for EntryV1 {}
impl Sealed for EntryV2 {}
impl Sealed for Referent {}

impl RecordFamily for EntryV1 {
    type Value = EntryV1;

    fn schema_label() -> &'static str {
        "demo.entry.v1"
    }

    fn record_key(value: &EntryV1) -> RecordKey {
        RecordKey::new(value.id.to_le_bytes().to_vec())
    }

    fn encode(value: &EntryV1) -> Result<Vec<u8>, VersionedError> {
        rkyv::to_bytes::<BoxedError>(&(value.id, value.name.clone()))
            .map(|bytes| bytes.to_vec())
            .map_err(VersionedError::Encode)
    }

    fn decode(bytes: &[u8]) -> Result<EntryV1, VersionedError> {
        let (id, name) =
            rkyv::from_bytes::<(u64, String), BoxedError>(bytes).map_err(VersionedError::Decode)?;
        Ok(EntryV1 { id, name })
    }
}

impl RecordFamily for EntryV2 {
    type Value = EntryV2;

    fn schema_label() -> &'static str {
        "demo.entry.v2"
    }

    fn record_key(value: &EntryV2) -> RecordKey {
        RecordKey::new(value.id.to_le_bytes().to_vec())
    }

    fn encode(value: &EntryV2) -> Result<Vec<u8>, VersionedError> {
        rkyv::to_bytes::<BoxedError>(&(value.id, value.name.clone(), value.score))
            .map(|bytes| bytes.to_vec())
            .map_err(VersionedError::Encode)
    }

    fn decode(bytes: &[u8]) -> Result<EntryV2, VersionedError> {
        let (id, name, score) = rkyv::from_bytes::<(u64, String, u32), BoxedError>(bytes)
            .map_err(VersionedError::Decode)?;
        Ok(EntryV2 { id, name, score })
    }
}

impl RecordFamily for Referent {
    type Value = Referent;

    fn schema_label() -> &'static str {
        "demo.referent.v1"
    }

    fn record_key(value: &Referent) -> RecordKey {
        RecordKey::new(value.entry_id.to_le_bytes().to_vec())
    }

    fn encode(value: &Referent) -> Result<Vec<u8>, VersionedError> {
        rkyv::to_bytes::<BoxedError>(&(value.entry_id, value.label.clone()))
            .map(|bytes| bytes.to_vec())
            .map_err(VersionedError::Encode)
    }

    fn decode(bytes: &[u8]) -> Result<Referent, VersionedError> {
        let (entry_id, label) =
            rkyv::from_bytes::<(u64, String), BoxedError>(bytes).map_err(VersionedError::Decode)?;
        Ok(Referent { entry_id, label })
    }
}

/// The closed sum of the component's records.
#[derive(Clone, Debug, PartialEq)]
enum DemoRecord {
    EntryV1(EntryV1),
    EntryV2(EntryV2),
    Referent(Referent),
}

impl ComponentRecord for DemoRecord {
    fn decode(schema_hash: SchemaHash, payload: &[u8]) -> Result<Self, VersionedError> {
        if schema_hash == EntryV1::schema_hash() {
            Ok(DemoRecord::EntryV1(EntryV1::decode(payload)?))
        } else if schema_hash == EntryV2::schema_hash() {
            Ok(DemoRecord::EntryV2(EntryV2::decode(payload)?))
        } else if schema_hash == Referent::schema_hash() {
            Ok(DemoRecord::Referent(Referent::decode(payload)?))
        } else {
            Err(VersionedError::UnknownSchemaHash(schema_hash))
        }
    }

    fn fold_key(&self) -> FoldKey {
        match self {
            DemoRecord::EntryV1(value) => {
                FoldKey::new(EntryV1::schema_hash(), EntryV1::record_key(value))
            }
            DemoRecord::EntryV2(value) => {
                FoldKey::new(EntryV2::schema_hash(), EntryV2::record_key(value))
            }
            DemoRecord::Referent(value) => {
                FoldKey::new(Referent::schema_hash(), Referent::record_key(value))
            }
        }
    }

    fn digest_contribution(&self) -> Vec<u8> {
        self.reencode()
            .map(|(_hash, bytes)| bytes)
            .expect("demo families always re-encode")
    }

    fn reencode(&self) -> Result<(SchemaHash, Vec<u8>), VersionedError> {
        match self {
            DemoRecord::EntryV1(value) => Ok((EntryV1::schema_hash(), EntryV1::encode(value)?)),
            DemoRecord::EntryV2(value) => Ok((EntryV2::schema_hash(), EntryV2::encode(value)?)),
            DemoRecord::Referent(value) => Ok((Referent::schema_hash(), Referent::encode(value)?)),
        }
    }
}

/// The step from the first entry schema to the second: a score of zero.
struct EntryV1ToV2;

impl Reducer for EntryV1ToV2 {
    fn from_schema(&self) -> SchemaHash {
        EntryV1::schema_hash()
    }

    fn to_schema(&self) -> SchemaHash {
        EntryV2::schema_hash()
    }

    fn migrate(&self, old_payload: &[u8]) -> Result<Vec<u8>, VersionedError> {
        let old = EntryV1::decode(old_payload)?;
        EntryV2::encode(&EntryV2 { id: old.id, name: old.name, score: 0 })
    }
}

type EnvelopeRow = (u64, u8, [u8; 32], Vec<u8>, Vec<u8>, [u8; 32], [u8; 32]);

fn envelope_row(entry: &ReplayEnvelope) -> EnvelopeRow {
    (
        entry.sequence().value(),
        entry.operation().tag(),
        *entry.schema_hash().as_bytes(),
        entry.key().as_bytes().to_vec(),
        entry.payload().to_vec(),
        *entry.previous_digest().as_bytes(),
        *entry.entry_digest().as_bytes(),
    )
}

fn envelope_from(row: EnvelopeRow) -> ReplayEnvelope {
    let operation = match row.1 {
        0 => OperationKind::Assert,
        1 => OperationKind::Retract,
        _ => OperationKind::SchemaTransition,
    };
    ReplayEnvelope::new(
        CommitSequence::new(row.0),
        operation,
        SchemaHash::from_bytes(row.2),
        RecordKey::new(row.3),
        row.4,
        EntryDigest::from_bytes(row.5),
    )
    .stored(EntryDigest::from_bytes(row.6))
}

/// A log of length-prefixed frames in one run of bytes.
struct FrameLog {
    bytes: Vec<u8>,
}

impl FrameLog {
    fn new() -> Self {
        FrameLog { bytes: Vec::new() }
    }
}

impl VersionedLog for FrameLog {
    fn append(&mut self, envelope: &ReplayEnvelope) -> Result<(), VersionedError> {
        let body = rkyv::to_bytes::<BoxedError>(&envelope_row(envelope))
            .map_err(VersionedError::Encode)?;
        self.bytes.extend(frame_of(&body));
        Ok(())
    }

    fn entries_from(&self, start: CommitSequence) -> Result<Vec<ReplayEnvelope>, VersionedError> {
        let mut entries = Vec::new();
        for body in split_frames(&self.bytes)? {
            let row = rkyv::from_bytes::<EnvelopeRow, BoxedError>(&body)
                .map_err(VersionedError::Decode)?;
            let entry = envelope_from(row);
            if entry.sequence().value() >= start.value() {
                entries.push(entry);
            }
        }
        Ok(entries)
    }

    fn head(&self) -> Result<Option<LogHead>, VersionedError> {
        let entries = self.entries_from(CommitSequence::genesis())?;
        Ok(entries
            .last()
            .map(|entry| LogHead::new(entry.sequence(), entry.entry_digest())))
    }
}

fn no_reducers() -> ReducerSet<EntryV1ToV2> {
    ReducerSet::new()
}

fn rebuild<Log: VersionedLog>(
    log: &Log,
    reducers: &ReducerSet<EntryV1ToV2>,
) -> Result<MaterializedView<DemoRecord>, VersionedError> {
    log.rebuild::<DemoRecord, EntryV1ToV2>(reducers)
}

/// Two entries and a referent.
fn populate<Log: VersionedLog>(log: &mut Log) {
    log.commit_assert::<EntryV1>(&EntryV1 { id: 1, name: "alpha".to_string() })
        .expect("alpha commits");
    log.commit_assert::<EntryV1>(&EntryV1 { id: 2, name: "beta".to_string() })
        .expect("beta commits");
    log.commit_assert::<Referent>(&Referent { entry_id: 1, label: "link".to_string() })
        .expect("link commits");
}

#[test]
fn same_file_and_frame_file_rebuild_to_identical_digest() {
    let mut same = SameFileLog::new();
    let mut frame = FrameLog::new();
    populate(&mut same);
    populate(&mut frame);

    let reducers = no_reducers();
    let same_view = rebuild(&same, &reducers).expect("rebuilds");
    let frame_view = rebuild(&frame, &reducers).expect("rebuilds");

    assert_eq!(same_view.record_count(), 3);
    assert_eq!(frame_view.record_count(), 3);
    // Where the entries rest makes no difference after a rebuild.
    assert_eq!(same_view.state_digest(), frame_view.state_digest());
    let same_head = same.head().expect("head reads");
    let frame_head = frame.head().expect("head reads");
    assert_eq!(same_head.map(|head| head.sequence().value()), Some(2));
    assert_eq!(frame_head.map(|head| head.sequence().value()), Some(2));
}

fn assert_retract<Log: VersionedLog>(mut log: Log) {
    populate(&mut log);
    log.commit_retract::<EntryV1>(RecordKey::new(1u64.to_le_bytes().to_vec()))
        .expect("retract commits");
    let view = rebuild(&log, &no_reducers()).expect("rebuilds");
    assert_eq!(view.record_count(), 2);
}

#[test]
fn retract_removes_record_in_both_backends() {
    assert_retract(SameFileLog::new());
    assert_retract(FrameLog::new());
}

#[test]
fn schema_transition_migrates_via_reducer() {
    let mut log = SameFileLog::new();
    populate(&mut log);
    log.commit_transition(&SchemaTransition::new(
        EntryV1::schema_hash(),
        EntryV2::schema_hash(),
    ))
    .expect("transition commits");

    // Without the reducer, the transition is refused.
    let missing = rebuild(&log, &no_reducers());
    assert!(matches!(missing, Err(VersionedError::MissingReducer { .. })));

    // With it, the two entries take the second schema and the referent
    // stays as it is.
    let reducers = ReducerSet::new().with(EntryV1ToV2);
    let migrated = rebuild(&log, &reducers).expect("rebuilds");
    assert_eq!(migrated.record_count(), 3);

    // A log written in the second schema from the start folds to the same
    // state.
    let mut oracle = SameFileLog::new();
    oracle
        .commit_assert::<EntryV2>(&EntryV2 { id: 1, name: "alpha".to_string(), score: 0 })
        .expect("alpha commits");
    oracle
        .commit_assert::<EntryV2>(&EntryV2 { id: 2, name: "beta".to_string(), score: 0 })
        .expect("beta commits");
    oracle
        .commit_assert::<Referent>(&Referent { entry_id: 1, label: "link".to_string() })
        .expect("link commits");
    let oracle_view = rebuild(&oracle, &no_reducers()).expect("rebuilds");
    assert_eq!(migrated.state_digest(), oracle_view.state_digest());
}

#[test]
fn frame_log_ships_as_byte_suffix() {
    let mut source = FrameLog::new();
    populate(&mut source);

    // A copy of the bytes is a copy of the log.
    let peer = FrameLog { bytes: source.bytes.clone() };

    let reducers = no_reducers();
    assert_eq!(
        rebuild(&source, &reducers).expect("rebuilds").state_digest(),
        rebuild(&peer, &reducers).expect("rebuilds").state_digest()
    );
}

#[test]
fn unknown_schema_hash_is_rejected_not_fallen_back() {
    let bogus = SchemaHash::of_label("not.a.real.family");
    let result = DemoRecord::decode(bogus, &[]);
    assert!(matches!(result, Err(VersionedError::UnknownSchemaHash(_))));
}

#[test]
fn tampered_chain_is_detected_on_rebuild() {
    let mut log = FrameLog::new();
    populate(&mut log);

    let midpoint = log.bytes.len() / 2;
    log.bytes[midpoint] ^= 0xFF;

    let result = rebuild(&log, &no_reducers());
    assert!(result.is_err());
}

#[test]
fn a_rewritten_payload_is_a_corrupt_entry() {
    let genuine = ReplayEnvelope::new(
        CommitSequence::new(0),
        OperationKind::Assert,
        EntryV1::schema_hash(),
        RecordKey::new(vec![1]),
        vec![1, 2, 3],
        EntryDigest::zero(),
    );
    assert!(genuine.verify(None).is_ok());

    let rewritten = ReplayEnvelope::new(
        CommitSequence::new(0),
        OperationKind::Assert,
        EntryV1::schema_hash(),
        RecordKey::new(vec![1]),
        vec![1, 2, 4],
        EntryDigest::zero(),
    );
    assert_ne!(rewritten.entry_digest(), genuine.entry_digest());
    let stored = rewritten.stored(genuine.entry_digest());
    assert!(matches!(stored.verify(None), Err(VersionedError::CorruptEntry { .. })));
}

#[test]
fn an_entry_off_the_chain_is_a_broken_chain() {
    let first = ReplayEnvelope::new(
        CommitSequence::new(0),
        OperationKind::Retract,
        EntryV1::schema_hash(),
        RecordKey::new(vec![1]),
        Vec::new(),
        EntryDigest::zero(),
    );
    assert!(matches!(
        first.verify(Some(EntryDigest::from_bytes([7; 32]))),
        Err(VersionedError::BrokenChain { .. })
    ));
}

#[test]
fn a_cut_frame_is_truncated() {
    let whole = frame_of(&[1, 2, 3]);
    assert_eq!(whole, vec![0, 0, 0, 3, 1, 2, 3]);
    assert_eq!(split_frames(&whole).expect("splits"), vec![vec![1, 2, 3]]);
    assert!(matches!(
        split_frames(&whole[..6]),
        Err(VersionedError::TruncatedFrame { .. })
    ));
    assert!(matches!(next_frame(&whole, whole.len()), Ok(None)));
}

#[test]
fn a_transition_reads_back_what_it_encodes() {
    let transition = SchemaTransition::new(EntryV1::schema_hash(), EntryV2::schema_hash());
    let bytes = transition.encode().expect("encodes");
    assert_eq!(bytes.len(), 64);
    let read = SchemaTransition::decode(&bytes).expect("decodes");
    assert_eq!(read.from(), EntryV1::schema_hash());
    assert_eq!(read.to(), EntryV2::schema_hash());
    assert!(matches!(
        SchemaTransition::decode(&bytes[..40]),
        Err(VersionedError::Decode(_))
    ));
}

#[test]
fn a_log_in_two_parts_folds_like_the_whole() {
    let mut log = SameFileLog::new();
    populate(&mut log);
    let whole = rebuild(&log, &no_reducers()).expect("rebuilds");

    let entries = log.entries_from(CommitSequence::genesis()).expect("entries read");
    let reducers = no_reducers();
    let mut view =
        MaterializedView::<DemoRecord>::from_entries(&entries[..1], &reducers).expect("folds");
    assert_eq!(view.record_count(), 1);
    view.apply(&entries[1], &reducers).expect("applies");
    view.apply(&entries[2], &reducers).expect("applies");
    assert_eq!(view.state_digest(), whole.state_digest());
    assert_eq!(view.applied_through().map(|sequence| sequence.value()), Some(2));
}

#[test]
fn each_commit_links_to_the_one_before() {
    let mut log = SameFileLog::new();
    assert!(log.head().expect("head reads").is_none());
    populate(&mut log);
    let entries = log.entries_from(CommitSequence::genesis()).expect("entries read");
    assert_eq!(entries[0].previous_digest(), EntryDigest::zero());
    assert_eq!(entries[1].previous_digest(), entries[0].entry_digest());
    assert_eq!(entries[2].previous_digest(), entries[1].entry_digest());
    let tail = log.entries_from(CommitSequence::new(2)).expect("entries read");
    assert_eq!(tail.len(), 1);
    assert_eq!(tail[0].entry_digest(), entries[2].entry_digest());
}

/// Keeps the payload of a referent whose shape only changed its name.
struct Renamed;

impl Reducer for Renamed {
    fn from_schema(&self) -> SchemaHash {
        SchemaHash::from_bytes([9u8; 32])
    }

    fn to_schema(&self) -> SchemaHash {
        Referent::schema_hash()
    }

    fn migrate(&self, old_payload: &[u8]) -> Result<Vec<u8>, VersionedError> {
        Ok(old_payload.to_vec())
    }
}

#[test]
fn a_set_holds_reducers_of_two_types() {
    let reducers = ReducerSet::new()
        .with(EitherReducer::First(EntryV1ToV2))
        .with(EitherReducer::Second(Renamed));
    let renamed = reducers
        .find(Renamed.from_schema(), Renamed.to_schema())
        .expect("the second step is found");
    assert_eq!(renamed.migrate(b"label").expect("migrates"), b"label".to_vec());
    let widened = reducers
        .find(EntryV1ToV2.from_schema(), EntryV1ToV2.to_schema())
        .expect("the first step is found");
    let old = EntryV1 { id: 7, name: "seven".to_owned() };
    let payload = EntryV1::encode(&old).expect("encodes");
    let direct = EntryV1ToV2.migrate(&payload).expect("migrates");
    assert_eq!(widened.migrate(&payload).expect("migrates"), direct);
    assert_ne!(direct, payload);
    assert!(reducers.find(Renamed.to_schema(), Renamed.from_schema()).is_none());
}

#[test]
fn entries_are_chosen_by_position_and_the_last_is_the_head() {
    let mut log = SameFileLog::new();
    for id in 1..=3u64 {
        log.commit_assert::<Referent>(&Referent { entry_id: id, label: format!("label {id}") })
            .expect("commits");
    }
    let all = log.entries_from(CommitSequence::genesis()).expect("reads");
    let since = entries_at_or_past(&all, CommitSequence::new(1));
    assert_eq!(since.len(), 2);
    assert_eq!(since[0].sequence().value(), 1);
    let head = last_head(&all).expect("a head stands");
    assert_eq!(head.sequence().value(), 2);
    assert_eq!(head.digest().as_bytes(), all[2].entry_digest().as_bytes());
    assert!(last_head(&[]).is_none());
}
