//! A checkpoint folds the versioned log into sorted, content-addressed
//! segments and metadata; it chains from its predecessor; it logs no entry
//! of its own; and it refuses a store whose history predates versioning.

use std::cell::RefCell;

use sema_engine::{
    Assertion, Checkpoint, CheckpointDigest, CheckpointMetadata, CheckpointSegment,
    CheckpointSequence, CommitSequence, CommitSequenceRange, EncodedRecord, Engine, EngineOpen,
    EntryDigest, Error, FamilyIdentity, FamilyInventory, FamilyName, IdentifiedCounter, Mutation,
    PortableCheckpoint, RecordIdentifier, RecordKey, Retraction, SchemaHash, SegmentDigest,
    SegmentReference, SnapshotIdentifier, Store, StoreSchemaHash, TableDescriptor, TableName,
    VersionedPayload, VersionedStoreName, VersioningPolicy, ViewDigest, ViewRow,
};

/// A record with a textual key and body, archived as a pair.
struct Thought;

impl Thought {
    fn new(key: &str, body: &str) -> EncodedRecord {
        let archived = (key.to_string(), body.to_string());
        let bytes = rkyv::to_bytes::<rkyv::rancor::Error>(&archived)
            .expect("record archives")
            .to_vec();
        EncodedRecord::new(RecordKey::domain(key), bytes)
    }
}

/// Stores by name, each resting while no engine holds it.
struct Fixture {
    shelf: RefCell<Vec<(String, Store)>>,
}

impl Fixture {
    fn new() -> Self {
        Fixture { shelf: RefCell::new(Vec::new()) }
    }

    fn take(&self, name: &str) -> Store {
        let mut shelf = self.shelf.borrow_mut();
        match shelf.iter().position(|(held, _)| held == name) {
            Some(at) => shelf.remove(at).1,
            None => Store::new(),
        }
    }

    fn put(&self, name: &str, store: Store) {
        self.shelf.borrow_mut().push((name.to_string(), store));
    }

    fn close(&self, name: &str, engine: Engine) {
        self.put(name, engine.into_store());
    }

    fn open_plain(&self, name: &str) -> Engine {
        Engine::open(EngineOpen::new(self.take(name))).expect("engine opens")
    }

    fn open_store(&self, name: &str, store_name: &str) -> Engine {
        Engine::open(
            EngineOpen::new(self.take(name))
                .with_versioning(VersioningPolicy::new(VersionedStoreName::new(store_name))),
        )
        .expect("versioned engine opens")
    }

    fn open_versioned(&self, name: &str) -> Engine {
        self.open_store(name, name)
    }

    fn descriptor(&self) -> TableDescriptor<EncodedRecord> {
        TableDescriptor::new(
            TableName::new("thoughts"),
            FamilyName::new("thought"),
            SchemaHash::for_label("thought-v1"),
        )
    }
}

type FamilyRow = (String, [u8; 32], String);
type KeyRow = (u8, String, u64);
type RowRow = (FamilyRow, KeyRow, Option<Vec<u8>>);
type NameRow = (u64, String, [u8; 32], Vec<FamilyRow>, Vec<(String, u64)>);
type CoverRow = (u64, u64, u64, [u8; 32], [u8; 32]);
type LinkRow = (Option<[u8; 32]>, Vec<([u8; 32], u64)>, [u8; 32]);
type PortableRow = (NameRow, CoverRow, LinkRow, Vec<Vec<RowRow>>);

fn family_row(family: &FamilyIdentity) -> FamilyRow {
    (
        family.family().as_str().to_string(),
        *family.schema_hash().bytes(),
        family.table_name().to_string(),
    )
}

fn family_from(row: FamilyRow) -> FamilyIdentity {
    FamilyIdentity::stored(FamilyName::new(&row.0), SchemaHash::new(row.1), row.2)
}

fn key_row(key: &RecordKey) -> KeyRow {
    match key.identifier_value() {
        Some(identifier) => (1, String::new(), identifier.value()),
        None => (0, key.to_owned_string(), 0),
    }
}

fn key_from(row: KeyRow) -> RecordKey {
    if row.0 == 1 {
        RecordKey::identifier(RecordIdentifier::new(row.2))
    } else {
        RecordKey::domain(&row.1)
    }
}

/// A checkpoint as one archive.
fn portable(checkpoint: &Checkpoint) -> PortableCheckpoint {
    let metadata = checkpoint.metadata();
    let inventory = metadata.family_inventory();
    let names: NameRow = (
        metadata.sequence().value(),
        metadata.store_name().as_str().to_string(),
        *metadata.store_schema_hash().bytes(),
        inventory.families().iter().map(family_row).collect(),
        inventory
            .identified_counters()
            .iter()
            .map(|counter| (counter.table_name().to_string(), counter.next_identifier()))
            .collect(),
    );
    let cover: CoverRow = (
        metadata.covered().first().value(),
        metadata.covered().last().value(),
        metadata.covered_snapshot().value(),
        *metadata.covered_entry_digest().bytes(),
        *metadata.view_digest().bytes(),
    );
    let links: LinkRow = (
        metadata.previous_checkpoint_digest().map(|digest| *digest.bytes()),
        metadata
            .segments()
            .iter()
            .map(|reference| (*reference.digest().bytes(), reference.row_count()))
            .collect(),
        *metadata.checkpoint_digest().bytes(),
    );
    let segments: Vec<Vec<RowRow>> = checkpoint
        .segments()
        .iter()
        .map(|segment| {
            segment
                .rows()
                .iter()
                .map(|row| {
                    (
                        family_row(row.family()),
                        key_row(row.key()),
                        row.payload().bytes().map(|bytes| bytes.to_vec()),
                    )
                })
                .collect()
        })
        .collect();
    let archived: PortableRow = (names, cover, links, segments);
    let bytes = rkyv::to_bytes::<rkyv::rancor::Error>(&archived).expect("checkpoint archives");
    PortableCheckpoint::from_bytes(bytes.to_vec())
}

/// Read a portable checkpoint back and accept it only if it verifies.
fn decode(portable: &PortableCheckpoint) -> Result<Checkpoint, Error> {
    let read = rkyv::from_bytes::<PortableRow, rkyv::rancor::Error>(portable.as_bytes());
    portable.accept(read.map_err(|error| error.to_string()).map(|(names, cover, links, rows)| {
        let metadata = CheckpointMetadata::new(
            CheckpointSequence::new(names.0),
            VersionedStoreName::new(&names.1),
            StoreSchemaHash::stored(names.2),
            FamilyInventory::new(
                names.3.into_iter().map(family_from).collect(),
                names
                    .4
                    .iter()
                    .map(|(table, next)| IdentifiedCounter::new(table, *next))
                    .collect(),
            ),
            CommitSequenceRange::new(CommitSequence::new(cover.0), CommitSequence::new(cover.1)),
            SnapshotIdentifier::new(cover.2),
            EntryDigest::new(cover.3),
            ViewDigest::new(cover.4),
            links.0.map(CheckpointDigest::new),
            links
                .1
                .into_iter()
                .map(|(digest, count)| SegmentReference::new(SegmentDigest::new(digest), count))
                .collect(),
        )
        .named(CheckpointDigest::new(links.2));
        let segments = rows
            .into_iter()
            .map(|rows| {
                CheckpointSegment::new(
                    rows.into_iter()
                        .map(|(family, key, payload)| {
                            ViewRow::new(
                                family_from(family),
                                key_from(key),
                                match payload {
                                    Some(bytes) => VersionedPayload::record(bytes),
                                    None => VersionedPayload::tombstone(),
                                },
                            )
                        })
                        .collect(),
                )
            })
            .collect();
        Checkpoint::new(metadata, segments)
    }))
}

#[test]
fn checkpoint_persists_metadata_and_segments_durably() {
    let fixture = Fixture::new();
    let receipt = {
        let mut engine = fixture.open_versioned("durable-checkpoint");
        let thoughts = engine
            .register_table(fixture.descriptor())
            .expect("table registers");
        engine
            .assert_record(Assertion::new(thoughts, Thought::new("alpha", "first")))
            .expect("assert alpha");
        engine
            .assert_record(Assertion::new(thoughts, Thought::new("beta", "second")))
            .expect("assert beta");
        engine
            .mutate(Mutation::new(thoughts, Thought::new("alpha", "revised")))
            .expect("mutate alpha");
        let receipt = engine.checkpoint().expect("checkpoint writes");
        fixture.close("durable-checkpoint", engine);
        receipt
    };

    let reopened = fixture.open_versioned("durable-checkpoint");
    let checkpoint = reopened
        .latest_checkpoint()
        .expect("checkpoint loads")
        .expect("checkpoint exists");
    let metadata = checkpoint.metadata();

    assert_eq!(metadata.sequence(), receipt.sequence());
    assert_eq!(metadata.view_digest(), receipt.view_digest());
    assert_eq!(metadata.checkpoint_digest(), receipt.checkpoint_digest());
    assert_eq!(metadata.previous_checkpoint_digest(), None);
    assert_eq!(metadata.covered().first(), CommitSequence::new(1));
    assert_eq!(metadata.covered().last(), CommitSequence::new(3));
    assert_eq!(metadata.store_name().as_str(), "durable-checkpoint");
    assert_eq!(metadata.store_schema_hash(), reopened.store_schema_hash());
    assert_eq!(metadata.family_inventory().families().len(), 1);
    // Two kept rows: alpha (revised) and beta. The fold compacted the
    // mutate into alpha's final payload.
    assert_eq!(receipt.row_count(), 2);
    assert_eq!(checkpoint.rows().len(), 2);
    // The covered head names the last folded entry for chain
    // continuation.
    let log = reopened.versioned_commit_log();
    assert_eq!(metadata.covered_entry_digest(), log[2].entry_digest());
    // Checkpoint::verify ran inside latest_checkpoint; run it again
    // explicitly as the witness.
    checkpoint.verify().expect("checkpoint verifies");
}

#[test]
fn checkpoint_is_a_derived_artifact_and_logs_no_versioned_entry() {
    let fixture = Fixture::new();
    let mut engine = fixture.open_versioned("derived-artifact");
    let thoughts = engine
        .register_table(fixture.descriptor())
        .expect("table registers");
    engine
        .assert_record(Assertion::new(thoughts, Thought::new("alpha", "first")))
        .expect("assert alpha");

    let sequence_before = engine.current_commit_sequence();
    let log_before = engine.versioned_commit_log().len();
    engine.checkpoint().expect("checkpoint writes");

    assert_eq!(
        engine.current_commit_sequence(),
        sequence_before
    );
    assert_eq!(
        engine.versioned_commit_log().len(),
        log_before
    );
    assert_eq!(
        engine.commit_log().len(),
        log_before
    );
}

#[test]
fn portable_checkpoint_bytes_round_trip_and_verify() {
    let fixture = Fixture::new();
    let mut engine = fixture.open_versioned("portable-checkpoint");
    let thoughts = engine
        .register_table(fixture.descriptor())
        .expect("table registers");
    engine
        .assert_record(Assertion::new(thoughts, Thought::new("alpha", "first")))
        .expect("assert alpha");
    engine
        .assert_record(Assertion::new(thoughts, Thought::new("beta", "second")))
        .expect("assert beta");
    engine.checkpoint().expect("checkpoint writes");

    let checkpoint = engine
        .latest_checkpoint()
        .expect("checkpoint loads")
        .expect("checkpoint exists");
    let portable = portable(&checkpoint);

    assert!(!portable.as_bytes().is_empty());

    let decoded = decode(&portable).expect("portable checkpoint decodes");
    assert_eq!(decoded.metadata(), checkpoint.metadata());
    assert_eq!(decoded.segments(), checkpoint.segments());
    assert_eq!(decoded.rows(), checkpoint.rows());
}

#[test]
fn portable_checkpoint_rejects_doctored_bytes() {
    let fixture = Fixture::new();
    let mut engine = fixture.open_versioned("portable-checkpoint-tamper");
    let thoughts = engine
        .register_table(fixture.descriptor())
        .expect("table registers");
    engine
        .assert_record(Assertion::new(thoughts, Thought::new("alpha", "first")))
        .expect("assert alpha");
    engine.checkpoint().expect("checkpoint writes");

    let checkpoint = engine
        .latest_checkpoint()
        .expect("checkpoint loads")
        .expect("checkpoint exists");
    let mut bytes = portable(&checkpoint).into_bytes();
    let midpoint = bytes.len() / 2;
    bytes[midpoint] ^= 0xff;

    let error = decode(&PortableCheckpoint::from_bytes(bytes))
        .expect_err("doctored checkpoint is rejected");
    assert!(matches!(
        error,
        Error::CheckpointDecode { .. }
            | Error::CheckpointDigestMismatch { .. }
            | Error::SegmentDigestMismatch { .. }
            | Error::ViewDigestMismatch { .. }
    ));
}

#[test]
fn second_checkpoint_chains_from_the_first_and_extends_coverage() {
    let fixture = Fixture::new();
    let mut engine = fixture.open_versioned("chained-checkpoints");
    let thoughts = engine
        .register_table(fixture.descriptor())
        .expect("table registers");
    engine
        .assert_record(Assertion::new(thoughts, Thought::new("alpha", "first")))
        .expect("assert alpha");
    let first = engine.checkpoint().expect("first checkpoint writes");

    engine
        .assert_record(Assertion::new(thoughts, Thought::new("beta", "second")))
        .expect("assert beta");
    engine
        .retract(Retraction::new(thoughts, RecordKey::new("alpha")))
        .expect("retract alpha");
    let second = engine.checkpoint().expect("second checkpoint writes");

    let checkpoint = engine
        .latest_checkpoint()
        .expect("checkpoint loads")
        .expect("checkpoint exists");
    let metadata = checkpoint.metadata();

    assert_eq!(metadata.sequence(), first.sequence().next());
    assert_eq!(
        metadata.previous_checkpoint_digest(),
        Some(first.checkpoint_digest())
    );
    assert_eq!(metadata.covered().first(), CommitSequence::new(1));
    assert_eq!(metadata.covered().last(), CommitSequence::new(3));
    // alpha was retracted after the first checkpoint: the second
    // checkpoint's view keeps only beta.
    assert_eq!(second.row_count(), 1);
    assert_eq!(checkpoint.rows()[0].key().to_owned_string(), "beta");
}

#[test]
fn checkpoint_without_new_entries_returns_typed_error() {
    let fixture = Fixture::new();
    let mut engine = fixture.open_versioned("nothing-to-cover");
    let thoughts = engine
        .register_table(fixture.descriptor())
        .expect("table registers");

    // An empty log has nothing to cover.
    let error = engine.checkpoint().expect_err("empty log is rejected");
    assert!(matches!(
        error,
        Error::CheckpointNothingToCover
    ));

    engine
        .assert_record(Assertion::new(thoughts, Thought::new("alpha", "first")))
        .expect("assert alpha");
    engine.checkpoint().expect("checkpoint writes");

    // No entries beyond the covered range: nothing to cover again.
    let error = engine
        .checkpoint()
        .expect_err("checkpoint without new entries is rejected");
    assert!(matches!(
        error,
        Error::CheckpointNothingToCover
    ));
}

#[test]
fn checkpoint_requires_a_versioned_store() {
    let fixture = Fixture::new();
    let mut engine = fixture.open_plain("unversioned");
    let thoughts = engine
        .register_table(fixture.descriptor())
        .expect("table registers");
    engine
        .assert_record(Assertion::new(thoughts, Thought::new("alpha", "first")))
        .expect("assert alpha");

    let error = engine
        .checkpoint()
        .expect_err("unversioned store cannot checkpoint");
    assert!(matches!(
        error,
        Error::VersioningNotEnabled { .. }
    ));
}

#[test]
fn history_written_before_versioning_cannot_checkpoint() {
    let fixture = Fixture::new();
    {
        let mut engine = fixture.open_plain("late-versioning");
        let thoughts = engine
            .register_table(fixture.descriptor())
            .expect("table registers");
        engine
            .assert_record(Assertion::new(thoughts, Thought::new("alpha", "first")))
            .expect("unversioned assert");
        fixture.close("late-versioning", engine);
    }

    let mut engine = fixture.open_versioned("late-versioning");
    let thoughts = engine
        .register_table(fixture.descriptor())
        .expect("table re-registers");
    engine
        .assert_record(Assertion::new(thoughts, Thought::new("beta", "second")))
        .expect("versioned assert");

    let error = engine
        .checkpoint()
        .expect_err("incomplete versioned log is rejected");
    assert!(matches!(
        error,
        Error::VersionedLogIncomplete {
            commits: 2,
            versioned: 1
        }
    ));
}
