//! A rewritten, forged or doctored row is caught where the history is
//! verified, and named by a refusal of its own.

use std::cell::RefCell;

use sema_engine::{
    Assertion, Checkpoint, CheckpointDigest, CheckpointMetadata, CheckpointSegment,
    EncodedRecord, Engine, EngineOpen, Error, FamilyDirectory, FamilyName, MirrorHead, NonEmpty,
    OutboxEntry, RecordKey, RowLanding, RowMaterializer, SchemaHash, SegmentDigest, SegmentReference,
    SemaOperation, Store, StoreSchemaHash, TableDescriptor, TableName, TableReference,
    VersionedCommitLogEntry, VersionedLogOperation, VersionedPayload, VersionedStoreName,
    VersioningPolicy, ViewDigest, ViewRow,
};

/// A record with a textual key and body, archived as a pair.
struct Thought;

impl Thought {
    fn new(key: &str, body: &str) -> EncodedRecord {
        let archived = (key.to_string(), body.to_string());
        let bytes = rkyv::to_bytes::<rkyv::rancor::Error>(&archived)
            .expect("record archives")
            .to_vec();
        EncodedRecord::new(RecordKey::domain(key), bytes)
    }
}

struct Families {
    thoughts: TableReference<EncodedRecord>,
}

impl Families {
    fn new() -> Self {
        Families {
            thoughts: TableReference::new(TableName::new("thoughts")),
        }
    }
}

impl FamilyDirectory for Families {
    fn materialize(&self, row: RowMaterializer) -> Result<RowLanding, Error> {
        match row.family().family().as_str() {
            "thought" => row.apply(self.thoughts),
            other => Err(Error::FamilyUnknown { family: other.to_owned() }),
        }
    }
}

/// Replaces one run of bytes by another of the same length and keeps every
/// other field, the named digests among them.
struct Splice {
    find: Vec<u8>,
    replace: Vec<u8>,
}

impl Splice {
    fn new(find: &[u8], replace: &[u8]) -> Self {
        assert_eq!(find.len(), replace.len(), "splice must preserve layout");
        Splice { find: find.to_vec(), replace: replace.to_vec() }
    }

    /// Flips one bit of a digest.
    fn flipping(target: &[u8; 32]) -> Self {
        let mut replacement = *target;
        replacement[0] ^= 0x01;
        Self::new(target, &replacement)
    }

    fn bytes(&self, bytes: &[u8]) -> Vec<u8> {
        let position = bytes
            .windows(self.find.len())
            .position(|window| window == self.find)
            .expect("target bytes are present");
        let mut doctored = bytes.to_vec();
        doctored[position..position + self.replace.len()].copy_from_slice(&self.replace);
        doctored
    }

    fn digest(&self, bytes: &[u8; 32]) -> [u8; 32] {
        if bytes[..] == self.find[..] {
            let mut replaced = [0u8; 32];
            replaced.copy_from_slice(&self.replace);
            replaced
        } else {
            *bytes
        }
    }

    fn entry(&self, entry: &VersionedCommitLogEntry) -> VersionedCommitLogEntry {
        let operation = entry.operations().head();
        let payload = operation.payload().bytes().expect("the operation carries a record");
        VersionedCommitLogEntry::new(
            entry.store_name().clone(),
            entry.schema_hash(),
            entry.commit_sequence(),
            entry.snapshot(),
            entry.previous_entry_digest(),
            NonEmpty::single(VersionedLogOperation::new(
                operation.operation(),
                operation.family().clone(),
                operation.key().cloned(),
                VersionedPayload::record(self.bytes(payload)),
            )),
        )
        .stored(entry.entry_digest())
    }

    fn metadata(&self, metadata: &CheckpointMetadata) -> CheckpointMetadata {
        CheckpointMetadata::new(
            metadata.sequence(),
            metadata.store_name().clone(),
            StoreSchemaHash::stored(self.digest(metadata.store_schema_hash().bytes())),
            metadata.family_inventory().clone(),
            metadata.covered(),
            metadata.covered_snapshot(),
            metadata.covered_entry_digest(),
            ViewDigest::new(self.digest(metadata.view_digest().bytes())),
            metadata.previous_checkpoint_digest(),
            metadata
                .segments()
                .iter()
                .map(|reference| {
                    SegmentReference::new(
                        SegmentDigest::new(self.digest(reference.digest().bytes())),
                        reference.row_count(),
                    )
                })
                .collect(),
        )
        .named(CheckpointDigest::new(self.digest(metadata.checkpoint_digest().bytes())))
    }
}

/// Stores by name, each resting while no engine holds it.
struct Fixture {
    shelf: RefCell<Vec<(String, Store)>>,
}

impl Fixture {
    fn new() -> Self {
        Fixture { shelf: RefCell::new(Vec::new()) }
    }

    fn take(&self, name: &str) -> Store {
        let mut shelf = self.shelf.borrow_mut();
        match shelf.iter().position(|(held, _)| held == name) {
            Some(at) => shelf.remove(at).1,
            None => Store::new(),
        }
    }

    fn put(&self, name: &str, store: Store) {
        self.shelf.borrow_mut().push((name.to_string(), store));
    }

    fn close(&self, name: &str, engine: Engine) {
        self.put(name, engine.into_store());
    }

    fn open_store(&self, name: &str, store_name: &str) -> Engine {
        Engine::open(
            EngineOpen::new(self.take(name))
                .with_versioning(VersioningPolicy::new(VersionedStoreName::new(store_name))),
        )
        .expect("versioned engine opens")
    }

    fn open_versioned(&self, name: &str) -> Engine {
        self.open_store(name, name)
    }

    fn descriptor(&self) -> TableDescriptor<EncodedRecord> {
        TableDescriptor::new(
            TableName::new("thoughts"),
            FamilyName::new("thought"),
            SchemaHash::for_label("thought-v1"),
        )
    }

    /// A resting store with one checkpoint over one record, and that
    /// checkpoint.
    fn checkpointed(&self, name: &str) -> Checkpoint {
        let mut engine = self.open_versioned(name);
        let thoughts = engine
            .register_table(self.descriptor())
            .expect("table registers");
        engine
            .assert_record(Assertion::new(thoughts, Thought::new("alpha", "first")))
            .expect("assert alpha");
        engine.checkpoint().expect("checkpoint writes");
        let checkpoint = engine
            .latest_checkpoint()
            .expect("checkpoint loads")
            .expect("checkpoint exists");
        self.close(name, engine);
        checkpoint
    }

    /// Put another entry where a logged one stands.
    fn rewrite(&self, name: &str, sequence: u64, entry: &VersionedCommitLogEntry) {
        let mut store = self.take(name);
        store.versioned_commit_log.insert(sequence, entry.clone());
        self.put(name, store);
    }

    /// Put other metadata where a checkpoint's stands.
    fn rename(&self, name: &str, sequence: u64, metadata: &CheckpointMetadata) {
        let mut store = self.take(name);
        store.checkpoints.insert(sequence, metadata.clone());
        self.put(name, store);
    }
}

/// An entry at the coordinates of a logged one, over another record, and
/// named by its own digest.
fn forged_replacement(genuine: &VersionedCommitLogEntry, body: &str) -> VersionedCommitLogEntry {
    let operation = genuine.operations().head();
    let key = operation.key().expect("logged operation is keyed").clone();
    let forged = Thought::new(&key.to_owned_string(), body);
    VersionedCommitLogEntry::new(
        genuine.store_name().clone(),
        genuine.schema_hash(),
        genuine.commit_sequence(),
        genuine.snapshot(),
        genuine.previous_entry_digest(),
        NonEmpty::single(VersionedLogOperation::new(
            SemaOperation::Assert,
            operation.family().clone(),
            Some(key),
            VersionedPayload::record(forged.bytes().clone()),
        )),
    )
}

#[test]
fn forged_log_row_breaks_the_digest_chain_at_its_successor() {
    let fixture = Fixture::new();
    let genuine_first = {
        let mut engine = fixture.open_versioned("forged-row");
        let thoughts = engine
            .register_table(fixture.descriptor())
            .expect("table registers");
        engine
            .assert_record(Assertion::new(thoughts, Thought::new("alpha", "first")))
            .expect("assert alpha");
        engine
            .assert_record(Assertion::new(thoughts, Thought::new("beta", "second")))
            .expect("assert beta");
        let first = engine.versioned_commit_log()[0].clone();
        fixture.close("forged-row", engine);
        first
    };

    // Replace the first logged entry wholesale with an internally
    // valid forgery in the resting store.
    let forged = forged_replacement(&genuine_first, "forged");
    assert_ne!(forged.entry_digest(), genuine_first.entry_digest());
    fixture.rewrite("forged-row", genuine_first.commit_sequence().value(), &forged);

    // The successor's predecessor link still names the genuine
    // digest, so every fold surface detects the rewrite at sequence 2.
    let mut engine = fixture.open_versioned("forged-row");
    let error = engine
        .rebuild_from_log(&Families::new())
        .expect_err("rebuild detects the forgery");
    assert!(matches!(
        error,
        Error::VersionedChainBroken { sequence: 2 }
    ));
    let error = engine
        .checkpoint()
        .expect_err("checkpoint detects the forgery");
    assert!(matches!(
        error,
        Error::VersionedChainBroken { sequence: 2 }
    ));
}

#[test]
fn rewritten_payload_fails_per_entry_digest_recomputation() {
    let fixture = Fixture::new();
    let genuine = {
        let mut engine = fixture.open_versioned("rewritten-payload");
        let thoughts = engine
            .register_table(fixture.descriptor())
            .expect("table registers");
        engine
            .assert_record(Assertion::new(thoughts, Thought::new("alpha", "first")))
            .expect("assert alpha");
        engine
            .assert_record(Assertion::new(thoughts, Thought::new("beta", "second")))
            .expect("assert beta");
        let first = engine.versioned_commit_log()[0].clone();
        fixture.close("rewritten-payload", engine);
        first
    };

    // Rewrite the logged record bytes while keeping the stored entry
    // digest: the tampered entry still names the digest of the
    // history it no longer carries.
    let tampered = Splice::new(b"first", b"f1rst").entry(&genuine);
    assert_eq!(tampered.entry_digest(), genuine.entry_digest());
    fixture.rewrite("rewritten-payload", genuine.commit_sequence().value(), &tampered);

    // The fold recomputes every entry digest from the entry's own
    // fields: the stored digest cannot ride the chain.
    let mut engine = fixture.open_versioned("rewritten-payload");
    let error = engine
        .rebuild_from_log(&Families::new())
        .expect_err("rebuild recomputes every digest");
    assert!(matches!(
        error,
        Error::VersionedChainBroken { sequence: 1 }
    ));
}

#[test]
fn import_rejects_a_suffix_entry_whose_digest_does_not_recompute() {
    let fixture = Fixture::new();
    let (checkpoint, suffix) = {
        let mut source = fixture.open_versioned("tamper-source");
        let thoughts = source
            .register_table(fixture.descriptor())
            .expect("table registers");
        source
            .assert_record(Assertion::new(thoughts, Thought::new("alpha", "first")))
            .expect("assert alpha");
        source.checkpoint().expect("checkpoint writes");
        source
            .assert_record(Assertion::new(thoughts, Thought::new("gamma", "third")))
            .expect("assert gamma");
        let checkpoint = source
            .latest_checkpoint()
            .expect("checkpoint loads")
            .expect("checkpoint exists");
        let suffix = source
            .versioned_replay_from_sequence(checkpoint.metadata().covered().last().next());
        (checkpoint, suffix)
    };
    assert_eq!(suffix.len(), 1);

    let tampered = vec![Splice::new(b"third", b"th1rd").entry(&suffix[0])];

    let mut target = fixture.open_store("tamper-target", "tamper-source");
    let mut session = target.begin_import().expect("import session mints");
    session
        .ingest_checkpoint(checkpoint.clone())
        .expect("genuine checkpoint ingests");
    session.ingest_suffix(tampered);
    let error = session
        .commit(&mut target, &Families::new())
        .expect_err("tampered suffix is rejected");
    assert!(matches!(
        error,
        Error::VersionedChainBroken { sequence: 2 }
    ));

    // Nothing was imported: the store is still fresh, so the genuine
    // suffix imports cleanly on retry.
    assert!(target.versioned_commit_log().is_empty());
    let mut retry = target.begin_import().expect("store is still fresh");
    retry
        .ingest_checkpoint(checkpoint)
        .expect("checkpoint re-ingests");
    retry.ingest_suffix(suffix);
    retry
        .commit(&mut target, &Families::new())
        .expect("genuine suffix imports");
}

#[test]
fn doctored_checkpoint_metadata_is_rejected_at_load_and_at_ingest() {
    let fixture = Fixture::new();
    let genuine = fixture.checkpointed("doctored-metadata");
    let metadata = genuine.metadata();

    // Flip one bit of the stored checkpoint digest in the persisted
    // metadata row.
    let doctored = Splice::flipping(metadata.checkpoint_digest().bytes()).metadata(metadata);
    fixture.rename("doctored-metadata", metadata.sequence().value(), &doctored);

    let engine = fixture.open_versioned("doctored-metadata");
    let error = engine
        .latest_checkpoint()
        .expect_err("load verifies the checkpoint digest");
    let Error::CheckpointDigestMismatch { stored, computed } = error else {
        panic!("expected CheckpointDigestMismatch, got {error:?}");
    };
    assert_eq!(computed, metadata.checkpoint_digest());
    assert_ne!(stored, computed);

    // Import ingestion rejects the same doctored artifact.
    let mut target = fixture.open_store("doctored-target", "doctored-metadata");
    let mut session = target.begin_import().expect("import session mints");
    let error = session
        .ingest_checkpoint(Checkpoint::new(doctored, genuine.segments().to_vec()))
        .expect_err("ingest verifies the checkpoint digest");
    assert!(matches!(
        error,
        Error::CheckpointDigestMismatch { .. }
    ));
}

#[test]
fn dead_latest_checkpoint_cursor_is_a_typed_missing_row() {
    let fixture = Fixture::new();
    let genuine = fixture.checkpointed("dead-cursor");
    let dead = genuine.metadata().sequence().value() + 7;

    // Point the latest-checkpoint cursor at a sequence no checkpoint
    // row was ever written under.
    let mut store = fixture.take("dead-cursor");
    store.latest_checkpoint = Some(dead);
    fixture.put("dead-cursor", store);

    let engine = fixture.open_versioned("dead-cursor");
    let error = engine
        .latest_checkpoint()
        .expect_err("the cursor names a row that does not exist");
    assert!(matches!(
        error,
        Error::CheckpointRowMissing { sequence } if sequence == dead
    ));
}

#[test]
fn forged_segment_under_a_genuine_address_is_rejected_at_load() {
    let fixture = Fixture::new();
    let genuine = fixture.checkpointed("forged-segment");
    let reference = genuine.metadata().segments()[0];
    let rows = genuine.segments()[0].rows().to_vec();

    // Forge a segment whose first row carries a different payload and
    // store it under the genuine content address.
    let mut altered = rows.clone();
    altered[0] = ViewRow::new(
        rows[0].family().clone(),
        rows[0].key().clone(),
        VersionedPayload::record(b"forged".to_vec()),
    );
    let forged = CheckpointSegment::new(altered);
    assert_ne!(forged.digest(), reference.digest());
    let address = reference.digest();
    let mut store = fixture.take("forged-segment");
    store.checkpoint_segments.insert(address, forged.clone());
    fixture.put("forged-segment", store);

    let engine = fixture.open_versioned("forged-segment");
    let error = engine
        .latest_checkpoint()
        .expect_err("load verifies every content address");
    let Error::SegmentDigestMismatch {
        referenced,
        computed,
    } = error
    else {
        panic!("expected SegmentDigestMismatch, got {error:?}");
    };
    assert_eq!(referenced, reference.digest());
    assert_eq!(computed, forged.digest());
}

#[test]
fn flipped_segment_reference_dangles_at_load_before_verification_runs() {
    let fixture = Fixture::new();
    let genuine = fixture.checkpointed("dangling-reference");
    let metadata = genuine.metadata();
    let reference = metadata.segments()[0];
    let mut flipped = *reference.digest().bytes();
    flipped[0] ^= 0x01;
    let flipped = SegmentDigest::new(flipped);

    // Flip one bit of the stored segment-reference digest: the
    // metadata row now names a content address no segment lives under.
    let doctored = Splice::flipping(reference.digest().bytes()).metadata(metadata);
    fixture.rename("dangling-reference", metadata.sequence().value(), &doctored);

    // The segment fetch runs before checkpoint verification, so the
    // dangling reference fires first — carrying the flipped digest,
    // a real in-bounds address, never a fabricated zero.
    let engine = fixture.open_versioned("dangling-reference");
    let error = engine
        .latest_checkpoint()
        .expect_err("the flipped reference dangles");
    let Error::SegmentMissing { digest } = error else {
        panic!("expected SegmentMissing, got {error:?}");
    };
    assert_eq!(digest, flipped);
    assert_ne!(digest, reference.digest());
    assert_ne!(digest, SegmentDigest::new([0; 32]));
}

#[test]
fn fixed_up_outer_digest_still_fails_on_the_view_digest() {
    let fixture = Fixture::new();
    let genuine = fixture.checkpointed("lying-view");
    let metadata = genuine.metadata();

    // First pass: a flipped view digest alone is caught by the outer
    // checkpoint digest.
    let lying = Splice::flipping(metadata.view_digest().bytes()).metadata(metadata);
    let error = Checkpoint::new(lying.clone(), genuine.segments().to_vec())
        .verify()
        .expect_err("outer digest catches the raw lie");
    let Error::CheckpointDigestMismatch { computed, .. } = error else {
        panic!("expected CheckpointDigestMismatch, got {error:?}");
    };

    // Second pass: the forger recomputes the outer digest over the
    // lying fields. The fold of the segment rows still exposes the
    // view digest as a lie.
    let consistent =
        Splice::new(lying.checkpoint_digest().bytes(), computed.bytes()).metadata(&lying);
    let error = Checkpoint::new(consistent.clone(), genuine.segments().to_vec())
        .verify()
        .expect_err("view digest catches the fixed-up forgery");
    let Error::ViewDigestMismatch { expected, computed } = error else {
        panic!("expected ViewDigestMismatch, got {error:?}");
    };
    assert_eq!(expected, consistent.view_digest());
    assert_eq!(computed, metadata.view_digest());

    // Import ingestion rejects the forgery the same way.
    let mut target = fixture.open_store("lying-view-target", "lying-view");
    let mut session = target.begin_import().expect("import session mints");
    let error = session
        .ingest_checkpoint(Checkpoint::new(consistent, genuine.segments().to_vec()))
        .expect_err("ingest rejects the forgery");
    assert!(matches!(
        error,
        Error::ViewDigestMismatch { .. }
    ));
}

#[test]
fn segment_count_mismatch_is_typed_in_both_directions() {
    let fixture = Fixture::new();
    let genuine = fixture.checkpointed("segment-count");
    let metadata = genuine.metadata().clone();
    let segment = genuine.segments()[0].clone();

    // Fewer segments than references: the first unmatched reference
    // is named — a real digest, never a fabricated zero.
    let error = Checkpoint::new(metadata.clone(), Vec::new())
        .verify()
        .expect_err("missing segment is typed");
    let Error::SegmentMissing { digest } = error else {
        panic!("expected SegmentMissing, got {error:?}");
    };
    assert_eq!(digest, metadata.segments()[0].digest());
    assert_ne!(digest, SegmentDigest::new([0; 32]));

    // More segments than references: a surplus segment no reference
    // names is its own variant.
    let error = Checkpoint::new(metadata, vec![segment.clone(), segment])
        .verify()
        .expect_err("surplus segment is typed");
    assert!(matches!(
        error,
        Error::SegmentSurplus {
            referenced: 1,
            supplied: 2
        }
    ));
}

#[test]
fn import_rejects_a_schema_hash_that_does_not_re_derive_from_the_inventory() {
    let fixture = Fixture::new();
    let genuine = fixture.checkpointed("lying-schema");
    let metadata = genuine.metadata();

    // Forge the stamped store schema hash and recompute the outer
    // digest over it: the artifact now passes every content-address
    // check.
    let lying = Splice::flipping(metadata.store_schema_hash().bytes()).metadata(metadata);
    let error = Checkpoint::new(lying.clone(), genuine.segments().to_vec())
        .verify()
        .expect_err("outer digest catches the raw lie");
    let Error::CheckpointDigestMismatch { computed, .. } = error else {
        panic!("expected CheckpointDigestMismatch, got {error:?}");
    };
    let consistent =
        Splice::new(lying.checkpoint_digest().bytes(), computed.bytes()).metadata(&lying);
    let forged = Checkpoint::new(consistent, genuine.segments().to_vec());
    forged
        .verify()
        .expect("digest-consistent forgery passes content checks");

    // The stamped hash must re-derive from the carried inventory:
    // import catches what content verification alone cannot see.
    let mut target = fixture.open_store("lying-schema-target", "lying-schema");
    let mut session = target.begin_import().expect("import session mints");
    session
        .ingest_checkpoint(forged)
        .expect("content checks pass");
    let error = session
        .commit(&mut target, &Families::new())
        .expect_err("schema re-derivation rejects the forgery");
    assert!(matches!(
        error,
        Error::CheckpointSchemaMismatch { .. }
    ));
}

#[test]
fn acknowledging_a_head_over_a_rewritten_log_is_a_typed_mismatch() {
    let fixture = Fixture::new();
    let (genuine, head) = {
        let mut engine = fixture.open_versioned("outbox-mismatch");
        let thoughts = engine
            .register_table(fixture.descriptor())
            .expect("table registers");
        engine
            .assert_record(Assertion::new(thoughts, Thought::new("alpha", "first")))
            .expect("assert alpha");
        let entry = engine.versioned_commit_log()[0].clone();
        let outbox: Vec<OutboxEntry> = engine.unshipped_outbox();
        fixture.close("outbox-mismatch", engine);
        (entry, MirrorHead::from(&outbox[0]))
    };

    // Rewrite the logged entry under the outbox row's feet: the
    // replacement is internally valid but carries a different digest.
    let forged = forged_replacement(&genuine, "forged");
    fixture.rewrite("outbox-mismatch", genuine.commit_sequence().value(), &forged);

    // An honest mirror echoing the recorded outbox head is refused:
    // the row no longer matches the logged entry at that sequence.
    let mut engine = fixture.open_versioned("outbox-mismatch");
    let error = engine
        .acknowledge_mirror(head)
        .expect_err("mismatched outbox row is typed");
    assert!(matches!(
        error,
        Error::OutboxEntryMismatch { sequence: 1 }
    ));
}
