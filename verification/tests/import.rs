//! A store that imports a checkpoint and the entries past it stands where
//! the exporting store stood: records, counters, chain and tombstones.

use std::cell::RefCell;

use sema_engine::{
    Assertion, Checkpoint, EncodedRecord, Engine, EngineOpen, Error, FamilyDirectory, FamilyName,
    IdentifiedAssertion, IdentifiedQueryPlan, IdentifiedRetraction, IdentifiedTableDescriptor,
    IdentifiedTableReference, Mutation, QueryPlan, RecordKey, Retraction, RowLanding, RowMaterializer,
    SchemaHash, Store, TableDescriptor, TableName, TableReference, VersionedCommitLogEntry,
    VersionedStoreName, VersioningPolicy,
};

/// A record with a textual key and body, archived as a pair.
struct Thought;

impl Thought {
    fn new(key: &str, body: &str) -> EncodedRecord {
        let archived = (key.to_string(), body.to_string());
        let bytes = rkyv::to_bytes::<rkyv::rancor::Error>(&archived)
            .expect("record archives")
            .to_vec();
        EncodedRecord::new(RecordKey::domain(key), bytes)
    }
}

/// A record whose identifier the engine mints.
struct Tally;

impl Tally {
    fn new(note: &str) -> EncodedRecord {
        EncodedRecord::new(RecordKey::domain(note), note.as_bytes().to_vec())
    }
}

struct Families {
    thoughts: TableReference<EncodedRecord>,
    tallies: IdentifiedTableReference<EncodedRecord>,
}

impl Families {
    fn new() -> Self {
        Families {
            thoughts: TableReference::new(TableName::new("thoughts")),
            tallies: IdentifiedTableReference::new(TableName::new("tallies")),
        }
    }
}

impl FamilyDirectory for Families {
    fn materialize(&self, row: RowMaterializer) -> Result<RowLanding, Error> {
        match row.family().family().as_str() {
            "thought" => row.apply(self.thoughts),
            "tally" => row.apply_identified(self.tallies),
            other => Err(Error::FamilyUnknown { family: other.to_owned() }),
        }
    }
}

/// A directory that refuses every row.
struct FailingDirectory;

impl FamilyDirectory for FailingDirectory {
    fn materialize(&self, row: RowMaterializer) -> Result<RowLanding, Error> {
        Err(Error::FamilyUnknown { family: row.family().family().as_str().to_owned() })
    }
}

/// Stores by name, each resting while no engine holds it.
struct Fixture {
    shelf: RefCell<Vec<(String, Store)>>,
}

impl Fixture {
    fn new() -> Self {
        Fixture { shelf: RefCell::new(Vec::new()) }
    }

    fn take(&self, name: &str) -> Store {
        let mut shelf = self.shelf.borrow_mut();
        match shelf.iter().position(|(held, _)| held == name) {
            Some(at) => shelf.remove(at).1,
            None => Store::new(),
        }
    }

    fn put(&self, name: &str, store: Store) {
        self.shelf.borrow_mut().push((name.to_string(), store));
    }

    fn close(&self, name: &str, engine: Engine) {
        self.put(name, engine.into_store());
    }

    fn open_plain(&self, name: &str) -> Engine {
        Engine::open(EngineOpen::new(self.take(name))).expect("engine opens")
    }

    fn open_store(&self, name: &str, store_name: &str) -> Engine {
        Engine::open(
            EngineOpen::new(self.take(name))
                .with_versioning(VersioningPolicy::new(VersionedStoreName::new(store_name))),
        )
        .expect("versioned engine opens")
    }

    fn open_versioned(&self, name: &str) -> Engine {
        self.open_store(name, name)
    }

    fn thought_descriptor(&self) -> TableDescriptor<EncodedRecord> {
        TableDescriptor::new(
            TableName::new("thoughts"),
            FamilyName::new("thought"),
            SchemaHash::for_label("thought-v1"),
        )
    }

    fn tally_descriptor(&self) -> IdentifiedTableDescriptor<EncodedRecord> {
        IdentifiedTableDescriptor::new(
            TableName::new("tallies"),
            FamilyName::new("tally"),
            SchemaHash::for_label("tally-v1"),
        )
    }

    /// A store with a checkpoint in mid-history, that checkpoint, and the
    /// entries past it, a tombstone among them.
    fn populated_export(&self, name: &str) -> (Engine, Checkpoint, Vec<VersionedCommitLogEntry>) {
        let mut source = self.open_store(name, "restore-witness");
        let thoughts = source
            .register_table(self.thought_descriptor())
            .expect("thoughts register");
        let tallies = source
            .register_identified_table(self.tally_descriptor())
            .expect("tallies register");

        source
            .assert_record(Assertion::new(thoughts, Thought::new("alpha", "first")))
            .expect("assert alpha");
        source
            .assert_record(Assertion::new(thoughts, Thought::new("beta", "second")))
            .expect("assert beta");
        source
            .mutate(Mutation::new(thoughts, Thought::new("alpha", "revised")))
            .expect("mutate alpha");
        let first_tally = source
            .assert_identified(IdentifiedAssertion::new(tallies, Tally::new("one")))
            .expect("assert first tally");
        source
            .assert_identified(IdentifiedAssertion::new(tallies, Tally::new("two")))
            .expect("assert second tally");
        source
            .retract_identified(IdentifiedRetraction::<EncodedRecord>::new(tallies, first_tally.identifier()))
            .expect("retract first tally");

        source.checkpoint().expect("checkpoint writes");

        source
            .assert_record(Assertion::new(thoughts, Thought::new("gamma", "third")))
            .expect("assert gamma");
        source
            .retract(Retraction::<EncodedRecord>::new(thoughts, RecordKey::new("beta")))
            .expect("retract beta");

        let checkpoint = source
            .latest_checkpoint()
            .expect("checkpoint loads")
            .expect("checkpoint exists");
        let suffix =
            source.versioned_replay_from_sequence(checkpoint.metadata().covered().last().next());
        (source, checkpoint, suffix)
    }
}

#[test]
fn import_restores_the_normal_query_surface_counters_chain_and_tombstones() {
    let fixture = Fixture::new();
    let (source, checkpoint, suffix) = fixture.populated_export("source");
    assert_eq!(suffix.len(), 2);

    let mut target = fixture.open_store("target", "restore-witness");
    let mut session = target.begin_import().expect("import session mints");
    session
        .ingest_checkpoint(checkpoint)
        .expect("checkpoint ingests");
    session.ingest_suffix(suffix.clone());
    let receipt = session.commit(&mut target, &Families::new()).expect("import commits");

    assert_eq!(receipt.suffix_count(), 2);
    assert_eq!(
        receipt.commit_sequence(),
        source.current_commit_sequence()
    );

    // The normal query surface reads identical records through
    // re-registered descriptors (identity matches the restored
    // catalog).
    let thoughts = target
        .register_table(fixture.thought_descriptor())
        .expect("thoughts re-register against restored catalog");
    let tallies = target
        .register_identified_table(fixture.tally_descriptor())
        .expect("tallies re-register against restored catalog");
    let rebuilt = target
        .match_records(QueryPlan::all(thoughts))
        .expect("match succeeds");
    assert_eq!(
        rebuilt.records(),
        &[
            Thought::new("alpha", "revised"),
            Thought::new("gamma", "third")
        ]
    );
    // A retracted key stays absent.
    assert!(
        target
            .match_records(QueryPlan::key(thoughts, RecordKey::new("beta")))
            .expect("match succeeds")
            .records()
            .is_empty()
    );
    // Identified rows restore under their original identifiers.
    let restored_tallies = target
        .match_identified(IdentifiedQueryPlan::all(tallies))
        .expect("identified match succeeds");
    assert_eq!(restored_tallies.records().len(), 1);
    assert_eq!(restored_tallies.records()[0].identifier().value(), 2);
    assert_eq!(restored_tallies.records()[0].value().bytes(), Tally::new("two").bytes());

    // Counters and cursors are indistinguishable from the original.
    assert_eq!(
        target.current_commit_sequence(),
        source.current_commit_sequence()
    );
    assert_eq!(
        target.latest_snapshot(),
        source.latest_snapshot()
    );

    // The imported log carries the suffix verbatim — same digests,
    // same chain — and beta's tombstone survives in it.
    let imported_log = target.versioned_commit_log();
    assert_eq!(imported_log, suffix);
    let tombstone = imported_log[1].operations().head();
    assert!(tombstone.payload().is_tombstone());
    assert_eq!(tombstone.key().map(RecordKey::to_owned_string), Some("beta".to_string()));

    // The restored identified counter never re-mints an identifier
    // the original already allocated — including the retracted one.
    let new_tally = target
        .assert_identified(IdentifiedAssertion::new(tallies, Tally::new("three")))
        .expect("post-import assert");
    assert_eq!(new_tally.identifier().value(), 3);

    // New writes continue the imported digest chain.
    target
        .assert_record(Assertion::new(thoughts, Thought::new("delta", "fourth")))
        .expect("post-import assert");
    let extended = target.versioned_commit_log();
    let continuation = &extended[extended.len() - 2];
    assert_eq!(
        extended
            .last()
            .expect("chain has entries")
            .previous_entry_digest(),
        Some(continuation.entry_digest())
    );
}

#[test]
fn import_requires_a_fresh_store() {
    let fixture = Fixture::new();
    let mut used = fixture.open_store("used", "restore-witness");
    let thoughts = used
        .register_table(fixture.thought_descriptor())
        .expect("table registers");
    used.assert_record(Assertion::new(thoughts, Thought::new("alpha", "first")))
        .expect("assert alpha");

    let error = used
        .begin_import()
        .map(|_session| ())
        .expect_err("used store cannot import");
    assert!(matches!(error, Error::ImportStoreNotFresh));
}

#[test]
fn import_rejects_a_checkpoint_for_another_store() {
    let fixture = Fixture::new();
    let (_source, checkpoint, _suffix) = fixture.populated_export("source");

    let mut target = fixture.open_store("target", "another-store");
    let mut session = target.begin_import().expect("import session mints");
    session
        .ingest_checkpoint(checkpoint)
        .expect("checkpoint ingests");
    let error = session
        .commit(&mut target, &Families::new())
        .expect_err("foreign checkpoint is rejected");
    assert!(matches!(
        error,
        Error::ImportStoreNameMismatch { .. }
    ));
}

#[test]
fn import_session_requires_exactly_one_checkpoint() {
    let fixture = Fixture::new();
    let (_source, checkpoint, _suffix) = fixture.populated_export("source");

    let mut target = fixture.open_store("target", "restore-witness");
    {
        let session = target.begin_import().expect("import session mints");
        let error = session
            .commit(&mut target, &Families::new())
            .expect_err("commit without checkpoint is rejected");
        assert!(matches!(error, Error::ImportMissingCheckpoint));
    }
    {
        let mut session = target.begin_import().expect("import session re-mints");
        session
            .ingest_checkpoint(checkpoint.clone())
            .expect("first checkpoint ingests");
        let error = session
            .ingest_checkpoint(checkpoint)
            .expect_err("second checkpoint is rejected");
        assert!(matches!(
            error,
            Error::ImportCheckpointAlreadyIngested
        ));
    }
}

#[test]
fn interrupted_import_rolls_back_and_cleanly_retries() {
    let fixture = Fixture::new();
    let (source, checkpoint, suffix) = fixture.populated_export("source");

    let mut target = fixture.open_store("target", "restore-witness");
    {
        let mut session = target.begin_import().expect("import session mints");
        session
            .ingest_checkpoint(checkpoint.clone())
            .expect("checkpoint ingests");
        session.ingest_suffix(suffix.clone());
        let error = session
            .commit(&mut target, &FailingDirectory)
            .expect_err("failing directory aborts the import");
        assert!(matches!(error, Error::FamilyUnknown { .. }));
    }

    // The aborted transaction left no partial state: the store is
    // still fresh, so the retry mints a new session and succeeds.
    let mut retry = target.begin_import().expect("store is still fresh");
    retry
        .ingest_checkpoint(checkpoint)
        .expect("checkpoint re-ingests");
    retry.ingest_suffix(suffix);
    retry.commit(&mut target, &Families::new()).expect("retry commits");

    let thoughts = target
        .register_table(fixture.thought_descriptor())
        .expect("thoughts re-register");
    assert_eq!(
        target
            .match_records(QueryPlan::all(thoughts))
            .expect("match succeeds")
            .records()
            .len(),
        2
    );
    assert_eq!(
        target.current_commit_sequence(),
        source.current_commit_sequence()
    );
}
