//! The fold of the versioned log is the definition of the materialized
//! view: a rebuild re-derives the tables from it, clears what the log
//! retracted, reproduces the query results and names the same view again.

use std::cell::RefCell;

use sema_engine::{
    Assertion, EncodedRecord, Engine, EngineOpen, Error, FamilyDirectory, FamilyName,
    IdentifiedAssertion, IdentifiedQueryPlan, IdentifiedTableDescriptor,
    IdentifiedTableReference, Mutation, QueryPlan, RecordKey, Retraction, RowLanding, RowMaterializer,
    SchemaHash, Store, TableDescriptor, TableName, TableReference, VersionedPayload,
    VersionedStoreName, VersioningPolicy,
};

/// A record with a textual key and body, archived as a pair.
struct Thought;

impl Thought {
    fn new(key: &str, body: &str) -> EncodedRecord {
        let archived = (key.to_string(), body.to_string());
        let bytes = rkyv::to_bytes::<rkyv::rancor::Error>(&archived)
            .expect("record archives")
            .to_vec();
        EncodedRecord::new(RecordKey::domain(key), bytes)
    }
}

/// A record whose identifier the engine mints.
struct Tally;

impl Tally {
    fn new(note: &str) -> EncodedRecord {
        EncodedRecord::new(RecordKey::domain(note), note.as_bytes().to_vec())
    }
}

struct Families {
    thoughts: TableReference<EncodedRecord>,
    tallies: IdentifiedTableReference<EncodedRecord>,
}

impl Families {
    fn new() -> Self {
        Families {
            thoughts: TableReference::new(TableName::new("thoughts")),
            tallies: IdentifiedTableReference::new(TableName::new("tallies")),
        }
    }
}

impl FamilyDirectory for Families {
    fn materialize(&self, row: RowMaterializer) -> Result<RowLanding, Error> {
        match row.family().family().as_str() {
            "thought" => row.apply(self.thoughts),
            "tally" => row.apply_identified(self.tallies),
            other => Err(Error::FamilyUnknown { family: other.to_owned() }),
        }
    }
}

/// Stores by name, each resting while no engine holds it.
struct Fixture {
    shelf: RefCell<Vec<(String, Store)>>,
}

impl Fixture {
    fn new() -> Self {
        Fixture { shelf: RefCell::new(Vec::new()) }
    }

    fn take(&self, name: &str) -> Store {
        let mut shelf = self.shelf.borrow_mut();
        match shelf.iter().position(|(held, _)| held == name) {
            Some(at) => shelf.remove(at).1,
            None => Store::new(),
        }
    }

    fn put(&self, name: &str, store: Store) {
        self.shelf.borrow_mut().push((name.to_string(), store));
    }

    fn close(&self, name: &str, engine: Engine) {
        self.put(name, engine.into_store());
    }

    fn open_plain(&self, name: &str) -> Engine {
        Engine::open(EngineOpen::new(self.take(name))).expect("engine opens")
    }

    fn open_store(&self, name: &str, store_name: &str) -> Engine {
        Engine::open(
            EngineOpen::new(self.take(name))
                .with_versioning(VersioningPolicy::new(VersionedStoreName::new(store_name))),
        )
        .expect("versioned engine opens")
    }

    fn open_versioned(&self, name: &str) -> Engine {
        self.open_store(name, name)
    }

    fn thought_descriptor(&self) -> TableDescriptor<EncodedRecord> {
        TableDescriptor::new(
            TableName::new("thoughts"),
            FamilyName::new("thought"),
            SchemaHash::for_label("thought-v1"),
        )
    }

    fn tally_descriptor(&self) -> IdentifiedTableDescriptor<EncodedRecord> {
        IdentifiedTableDescriptor::new(
            TableName::new("tallies"),
            FamilyName::new("tally"),
            SchemaHash::for_label("tally-v1"),
        )
    }
}

#[test]
fn rebuild_after_checkpoint_and_further_writes_reproduces_query_results() {
    let fixture = Fixture::new();
    let mut engine = fixture.open_versioned("rebuild-witness");
    let thoughts = engine
        .register_table(fixture.thought_descriptor())
        .expect("thoughts register");
    let tallies = engine
        .register_identified_table(fixture.tally_descriptor())
        .expect("tallies register");

    engine
        .assert_record(Assertion::new(thoughts, Thought::new("alpha", "first")))
        .expect("assert alpha");
    engine
        .assert_record(Assertion::new(thoughts, Thought::new("beta", "second")))
        .expect("assert beta");
    engine
        .assert_identified(IdentifiedAssertion::new(tallies, Tally::new("one")))
        .expect("assert tally");
    engine.checkpoint().expect("checkpoint writes");
    engine
        .mutate(Mutation::new(thoughts, Thought::new("alpha", "revised")))
        .expect("mutate alpha");
    engine
        .retract(Retraction::new(thoughts, RecordKey::new("beta")))
        .expect("retract beta");

    let before = engine
        .match_records(QueryPlan::all(thoughts))
        .expect("match before rebuild");
    let identified_before = engine
        .match_identified(IdentifiedQueryPlan::all(tallies))
        .expect("identified match before rebuild");

    let receipt = engine
        .rebuild_from_log(&Families::new())
        .expect("rebuild succeeds");
    let after = engine
        .match_records(QueryPlan::all(thoughts))
        .expect("match after rebuild");
    let identified_after = engine
        .match_identified(IdentifiedQueryPlan::all(tallies))
        .expect("identified match after rebuild");

    assert_eq!(after.records(), before.records());
    assert_eq!(identified_after.records(), identified_before.records());
    // alpha + tally kept; beta touched-but-retracted cleared.
    assert_eq!(receipt.row_count(), 2);
    assert_eq!(receipt.cleared_count(), 1);
    assert_eq!(receipt.folded_entry_count(), 2);

    // The fold is deterministic: a second rebuild names the same
    // canonical view digest.
    let again = engine
        .rebuild_from_log(&Families::new())
        .expect("second rebuild succeeds");
    assert_eq!(again.view_digest(), receipt.view_digest());
}

#[test]
fn rebuild_clears_a_stale_row_the_log_retracted() {
    let fixture = Fixture::new();
    {
        let mut engine = fixture.open_versioned("stale-row");
        let thoughts = engine
            .register_table(fixture.thought_descriptor())
            .expect("thoughts register");
        engine
            .assert_record(Assertion::new(thoughts, Thought::new("alpha", "kept")))
            .expect("assert alpha");
        engine
            .assert_record(Assertion::new(thoughts, Thought::new("beta", "doomed")))
            .expect("assert beta");
        engine
            .retract(Retraction::new(thoughts, RecordKey::new("beta")))
            .expect("retract beta");
        fixture.close("stale-row", engine);
    }

    // Resurrect the retracted row in the resting store, which no engine
    // path can do.
    {
        let mut store = fixture.take("stale-row");
        let row = Thought::new("beta", "resurrected");
        store
            .tables
            .place("thoughts", "beta", &VersionedPayload::record(row.bytes().clone()));
        fixture.put("stale-row", store);
    }

    let mut engine = fixture.open_versioned("stale-row");
    let thoughts = engine
        .register_table(fixture.thought_descriptor())
        .expect("thoughts re-register");
    assert_eq!(
        engine
            .match_records(QueryPlan::all(thoughts))
            .expect("match reads the corruption")
            .records()
            .len(),
        2
    );

    engine
        .rebuild_from_log(&Families::new())
        .expect("rebuild succeeds");

    // The fold touched beta (assert then retract) and did not keep it:
    // the rebuild's tombstone row cleared the stale resurrection.
    assert_eq!(
        engine
            .match_records(QueryPlan::all(thoughts))
            .expect("match after rebuild")
            .records(),
        &[Thought::new("alpha", "kept")]
    );
}

#[test]
fn rebuild_without_checkpoint_folds_the_whole_log() {
    let fixture = Fixture::new();
    let mut engine = fixture.open_versioned("full-log-rebuild");
    let thoughts = engine
        .register_table(fixture.thought_descriptor())
        .expect("thoughts register");
    engine
        .assert_record(Assertion::new(thoughts, Thought::new("alpha", "first")))
        .expect("assert alpha");
    engine
        .mutate(Mutation::new(thoughts, Thought::new("alpha", "revised")))
        .expect("mutate alpha");

    let receipt = engine
        .rebuild_from_log(&Families::new())
        .expect("rebuild succeeds");

    assert_eq!(receipt.folded_entry_count(), 2);
    assert_eq!(receipt.row_count(), 1);
    assert_eq!(
        engine
            .match_records(QueryPlan::all(thoughts))
            .expect("match after rebuild")
            .records(),
        &[Thought::new("alpha", "revised")]
    );
}

#[test]
fn rebuild_requires_a_versioned_store() {
    let fixture = Fixture::new();
    let mut engine = fixture.open_plain("unversioned");
    engine
        .register_table(fixture.thought_descriptor())
        .expect("thoughts register");

    let error = engine
        .rebuild_from_log(&Families::new())
        .expect_err("unversioned store cannot rebuild");
    assert!(matches!(
        error,
        Error::VersioningNotEnabled { .. }
    ));
}
