//! A table descriptor declares the shapes its rows had before; registering
//! it against a store that holds one of them carries the rows over, in one
//! commit with the catalog, and refuses any other stored shape.

use std::cell::RefCell;

use sema_engine::{
    Assertion, EncodedRecord, Engine, EngineOpen, Error, FamilyName, NoPrior, PriorCarry,
    QueryPlan, RecordKey, SchemaHash, SemaOperation, Store, TableDescriptor, TableName,
    VersionedPayload, VersionedStoreName, VersioningPolicy, WithPrior,
};

fn thoughts_table() -> TableName {
    TableName::new("thoughts")
}

/// The first shape of a thought: a key and a body.
struct ThoughtV1;

impl ThoughtV1 {
    fn new(key: &str, body: &str) -> EncodedRecord {
        let archived = (key.to_string(), body.to_string());
        let bytes = rkyv::to_bytes::<rkyv::rancor::Error>(&archived)
            .expect("record archives")
            .to_vec();
        EncodedRecord::new(RecordKey::domain(key), bytes)
    }
}

/// The present shape of a thought: a mood beside the key and the body.
struct Thought;

impl Thought {
    fn new(key: &str, body: &str, mood: &str) -> EncodedRecord {
        let archived = (key.to_string(), body.to_string(), mood.to_string());
        let bytes = rkyv::to_bytes::<rkyv::rancor::Error>(&archived)
            .expect("record archives")
            .to_vec();
        EncodedRecord::new(RecordKey::domain(key), bytes)
    }
}

/// Carries first-shape rows into the present shape.
struct IntoCurrent;

impl PriorCarry for IntoCurrent {
    fn carry(&self, _prior: SchemaHash, _key: &str, bytes: &[u8]) -> Result<Vec<u8>, Error> {
        let (key, body) = rkyv::from_bytes::<(String, String), rkyv::rancor::Error>(bytes)
            .map_err(|error| Error::Sema { message: error.to_string() })?;
        Ok(Thought::new(&key, &body, "carried").bytes().clone())
    }
}

/// Carries rows that already have the present shape: each is read back and
/// archived again.
struct SameShape;

impl PriorCarry for SameShape {
    fn carry(&self, _prior: SchemaHash, _key: &str, bytes: &[u8]) -> Result<Vec<u8>, Error> {
        let (key, body, mood) =
            rkyv::from_bytes::<(String, String, String), rkyv::rancor::Error>(bytes)
                .map_err(|error| Error::Sema { message: error.to_string() })?;
        Ok(Thought::new(&key, &body, &mood).bytes().clone())
    }
}

/// Reads stored rows as a shape that they never had.
struct FromCounted;

impl PriorCarry for FromCounted {
    fn carry(&self, _prior: SchemaHash, _key: &str, bytes: &[u8]) -> Result<Vec<u8>, Error> {
        let (key, _, _, _) = rkyv::from_bytes::<(String, u64, u64, u64), rkyv::rancor::Error>(bytes)
            .map_err(|error| Error::Sema { message: error.to_string() })?;
        Ok(Thought::new(&key, "reinterpreted", "never").bytes().clone())
    }
}

/// Stores by name, each resting while no engine holds it.
struct Fixture {
    shelf: RefCell<Vec<(String, Store)>>,
}

impl Fixture {
    fn new() -> Self {
        Fixture { shelf: RefCell::new(Vec::new()) }
    }

    fn take(&self, name: &str) -> Store {
        let mut shelf = self.shelf.borrow_mut();
        match shelf.iter().position(|(held, _)| held == name) {
            Some(at) => shelf.remove(at).1,
            None => Store::new(),
        }
    }

    fn put(&self, name: &str, store: Store) {
        self.shelf.borrow_mut().push((name.to_string(), store));
    }

    fn close(&self, name: &str, engine: Engine) {
        self.put(name, engine.into_store());
    }

    fn open_plain(&self, name: &str) -> Engine {
        Engine::open(EngineOpen::new(self.take(name))).expect("engine opens")
    }

    fn open_store(&self, name: &str, store_name: &str) -> Engine {
        Engine::open(
            EngineOpen::new(self.take(name))
                .with_versioning(VersioningPolicy::new(VersionedStoreName::new(store_name))),
        )
        .expect("versioned engine opens")
    }

    fn open_versioned(&self, name: &str) -> Engine {
        self.open_store(name, name)
    }

    fn family(&self) -> FamilyName {
        FamilyName::new("thought")
    }

    fn hash_v1(&self) -> SchemaHash {
        SchemaHash::for_label("thought-v1")
    }

    fn hash_v2(&self) -> SchemaHash {
        SchemaHash::for_label("thought-v2")
    }

    fn descriptor_v1(&self) -> TableDescriptor<EncodedRecord> {
        TableDescriptor::new(thoughts_table(), self.family(), self.hash_v1())
    }

    fn descriptor_v2_with_prior(
        &self,
    ) -> TableDescriptor<EncodedRecord, WithPrior<NoPrior, IntoCurrent>> {
        TableDescriptor::new(thoughts_table(), self.family(), self.hash_v2())
            .with_prior(self.hash_v1(), IntoCurrent)
    }

    fn seed_v1(&self, engine: &mut Engine, rows: &[EncodedRecord]) {
        let table = engine
            .register_table(self.descriptor_v1())
            .expect("v1 family registers");
        for row in rows {
            engine
                .assert_record(Assertion::new(table, row.clone()))
                .expect("v1 row asserts");
        }
    }
}

#[test]
fn evolution_carries_rows_across_a_family_identity_bump() {
    let fixture = Fixture::new();
    let mut engine = fixture.open_plain("carried");
    fixture.seed_v1(
        &mut engine,
        &[
            ThoughtV1::new("alpha", "first"),
            ThoughtV1::new("beta", "second"),
        ],
    );
    fixture.close("carried", engine);

    let mut evolved = fixture.open_plain("carried");
    let table = evolved
        .register_table(fixture.descriptor_v2_with_prior())
        .expect("evolution registers the v2 family");
    let mut rows = evolved
        .match_records(QueryPlan::all(table))
        .expect("current rows read")
        .records()
        .to_vec();
    rows.sort_by_key(|row| row.key().to_owned_string());
    assert_eq!(
        rows,
        vec![
            Thought::new("alpha", "first", "carried"),
            Thought::new("beta", "second", "carried"),
        ],
    );
}

#[test]
fn evolved_store_reopens_as_existing_registration() {
    let fixture = Fixture::new();
    let mut engine = fixture.open_plain("reopens");
    fixture.seed_v1(&mut engine, &[ThoughtV1::new("alpha", "first")]);
    fixture.close("reopens", engine);

    let mut evolved = fixture.open_plain("reopens");
    evolved
        .register_table(fixture.descriptor_v2_with_prior())
        .expect("evolution registers");
    fixture.close("reopens", evolved);

    // The second open under the evolved identity is an ordinary
    // Existing registration — no steps consulted, rows intact.
    let mut reopened = fixture.open_plain("reopens");
    let table = reopened
        .register_table(TableDescriptor::<EncodedRecord>::new(
            thoughts_table(),
            fixture.family(),
            fixture.hash_v2(),
        ))
        .expect("evolved identity re-registers as existing");
    let rows = reopened
        .match_records(QueryPlan::all(table))
        .expect("rows read");
    assert_eq!(rows.records().len(), 1);
}

#[test]
fn undeclared_stored_identity_keeps_failing_closed() {
    let fixture = Fixture::new();
    let mut engine = fixture.open_plain("closed");
    fixture.seed_v1(&mut engine, &[ThoughtV1::new("alpha", "first")]);
    fixture.close("closed", engine);

    // v2 descriptor without any declared prior: the original typed
    // mismatch surfaces, and the store is untouched.
    let mut plain = fixture.open_plain("closed");
    let outcome = plain.register_table(TableDescriptor::<EncodedRecord>::new(
        thoughts_table(),
        fixture.family(),
        fixture.hash_v2(),
    ));
    assert!(matches!(
        outcome,
        Err(Error::FamilyIdentityMismatch { .. })
    ));
    fixture.close("closed", plain);

    let mut untouched = fixture.open_plain("closed");
    let table = untouched
        .register_table(fixture.descriptor_v1())
        .expect("prior identity still registers after the refused open");
    let rows = untouched
        .match_records(QueryPlan::all(table))
        .expect("prior rows read");
    assert_eq!(rows.records().len(), 1);
}

#[test]
fn another_family_at_the_same_table_is_not_evolvable() {
    let fixture = Fixture::new();
    let mut engine = fixture.open_plain("foreign");
    fixture.seed_v1(&mut engine, &[ThoughtV1::new("alpha", "first")]);
    fixture.close("foreign", engine);

    // Same table coordinate, different family name, matching prior
    // hash: a reused coordinate is a genuine incompatibility.
    let mut foreign = fixture.open_plain("foreign");
    let outcome = foreign.register_table(
        TableDescriptor::<EncodedRecord>::new(thoughts_table(), FamilyName::new("memo"), fixture.hash_v2())
            .with_prior(fixture.hash_v1(), IntoCurrent),
    );
    assert!(matches!(
        outcome,
        Err(Error::FamilyIdentityMismatch { .. })
    ));
}

#[test]
fn empty_family_evolves_as_catalog_only_rewrite() {
    let fixture = Fixture::new();
    let mut engine = fixture.open_plain("empty");
    engine
        .register_table(fixture.descriptor_v1())
        .expect("v1 family registers");
    fixture.close("empty", engine);

    let mut evolved = fixture.open_plain("empty");
    let before = evolved.commit_log().len();
    let table = evolved
        .register_table(fixture.descriptor_v2_with_prior())
        .expect("empty family evolves");
    let after = evolved.commit_log().len();
    assert_eq!(before, after, "an empty evolution logs no commit entry");
    let rows = evolved.match_records(QueryPlan::all(table)).expect("reads");
    assert!(rows.records().is_empty());
}

#[test]
fn a_prior_that_does_not_decode_fails_and_leaves_the_store_intact() {
    let fixture = Fixture::new();
    let mut engine = fixture.open_plain("intact");
    fixture.seed_v1(&mut engine, &[ThoughtV1::new("alpha", "first")]);
    fixture.close("intact", engine);

    // The declared prior shape does not match the stored bytes: the
    // validated decode refuses, and nothing changes.
    let mut wrong = fixture.open_plain("intact");
    let outcome = wrong.register_table(
        TableDescriptor::<EncodedRecord>::new(thoughts_table(), fixture.family(), fixture.hash_v2())
            .with_prior(fixture.hash_v1(), FromCounted),
    );
    assert!(outcome.is_err(), "mismatched prior bytes must refuse");
    fixture.close("intact", wrong);

    let mut untouched = fixture.open_plain("intact");
    let table = untouched
        .register_table(fixture.descriptor_v1())
        .expect("store still carries the prior identity");
    let rows = untouched
        .match_records(QueryPlan::all(table))
        .expect("prior rows read");
    assert_eq!(
        rows.records().to_vec(),
        vec![ThoughtV1::new("alpha", "first")],
    );
}

#[test]
fn two_declared_generations_each_evolve_directly() {
    let fixture = Fixture::new();

    // A store parked at v1 and a store parked at v2 both land on v3
    // through their own declared step.
    let hash_v3 = SchemaHash::for_label("thought-v3");
    let descriptor_v3 = || {
        TableDescriptor::<EncodedRecord>::new(thoughts_table(), FamilyName::new("thought"), hash_v3)
            .with_prior(SchemaHash::for_label("thought-v1"), IntoCurrent)
            .with_prior(SchemaHash::for_label("thought-v2"), SameShape)
    };

    let mut at_v1 = fixture.open_plain("ladder-v1");
    fixture.seed_v1(&mut at_v1, &[ThoughtV1::new("alpha", "first")]);
    fixture.close("ladder-v1", at_v1);
    let mut evolved_v1 = fixture.open_plain("ladder-v1");
    let table = evolved_v1
        .register_table(descriptor_v3())
        .expect("v1 store evolves to v3");
    assert_eq!(
        evolved_v1
            .match_records(QueryPlan::all(table))
            .expect("reads")
            .records(),
        &[Thought::new("alpha", "first", "carried")],
    );

    let mut at_v2 = fixture.open_plain("ladder-v2");
    let v2_table = at_v2
        .register_table(TableDescriptor::<EncodedRecord>::new(
            thoughts_table(),
            fixture.family(),
            fixture.hash_v2(),
        ))
        .expect("v2 family registers");
    at_v2
        .assert_record(Assertion::new(v2_table, Thought::new("beta", "second", "byte-compatible")))
        .expect("v2 row asserts");
    fixture.close("ladder-v2", at_v2);
    let mut evolved_v2 = fixture.open_plain("ladder-v2");
    let table = evolved_v2
        .register_table(descriptor_v3())
        .expect("v2 store evolves to v3");
    assert_eq!(
        evolved_v2
            .match_records(QueryPlan::all(table))
            .expect("reads")
            .records(),
        &[Thought::new("beta", "second", "byte-compatible")],
    );
}

#[test]
fn versioned_evolution_logs_retraction_and_assertion_as_row_history() {
    let fixture = Fixture::new();
    let mut engine = fixture.open_versioned("logged");
    fixture.seed_v1(&mut engine, &[ThoughtV1::new("alpha", "first")]);
    fixture.close("logged", engine);

    let mut evolved = fixture.open_versioned("logged");
    evolved
        .register_table(fixture.descriptor_v2_with_prior())
        .expect("versioned store evolves");
    let log = evolved.versioned_commit_log();
    let evolution_entry = log.last().expect("evolution entry exists");

    let logged = evolution_entry.operations();
    let operations: Vec<_> = (0..logged.len()).map(|at| logged.get(at)).collect();
    assert_eq!(operations.len(), 2);
    assert_eq!(operations[0].operation(), SemaOperation::Retract);
    assert_eq!(operations[0].family().schema_hash(), fixture.hash_v1());
    assert_eq!(*operations[0].payload(), VersionedPayload::tombstone());
    assert_eq!(operations[1].operation(), SemaOperation::Assert);
    assert_eq!(operations[1].family().schema_hash(), fixture.hash_v2());
    assert_ne!(*operations[1].payload(), VersionedPayload::tombstone());

    // The entry's derived store hash names the evolved inventory.
    assert_eq!(evolution_entry.schema_hash(), evolved.store_schema_hash());
}
