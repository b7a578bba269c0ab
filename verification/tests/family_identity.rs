//! Replay goes by family and schema hash, the table name is only where the
//! rows stand now, the store's schema hash comes from its families alone,
//! and a store without the layout slot is refused.

use std::cell::RefCell;

use sema_engine::{
    Assertion, EncodedRecord, Engine, EngineOpen, Error, FamilyName, Mutation, QueryPlan,
    RecordKey, Retraction, SchemaHash, Store, TableDescriptor, TableName, VersionedReplay,
    VersionedStoreName, VersioningPolicy,
};

/// A record with a textual key and body, archived as a pair.
struct Thought;

impl Thought {
    fn new(key: &str, body: &str) -> EncodedRecord {
        let archived = (key.to_string(), body.to_string());
        let bytes = rkyv::to_bytes::<rkyv::rancor::Error>(&archived)
            .expect("record archives")
            .to_vec();
        EncodedRecord::new(RecordKey::domain(key), bytes)
    }
}

/// A record with a textual key and note, archived as a pair.
struct Activity;

impl Activity {
    fn new(key: &str, body: &str) -> EncodedRecord {
        let archived = (key.to_string(), body.to_string());
        let bytes = rkyv::to_bytes::<rkyv::rancor::Error>(&archived)
            .expect("record archives")
            .to_vec();
        EncodedRecord::new(RecordKey::domain(key), bytes)
    }
}

/// Stores by name, each resting while no engine holds it.
struct Fixture {
    shelf: RefCell<Vec<(String, Store)>>,
}

impl Fixture {
    fn new() -> Self {
        Fixture { shelf: RefCell::new(Vec::new()) }
    }

    fn take(&self, name: &str) -> Store {
        let mut shelf = self.shelf.borrow_mut();
        match shelf.iter().position(|(held, _)| held == name) {
            Some(at) => shelf.remove(at).1,
            None => Store::new(),
        }
    }

    fn put(&self, name: &str, store: Store) {
        self.shelf.borrow_mut().push((name.to_string(), store));
    }

    fn close(&self, name: &str, engine: Engine) {
        self.put(name, engine.into_store());
    }

    fn open_store(&self, name: &str, store_name: &str) -> Engine {
        Engine::open(
            EngineOpen::new(self.take(name))
                .with_versioning(VersioningPolicy::new(VersionedStoreName::new(store_name))),
        )
        .expect("versioned engine opens")
    }

    fn open_versioned(&self, name: &str) -> Engine {
        self.open_store(name, name)
    }

    fn thought_family(&self) -> FamilyName {
        FamilyName::new("thought")
    }

    fn thought_schema_hash(&self) -> SchemaHash {
        SchemaHash::for_label("thought-v1")
    }

    fn thought_descriptor(&self, table: &'static str) -> TableDescriptor<EncodedRecord> {
        TableDescriptor::new(
            TableName::new(table),
            FamilyName::new("thought"),
            SchemaHash::for_label("thought-v1"),
        )
    }

    fn activity_descriptor(&self) -> TableDescriptor<EncodedRecord> {
        TableDescriptor::new(
            TableName::new("activities"),
            FamilyName::new("activity"),
            SchemaHash::for_label("activity-v1"),
        )
    }
}

#[test]
fn versioned_log_operations_carry_typed_family_identity() {
    let fixture = Fixture::new();
    let mut engine = fixture.open_versioned("identity-carrier");
    let thoughts = engine
        .register_table(fixture.thought_descriptor("thoughts"))
        .expect("table registers");
    engine
        .assert_record(Assertion::new(thoughts, Thought::new("alpha", "first")))
        .expect("assert succeeds");

    let log = engine.versioned_commit_log();
    let operation = log[0].operations().head();
    let identity = operation.family();

    assert_eq!(identity.family(), &fixture.thought_family());
    assert_eq!(identity.schema_hash(), fixture.thought_schema_hash());
    assert_eq!(identity.table_name(), "thoughts");
    assert_eq!(log[0].schema_hash(), engine.store_schema_hash());
}

#[test]
fn versioned_replay_rebuilds_typed_state_dispatching_on_family_identity() {
    let fixture = Fixture::new();
    let entries = {
        let mut source = fixture.open_versioned("replay-source");
        let thoughts = source
            .register_table(fixture.thought_descriptor("thoughts"))
            .expect("thoughts register");
        let activities = source
            .register_table(fixture.activity_descriptor())
            .expect("activities register");

        source
            .assert_record(Assertion::new(thoughts, Thought::new("alpha", "first")))
            .expect("assert alpha");
        source
            .assert_record(Assertion::new(thoughts, Thought::new("beta", "second")))
            .expect("assert beta");
        source
            .mutate(Mutation::new(thoughts, Thought::new("alpha", "revised")))
            .expect("mutate alpha");
        source
            .retract(Retraction::new(thoughts, RecordKey::new("beta")))
            .expect("retract beta");
        source
            .assert_record(Assertion::new(activities, Activity::new("a-1", "noise")))
            .expect("assert activity");

        source.versioned_commit_log()
    };

    let mut target = fixture.open_versioned("replay-target");
    let thoughts = target
        .register_table(fixture.thought_descriptor("thoughts"))
        .expect("thoughts register in target");

    let receipt = target
        .replay_versioned(VersionedReplay::new(thoughts, entries))
        .expect("replay applies");
    let rebuilt = target
        .match_records(QueryPlan::all(thoughts))
        .expect("match succeeds");

    // Four thought operations applied; the activity-family operation
    // was dispatched away from this family, not silently absorbed.
    assert_eq!(receipt.applied(), 4);
    assert_eq!(receipt.skipped(), 1);
    assert_eq!(rebuilt.records(), &[Thought::new("alpha", "revised")]);
}

#[test]
fn table_rename_with_same_family_replays_into_current_table() {
    let fixture = Fixture::new();
    let entries = {
        let mut source = fixture.open_versioned("rename-source");
        let thoughts = source
            .register_table(fixture.thought_descriptor("thoughts_v1"))
            .expect("old-name table registers");
        source
            .assert_record(Assertion::new(thoughts, Thought::new("alpha", "first")))
            .expect("assert alpha");
        source
            .assert_record(Assertion::new(thoughts, Thought::new("beta", "second")))
            .expect("assert beta");
        source.versioned_commit_log()
    };
    assert_eq!(entries[0].operations().head().table_name(), "thoughts_v1");

    // Same family, same schema hash, new table coordinate.
    let mut target = fixture.open_versioned("rename-target");
    let renamed = target
        .register_table(fixture.thought_descriptor("thoughts_v2"))
        .expect("renamed table registers");

    let receipt = target
        .replay_versioned(VersionedReplay::new(renamed, entries))
        .expect("replay applies across the rename");
    let rebuilt = target
        .match_records(QueryPlan::all(renamed))
        .expect("match succeeds");

    assert_eq!(receipt.applied(), 2);
    assert_eq!(receipt.skipped(), 0);
    assert_eq!(
        rebuilt.records(),
        &[
            Thought::new("alpha", "first"),
            Thought::new("beta", "second")
        ]
    );
}

#[test]
fn store_schema_hash_derives_from_family_inventory_not_table_names() {
    let fixture = Fixture::new();

    let mut original = fixture.open_versioned("derived-hash-original");
    original
        .register_table(fixture.thought_descriptor("thoughts_v1"))
        .expect("table registers");

    // Same family inventory under a renamed table: identical store hash.
    let mut renamed = fixture.open_versioned("derived-hash-renamed");
    renamed
        .register_table(fixture.thought_descriptor("thoughts_v2"))
        .expect("renamed table registers");
    assert_eq!(original.store_schema_hash(), renamed.store_schema_hash());

    // A different family inventory: different store hash.
    let mut grown = fixture.open_versioned("derived-hash-grown");
    grown
        .register_table(fixture.thought_descriptor("thoughts_v1"))
        .expect("table registers");
    grown
        .register_table(fixture.activity_descriptor())
        .expect("second family registers");
    assert_ne!(original.store_schema_hash(), grown.store_schema_hash());
}

#[test]
fn reopened_engine_rejects_conflicting_family_identity_for_registered_table() {
    let fixture = Fixture::new();
    {
        let mut engine = fixture.open_versioned("identity-conflict");
        engine
            .register_table(fixture.thought_descriptor("thoughts"))
            .expect("table registers");
        fixture.close("identity-conflict", engine);
    }

    let mut reopened = fixture.open_versioned("identity-conflict");
    let error = reopened
        .register_table(TableDescriptor::<EncodedRecord>::new(
            TableName::new("thoughts"),
            fixture.thought_family(),
            SchemaHash::for_label("thought-v2"),
        ))
        .expect_err("conflicting schema hash is rejected");

    assert!(matches!(
        error,
        Error::FamilyIdentityMismatch { .. }
    ));
}

#[test]
fn family_version_binds_to_one_table_at_a_time() {
    let fixture = Fixture::new();
    let mut engine = fixture.open_versioned("family-binding");
    engine
        .register_table(fixture.thought_descriptor("thoughts"))
        .expect("table registers");

    let error = engine
        .register_table(fixture.thought_descriptor("thoughts_shadow"))
        .expect_err("second binding of the same family version is rejected");

    assert!(matches!(
        error,
        Error::FamilyAlreadyBound { .. }
    ));
}

#[test]
fn a_store_without_the_layout_slot_is_refused() {
    let mut store = Store::new();
    store.latest_commit_sequence = Some(7);

    let Err(error) = Engine::open(EngineOpen::new(store)) else {
        panic!("a store without a layout slot must be rejected");
    };
    assert!(matches!(error, Error::StorageLayoutMismatch { stored: 1, expected: 7 }));
}
