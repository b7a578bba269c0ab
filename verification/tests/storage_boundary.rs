//! The store is handed out for reading, and shows what the logged paths
//! wrote.

use sema_engine::{
    Assertion, EncodedRecord, Engine, EngineOpen, FamilyName, RecordKey, SchemaHash, Store,
    TableDescriptor, TableName,
};

/// A record with a textual key and body, archived as a pair.
struct Thought;

impl Thought {
    fn new(key: &str, body: &str) -> EncodedRecord {
        let archived = (key.to_string(), body.to_string());
        let bytes = rkyv::to_bytes::<rkyv::rancor::Error>(&archived)
            .expect("record archives")
            .to_vec();
        EncodedRecord::new(RecordKey::domain(key), bytes)
    }
}

#[test]
fn storage_reader_observes_state_written_through_logged_choke_points() {
    let mut engine = Engine::open(EngineOpen::new(Store::new())).expect("engine opens");
    let thoughts = engine
        .register_table(TableDescriptor::<EncodedRecord>::new(
            TableName::new("thoughts"),
            FamilyName::new("thought"),
            SchemaHash::for_label("thought-v1"),
        ))
        .expect("table registers");
    engine
        .assert_record(Assertion::new(
            thoughts,
            Thought::new("alpha", "first"),
        ))
        .expect("assert succeeds");

    let observed = engine.storage_reader().read().latest_commit_sequence;

    assert_eq!(observed, Some(1));
}
