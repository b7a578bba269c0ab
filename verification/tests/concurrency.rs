//! The chain head that the store keeps is the one that a fresh fold of the
//! log arrives at.

use std::cell::RefCell;

use sema_engine::{
    Assertion, EncodedRecord, Engine, EngineOpen, Error, FamilyDirectory, FamilyName, RecordKey,
    RowLanding, RowMaterializer, SchemaHash, Store, TableDescriptor, TableName, TableReference,
    VersionedStoreName, VersioningPolicy,
};

/// A record with a textual key and body, archived as a pair.
struct Note;

impl Note {
    fn new(key: &str, body: &str) -> EncodedRecord {
        let archived = (key.to_string(), body.to_string());
        let bytes = rkyv::to_bytes::<rkyv::rancor::Error>(&archived)
            .expect("record archives")
            .to_vec();
        EncodedRecord::new(RecordKey::domain(key), bytes)
    }
}

struct Notes {
    notes: TableReference<EncodedRecord>,
}

impl Notes {
    fn new() -> Self {
        Notes {
            notes: TableReference::new(TableName::new("notes")),
        }
    }
}

impl FamilyDirectory for Notes {
    fn materialize(&self, row: RowMaterializer) -> Result<RowLanding, Error> {
        match row.family().family().as_str() {
            "note" => row.apply(self.notes),
            other => Err(Error::FamilyUnknown { family: other.to_owned() }),
        }
    }
}

/// Stores by name, each resting while no engine holds it.
struct Fixture {
    shelf: RefCell<Vec<(String, Store)>>,
}

impl Fixture {
    fn new() -> Self {
        Fixture { shelf: RefCell::new(Vec::new()) }
    }

    fn take(&self, name: &str) -> Store {
        let mut shelf = self.shelf.borrow_mut();
        match shelf.iter().position(|(held, _)| held == name) {
            Some(at) => shelf.remove(at).1,
            None => Store::new(),
        }
    }

    fn put(&self, name: &str, store: Store) {
        self.shelf.borrow_mut().push((name.to_string(), store));
    }

    fn close(&self, name: &str, engine: Engine) {
        self.put(name, engine.into_store());
    }

    fn open_plain(&self, name: &str) -> Engine {
        Engine::open(EngineOpen::new(self.take(name))).expect("engine opens")
    }

    fn open_store(&self, name: &str, store_name: &str) -> Engine {
        Engine::open(
            EngineOpen::new(self.take(name))
                .with_versioning(VersioningPolicy::new(VersionedStoreName::new(store_name))),
        )
        .expect("versioned engine opens")
    }

    fn open_versioned(&self, name: &str) -> Engine {
        self.open_store(name, name)
    }

    fn descriptor(&self) -> TableDescriptor<EncodedRecord> {
        TableDescriptor::new(
            TableName::new("notes"),
            FamilyName::new("note"),
            SchemaHash::for_label("note-v1"),
        )
    }
}

#[test]
fn cached_chain_head_equals_the_fresh_fold_recomputation() {
    let fixture = Fixture::new();
    let mut engine = fixture.open_versioned("cached-head");
    let table = engine
        .register_table(fixture.descriptor())
        .expect("notes table registers");

    // No versioned entry yet: the cached head is absent.
    assert_eq!(
        engine.versioned_chain_head(),
        None,
    );

    // Early entries the checkpoint will fold into rows.
    for index in 0..8u64 {
        engine
            .assert_record(Assertion::new(
                table,
                Note::new(&format!("early-{index}"), &format!("body {index}")),
            ))
            .expect("early assert succeeds");
    }
    let checkpoint_receipt = engine.checkpoint().expect("checkpoint folds the log");
    assert_ne!(checkpoint_receipt.row_count(), 0);

    // Post-checkpoint entries form a real versioned-log suffix, so the
    // restored store reproduces a defined chain head rather than an
    // empty one.
    for index in 0..5u64 {
        engine
            .assert_record(Assertion::new(
                table,
                Note::new(&format!("late-{index}"), &format!("body {index}")),
            ))
            .expect("late assert succeeds");
    }

    let cached_head = engine
        .versioned_chain_head()
        .expect("a chain head exists after writes");
    let log = engine.versioned_commit_log();
    let last_entry_digest = log.last().expect("log is non-empty").entry_digest();

    // The cached slot equals the most recent entry's own digest.
    assert_eq!(cached_head, last_entry_digest);

    // Independent recomputation: import into a fresh store folds the
    // checkpoint rows plus the suffix from scratch, recomputing every
    // entry digest from its fields and verifying the chain link by link.
    // A mismatch between a stored digest and its recomputation surfaces
    // as a typed `VersionedChainBroken`; a clean restore landing the
    // identical chain head proves the cached head equals the fresh
    // fold's recomputation for the chain head.
    let checkpoint = engine
        .latest_checkpoint()
        .expect("checkpoint reads")
        .expect("a checkpoint exists");
    let suffix = engine
        .versioned_replay_from_sequence(checkpoint.metadata().covered().last().next());
    assert_eq!(suffix.len(), 5, "the suffix carries the post-checkpoint writes");

    let mut restored = fixture.open_store("cached-head-restored", "cached-head");
    let mut session = restored.begin_import().expect("import session opens");
    session
        .ingest_checkpoint(checkpoint)
        .expect("checkpoint ingests");
    session.ingest_suffix(suffix);
    session
        .commit(&mut restored, &Notes::new())
        .expect("import folds checkpoint plus suffix");

    assert_eq!(
        restored
            .versioned_chain_head()
            .expect("restored chain head present"),
        cached_head,
        "a fresh fold-restored store recomputes the identical chain head",
    );
}
