//! A store of an older layout with a versioned log has its derived slots
//! refolded on opening; one without such a log is refused; and opening a
//! store of the present layout changes nothing.

use std::cell::RefCell;

use sema_engine::{
    Assertion, EncodedRecord, Engine, EngineOpen, Error, FamilyDirectory, FamilyName, QueryPlan,
    RecordKey, RowLanding, RowMaterializer, SchemaHash, Store, TableDescriptor, TableName,
    TableReference, VersionedStoreName, VersioningPolicy,
};

const LAYOUT_FOUR: u64 = 4;
const CURRENT_LAYOUT: u64 = 7;

/// A record with a textual key and body, archived as a pair.
struct Note;

impl Note {
    fn new(key: &str, body: &str) -> EncodedRecord {
        let archived = (key.to_string(), body.to_string());
        let bytes = rkyv::to_bytes::<rkyv::rancor::Error>(&archived)
            .expect("record archives")
            .to_vec();
        EncodedRecord::new(RecordKey::domain(key), bytes)
    }
}

struct Notes {
    notes: TableReference<EncodedRecord>,
}

impl Notes {
    fn new() -> Self {
        Notes {
            notes: TableReference::new(TableName::new("notes")),
        }
    }
}

impl FamilyDirectory for Notes {
    fn materialize(&self, row: RowMaterializer) -> Result<RowLanding, Error> {
        match row.family().family().as_str() {
            "note" => row.apply(self.notes),
            other => Err(Error::FamilyUnknown { family: other.to_owned() }),
        }
    }
}

/// Stores by name, each resting while no engine holds it.
struct Fixture {
    shelf: RefCell<Vec<(String, Store)>>,
}

impl Fixture {
    fn new() -> Self {
        Fixture { shelf: RefCell::new(Vec::new()) }
    }

    fn take(&self, name: &str) -> Store {
        let mut shelf = self.shelf.borrow_mut();
        match shelf.iter().position(|(held, _)| held == name) {
            Some(at) => shelf.remove(at).1,
            None => Store::new(),
        }
    }

    fn put(&self, name: &str, store: Store) {
        self.shelf.borrow_mut().push((name.to_string(), store));
    }

    fn close(&self, name: &str, engine: Engine) {
        self.put(name, engine.into_store());
    }

    fn open_store(&self, name: &str, store_name: &str) -> Engine {
        Engine::open(
            EngineOpen::new(self.take(name))
                .with_versioning(VersioningPolicy::new(VersionedStoreName::new(store_name))),
        )
        .expect("versioned engine opens")
    }

    fn open_versioned(&self, name: &str) -> Engine {
        self.open_store(name, name)
    }

    fn descriptor(&self) -> TableDescriptor<EncodedRecord> {
        TableDescriptor::new(
            TableName::new("notes"),
            FamilyName::new("note"),
            SchemaHash::for_label("note-v1"),
        )
    }
}

#[test]
fn layout_four_store_with_versioned_log_rebuilds_derived_slots_on_open() {
    const ENTRY_COUNT: u64 = 7;
    let fixture = Fixture::new();
    let store = "rebuild-headline";

    // Populate a layout-5 store: log + CHAIN_HEAD + counts all written.
    let (records_before, head_before, sequence_before) = {
        let mut engine = fixture.open_versioned(store);
        let table = engine
            .register_table(fixture.descriptor())
            .expect("notes table registers");
        for index in 0..ENTRY_COUNT {
            engine
                .assert_record(Assertion::new(
                    table,
                    Note::new(&format!("note-{index}"), &format!("body {index}")),
                ))
                .expect("assert succeeds");
        }
        let head = engine
            .versioned_chain_head()
            .expect("a chain head exists after writes");
        let records = engine
            .match_records(QueryPlan::all(table))
            .expect("query reads")
            .records()
            .to_vec();
        let sequence = engine.current_commit_sequence();
        assert_eq!(records.len() as u64, ENTRY_COUNT);
        assert_eq!(sequence.value(), ENTRY_COUNT);
        fixture.close(store, engine);
        (records, head, sequence)
    };

    // Leave the store as layout four did: without the derived slots, its
    // tables and its log untouched.
    {
        let mut resting = fixture.take(store);
        resting.chain_head = None;
        resting.commit_log_count = None;
        resting.versioned_log_count = None;
        resting.storage_layout = Some(LAYOUT_FOUR);
        fixture.put(store, resting);

        // Confirm the old shape: layout four, no chain head.
        let old = fixture.take(store);
        assert_eq!(old.storage_layout, Some(4));
        assert_eq!(old.chain_head, None);
        fixture.put(store, old);
    }

    let mut reopened = fixture.open_versioned(store);
    let table = reopened
        .register_table(fixture.descriptor())
        .expect("notes table re-registers (idempotent)");

    // The rebuilt CHAIN_HEAD equals a fresh full fold's head: the last
    // versioned entry's own recomputed digest. The persisted slot must
    // equal the recomputation, never trust a stored value.
    let rebuilt_head = reopened
        .versioned_chain_head()
        .expect("rebuilt chain head present");
    let log = reopened.versioned_commit_log();
    let fresh_fold_head = log.last().expect("log is non-empty").entry_digest();
    assert_eq!(
        rebuilt_head, fresh_fold_head,
        "rebuilt CHAIN_HEAD equals a fresh fold's head",
    );
    assert_eq!(
        rebuilt_head, head_before,
        "rebuilt head matches the pre-skew head",
    );

    // A full rebuild_from_log folds the whole chain without a break:
    // every entry digest recomputed and verified link by link. A forked
    // or tampered chain would surface as VersionedChainBroken.
    let receipt = reopened
        .rebuild_from_log(&Notes::new())
        .expect("rebuild folds the whole chain cleanly");
    assert_eq!(receipt.folded_entry_count() as u64, ENTRY_COUNT);
    assert_eq!(receipt.row_count() as u64, ENTRY_COUNT);

    // The query/data surface is identical to before the skew: the data
    // tables were never touched, only the derived slots refolded.
    let records_after = reopened
        .match_records(QueryPlan::all(table))
        .expect("query reads")
        .records()
        .to_vec();
    assert_eq!(
        records_after, records_before,
        "data surface identical after rebuild",
    );

    // A subsequent assert chains correctly off the rebuilt head: a
    // strictly-increasing unique sequence and an entry whose predecessor
    // is the rebuilt head, folding cleanly.
    reopened
        .assert_record(Assertion::new(
            table,
            Note::new("note-after", "body after rebuild"),
        ))
        .expect("post-rebuild assert succeeds");
    let sequence_after = reopened.current_commit_sequence();
    assert_eq!(
        sequence_after.value(),
        sequence_before.value() + 1,
        "sequence increments off the rebuilt state",
    );
    let new_log = reopened.versioned_commit_log();
    let new_entry = new_log.last().expect("a new entry exists");
    assert_eq!(
        new_entry.previous_entry_digest(),
        Some(rebuilt_head),
        "the new entry chains off the rebuilt head",
    );
    assert_eq!(
        new_entry.commit_sequence().value(),
        ENTRY_COUNT + 1,
        "the new entry takes the next contiguous sequence",
    );
    let final_receipt = reopened
        .rebuild_from_log(&Notes::new())
        .expect("post-assert rebuild folds cleanly");
    assert_eq!(final_receipt.folded_entry_count() as u64, ENTRY_COUNT + 1);

    // Drop the engine, then verify the open path durably re-stamped the
    // layout counter to the current layout.
    let stamped = reopened.into_store().storage_layout;
    assert_eq!(
        stamped,
        Some(CURRENT_LAYOUT),
        "layout re-stamped to current"
    );
}

#[test]
fn old_layout_store_without_versioned_log_still_hard_fails_typed() {
    let store = "no-log";

    // A store of layout four that never logged a version.
    let mut resting = Store::new();
    resting.latest_commit_sequence = Some(3);
    resting.storage_layout = Some(LAYOUT_FOUR);

    let Err(error) = Engine::open(
        EngineOpen::new(resting)
            .with_versioning(VersioningPolicy::new(VersionedStoreName::new(store))),
    ) else {
        panic!("layout-4 store with no versioned log must be rejected");
    };
    assert!(
        matches!(
            error,
            Error::StorageLayoutMismatch {
                stored: 4,
                expected: 7,
            }
        ),
        "got {error:?}",
    );
}

#[test]
fn reopening_a_layout_five_store_does_not_rebuild() {
    const ENTRY_COUNT: u64 = 5;
    let fixture = Fixture::new();
    let store = "idempotent";

    let head_before = {
        let mut engine = fixture.open_versioned(store);
        let table = engine
            .register_table(fixture.descriptor())
            .expect("notes table registers");
        for index in 0..ENTRY_COUNT {
            engine
                .assert_record(Assertion::new(
                    table,
                    Note::new(&format!("note-{index}"), &format!("body {index}")),
                ))
                .expect("assert succeeds");
        }
        let head = engine
            .versioned_chain_head()
            .expect("a chain head exists");
        fixture.close(store, engine);
        head
    };

    let resting = fixture.take(store);
    let slot_before = resting.chain_head.expect("chain head slot present");
    fixture.put(store, resting);
    assert_eq!(slot_before, head_before);

    let reopened = fixture.open_versioned(store);
    let head_after = reopened
        .versioned_chain_head()
        .expect("a chain head exists after reopen");
    assert_eq!(
        head_after, head_before,
        "chain head unchanged across an idempotent reopen",
    );
    assert_eq!(
        reopened
            .current_commit_sequence()
            .value(),
        ENTRY_COUNT,
        "commit sequence did not move — no rebuild ran",
    );

    let slot_after = reopened
        .into_store()
        .chain_head
        .expect("chain head slot present after reopen");
    assert_eq!(
        slot_after, slot_before,
        "chain-head slot untouched by an idempotent reopen",
    );
}
