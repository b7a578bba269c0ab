//! Each refusal, on an input that meets it, and what it leaves unchanged.

use sema_engine::{
    Assertion, AtomicCommit, Catalog, DomainRecordKey, EncodedRecord, Engine, EngineOpen,
    EntryDigest, Error, FamilyDirectory, FamilyIdentity, FamilyName, IdentifiedMutation,
    IdentifiedRetraction, IdentifiedTableDescriptor, IdentifiedTableReference, KeyRange,
    KeyedAssertion, NonEmpty, PortableCheckpoint, QueryPlan, RecordIdentifier, RecordKey,
    RowLanding, RowMaterializer, SchemaHash, SemaOperation, SinkError, StagedOperationGroup, Store,
    StoreSchemaHash, SubscriptionEvent, SubscriptionSink, TableDescriptor, TableName,
    TableReference, TableRegistration, TableSpecification, VersionedCommitLogEntry,
    VersionedLogOperation, VersionedPayload, VersionedReplay, VersionedStoreName,
    VersioningPolicy, ViewRow,
};
use sema_engine::{CommitSequence, SnapshotIdentifier};

fn note(key: &str, body: &str) -> EncodedRecord {
    EncodedRecord::new(RecordKey::domain(key), body.as_bytes().to_vec())
}

fn family(table: &'static str) -> FamilyIdentity {
    FamilyIdentity::new(
        FamilyName::new("note"),
        SchemaHash::for_label("note-v1"),
        TableName::new(table),
    )
}

fn descriptor() -> TableDescriptor<EncodedRecord> {
    TableDescriptor::new(
        TableName::new("notes"),
        FamilyName::new("note"),
        SchemaHash::for_label("note-v1"),
    )
}

fn open_versioned(store: Store) -> Engine {
    Engine::open(
        EngineOpen::new(store)
            .with_versioning(VersioningPolicy::new(VersionedStoreName::new("notebook"))),
    )
    .expect("engine opens")
}

fn entry(
    operation: SemaOperation,
    key: Option<RecordKey>,
    payload: VersionedPayload,
) -> VersionedCommitLogEntry {
    VersionedCommitLogEntry::new(
        VersionedStoreName::new("notebook"),
        StoreSchemaHash::from([family("notes")].as_slice()),
        CommitSequence::new(1),
        SnapshotIdentifier::new(1),
        None,
        NonEmpty::single(VersionedLogOperation::new(operation, family("notes"), key, payload)),
    )
}

#[test]
fn a_catalog_takes_each_table_once() {
    let mut catalog = Catalog::new(Vec::new());
    catalog.insert(TableRegistration::new(family("notes"))).expect("first insert");
    let error = catalog
        .insert(TableRegistration::new(family("notes")))
        .expect_err("second insert");
    assert!(matches!(error, Error::TableAlreadyRegistered { table } if table == "notes"));
    assert_eq!(catalog.registrations().len(), 1);
}

#[test]
fn an_atomic_commit_of_nothing_is_refused() {
    let mut engine = open_versioned(Store::new());
    let group = engine.begin_atomic_commit();
    assert_eq!(group.operation_count(), 0);
    assert!(matches!(engine.commit_atomic(group), Err(Error::EmptyAtomicCommit)));
    assert_eq!(engine.current_commit_sequence().value(), 0);
}

#[test]
fn an_atomic_commit_is_refused_whole() {
    let mut engine = open_versioned(Store::new());
    let notes = engine.register_table(descriptor()).expect("registers");
    let missing = TableReference::new(TableName::new("elsewhere"));
    let group = AtomicCommit::new()
        .assert_record(notes, note("alpha", "one"))
        .assert_record(missing, note("beta", "two"));
    assert!(matches!(
        engine.commit_atomic(group),
        Err(Error::TableNotRegistered { table }) if table == "elsewhere"
    ));
    let again = AtomicCommit::new()
        .assert_record(notes, note("alpha", "one"))
        .mutate(notes, note("alpha", "two"));
    assert!(matches!(
        engine.commit_atomic(again),
        Err(Error::DuplicateWriteKey { key, .. }) if key == "alpha"
    ));
    assert!(engine
        .match_records(QueryPlan::all(notes))
        .expect("reads")
        .records()
        .is_empty());
    assert!(engine.commit_log().is_empty());
}

#[test]
fn a_row_goes_only_to_its_own_table_and_key_kind() {
    let row = || {
        ViewRow::new(
            family("notes"),
            RecordKey::domain("alpha"),
            VersionedPayload::record(vec![1]),
        )
    };
    let own: TableReference<EncodedRecord> = TableReference::new(TableName::new("notes"));
    let other: TableReference<EncodedRecord> = TableReference::new(TableName::new("others"));
    let identified: IdentifiedTableReference<EncodedRecord> =
        IdentifiedTableReference::new(TableName::new("notes"));
    assert!(RowMaterializer::new(row()).apply(own).is_ok());
    assert!(matches!(
        RowMaterializer::new(row()).apply(other),
        Err(Error::MaterializeTableMismatch { family, expected, supplied })
            if family == "note" && expected == "notes" && supplied == "others"
    ));
    assert!(matches!(
        RowMaterializer::new(row()).apply_identified(identified),
        Err(Error::MaterializeKeyKindMismatch { table, key, .. })
            if table == "notes" && key == "alpha"
    ));
    let counted = ViewRow::new(
        family("notes"),
        RecordKey::identifier(RecordIdentifier::new(3)),
        VersionedPayload::record(vec![1]),
    );
    assert!(matches!(
        RowMaterializer::new(counted).apply(own),
        Err(Error::MaterializeKeyKindMismatch { key, .. }) if key == "3"
    ));
}

#[test]
fn replay_refuses_what_it_cannot_apply() {
    let replayed = |entry: VersionedCommitLogEntry| {
        let mut engine = open_versioned(Store::new());
        let notes = engine.register_table(descriptor()).expect("registers");
        engine
            .replay_versioned(VersionedReplay::new(notes, vec![entry]))
            .map(|receipt| receipt.applied())
    };
    assert!(matches!(
        replayed(entry(SemaOperation::Assert, None, VersionedPayload::record(vec![1]))),
        Err(Error::ReplayMissingKey { family }) if family == "note"
    ));
    let key = || Some(RecordKey::domain("alpha"));
    assert!(matches!(
        replayed(entry(SemaOperation::Match, key(), VersionedPayload::record(vec![1]))),
        Err(Error::ReplayUnsupportedOperation { operation }) if operation == "Match"
    ));
    assert!(matches!(
        replayed(entry(SemaOperation::Assert, key(), VersionedPayload::tombstone())),
        Err(Error::ReplayTombstonePayload { table }) if table == "notes"
    ));
    assert!(matches!(
        replayed(entry(SemaOperation::Retract, key(), VersionedPayload::tombstone())),
        Err(Error::RecordNotFound { key, .. }) if key == "alpha"
    ));
    assert!(matches!(
        replayed(entry(SemaOperation::Assert, key(), VersionedPayload::record(vec![1]))),
        Ok(1)
    ));
}

struct Notes;

impl FamilyDirectory for Notes {
    fn materialize(&self, row: RowMaterializer) -> Result<RowLanding, Error> {
        row.apply(TableReference::<EncodedRecord>::new(TableName::new("notes")))
    }
}

#[test]
fn a_parked_entry_under_a_foreign_digest_is_refused() {
    let mut engine = open_versioned(Store::new());
    let notes = engine.register_table(descriptor()).expect("registers");
    engine.begin_staged_group().expect("engages");
    engine
        .assert_record(Assertion::new(notes, note("alpha", "one")))
        .expect("buffers");
    engine.park_staged_group().expect("parks").expect("stages");

    let mut store = engine.into_store();
    let parked = store.staging_slot.expect("the slot is occupied");
    let doctored = parked.entries()[0].clone().stored(EntryDigest::new([7; 32]));
    store.staging_slot = Some(StagedOperationGroup::new(vec![doctored], Vec::new()));

    let mut engine = open_versioned(store);
    engine.register_table(descriptor()).expect("registers");
    let error = engine
        .materialize_staged_group(&Notes)
        .expect_err("the digest does not recompute");
    assert!(matches!(
        error,
        Error::StagedGroupDigestMismatch { sequence: 1, staged, .. }
            if staged == EntryDigest::new([7; 32])
    ));
    assert!(engine.staged_group().is_some());
    assert!(engine.versioned_commit_log().is_empty());
}

struct ClosedSink;

impl SubscriptionSink<EncodedRecord> for ClosedSink {
    fn deliver(&self, _event: SubscriptionEvent<EncodedRecord>) -> Result<(), SinkError> {
        Err(SinkError::new("queue closed"))
    }
}

#[test]
fn a_sink_that_refuses_the_initial_snapshot_subscribes_to_nothing() {
    let mut engine = open_versioned(Store::new());
    let notes = engine.register_table(descriptor()).expect("registers");
    let Err(error) = engine.subscribe(QueryPlan::all(notes), &ClosedSink) else {
        panic!("the sink refused");
    };
    assert!(matches!(error, Error::SubscriptionSink { message } if message == "queue closed"));
    engine
        .assert_record(Assertion::new(notes, note("alpha", "one")))
        .expect("asserts");
    assert!(engine.take_deltas().is_empty());
}

/// A key that archives to the bytes that it is made of, unless there are
/// none.
struct ByteKey(Vec<u8>);

impl DomainRecordKey for ByteKey {
    fn archive(&self) -> Result<Vec<u8>, String> {
        if self.0.is_empty() {
            Err("nothing to archive".to_string())
        } else {
            Ok(self.0.clone())
        }
    }
}

struct NoteTable;

impl TableSpecification for NoteTable {
    type Record = EncodedRecord;
    type Key = ByteKey;

    fn table_name() -> TableName {
        TableName::new("notes")
    }

    fn family_name() -> &'static str {
        "note"
    }

    fn schema_hash() -> SchemaHash {
        SchemaHash::for_label("note-v1")
    }
}

#[test]
fn a_declared_table_is_addressed_by_archived_keys() {
    let mut engine = open_versioned(Store::new());
    engine.register_table(NoteTable::descriptor()).expect("registers");
    let key = ByteKey(vec![0, 0x1f, 0xa0]);
    assert_eq!(
        NoteTable::record_key(&key).expect("archives").to_owned_string(),
        "rkyv:001fa0"
    );
    let record = note("rkyv:001fa0", "one");
    engine
        .assert_keyed(NoteTable::assertion(&key, record.clone()).expect("archives"))
        .expect("asserts");
    let found = engine
        .match_records(NoteTable::query(&key).expect("archives"))
        .expect("reads");
    assert_eq!(found.records(), &[record]);

    let empty = ByteKey(Vec::new());
    assert!(matches!(
        NoteTable::record_key(&empty),
        Err(Error::DomainKeyArchive { message }) if message == "nothing to archive"
    ));
    assert!(NoteTable::assertion(&empty, note("x", "y")).is_err());
    assert!(NoteTable::query(&empty).is_err());
}

#[test]
fn bytes_that_hold_no_checkpoint_are_refused() {
    let portable = PortableCheckpoint::from_bytes(vec![1, 2, 3]);
    assert_eq!(portable.as_bytes(), &[1, 2, 3]);
    assert!(matches!(
        portable.accept(Err("no archive".to_string())),
        Err(Error::CheckpointDecode { message }) if message == "no archive"
    ));
}

#[test]
fn a_sequence_that_was_never_committed_has_no_durability() {
    let engine = open_versioned(Store::new());
    assert!(matches!(
        engine.durability_of(CommitSequence::new(4)),
        Err(Error::UnknownCommitSequence { sequence: 4 })
    ));
}

#[test]
fn an_identifier_that_holds_nothing_is_not_found() {
    let mut engine = open_versioned(Store::new());
    let tallies = engine
        .register_identified_table(IdentifiedTableDescriptor::new(
            TableName::new("tallies"),
            FamilyName::new("tally"),
            SchemaHash::for_label("tally-v1"),
        ))
        .expect("registers");
    let absent = RecordIdentifier::new(9);
    assert!(matches!(
        engine.mutate_identified(IdentifiedMutation::new(tallies, absent, note("9", "x"))),
        Err(Error::RecordNotFound { table, key }) if table == "tallies" && key == "9"
    ));
    assert!(matches!(
        engine.retract_identified(IdentifiedRetraction::<EncodedRecord>::new(tallies, absent)),
        Err(Error::RecordNotFound { table, key }) if table == "tallies" && key == "9"
    ));
    assert_eq!(engine.current_commit_sequence().value(), 0);
}

#[test]
fn a_keyed_assertion_is_refused_on_a_held_key() {
    let mut engine = open_versioned(Store::new());
    let notes = engine.register_table(descriptor()).expect("registers");
    let keyed = || KeyedAssertion::new(notes, RecordKey::domain("alpha"), note("alpha", "one"));
    engine.assert_keyed(keyed()).expect("asserts");
    assert!(matches!(
        engine.assert_keyed(keyed()),
        Err(Error::DuplicateAssertKey { table, key }) if table == "notes" && key == "alpha"
    ));
    let range = KeyRange::between(RecordKey::domain("a"), RecordKey::domain("b"));
    assert_eq!(
        engine
            .match_records(QueryPlan::key_range(notes, range))
            .expect("reads")
            .records()
            .len(),
        1
    );
}
