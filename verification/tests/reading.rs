//! Records that were archived elsewhere are read back before they land, are
//! replayed or are announced.

use sema_engine::{
    Assertion, DeltaAnnouncer, DeltaKind, EncodedRecord, Engine, EngineOpen, EngineStoredValue,
    Error, FamilyIdentity, FamilyName, IdentifiedTableReference, QueryPlan, RecordIdentifier,
    RecordKey, Retraction, RowMaterializer, SchemaHash, SnapshotIdentifier, Store, TableDescriptor,
    TableName, TableReference, VersionedPayload, VersionedReplay, VersionedStoreName,
    VersioningPolicy, ViewRow,
};

/// Records that are archived pairs of texts.
struct Pair;

impl EngineStoredValue for Pair {
    fn read_back(bytes: &[u8]) -> Result<(), String> {
        rkyv::from_bytes::<(String, String), rkyv::rancor::Error>(bytes)
            .map(|_| ())
            .map_err(|error| error.to_string())
    }
}

fn pair(key: &str, body: &str) -> EncodedRecord {
    let bytes = rkyv::to_bytes::<rkyv::rancor::Error>(&(key.to_owned(), body.to_owned()))
        .expect("archives")
        .to_vec();
    EncodedRecord::new(RecordKey::domain(key), bytes)
}

fn garbage(key: &str) -> EncodedRecord {
    EncodedRecord::new(RecordKey::domain(key), vec![1, 2, 3])
}

fn identity() -> FamilyIdentity {
    FamilyIdentity::new(
        FamilyName::new("pair"),
        SchemaHash::for_label("pair-v1"),
        TableName::new("pairs"),
    )
}

fn open() -> (Engine, TableReference<EncodedRecord>) {
    let mut engine = Engine::open(
        EngineOpen::new(Store::new())
            .with_versioning(VersioningPolicy::new(VersionedStoreName::new("reading"))),
    )
    .expect("opens");
    let table = engine
        .register_table(TableDescriptor::<EncodedRecord>::new(
            TableName::new("pairs"),
            FamilyName::new("pair"),
            SchemaHash::for_label("pair-v1"),
        ))
        .expect("registers");
    (engine, table)
}

fn pairs() -> TableReference<Pair> {
    TableReference::new(TableName::new("pairs"))
}

fn held(engine: &Engine, table: TableReference<EncodedRecord>) -> Vec<EncodedRecord> {
    engine
        .match_records(QueryPlan::all(table))
        .expect("reads")
        .records()
        .to_vec()
}

#[test]
fn a_replay_stops_at_a_record_that_does_not_read_back() {
    let (mut source, table) = open();
    source.assert_record(Assertion::new(table, pair("alpha", "one"))).expect("asserts");
    source.assert_record(Assertion::new(table, garbage("beta"))).expect("asserts");
    source.assert_record(Assertion::new(table, pair("gamma", "three"))).expect("asserts");
    let entries = source.versioned_commit_log();

    let (mut target, table) = open();
    let Err(error) = target.replay_versioned(VersionedReplay::new(pairs(), entries.clone())) else {
        panic!("a record that does not read back must be refused");
    };
    assert!(matches!(
        &error,
        Error::VersionedPayloadDecode { table, message } if table == "pairs" && !message.is_empty()
    ));
    // What was applied before the refusal stands, and nothing after it.
    assert_eq!(held(&target, table), vec![pair("alpha", "one")]);
    assert_eq!(target.commit_log().len(), 1);

    // Held as its bytes, every record reads back.
    let (mut bytes, table) = open();
    let receipt = bytes.replay_versioned(VersionedReplay::new(table, entries)).expect("replays");
    assert_eq!(receipt.applied(), 3);
}

#[test]
fn a_replay_reads_only_what_it_writes() {
    let (mut source, table) = open();
    source.assert_record(Assertion::new(table, garbage("alpha"))).expect("asserts");
    source
        .retract(Retraction::<EncodedRecord>::new(table, RecordKey::domain("alpha")))
        .expect("retracts");
    let entries = source.versioned_commit_log();

    // A retraction has nothing to read.
    let (mut target, table) = open();
    target.assert_record(Assertion::new(table, pair("alpha", "one"))).expect("asserts");
    let receipt = target
        .replay_versioned(VersionedReplay::new(pairs(), entries[1..].to_vec()))
        .expect("replays");
    assert_eq!((receipt.applied(), receipt.skipped()), (1, 0));
    assert_eq!(held(&target, table), vec![]);

    // A record of another family is skipped unread.
    let mut other = Engine::open(EngineOpen::new(Store::new())).expect("opens");
    let elsewhere = other
        .register_table(TableDescriptor::<EncodedRecord>::new(
            TableName::new("others"),
            FamilyName::new("other"),
            SchemaHash::for_label("other-v1"),
        ))
        .expect("registers");
    let typed: TableReference<Pair> = TableReference::new(*elsewhere.name());
    let receipt = other
        .replay_versioned(VersionedReplay::new(typed, entries))
        .expect("replays");
    assert_eq!((receipt.applied(), receipt.skipped()), (0, 2));
}

#[test]
fn a_replay_goes_by_what_it_is_told_was_read() {
    let (mut source, table) = open();
    source.assert_record(Assertion::new(table, pair("alpha", "one"))).expect("asserts");
    source.assert_record(Assertion::new(table, pair("beta", "two"))).expect("asserts");
    let entries = source.versioned_commit_log();
    let (mut target, table) = open();
    let told = vec![Ok(()), Err("not a pair".to_owned())];
    let refused =
        target.replay_versioned_read(VersionedReplay::new(table, entries.clone()), told);
    assert!(matches!(
        refused,
        Err(Error::VersionedPayloadDecode { table, message })
            if table == "pairs" && message == "not a pair"
    ));
    assert_eq!(held(&target, table), vec![pair("alpha", "one")]);
    let rest = target
        .replay_versioned_read(VersionedReplay::new(table, entries[1..].to_vec()), Vec::new())
        .expect("replays");
    assert_eq!(rest.applied(), 1);
}

#[test]
fn a_row_lands_only_if_it_reads_back() {
    let row = |record: EncodedRecord| {
        RowMaterializer::new(ViewRow::new(
            identity(),
            record.key().clone(),
            VersionedPayload::record(record.bytes().clone()),
        ))
    };
    assert!(row(pair("alpha", "one")).apply(pairs()).expect("applies").lands());
    assert!(matches!(
        row(garbage("alpha")).apply(pairs()),
        Err(Error::VersionedPayloadDecode { .. })
    ));
    let foreign: TableReference<Pair> = TableReference::new(TableName::new("others"));
    assert!(matches!(
        row(garbage("alpha")).apply(foreign),
        Err(Error::MaterializeTableMismatch { .. })
    ));
    let identified: IdentifiedTableReference<Pair> =
        IdentifiedTableReference::new(TableName::new("pairs"));
    let numbered = RowMaterializer::new(ViewRow::new(
        identity(),
        RecordKey::identifier(RecordIdentifier::new(1)),
        VersionedPayload::record(vec![1, 2, 3]),
    ));
    assert!(matches!(
        numbered.apply_identified(identified),
        Err(Error::VersionedPayloadDecode { .. })
    ));
}

#[test]
fn an_announcement_is_refused_where_its_record_does_not_read_back() {
    let delta = |record: EncodedRecord| {
        DeltaAnnouncer::new(
            DeltaKind::Assert,
            identity(),
            record.key().clone(),
            SnapshotIdentifier::new(1),
            record.bytes().clone(),
        )
    };
    let named = delta(pair("alpha", "one")).announce(pairs()).expect("announces");
    assert_eq!(named, Some(TableName::new("pairs")));
    assert!(matches!(
        delta(garbage("alpha")).announce(pairs()),
        Err(Error::VersionedPayloadDecode { .. })
    ));
    // The table is looked at first.
    let foreign: IdentifiedTableReference<Pair> =
        IdentifiedTableReference::new(TableName::new("others"));
    assert!(matches!(
        delta(garbage("alpha")).announce_identified(foreign),
        Err(Error::MaterializeTableMismatch { .. })
    ));
    assert!(matches!(
        delta(pair("alpha", "one")).announce_read(pairs(), Err("not a pair".to_owned())),
        Err(Error::VersionedPayloadDecode { message, .. }) if message == "not a pair"
    ));
    assert!(matches!(
        delta(pair("alpha", "one"))
            .announce_identified_read(
                IdentifiedTableReference::<Pair>::new(TableName::new("pairs")),
                Ok(()),
            ),
        Ok(Some(_))
    ));
}
