//! Histories on given values: what a rebuild, an import and an evolution
//! give back, and which rows a directory lets land.

use sema_engine::{
    Assertion, CommitSequence, EncodedRecord, Engine, EngineOpen, Error, FamilyDirectory,
    FamilyName, IdentifiedAssertion, IdentifiedMutation, IdentifiedQueryPlan,
    IdentifiedRetraction, IdentifiedTableDescriptor, IdentifiedTableReference, Mutation, PriorCarry,
    QueryPlan, RecordIdentifier, RecordKey, Retraction, RowLanding, RowMaterializer, SchemaHash,
    SemaOperation, Store, TableDescriptor, TableName, TableReference, VersionedPayload,
    VersionedStoreName, VersioningPolicy, ViewRow,
};

fn note(key: &str, body: &str) -> EncodedRecord {
    EncodedRecord::new(RecordKey::domain(key), body.as_bytes().to_vec())
}

fn notes() -> TableReference<EncodedRecord> {
    TableReference::new(TableName::new("notes"))
}

fn tallies() -> IdentifiedTableReference<EncodedRecord> {
    IdentifiedTableReference::new(TableName::new("tallies"))
}

fn descriptor(label: &str) -> TableDescriptor<EncodedRecord> {
    TableDescriptor::new(
        TableName::new("notes"),
        FamilyName::new("note"),
        SchemaHash::for_label(label),
    )
}

fn tally_descriptor() -> IdentifiedTableDescriptor<EncodedRecord> {
    IdentifiedTableDescriptor::new(
        TableName::new("tallies"),
        FamilyName::new("tally"),
        SchemaHash::for_label("tally-v1"),
    )
}

fn open(store: Store) -> Engine {
    Engine::open(
        EngineOpen::new(store)
            .with_versioning(VersioningPolicy::new(VersionedStoreName::new("histories"))),
    )
    .expect("engine opens")
}

fn seeded() -> Engine {
    let mut engine = open(Store::new());
    engine.register_table(descriptor("note-v1")).expect("registers");
    engine.register_identified_table(tally_descriptor()).expect("registers");
    engine
}

fn put(engine: &mut Engine, key: &str, body: &str) {
    engine
        .assert_record(Assertion::new(notes(), note(key, body)))
        .expect("asserts");
}

fn count(engine: &mut Engine, body: &str) -> u64 {
    engine
        .assert_identified(IdentifiedAssertion::new(tallies(), note("-", body)))
        .expect("asserts")
        .identifier()
        .value()
}

fn held(engine: &Engine) -> Vec<EncodedRecord> {
    engine
        .match_records(QueryPlan::all(notes()))
        .expect("reads")
        .records()
        .to_vec()
}

fn counted(engine: &Engine) -> Vec<(u64, Vec<u8>)> {
    engine
        .match_identified(IdentifiedQueryPlan::all(tallies()))
        .expect("reads")
        .records()
        .iter()
        .map(|row| (row.identifier().value(), row.value().bytes().clone()))
        .collect()
}

/// Applies every row.
struct Families;

impl FamilyDirectory for Families {
    fn materialize(&self, row: RowMaterializer) -> Result<RowLanding, Error> {
        match row.family().table_name() {
            "notes" => row.apply(notes()),
            _ => row.apply_identified(tallies()),
        }
    }
}

/// Applies the rows of one table and leaves the others out.
struct NotesOnly;

impl FamilyDirectory for NotesOnly {
    fn materialize(&self, row: RowMaterializer) -> Result<RowLanding, Error> {
        match row.family().table_name() {
            "notes" => row.apply(notes()),
            _ => Ok(RowLanding::left_out()),
        }
    }
}

/// Puts a word in front of the stored body.
struct Prefixed(&'static str);

impl PriorCarry for Prefixed {
    fn carry(&self, _prior: SchemaHash, _key: &str, bytes: &[u8]) -> Result<Vec<u8>, Error> {
        let mut carried = self.0.as_bytes().to_vec();
        carried.extend_from_slice(bytes);
        Ok(carried)
    }
}

fn import_of(source: &Engine, from: u64, directory: &impl FamilyDirectory) -> Engine {
    let checkpoint = source
        .latest_checkpoint()
        .expect("reads")
        .expect("a checkpoint stands");
    let mut target = open(Store::new());
    let mut session = target.begin_import().expect("begins");
    session.ingest_checkpoint(checkpoint).expect("ingests");
    session.ingest_suffix(source.versioned_replay_from_sequence(CommitSequence::new(from)));
    session.commit(&mut target, directory).expect("imports");
    target
}

#[test]
fn a_rebuild_past_a_checkpoint_changes_nothing() {
    let mut engine = seeded();
    put(&mut engine, "alpha", "one");
    put(&mut engine, "beta", "two");
    count(&mut engine, "first");
    engine.checkpoint().expect("checkpoints");
    engine
        .mutate(Mutation::new(notes(), note("alpha", "three")))
        .expect("mutates");
    engine
        .retract(Retraction::<EncodedRecord>::new(notes(), RecordKey::domain("beta")))
        .expect("retracts");
    engine.checkpoint().expect("checkpoints again");
    put(&mut engine, "gamma", "four");
    let before = (held(&engine), counted(&engine));
    let receipt = engine.rebuild_from_log(&Families).expect("rebuilds");
    assert_eq!(receipt.folded_entry_count(), 1);
    assert_eq!(receipt.row_count(), 3);
    assert_eq!((held(&engine), counted(&engine)), before);
    assert_eq!(before.0, vec![note("alpha", "three"), note("gamma", "four")]);
}

#[test]
fn a_rebuild_of_an_imported_store_changes_nothing() {
    let mut source = seeded();
    put(&mut source, "alpha", "one");
    source.checkpoint().expect("checkpoints");
    put(&mut source, "beta", "two");
    let mut target = import_of(&source, 2, &Families);
    target
        .mutate(Mutation::new(notes(), note("alpha", "three")))
        .expect("mutates");
    let before = held(&target);
    target.rebuild_from_log(&Families).expect("rebuilds");
    assert_eq!(held(&target), before);
    target.checkpoint().expect("checkpoints");
    target.rebuild_from_log(&Families).expect("rebuilds");
    assert_eq!(held(&target), before);
    assert_eq!(before, vec![note("alpha", "three"), note("beta", "two")]);
}

#[test]
fn a_rebuild_gives_back_the_rows_that_an_evolution_carried() {
    let mut engine = seeded();
    put(&mut engine, "alpha", "one");
    put(&mut engine, "beta", "two");
    engine.checkpoint().expect("checkpoints");
    let mut engine = open(engine.into_store());
    engine
        .register_table(
            descriptor("note-v2").with_prior(SchemaHash::for_label("note-v1"), Prefixed("v2 ")),
        )
        .expect("evolves");
    let carried = vec![note("alpha", "v2 one"), note("beta", "v2 two")];
    assert_eq!(held(&engine), carried);
    let receipt = engine.rebuild_from_log(&Families).expect("rebuilds");
    assert_eq!(receipt.row_count(), 2);
    assert_eq!(receipt.cleared_count(), 2);
    assert_eq!(held(&engine), carried);
}

#[test]
fn of_two_declarations_of_one_generation_the_earlier_counts() {
    let mut engine = seeded();
    put(&mut engine, "alpha", "one");
    let mut engine = open(engine.into_store());
    let prior = SchemaHash::for_label("note-v1");
    engine
        .register_table(
            descriptor("note-v2")
                .with_prior(SchemaHash::for_label("note-v0"), Prefixed("zeroth "))
                .with_prior(prior, Prefixed("earlier "))
                .with_prior(prior, Prefixed("later ")),
        )
        .expect("evolves");
    assert_eq!(held(&engine), vec![note("alpha", "earlier one")]);
}

#[test]
fn an_evolution_waits_for_the_staging_session() {
    let mut engine = seeded();
    put(&mut engine, "alpha", "one");
    let mut engine = open(engine.into_store());
    engine.begin_staged_group().expect("engages");
    let refused = engine.register_table(
        descriptor("note-v2").with_prior(SchemaHash::for_label("note-v1"), Prefixed("v2 ")),
    );
    assert!(matches!(refused, Err(Error::StagingSessionEngaged)));
    engine.abandon_staged_group();
    assert_eq!(held(&engine), vec![note("alpha", "one")]);
}

#[test]
fn rows_given_as_carried_land_as_they_are() {
    let mut engine = seeded();
    put(&mut engine, "alpha", "one");
    let mut engine = open(engine.into_store());
    let declared =
        || descriptor("note-v2").with_prior(SchemaHash::for_label("note-v1"), Prefixed("unused "));
    let refusal = Error::Sema { message: "not read".to_owned() };
    let refused = engine.register_carried_table(declared(), Err(refusal));
    assert!(matches!(refused, Err(Error::Sema { .. })));
    assert_eq!(held(&engine), vec![note("alpha", "one")]);
    engine
        .register_carried_table(declared(), Ok(vec![b"given".to_vec()]))
        .expect("evolves");
    assert_eq!(held(&engine), vec![note("alpha", "given")]);
}

#[test]
fn a_row_that_a_directory_leaves_out_does_not_land() {
    let mut source = seeded();
    put(&mut source, "alpha", "one");
    count(&mut source, "first");
    source.checkpoint().expect("checkpoints");
    count(&mut source, "second");
    let target = import_of(&source, 3, &NotesOnly);
    assert_eq!(held(&target), vec![note("alpha", "one")]);
    assert_eq!(counted(&target), vec![]);

    // A rebuild leaves what stands as it is, where nothing is applied.
    let mut store = source.into_store();
    store.tables = sema_engine::tables::RecordTables::new();
    let mut emptied = open(store);
    let receipt = emptied.rebuild_from_log(&NotesOnly).expect("rebuilds");
    assert_eq!(receipt.row_count(), 3);
    assert_eq!(held(&emptied), vec![note("alpha", "one")]);
    assert_eq!(counted(&emptied), vec![]);
}

#[test]
fn a_staged_row_that_a_directory_leaves_out_does_not_land() {
    let mut engine = seeded();
    engine.begin_staged_group().expect("engages");
    put(&mut engine, "alpha", "one");
    count(&mut engine, "first");
    engine.park_staged_group().expect("parks").expect("stages");
    let receipt = engine.materialize_staged_group(&NotesOnly).expect("lands");
    assert_eq!(receipt.entry_count(), 2);
    assert_eq!(held(&engine), vec![note("alpha", "one")]);
    assert_eq!(counted(&engine), vec![]);
    assert_eq!(engine.versioned_commit_log().len(), 2);
}

#[test]
fn rows_land_by_the_directorys_word() {
    let mut engine = seeded();
    put(&mut engine, "alpha", "one");
    put(&mut engine, "beta", "two");
    let mut store = engine.into_store();
    store.tables = sema_engine::tables::RecordTables::new();
    let mut engine = open(store);
    let refusal = Error::FamilyUnknown { family: "note".to_owned() };
    assert!(matches!(
        engine.rebuild_with(Err(refusal)),
        Err(Error::FamilyUnknown { .. })
    ));
    assert_eq!(held(&engine), vec![]);
    engine.rebuild_with(Ok(vec![false, true])).expect("rebuilds");
    assert_eq!(held(&engine), vec![note("beta", "two")]);
    engine.rebuild_with(Ok(vec![true])).expect("rebuilds");
    assert_eq!(held(&engine), vec![note("alpha", "one"), note("beta", "two")]);
}

#[test]
fn a_payload_that_does_not_read_back_refuses_its_row() {
    let engine = seeded();
    let family = engine.list_tables()[0].identity().clone();
    let row = |payload| {
        RowMaterializer::new(ViewRow::new(family.clone(), RecordKey::domain("alpha"), payload))
    };
    let record = || VersionedPayload::record(b"one".to_vec());
    let unread = || Err("bad archive".to_owned());
    let Err(error) = row(record()).apply_read(notes(), unread()) else {
        panic!("an unread record must be refused");
    };
    assert!(matches!(
        &error,
        Error::VersionedPayloadDecode { table, message }
            if table == "notes" && message == "bad archive"
    ));
    assert!(row(record()).apply_read(notes(), Ok(())).expect("applies").lands());
    assert!(row(VersionedPayload::tombstone())
        .apply_read(notes(), unread())
        .expect("a tombstone has nothing to read")
        .lands());
    assert!(matches!(
        row(record()).apply_identified_read(tallies(), unread()),
        Err(Error::MaterializeTableMismatch { .. })
    ));
    let same_table = IdentifiedTableReference::<EncodedRecord>::new(TableName::new("notes"));
    assert!(matches!(
        row(record()).apply_identified_read(same_table, Ok(())),
        Err(Error::MaterializeKeyKindMismatch { .. })
    ));
    assert!(!RowLanding::left_out().lands());
}

#[test]
fn an_assertion_and_its_retraction_are_logged_as_two_commits() {
    let mut engine = seeded();
    let asserted = engine
        .assert_record(Assertion::new(notes(), note("alpha", "one")))
        .expect("asserts");
    let retraction = || Retraction::<EncodedRecord>::new(notes(), RecordKey::domain("alpha"));
    let retracted = engine.retract(retraction()).expect("retracts");
    assert_eq!(asserted.commit_sequence(), CommitSequence::new(1));
    assert_eq!(retracted.commit_sequence(), CommitSequence::new(2));
    assert_eq!(retracted.snapshot().value(), asserted.snapshot().value() + 1);
    let log = engine.commit_log();
    assert_eq!(log.len(), 2);
    assert_eq!(log[0].operations().head().operation(), SemaOperation::Assert);
    assert_eq!(log[1].operations().head().operation(), SemaOperation::Retract);
    let versioned = engine.versioned_commit_log();
    let last = versioned[1].operations().head();
    assert_eq!(last.operation(), SemaOperation::Retract);
    assert_eq!(*last.payload(), VersionedPayload::tombstone());
    assert_eq!(versioned[1].previous_entry_digest(), Some(versioned[0].entry_digest()));
    assert!(matches!(
        engine.retract(retraction()),
        Err(Error::RecordNotFound { .. })
    ));
    assert_eq!(engine.commit_log().len(), 2);
}

#[test]
fn identifiers_count_from_one_across_refusals_and_reopening() {
    let mut engine = seeded();
    let mut taken = vec![count(&mut engine, "a"), count(&mut engine, "b")];
    engine
        .mutate_identified(IdentifiedMutation::new(
            tallies(),
            RecordIdentifier::new(1),
            note("-", "c"),
        ))
        .expect("mutates");
    engine
        .retract_identified(IdentifiedRetraction::<EncodedRecord>::new(
            tallies(),
            RecordIdentifier::new(2),
        ))
        .expect("retracts");
    let mut engine = open(engine.into_store());
    let refused = engine.retract_identified(IdentifiedRetraction::<EncodedRecord>::new(
        tallies(),
        RecordIdentifier::new(2),
    ));
    assert!(matches!(refused, Err(Error::RecordNotFound { .. })));
    taken.push(count(&mut engine, "d"));
    let mut engine = open(engine.into_store());
    taken.push(count(&mut engine, "e"));
    assert_eq!(taken, vec![1, 2, 3, 4]);
}

#[test]
fn an_import_equals_its_source() {
    let mut source = seeded();
    put(&mut source, "alpha", "one");
    count(&mut source, "first");
    source.checkpoint().expect("checkpoints");
    put(&mut source, "beta", "two");
    count(&mut source, "second");
    let checkpoint = source
        .latest_checkpoint()
        .expect("reads")
        .expect("a checkpoint stands");
    let suffix = source.versioned_replay_from_sequence(CommitSequence::new(3));
    let mut target = open(Store::new());
    let mut session = target.begin_import().expect("begins");
    session.ingest_checkpoint(checkpoint).expect("ingests");
    session.ingest_suffix(suffix.clone());
    let receipt = session.commit(&mut target, &Families).expect("imports");
    assert_eq!(receipt.covered().first(), CommitSequence::new(1));
    assert_eq!(receipt.covered().last(), CommitSequence::new(2));
    assert_eq!(receipt.suffix_count(), 2);
    assert_eq!(receipt.commit_sequence(), CommitSequence::new(4));
    assert_eq!(held(&target), held(&source));
    assert_eq!(counted(&target), counted(&source));
    assert_eq!(target.list_tables(), source.list_tables());
    assert_eq!(target.current_commit_sequence(), source.current_commit_sequence());
    assert_eq!(target.latest_snapshot(), source.latest_snapshot());
    assert_eq!(target.versioned_commit_log(), suffix);
    assert_eq!(target.commit_log(), source.commit_log()[2..].to_vec());
    // The next identifier is one that the source never handed out.
    assert_eq!(count(&mut target, "third"), 3);
    assert_eq!(counted(&target).len(), 3);
}

#[test]
fn the_log_is_contiguous_and_the_outbox_is_the_log_past_the_cursor() {
    let mut engine = seeded();
    put(&mut engine, "alpha", "one");
    count(&mut engine, "first");
    put(&mut engine, "beta", "two");
    let versioned = engine.versioned_commit_log();
    let commits = engine.commit_log();
    assert_eq!(versioned.len(), 3);
    for at in 0..3 {
        let sequence = CommitSequence::new(at as u64 + 1);
        assert_eq!(versioned[at].commit_sequence(), sequence);
        assert_eq!(versioned[at].store_name().as_str(), "histories");
        assert_eq!(commits[at].commit_sequence(), sequence);
        assert_eq!(commits[at].snapshot(), versioned[at].snapshot());
        assert_eq!(
            commits[at].operations().head().key(),
            versioned[at].operations().head().key(),
        );
    }
    engine
        .acknowledge_mirror(sema_engine::MirrorHead::new(
            CommitSequence::new(1),
            versioned[0].entry_digest(),
        ))
        .expect("acknowledges");
    let waiting: Vec<_> = engine
        .unshipped_outbox()
        .iter()
        .map(|row| (row.commit_sequence(), row.entry_digest()))
        .collect();
    assert_eq!(
        waiting,
        vec![
            (CommitSequence::new(2), versioned[1].entry_digest()),
            (CommitSequence::new(3), versioned[2].entry_digest()),
        ],
    );

    let mut plain = Engine::open(EngineOpen::new(Store::new())).expect("opens");
    plain.register_table(descriptor("note-v1")).expect("registers");
    put(&mut plain, "alpha", "one");
    assert_eq!(plain.commit_log().len(), 1);
    assert!(plain.versioned_commit_log().is_empty());
}

#[test]
fn other_inventories_have_other_schema_hashes() {
    let mut one = open(Store::new());
    one.register_table(descriptor("note-v1")).expect("registers");
    let mut other = open(Store::new());
    other.register_table(descriptor("note-v2")).expect("registers");
    let two = seeded();
    assert_ne!(one.store_schema_hash(), other.store_schema_hash());
    assert_ne!(one.store_schema_hash(), two.store_schema_hash());
}

#[test]
fn a_read_of_all_rows_rises_by_key() {
    let mut engine = seeded();
    for key in ["gamma", "alpha", "beta", "Omega"] {
        put(&mut engine, key, key);
    }
    let keys: Vec<String> =
        held(&engine).iter().map(|row| row.key().to_owned_string()).collect();
    assert_eq!(keys, vec!["Omega", "alpha", "beta", "gamma"]);
}
