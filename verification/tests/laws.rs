//! The library's laws, each on given values.

use sema_engine::{
    Assertion, AtomicCommit, CanonicalView, CommitSequence, Durability, EncodedRecord, Engine,
    EngineOpen, EntryDigest, Error, FamilyDirectory, FamilyName, IdentifiedAssertion,
    IdentifiedQueryPlan, IdentifiedRetraction, IdentifiedTableDescriptor,
    IdentifiedTableReference, MirrorAcknowledgement, MirrorHead, Mutation, QueryPlan,
    RecordIdentifier, RecordKey, Retraction, RowLanding, RowMaterializer, SchemaHash, Store,
    TableDescriptor, TableName, TableReference, VersionedReplay, VersionedStoreName,
    VersioningPolicy,
};

fn note(key: &str, body: &str) -> EncodedRecord {
    EncodedRecord::new(RecordKey::domain(key), body.as_bytes().to_vec())
}

fn descriptor(table: &'static str, family: &str) -> TableDescriptor<EncodedRecord> {
    TableDescriptor::new(
        TableName::new(table),
        FamilyName::new(family),
        SchemaHash::for_label("v1"),
    )
}

fn tally_descriptor() -> IdentifiedTableDescriptor<EncodedRecord> {
    IdentifiedTableDescriptor::new(
        TableName::new("tallies"),
        FamilyName::new("tally"),
        SchemaHash::for_label("v1"),
    )
}

fn open(store: Store) -> Engine {
    Engine::open(
        EngineOpen::new(store)
            .with_versioning(VersioningPolicy::new(VersionedStoreName::new("notebook"))),
    )
    .expect("engine opens")
}

struct Book {
    engine: Engine,
    notes: TableReference<EncodedRecord>,
    drafts: TableReference<EncodedRecord>,
    tallies: IdentifiedTableReference<EncodedRecord>,
}

impl Book {
    fn new() -> Self {
        Book::over(Store::new())
    }

    fn over(store: Store) -> Self {
        let mut engine = open(store);
        let notes = engine.register_table(descriptor("notes", "note")).expect("registers");
        let drafts = engine.register_table(descriptor("drafts", "draft")).expect("registers");
        let tallies = engine.register_identified_table(tally_descriptor()).expect("registers");
        Book { engine, notes, drafts, tallies }
    }

    fn put(&mut self, key: &str, body: &str) {
        let assertion = Assertion::new(self.notes, note(key, body));
        self.engine.assert_record(assertion).expect("asserts");
    }

    fn held(&self, table: TableReference<EncodedRecord>) -> Vec<EncodedRecord> {
        self.engine
            .match_records(QueryPlan::all(table))
            .expect("reads")
            .records()
            .to_vec()
    }

    fn count(&mut self, body: &str) -> u64 {
        let assertion = IdentifiedAssertion::new(self.tallies, note("-", body));
        self.engine
            .assert_identified(assertion)
            .expect("asserts")
            .identifier()
            .value()
    }
}

struct Families;

impl FamilyDirectory for Families {
    fn materialize(&self, row: RowMaterializer) -> Result<RowLanding, Error> {
        match row.family().table_name() {
            "notes" => row.apply(TableReference::<EncodedRecord>::new(TableName::new("notes"))),
            "drafts" => row.apply(TableReference::<EncodedRecord>::new(TableName::new("drafts"))),
            _ => row.apply_identified(IdentifiedTableReference::<EncodedRecord>::new(
                TableName::new("tallies"),
            )),
        }
    }
}

#[test]
fn a_write_reads_back_and_leaves_the_other_tables() {
    let mut book = Book::new();
    let draft = Assertion::new(book.drafts, note("alpha", "draft"));
    book.engine.assert_record(draft).expect("asserts");
    book.put("alpha", "one");
    let mutation = Mutation::new(book.notes, note("alpha", "two"));
    book.engine.mutate(mutation).expect("mutates");
    assert_eq!(book.held(book.notes), vec![note("alpha", "two")]);
    assert_eq!(book.held(book.drafts), vec![note("alpha", "draft")]);
}

#[test]
fn a_retraction_undoes_an_assertion() {
    let mut book = Book::new();
    book.put("alpha", "one");
    let before = book.held(book.notes);
    book.put("beta", "two");
    let retraction = Retraction::<EncodedRecord>::new(book.notes, RecordKey::domain("beta"));
    book.engine.retract(retraction).expect("retracts");
    assert_eq!(book.held(book.notes), before);
    let found = book
        .engine
        .match_records(QueryPlan::key(book.notes, RecordKey::domain("beta")))
        .expect("reads");
    assert!(found.records().is_empty());
    // The key is free again.
    book.put("beta", "three");
}

#[test]
fn an_atomic_group_lands_once_over_several_tables() {
    let mut book = Book::new();
    book.put("old", "gone soon");
    let group = AtomicCommit::new()
        .assert_record(book.notes, note("alpha", "one"))
        .assert_record(book.drafts, note("alpha", "two"))
        .retract(book.notes, RecordKey::domain("old"));
    assert_eq!(group.operation_count(), 3);
    let receipt = book.engine.commit_atomic(group).expect("commits");
    assert_eq!(receipt.operation_count(), 3);
    assert_eq!(receipt.commit_sequence(), CommitSequence::new(2));
    assert_eq!(book.engine.commit_log().len(), 2);
    assert_eq!(book.engine.versioned_commit_log().len(), 2);
    assert_eq!(book.held(book.notes), vec![note("alpha", "one")]);
    assert_eq!(book.held(book.drafts), vec![note("alpha", "two")]);
}

#[test]
fn an_identifier_is_minted_once() {
    let mut book = Book::new();
    assert_eq!(book.count("one"), 1);
    assert_eq!(book.count("two"), 2);
    let retraction = IdentifiedRetraction::<EncodedRecord>::new(
        book.tallies,
        RecordIdentifier::new(2),
    );
    book.engine.retract_identified(retraction).expect("retracts");
    assert_eq!(book.count("three"), 3);
    let mut reopened = Book::over(book.engine.into_store());
    assert_eq!(reopened.count("four"), 4);
    let held = reopened
        .engine
        .match_identified(IdentifiedQueryPlan::all(reopened.tallies))
        .expect("reads");
    let identifiers: Vec<u64> =
        held.records().iter().map(|row| row.identifier().value()).collect();
    assert_eq!(identifiers, vec![1, 3, 4]);
}

#[test]
fn a_log_folds_in_two_parts_like_the_whole() {
    let mut book = Book::new();
    book.put("alpha", "one");
    book.put("beta", "two");
    let mutation = Mutation::new(book.notes, note("alpha", "three"));
    book.engine.mutate(mutation).expect("mutates");
    let log = book.engine.versioned_commit_log();

    let whole = CanonicalView::fold(&[], &log, None).expect("folds");
    let head = Some(log[0].entry_digest());
    let first = CanonicalView::fold(&[], &log[..1], None).expect("folds");
    let inventory: Vec<_> = book
        .engine
        .list_tables()
        .iter()
        .map(|registration| registration.identity().clone())
        .collect();
    let rows = first.into_rows(&inventory).expect("rows");
    let second = CanonicalView::fold(rows.rows(), &log[1..], head).expect("folds");
    assert_eq!(second.digest(), whole.digest());
}

#[test]
fn a_rebuild_changes_nothing_that_a_caller_reads() {
    let mut book = Book::new();
    book.put("alpha", "one");
    book.count("one");
    let retraction = Retraction::<EncodedRecord>::new(book.notes, RecordKey::domain("alpha"));
    book.engine.retract(retraction).expect("retracts");
    book.put("beta", "two");
    let notes = book.held(book.notes);
    let log = book.engine.versioned_commit_log();
    let receipt = book.engine.rebuild_from_log(&Families).expect("rebuilds");
    assert_eq!(receipt.row_count(), 2);
    assert_eq!(receipt.cleared_count(), 1);
    assert_eq!(book.held(book.notes), notes);
    assert_eq!(book.engine.versioned_commit_log(), log);
    assert_eq!(book.count("two"), 2);
}

#[test]
fn an_import_takes_over_minted_identifiers() {
    let mut source = Book::new();
    source.count("one");
    source.engine.checkpoint().expect("checkpoints");
    source.count("two");
    source.count("three");
    let checkpoint = source
        .engine
        .latest_checkpoint()
        .expect("reads")
        .expect("a checkpoint stands");
    let suffix = source.engine.versioned_replay_from_sequence(CommitSequence::new(2));
    assert_eq!(suffix.len(), 2);

    let mut target = open(Store::new());
    let mut session = target.begin_import().expect("mints");
    session.ingest_checkpoint(checkpoint).expect("ingests");
    session.ingest_suffix(suffix);
    session.commit(&mut target, &Families).expect("imports");
    assert_eq!(target.versioned_chain_head(), source.engine.versioned_chain_head());
    let mut target = Book::over(target.into_store());
    assert_eq!(target.count("four"), 4);
}

#[test]
fn an_import_without_a_suffix_continues_the_chain() {
    let mut source = Book::new();
    source.put("alpha", "one");
    source.engine.checkpoint().expect("checkpoints");
    let head = source.engine.versioned_chain_head();
    let checkpoint = source
        .engine
        .latest_checkpoint()
        .expect("reads")
        .expect("a checkpoint stands");

    let mut target = open(Store::new());
    let mut session = target.begin_import().expect("mints");
    session.ingest_checkpoint(checkpoint).expect("ingests");
    session.commit(&mut target, &Families).expect("imports");
    let mut target = Book::over(target.into_store());
    target.put("beta", "two");
    let log = target.engine.versioned_commit_log();
    assert_eq!(log.len(), 1);
    assert_eq!(log[0].previous_entry_digest(), head);
    assert_eq!(log[0].commit_sequence(), CommitSequence::new(2));
}

#[test]
fn a_mirror_cursor_only_advances() {
    let mut book = Book::new();
    book.put("alpha", "one");
    book.put("beta", "two");
    let rows = book.engine.unshipped_outbox();
    let early = MirrorHead::from(&rows[0]);
    let late = MirrorHead::from(&rows[1]);
    let confirmed = book.engine.acknowledge_mirror(late).expect("acknowledged");
    assert!(matches!(confirmed, MirrorAcknowledgement::Advanced(_)));
    let repeated = book.engine.acknowledge_mirror(early).expect("already held");
    assert!(matches!(repeated, MirrorAcknowledgement::Unchanged(_)));
    assert_eq!(book.engine.mirror_head(), Some(late));
    assert!(book.engine.unshipped_outbox().is_empty());
    let first = book.engine.durability_of(CommitSequence::new(1)).expect("known");
    assert_eq!(first, Durability::ServerCommitted);

    // A head of another history changes nothing.
    let forked = MirrorHead::new(CommitSequence::new(2), EntryDigest::new([9; 32]));
    assert!(matches!(
        book.engine.acknowledge_mirror(forked),
        Err(Error::MirrorHeadForked { sequence: 2, .. })
    ));
    assert_eq!(book.engine.mirror_head(), Some(late));

    // A new commit waits.
    book.put("gamma", "three");
    assert_eq!(book.engine.unshipped_outbox().len(), 1);
    let waiting = book.engine.durability_of(CommitSequence::new(3)).expect("known");
    assert_eq!(waiting, Durability::QueuedForMirror);
    assert_eq!(
        book.engine.durability_of(CommitSequence::new(1)).expect("known"),
        Durability::ServerCommitted
    );
}

#[test]
fn a_refused_replay_keeps_what_it_applied() {
    let mut source = Book::new();
    source.put("alpha", "one");
    source.put("beta", "two");
    let entries = source.engine.versioned_commit_log();

    let mut target = Book::new();
    target.put("beta", "held already");
    let refused = target
        .engine
        .replay_versioned(VersionedReplay::new(target.notes, entries));
    assert!(matches!(refused, Err(Error::DuplicateAssertKey { .. })));
    assert_eq!(
        target.held(target.notes),
        vec![note("alpha", "one"), note("beta", "held already")]
    );
}

#[test]
fn a_family_stays_registered_across_reopening() {
    let mut book = Book::new();
    book.put("alpha", "one");
    let hash = book.engine.store_schema_hash();
    let listed = book.engine.list_tables().len();
    let reopened = Book::over(book.engine.into_store());
    assert_eq!(reopened.engine.list_tables().len(), listed);
    assert_eq!(reopened.engine.store_schema_hash(), hash);
    assert_eq!(reopened.held(reopened.notes), vec![note("alpha", "one")]);
}

#[test]
fn every_entry_links_to_the_one_before() {
    let mut book = Book::new();
    book.put("alpha", "one");
    book.count("one");
    book.put("beta", "two");
    let log = book.engine.versioned_commit_log();
    assert_eq!(log[0].previous_entry_digest(), None);
    assert_eq!(log[1].previous_entry_digest(), Some(log[0].entry_digest()));
    assert_eq!(log[2].previous_entry_digest(), Some(log[1].entry_digest()));
    assert_eq!(book.engine.versioned_chain_head(), Some(log[2].entry_digest()));
    assert!(log.iter().all(|entry| entry.is_sealed()));
    let plain = book.engine.commit_log();
    assert_eq!(plain.len(), 3);
    assert_eq!(plain[1].operations().head().table_name(), "tallies");
}
