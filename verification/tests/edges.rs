//! Bounds, empty values and orders.

use sema_engine::checkpoint::SEGMENT_BYTE_BUDGET;
use sema_engine::{
    Assertion, CheckpointSegment, CommitSequence, CommitSequenceRange, DeltaKind, EncodedRecord,
    Engine, EngineOpen, FamilyIdentity, FamilyName, IdentifiedAssertion, IdentifiedQueryPlan,
    IdentifiedTableDescriptor, KeyRange, NonEmpty, QueryFilter, QueryPlan, RecordIdentifier,
    RecordIdentifierRange, RecordKey, SchemaHash, SemaOperation, SequenceRange,
    SnapshotIdentifier, Store, TableDescriptor, TableName, VersionedPayload, ViewRow,
};

fn family() -> FamilyIdentity {
    FamilyIdentity::new(
        FamilyName::new("note"),
        SchemaHash::for_label("note-v1"),
        TableName::new("notes"),
    )
}

fn row(key: &str, len: usize) -> ViewRow {
    ViewRow::new(family(), RecordKey::domain(key), VersionedPayload::record(vec![0; len]))
}

#[test]
fn segments_are_cut_at_the_byte_budget() {
    let budget = SEGMENT_BYTE_BUDGET as usize;
    assert_eq!(budget, 1024 * 1024);
    assert!(CheckpointSegment::chunk(&[]).is_empty());

    // A row weighs its payload, its key and one byte.
    let half = budget / 2;
    let filled = [row("a", half - 2), row("b", half - 2)];
    assert_eq!(CheckpointSegment::chunk(&filled).len(), 1);
    let over = [row("a", half - 2), row("b", half - 1)];
    let segments = CheckpointSegment::chunk(&over);
    assert_eq!(segments.len(), 2);
    assert_eq!(segments[0].rows(), &over[..1]);
    assert_eq!(segments[1].rows(), &over[1..]);

    // A row heavier than the budget has a segment to itself.
    let heavy = [row("a", 1), row("b", budget * 2), row("c", 1)];
    let counts: Vec<usize> =
        CheckpointSegment::chunk(&heavy).iter().map(|segment| segment.row_count()).collect();
    assert_eq!(counts, vec![1, 1, 1]);
}

#[test]
fn key_ranges_hold_their_ends() {
    let key = RecordKey::domain;
    let range = KeyRange::between(key("b"), key("d"));
    assert!(!range.contains(&key("a")));
    assert!(range.contains(&key("b")));
    assert!(range.contains(&key("c")));
    assert!(range.contains(&key("d")));
    assert!(!range.contains(&key("da")));
    assert!(KeyRange::from(key("b")).contains(&key("z")));
    assert!(!KeyRange::through(key("b")).contains(&key("ba")));
    assert!(KeyRange::new(None, None).contains(&key("")));
    assert_eq!(range.start(), Some(&key("b")));
    assert_eq!(KeyRange::through(key("b")).start(), None);
    // Domain keys come before identifiers.
    assert!(KeyRange::from(key("z")).contains(&RecordKey::identifier(RecordIdentifier::first())));
}

#[test]
fn filters_accept_by_key() {
    let key = RecordKey::domain;
    assert!(QueryFilter::All.accepts(&key("a")));
    assert!(QueryFilter::Key(key("a")).accepts(&key("a")));
    assert!(!QueryFilter::Key(key("a")).accepts(&key("b")));
    let range = QueryFilter::KeyRange(KeyRange::from(key("b")));
    assert!(!range.accepts(&key("a")));
    assert!(range.accepts(&key("b")));
}

#[test]
fn identifier_ranges_select_rows() {
    let mut engine = Engine::open(EngineOpen::new(Store::new())).expect("opens");
    let tallies = engine
        .register_identified_table(IdentifiedTableDescriptor::new(
            TableName::new("tallies"),
            FamilyName::new("tally"),
            SchemaHash::for_label("tally-v1"),
        ))
        .expect("registers");
    for body in ["one", "two", "three", "four"] {
        let record = EncodedRecord::new(RecordKey::domain(""), body.as_bytes().to_vec());
        engine
            .assert_identified(IdentifiedAssertion::new(tallies, record))
            .expect("asserts");
    }
    let held = |plan: IdentifiedQueryPlan<EncodedRecord>| -> Vec<u64> {
        let found = engine.match_identified(plan).expect("reads");
        found.records().iter().map(|row| row.identifier().value()).collect()
    };
    let id = RecordIdentifier::new;
    let between = RecordIdentifierRange::between(id(2), id(3));
    assert_eq!(held(IdentifiedQueryPlan::identifier_range(tallies, between)), vec![2, 3]);
    let through = RecordIdentifierRange::through(id(2));
    assert_eq!(held(IdentifiedQueryPlan::identifier_range(tallies, through)), vec![1, 2]);
    assert_eq!(held(IdentifiedQueryPlan::identifier(tallies, id(4))), vec![4]);
    assert!(held(IdentifiedQueryPlan::identifier(tallies, id(5))).is_empty());
    assert_eq!(held(IdentifiedQueryPlan::all(tallies)), vec![1, 2, 3, 4]);
}

#[test]
fn rows_are_listed_by_key() {
    let mut engine = Engine::open(EngineOpen::new(Store::new())).expect("opens");
    let notes = engine
        .register_table(TableDescriptor::<EncodedRecord>::new(
            TableName::new("notes"),
            FamilyName::new("note"),
            SchemaHash::for_label("note-v1"),
        ))
        .expect("registers");
    for key in ["b", "", "a\u{e9}", "a", "ab"] {
        let record = EncodedRecord::new(RecordKey::domain(key), vec![1]);
        engine.assert_record(Assertion::new(notes, record)).expect("asserts");
    }
    let keys: Vec<String> = engine
        .match_records(QueryPlan::all(notes))
        .expect("reads")
        .records()
        .iter()
        .map(|record| record.key().to_owned_string())
        .collect();
    assert_eq!(keys, vec!["", "a", "ab", "a\u{e9}", "b"]);
    assert_eq!(
        engine.validate(QueryPlan::all(notes)).expect("validates").record_count(),
        5
    );
}

#[test]
fn sequence_ranges_hold_their_ends() {
    let at = SnapshotIdentifier::new;
    let range = SequenceRange::between(at(2), at(4));
    assert!(!range.contains(at(1)));
    assert!(range.contains(at(2)));
    assert!(range.contains(at(4)));
    assert!(!range.contains(at(5)));
    assert!(SequenceRange::from(at(2)).contains(at(u64::MAX)));
    let covered = CommitSequenceRange::new(CommitSequence::new(2), CommitSequence::new(4));
    assert!(covered.contains(CommitSequence::new(4)));
    assert!(!covered.contains(CommitSequence::new(5)));
}

#[test]
fn a_list_of_at_least_one_keeps_its_order() {
    assert!(NonEmpty::<u8>::try_from_vec(Vec::new()).is_none());
    let list = NonEmpty::from_head_and_tail(1, vec![2, 3]);
    assert_eq!(list.len(), 3);
    assert_eq!(*list.head(), 1);
    assert_eq!(list.tail(), &[2, 3]);
    assert_eq!(*list.get(2), 3);
    assert_eq!(NonEmpty::single(7).tail().len(), 0);
}

#[test]
fn words_and_texts_are_stable() {
    assert_eq!(SemaOperation::Assert.as_record_head(), "Assert");
    assert_eq!(SemaOperation::Validate.as_record_head(), "Validate");
    assert_eq!(DeltaKind::Retract.verb(), SemaOperation::Retract);
    let hash = SchemaHash::new([0xab; 32]);
    assert_eq!(hash.to_text(), "ab".repeat(32));
    let identity = FamilyIdentity::new(FamilyName::new("note"), hash, TableName::new("notes"));
    assert_eq!(identity.to_text(), format!("note@{} (table notes)", "ab".repeat(32)));
    assert_eq!(identity.identified_counter_key(), "notes:next_record_identifier");
    assert_eq!(
        RecordKey::identifier(RecordIdentifier::new(u64::MAX)).to_owned_string(),
        "18446744073709551615"
    );
    assert_eq!(RecordKey::from_archive(&[]).to_owned_string(), "rkyv:");
}
