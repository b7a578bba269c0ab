//! What a component composes from the engine's verbs: dry runs, handle
//! filters, two-table writes and reads after writes.

use std::cell::{Cell, RefCell};
use std::rc::Rc;

use sema_engine::{
    Assertion, EncodedRecord, Engine, EngineOpen, EngineRecord, FamilyName, QueryPlan, RecordKey, SchemaHash,
    SinkError, SnapshotIdentifier, Store, SubscriptionDeliveryMode, SubscriptionEvent,
    SubscriptionSink, TableDescriptor, TableName,
};

/// A record with a textual key and body, archived as a pair.
struct Thought;

impl Thought {
    fn new(key: &str, body: &str) -> EncodedRecord {
        let archived = (key.to_string(), body.to_string());
        let bytes = rkyv::to_bytes::<rkyv::rancor::Error>(&archived)
            .expect("record archives")
            .to_vec();
        EncodedRecord::new(RecordKey::domain(key), bytes)
    }
}

/// A record with a textual key and note, archived as a pair.
struct ActivityEntry;

impl ActivityEntry {
    fn new(key: &str, body: &str) -> EncodedRecord {
        let archived = (key.to_string(), body.to_string());
        let bytes = rkyv::to_bytes::<rkyv::rancor::Error>(&archived)
            .expect("record archives")
            .to_vec();
        EncodedRecord::new(RecordKey::domain(key), bytes)
    }
}

struct Fixture;

impl Fixture {
    fn new() -> Self {
        Fixture
    }

    fn open_engine(&self) -> Engine {
        Engine::open(EngineOpen::new(Store::new())).expect("engine opens")
    }

    fn thought_descriptor(&self) -> TableDescriptor<EncodedRecord> {
        TableDescriptor::new(
            TableName::new("thoughts"),
            FamilyName::new("thought"),
            SchemaHash::for_label("thought-v1"),
        )
    }
}

#[derive(Debug, Clone, PartialEq, Eq)]
enum DryRunFailure {
    DuplicateWithinBatch(RecordKey),
    DuplicateWithExisting(RecordKey),
}

/// Counts the changes of the subscriptions that a supervisor holds active,
/// and those of the others.
struct SupervisorBackedSink {
    active: Rc<RefCell<Vec<u64>>>,
    received: Rc<Cell<usize>>,
    dropped: Rc<Cell<usize>>,
}

impl SubscriptionSink<EncodedRecord> for SupervisorBackedSink {
    fn delivery_mode(&self) -> SubscriptionDeliveryMode {
        SubscriptionDeliveryMode::Inline
    }

    fn deliver(&self, event: SubscriptionEvent<EncodedRecord>) -> Result<(), SinkError> {
        let id = match &event {
            SubscriptionEvent::InitialSnapshot(initial) => initial.handle().id().value(),
            SubscriptionEvent::Delta(delta) => delta.handle().id().value(),
        };
        if self.active.borrow().contains(&id) {
            self.received.set(self.received.get() + 1);
        } else {
            self.dropped.set(self.dropped.get() + 1);
        }
        Ok(())
    }
}

/// Hand every queued change to the sink, as a host does after a commit.
fn deliver<Sink: SubscriptionSink<EncodedRecord>>(engine: &mut Engine, sink: &Sink) {
    for delta in engine.take_deltas() {
        let _ = sink.deliver(SubscriptionEvent::Delta(delta));
    }
}

#[test]
fn validate_write_dissolves_into_match_records_dry_run() {
    let fixture = Fixture::new();
    let mut engine = fixture.open_engine();
    let table = engine
        .register_table(fixture.thought_descriptor())
        .expect("table registers");

    engine
        .assert_record(Assertion::new(table, Thought::new("alpha", "seeded")))
        .expect("seed");
    let pre_log_len = engine.commit_log().len();

    let probe = engine
        .match_records(QueryPlan::key(table, RecordKey::new("alpha")))
        .expect("probe");
    let would_duplicate = !probe.records().is_empty();
    assert!(would_duplicate);

    let fresh = engine
        .match_records(QueryPlan::key(table, RecordKey::new("beta")))
        .expect("probe");
    assert!(fresh.records().is_empty());

    let post_log_len = engine.commit_log().len();
    assert_eq!(post_log_len, pre_log_len);
}

#[test]
fn multi_operation_write_dry_run_composes_with_match_records_plus_local_staging() {
    let fixture = Fixture::new();
    let mut engine = fixture.open_engine();
    let table = engine
        .register_table(fixture.thought_descriptor())
        .expect("table registers");

    engine
        .assert_record(Assertion::new(table, Thought::new("alpha", "seeded")))
        .expect("seed");
    let pre_log_len = engine.commit_log().len();

    let proposed: Vec<EncodedRecord> = vec![
        Thought::new("alpha", "would-collide-with-existing"),
        Thought::new("beta", "first beta"),
        Thought::new("beta", "second beta — within-batch duplicate"),
    ];

    let mut staged: Vec<RecordKey> = Vec::new();
    let mut failure: Option<DryRunFailure> = None;
    for proposal in &proposed {
        let key = proposal.record_key();
        if staged.contains(&key) {
            failure = Some(DryRunFailure::DuplicateWithinBatch(key));
            break;
        }
        staged.push(key.clone());
        let probe = engine
            .match_records(QueryPlan::key(table, key.clone()))
            .expect("probe");
        if !probe.records().is_empty() {
            failure = Some(DryRunFailure::DuplicateWithExisting(key));
            break;
        }
    }

    assert_eq!(
        failure,
        Some(DryRunFailure::DuplicateWithExisting(RecordKey::new(
            "alpha"
        ))),
        "the first-found collision is the existing 'alpha' row",
    );
    let post_log_len = engine.commit_log().len();
    assert_eq!(post_log_len, pre_log_len, "no engine write happened");
}

#[test]
fn subscription_lifetime_can_be_managed_externally_via_handle_id_filter() {
    let fixture = Fixture::new();
    let mut engine = fixture.open_engine();
    let table = engine
        .register_table(fixture.thought_descriptor())
        .expect("table registers");

    let supervisor: Rc<RefCell<Vec<u64>>> = Rc::new(RefCell::new(Vec::new()));
    let received = Rc::new(Cell::new(0));
    let dropped = Rc::new(Cell::new(0));
    let sink = SupervisorBackedSink {
        active: Rc::clone(&supervisor),
        received: Rc::clone(&received),
        dropped: Rc::clone(&dropped),
    };

    let receipt = engine
        .subscribe(QueryPlan::all(table), &sink)
        .expect("subscribe");
    supervisor.borrow_mut().push(receipt.handle().id().value());

    received.set(0);
    dropped.set(0);

    engine
        .assert_record(Assertion::new(table, Thought::new("alpha", "first")))
        .expect("assert alpha");
    deliver(&mut engine, &sink);
    assert_eq!(received.get(), 1);
    assert_eq!(dropped.get(), 0);

    supervisor.borrow_mut().retain(|id| *id != receipt.handle().id().value());

    engine
        .assert_record(Assertion::new(table, Thought::new("beta", "second")))
        .expect("assert beta");
    deliver(&mut engine, &sink);
    assert_eq!(received.get(), 1, "no new accepted delta");
    assert_eq!(
        dropped.get(),
        1,
        "the engine still called deliver; sink dropped it",
    );

    let registrations = engine.subscription_registrations();
    assert_eq!(registrations.len(), 1, "engine-side registry growth");
}

#[test]
fn cross_table_writes_via_two_engine_commits_are_not_engine_atomic() {
    let fixture = Fixture::new();
    let mut engine = fixture.open_engine();
    let thoughts = engine
        .register_table(fixture.thought_descriptor())
        .expect("thoughts table registers");
    let activities = engine
        .register_table(TableDescriptor::<EncodedRecord>::new(
            TableName::new("activities"),
            FamilyName::new("activity-entry"),
            SchemaHash::for_label("activity-entry-v1"),
        ))
        .expect("activities table registers");

    engine
        .assert_record(Assertion::new(
            thoughts,
            Thought::new("alpha", "the thought"),
        ))
        .expect("assert thought");
    let mid_log_len = engine.commit_log().len();
    assert_eq!(mid_log_len, 1);

    engine
        .assert_record(Assertion::new(
            activities,
            ActivityEntry::new("a-1", "thought:alpha committed"),
        ))
        .expect("assert activity");
    let final_log_len = engine.commit_log().len();
    assert_eq!(final_log_len, 2);

    let log = engine.commit_log();
    assert_eq!(log[0].snapshot(), SnapshotIdentifier::new(1));
    assert_eq!(log[1].snapshot(), SnapshotIdentifier::new(2));
    assert_eq!(log[0].operations().head().table_name(), "thoughts");
    assert_eq!(log[1].operations().head().table_name(), "activities");
}

#[test]
fn read_after_write_is_two_engine_calls_with_monotonic_snapshot_identifiers() {
    let fixture = Fixture::new();
    let mut engine = fixture.open_engine();
    let table = engine
        .register_table(fixture.thought_descriptor())
        .expect("table registers");

    let assert_receipt = engine
        .assert_record(Assertion::new(table, Thought::new("alpha", "after write")))
        .expect("assert");
    let read = engine
        .match_records(QueryPlan::key(table, RecordKey::new("alpha")))
        .expect("match");

    assert_eq!(read.snapshot(), assert_receipt.snapshot());
    assert_eq!(read.records(), &[Thought::new("alpha", "after write")]);
}

#[test]
fn engine_subscription_registrations_are_listable_for_introspection() {
    let fixture = Fixture::new();
    let mut engine = fixture.open_engine();
    let table = engine
        .register_table(fixture.thought_descriptor())
        .expect("table registers");

    assert_eq!(
        engine.subscription_registrations().len(),
        0
    );

    let sink = SupervisorBackedSink {
        active: Rc::new(RefCell::new(Vec::new())),
        received: Rc::new(Cell::new(0)),
        dropped: Rc::new(Cell::new(0)),
    };
    let _ = engine
        .subscribe(QueryPlan::all(table), &sink)
        .expect("subscribe");

    let registrations = engine.subscription_registrations();
    assert_eq!(registrations.len(), 1);
    assert_eq!(registrations[0].table_name(), "thoughts");
}
