//! Subscriptions: the initial snapshot, the changes after it, and what is
//! kept of them.

use std::cell::RefCell;

use sema_engine::{
    Assertion, CommitRequest, DeltaKind, EncodedRecord, Engine, EngineOpen, FamilyName, Mutation,
    QueryPlan, RecordKey, Retraction, SchemaHash, SequenceRange, SinkError, SnapshotIdentifier,
    Store, SubscriptionDeliveryMode, SubscriptionEvent, SubscriptionSink, TableDescriptor,
    TableName,
};

/// A record with a textual key and body, archived as a pair.
struct SubscribedRecord;

impl SubscribedRecord {
    fn new(key: &str, body: &str) -> EncodedRecord {
        let archived = (key.to_string(), body.to_string());
        let bytes = rkyv::to_bytes::<rkyv::rancor::Error>(&archived)
            .expect("record archives")
            .to_vec();
        EncodedRecord::new(RecordKey::domain(key), bytes)
    }
}

struct SubscriptionFixture;

impl SubscriptionFixture {
    fn new() -> Self {
        SubscriptionFixture
    }

    fn open_engine(&self) -> Engine {
        self.reopen(Store::new())
    }

    fn reopen(&self, store: Store) -> Engine {
        Engine::open(EngineOpen::new(store)).expect("engine opens")
    }

    fn descriptor(&self) -> TableDescriptor<EncodedRecord> {
        TableDescriptor::new(
            TableName::new("subscribed_records"),
            FamilyName::new("subscribed-record"),
            SchemaHash::for_label("subscribed-record-v1"),
        )
    }
}

/// Hand every queued change to the sink, as a host does after a commit.
fn deliver<Sink: SubscriptionSink<EncodedRecord>>(engine: &mut Engine, sink: &Sink) {
    for delta in engine.take_deltas() {
        let _ = sink.deliver(SubscriptionEvent::Delta(delta));
    }
}

/// Keeps every event that it is handed.
struct RecordEventLog {
    events: RefCell<Vec<SubscriptionEvent<EncodedRecord>>>,
}

impl RecordEventLog {
    fn new() -> Self {
        RecordEventLog { events: RefCell::new(Vec::new()) }
    }

    fn events(&self) -> std::cell::Ref<'_, Vec<SubscriptionEvent<EncodedRecord>>> {
        self.events.borrow()
    }
}

impl SubscriptionSink<EncodedRecord> for RecordEventLog {
    fn delivery_mode(&self) -> SubscriptionDeliveryMode {
        SubscriptionDeliveryMode::Inline
    }

    fn deliver(&self, event: SubscriptionEvent<EncodedRecord>) -> Result<(), SinkError> {
        self.events.borrow_mut().push(event);
        Ok(())
    }
}

/// Takes the initial snapshot and refuses every change.
struct DeltaFailingSink {
    failed: RefCell<usize>,
}

impl SubscriptionSink<EncodedRecord> for DeltaFailingSink {
    fn deliver(&self, event: SubscriptionEvent<EncodedRecord>) -> Result<(), SinkError> {
        match event {
            SubscriptionEvent::InitialSnapshot(_) => Ok(()),
            SubscriptionEvent::Delta(_) => {
                *self.failed.borrow_mut() += 1;
                Err(SinkError::new("queue full"))
            }
        }
    }
}

#[test]
fn subscribe_initial_snapshot_uses_latest_committed_snapshot() {
    let fixture = SubscriptionFixture::new();
    let mut engine = fixture.open_engine();
    let records = engine
        .register_table(fixture.descriptor())
        .expect("table registers");
    engine
        .assert_record(Assertion::new(
            records,
            SubscribedRecord::new("alpha", "one"),
        ))
        .expect("first assert succeeds");
    engine
        .assert_record(Assertion::new(
            records,
            SubscribedRecord::new("beta", "two"),
        ))
        .expect("second assert succeeds");

    let sink = RecordEventLog::new();
    let receipt = engine
        .subscribe(QueryPlan::all(records), &sink)
        .expect("subscription succeeds");
    let registrations = engine.subscription_registrations();

    assert_eq!(receipt.handle().id().value(), 1);
    assert_eq!(receipt.initial().snapshot().snapshot(), SnapshotIdentifier::new(2));
    assert_eq!(receipt.initial().snapshot().records().len(), 2);
    assert_eq!(registrations.len(), 1);
    assert_eq!(registrations[0].id().value(), 1);
    assert_eq!(registrations[0].table_name(), "subscribed_records");
    assert_eq!(registrations[0].snapshot(), SnapshotIdentifier::new(2));
    assert!(matches!(
        &sink.events()[0],
        SubscriptionEvent::InitialSnapshot(initial)
            if initial.snapshot().snapshot() == SnapshotIdentifier::new(2)
    ));
}

#[test]
fn subscribe_delta_fires_after_commit_is_visible() {
    let fixture = SubscriptionFixture::new();
    let mut engine = fixture.open_engine();
    let records = engine
        .register_table(fixture.descriptor())
        .expect("table registers");
    let sink = RecordEventLog::new();
    engine
        .subscribe(QueryPlan::all(records), &sink)
        .expect("subscription succeeds");

    let receipt = engine
        .assert_record(Assertion::new(
            records,
            SubscribedRecord::new("alpha", "visible"),
        ))
        .expect("assert succeeds");
    let matched = engine
        .match_records(QueryPlan::key(records, RecordKey::new("alpha")))
        .expect("match succeeds");

    assert_eq!(receipt.snapshot(), SnapshotIdentifier::new(1));
    deliver(&mut engine, &sink);
    assert_eq!(
        matched.records(),
        &[SubscribedRecord::new("alpha", "visible")]
    );
    assert!(sink.events().iter().any(|event| {
        matches!(
            event,
            SubscriptionEvent::Delta(delta)
                if delta.snapshot() == SnapshotIdentifier::new(1)
                    && delta.record() == &SubscribedRecord::new("alpha", "visible")
        )
    }));
}

#[test]
fn subscribe_delta_kind_tracks_write_verb() {
    let fixture = SubscriptionFixture::new();
    let mut engine = fixture.open_engine();
    let records = engine
        .register_table(fixture.descriptor())
        .expect("table registers");
    engine
        .assert_record(Assertion::new(
            records,
            SubscribedRecord::new("alpha", "first"),
        ))
        .expect("assert succeeds before subscription");
    let sink = RecordEventLog::new();
    engine
        .subscribe(QueryPlan::all(records), &sink)
        .expect("subscription succeeds");

    engine
        .mutate(Mutation::new(
            records,
            SubscribedRecord::new("alpha", "second"),
        ))
        .expect("mutate succeeds");
    engine
        .retract(Retraction::new(records, RecordKey::new("alpha")))
        .expect("retract succeeds");

    deliver(&mut engine, &sink);
    let delta_kinds = sink
        .events()
        .iter()
        .filter_map(|event| match event {
            SubscriptionEvent::InitialSnapshot(_) => None,
            SubscriptionEvent::Delta(delta) => Some(delta.kind()),
        })
        .collect::<Vec<_>>();

    assert_eq!(delta_kinds, [DeltaKind::Mutate, DeltaKind::Retract]);
}

#[test]
fn subscribe_commit_bundle_delivers_per_operation_deltas_after_single_snapshot_commit() {
    let fixture = SubscriptionFixture::new();
    let mut engine = fixture.open_engine();
    let records = engine
        .register_table(fixture.descriptor())
        .expect("table registers");
    engine
        .assert_record(Assertion::new(
            records,
            SubscribedRecord::new("alpha", "first"),
        ))
        .expect("first seed succeeds");
    engine
        .assert_record(Assertion::new(
            records,
            SubscribedRecord::new("gamma", "retire"),
        ))
        .expect("second seed succeeds");
    let sink = RecordEventLog::new();
    engine
        .subscribe(QueryPlan::all(records), &sink)
        .expect("subscription succeeds");

    let receipt = engine
        .commit(
            CommitRequest::new(records)
                .assert_record(SubscribedRecord::new("beta", "new"))
                .mutate(SubscribedRecord::new("alpha", "second"))
                .retract(RecordKey::new("gamma")),
        )
        .expect("commit bundle succeeds");

    deliver(&mut engine, &sink);
    let delta_facts = sink
        .events()
        .iter()
        .filter_map(|event| match event {
            SubscriptionEvent::InitialSnapshot(_) => None,
            SubscriptionEvent::Delta(delta) => {
                Some((delta.kind(), delta.snapshot(), delta.record().clone()))
            }
        })
        .collect::<Vec<_>>();

    assert_eq!(receipt.snapshot(), SnapshotIdentifier::new(3));
    assert_eq!(receipt.operation_count(), 3);
    assert_eq!(
        delta_facts,
        [
            (
                DeltaKind::Assert,
                SnapshotIdentifier::new(3),
                SubscribedRecord::new("beta", "new")
            ),
            (
                DeltaKind::Mutate,
                SnapshotIdentifier::new(3),
                SubscribedRecord::new("alpha", "second")
            ),
            (
                DeltaKind::Retract,
                SnapshotIdentifier::new(3),
                SubscribedRecord::new("gamma", "retire")
            )
        ]
    );
}

#[test]
fn subscribe_sink_failure_does_not_roll_back_commit() {
    let fixture = SubscriptionFixture::new();
    let mut engine = fixture.open_engine();
    let records = engine
        .register_table(fixture.descriptor())
        .expect("table registers");
    let sink = DeltaFailingSink { failed: RefCell::new(0) };
    engine
        .subscribe(QueryPlan::all(records), &sink)
        .expect("subscription succeeds");

    let receipt = engine
        .assert_record(Assertion::new(
            records,
            SubscribedRecord::new("alpha", "committed"),
        ))
        .expect("assert returns receipt despite sink failure");
    let matched = engine
        .match_records(QueryPlan::key(records, RecordKey::new("alpha")))
        .expect("match succeeds");

    assert_eq!(receipt.snapshot(), SnapshotIdentifier::new(1));
    deliver(&mut engine, &sink);
    assert_eq!(*sink.failed.borrow(), 1);
    assert_eq!(
        matched.records(),
        &[SubscribedRecord::new("alpha", "committed")]
    );
}

#[test]
fn subscribe_inline_sink_receives_delta_before_assert_returns() {
    let fixture = SubscriptionFixture::new();
    let mut engine = fixture.open_engine();
    let records = engine
        .register_table(fixture.descriptor())
        .expect("table registers");
    let sink = RecordEventLog::new();
    engine
        .subscribe(QueryPlan::all(records), &sink)
        .expect("subscription succeeds");

    let receipt = engine
        .assert_record(Assertion::new(
            records,
            SubscribedRecord::new("alpha", "inline"),
        ))
        .expect("assert succeeds");
    deliver(&mut engine, &sink);

    assert_eq!(receipt.snapshot(), SnapshotIdentifier::new(1));
    assert!(sink.events().iter().any(|event| {
        matches!(
            event,
            SubscriptionEvent::Delta(delta)
                if delta.snapshot() == SnapshotIdentifier::new(1)
                    && delta.record() == &SubscribedRecord::new("alpha", "inline")
        )
    }));
}

#[test]
fn subscribe_survives_process_restart_as_registration() {
    let fixture = SubscriptionFixture::new();
    let store = {
        let mut engine = fixture.open_engine();
        let records = engine
            .register_table(fixture.descriptor())
            .expect("table registers");
        let sink = RecordEventLog::new();
        engine
            .subscribe(QueryPlan::all(records), &sink)
            .expect("subscription succeeds");
        engine.into_store()
    };

    let reopened = fixture.reopen(store);
    let registrations = reopened.subscription_registrations();

    assert_eq!(registrations.len(), 1);
    assert_eq!(registrations[0].id().value(), 1);
    assert_eq!(registrations[0].table_name(), "subscribed_records");
}

#[test]
fn commit_log_range_replays_from_snapshot_cursor() {
    let fixture = SubscriptionFixture::new();
    let mut engine = fixture.open_engine();
    let records = engine
        .register_table(fixture.descriptor())
        .expect("table registers");
    engine
        .assert_record(Assertion::new(
            records,
            SubscribedRecord::new("alpha", "one"),
        ))
        .expect("first assert succeeds");
    engine
        .assert_record(Assertion::new(
            records,
            SubscribedRecord::new("beta", "two"),
        ))
        .expect("second assert succeeds");

    let replay = engine
        .commit_log_range(SequenceRange::from(SnapshotIdentifier::new(2)));

    assert_eq!(replay.len(), 1);
    assert_eq!(replay[0].snapshot(), SnapshotIdentifier::new(2));
    assert_eq!(
        replay[0].operations().head().key().map(RecordKey::to_owned_string),
        Some("beta".to_string())
    );
}
