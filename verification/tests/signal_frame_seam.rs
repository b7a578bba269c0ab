//! A request of contract-local payloads is lowered into the engine's verbs,
//! and the commit log shows the operation of each.

use sema_engine::{
    Assertion, CommitReceipt, CommitRequest, EncodedRecord, Engine, EngineOpen, FamilyName,
    Mutation, NonEmpty, QueryPlan, RecordKey, Retraction, SchemaHash, SemaOperation,
    SnapshotIdentifier, Store, TableDescriptor, TableName, TableReference,
};

/// A record with a textual key and body, archived as a pair.
struct Thought;

impl Thought {
    fn new(key: &str, body: &str) -> EncodedRecord {
        let archived = (key.to_string(), body.to_string());
        let bytes = rkyv::to_bytes::<rkyv::rancor::Error>(&archived)
            .expect("record archives")
            .to_vec();
        EncodedRecord::new(RecordKey::domain(key), bytes)
    }
}

/// What a component's contract carries.
#[derive(Debug, Clone, PartialEq, Eq)]
enum ThoughtRequest {
    Submit(EncodedRecord),
    Replace(EncodedRecord),
    Retire(RecordKey),
    ListAll,
}

impl ThoughtRequest {
    fn into_request(self) -> Request {
        Request::from_payloads(NonEmpty::single(self))
    }
}

/// A request of one or more payloads, in order.
struct Request {
    payloads: NonEmpty<ThoughtRequest>,
}

impl Request {
    fn from_payloads(payloads: NonEmpty<ThoughtRequest>) -> Self {
        Request { payloads }
    }

    fn payloads(&self) -> &NonEmpty<ThoughtRequest> {
        &self.payloads
    }
}

fn each<T>(list: &NonEmpty<T>) -> Vec<&T> {
    (0..list.len()).map(|at| list.get(at)).collect()
}

struct SeamFixture;

impl SeamFixture {
    fn new() -> Self {
        SeamFixture
    }

    fn open_engine(&self) -> Engine {
        Engine::open(EngineOpen::new(Store::new())).expect("engine opens")
    }

    fn descriptor(&self) -> TableDescriptor<EncodedRecord> {
        TableDescriptor::new(
            TableName::new("thoughts"),
            FamilyName::new("thought"),
            SchemaHash::for_label("thought-v1"),
        )
    }
}

struct EngineDispatcher {
    table: TableReference<EncodedRecord>,
}

impl EngineDispatcher {
    fn new(table: TableReference<EncodedRecord>) -> Self {
        EngineDispatcher { table }
    }

    fn dispatch_single(&self, engine: &mut Engine, request: &ThoughtRequest) -> SnapshotIdentifier {
        match request {
            ThoughtRequest::Submit(thought) => {
                let receipt = engine
                    .assert_record(Assertion::new(self.table, thought.clone()))
                    .expect("assert succeeds");
                assert_eq!(receipt.operation(), SemaOperation::Assert);
                receipt.snapshot()
            }
            ThoughtRequest::Replace(thought) => {
                let receipt = engine
                    .mutate(Mutation::new(self.table, thought.clone()))
                    .expect("mutate succeeds");
                assert_eq!(receipt.operation(), SemaOperation::Mutate);
                receipt.snapshot()
            }
            ThoughtRequest::Retire(key) => {
                let receipt = engine
                    .retract(Retraction::new(self.table, key.clone()))
                    .expect("retract succeeds");
                assert_eq!(receipt.operation(), SemaOperation::Retract);
                receipt.snapshot()
            }
            ThoughtRequest::ListAll => {
                let snapshot = engine
                    .match_records(QueryPlan::all(self.table))
                    .expect("match succeeds");
                assert_eq!(snapshot.operation(), SemaOperation::Match);
                snapshot.snapshot()
            }
        }
    }

    fn dispatch_commit(&self, engine: &mut Engine, request: Request) -> CommitReceipt {
        let mut commit = CommitRequest::new(self.table);
        for payload in each(request.payloads()) {
            commit = match payload.clone() {
                ThoughtRequest::Submit(thought) => commit.assert_record(thought),
                ThoughtRequest::Replace(thought) => commit.mutate(thought),
                ThoughtRequest::Retire(key) => commit.retract(key),
                ThoughtRequest::ListAll => {
                    panic!("read-shaped payload inside a multi-operation write commit")
                }
            };
        }
        engine
            .commit(commit)
            .expect("multi-operation commit succeeds")
    }
}

#[test]
fn signal_frame_submit_payload_lands_as_engine_assert_with_matching_operation() {
    let fixture = SeamFixture::new();
    let mut engine = fixture.open_engine();
    let table = engine
        .register_table(fixture.descriptor())
        .expect("table registers");
    let dispatcher = EngineDispatcher::new(table);

    let request = ThoughtRequest::Submit(Thought::new("alpha", "first thought")).into_request();
    let snapshot = dispatcher.dispatch_single(&mut engine, request.payloads().head());

    assert_eq!(snapshot, SnapshotIdentifier::new(1));
    let log = engine.commit_log();
    assert_eq!(log.len(), 1);
    assert_eq!(log[0].snapshot(), snapshot);
    let head = log[0].operations().head();
    assert_eq!(head.operation(), SemaOperation::Assert);
    assert_eq!(head.table_name(), "thoughts");
    assert_eq!(
        head.key().map(RecordKey::to_owned_string).as_deref(),
        Some("alpha")
    );
}

#[test]
fn signal_frame_replace_payload_lands_as_engine_mutate_with_matching_operation() {
    let fixture = SeamFixture::new();
    let mut engine = fixture.open_engine();
    let table = engine
        .register_table(fixture.descriptor())
        .expect("table registers");
    let dispatcher = EngineDispatcher::new(table);

    let seed = ThoughtRequest::Submit(Thought::new("alpha", "original")).into_request();
    let _ = dispatcher.dispatch_single(&mut engine, seed.payloads().head());

    let mutate = ThoughtRequest::Replace(Thought::new("alpha", "revised")).into_request();
    let snapshot = dispatcher.dispatch_single(&mut engine, mutate.payloads().head());

    assert_eq!(snapshot, SnapshotIdentifier::new(2));
    let log = engine.commit_log();
    assert_eq!(log.len(), 2);
    let mutate_entry = log
        .iter()
        .find(|entry| entry.operations().head().operation() == SemaOperation::Mutate)
        .expect("commit log carries the mutate entry");
    assert_eq!(mutate_entry.snapshot(), snapshot);
    let head = mutate_entry.operations().head();
    assert_eq!(head.table_name(), "thoughts");
    assert_eq!(
        head.key().map(RecordKey::to_owned_string).as_deref(),
        Some("alpha")
    );

    let read = engine
        .match_records(QueryPlan::key(table, RecordKey::new("alpha")))
        .expect("match succeeds");
    assert_eq!(read.records(), &[Thought::new("alpha", "revised")]);
}

#[test]
fn signal_frame_retire_payload_lands_as_engine_retract_with_matching_operation() {
    let fixture = SeamFixture::new();
    let mut engine = fixture.open_engine();
    let table = engine
        .register_table(fixture.descriptor())
        .expect("table registers");
    let dispatcher = EngineDispatcher::new(table);

    let seed = ThoughtRequest::Submit(Thought::new("alpha", "soon retired")).into_request();
    let _ = dispatcher.dispatch_single(&mut engine, seed.payloads().head());

    let retire = ThoughtRequest::Retire(RecordKey::new("alpha")).into_request();
    let snapshot = dispatcher.dispatch_single(&mut engine, retire.payloads().head());

    assert_eq!(snapshot, SnapshotIdentifier::new(2));
    let log = engine.commit_log();
    let retract_entry = log
        .iter()
        .find(|entry| entry.operations().head().operation() == SemaOperation::Retract)
        .expect("commit log carries the retract entry");
    assert_eq!(retract_entry.snapshot(), snapshot);
    assert_eq!(
        retract_entry
            .operations()
            .head()
            .key()
            .map(RecordKey::to_owned_string)
            .as_deref(),
        Some("alpha"),
    );

    let read = engine
        .match_records(QueryPlan::all(table))
        .expect("match succeeds");
    assert!(
        read.records().is_empty(),
        "the retracted record is gone after engine.retract"
    );
}

#[test]
fn signal_frame_multi_payload_request_lands_as_one_ordered_commit_log_entry() {
    let fixture = SeamFixture::new();
    let mut engine = fixture.open_engine();
    let table = engine
        .register_table(fixture.descriptor())
        .expect("table registers");
    let dispatcher = EngineDispatcher::new(table);

    engine
        .assert_record(Assertion::new(table, Thought::new("alpha", "seeded")))
        .expect("seed alpha");
    engine
        .assert_record(Assertion::new(table, Thought::new("gamma", "seeded")))
        .expect("seed gamma");
    let pre_log_len = engine.commit_log().len();

    let payloads = NonEmpty::try_from_vec(vec![
        ThoughtRequest::Submit(Thought::new("beta", "newcomer")),
        ThoughtRequest::Replace(Thought::new("alpha", "revised")),
        ThoughtRequest::Retire(RecordKey::new("gamma")),
    ])
    .expect("non-empty vector");
    let request: Request = Request::from_payloads(payloads);
    let receipt = dispatcher.dispatch_commit(&mut engine, request);

    assert_eq!(receipt.operation_count(), 3);
    assert_eq!(receipt.snapshot(), SnapshotIdentifier::new(3));

    let log = engine.commit_log();
    assert_eq!(
        log.len(),
        pre_log_len + 1,
        "multi-operation commit lands one CommitLogEntry, not one per operation",
    );
    let entry = log
        .last()
        .expect("commit log has the multi-operation entry at the tail");
    assert_eq!(entry.snapshot(), receipt.snapshot());

    let per_operation_effects: Vec<SemaOperation> = each(entry.operations())
        .into_iter()
        .map(|operation| operation.operation())
        .collect();
    assert_eq!(
        per_operation_effects,
        vec![
            SemaOperation::Assert,
            SemaOperation::Mutate,
            SemaOperation::Retract
        ],
        "Sema operations preserve payload order: Assert, then Mutate, then Retract",
    );

    let per_operation_keys: Vec<Option<String>> = each(entry.operations())
        .into_iter()
        .map(|operation| operation.key().map(RecordKey::to_owned_string))
        .collect();
    assert_eq!(
        per_operation_keys,
        vec![
            Some("beta".to_owned()),
            Some("alpha".to_owned()),
            Some("gamma".to_owned())
        ]
    );

    let snapshot = engine
        .match_records(QueryPlan::all(table))
        .expect("match succeeds");
    let mut records = snapshot.records().to_vec();
    records.sort_by_key(|record| record.key().to_owned_string());
    assert_eq!(
        records,
        vec![
            Thought::new("alpha", "revised"),
            Thought::new("beta", "newcomer"),
        ],
    );
}

#[test]
fn signal_frame_match_payload_lands_as_engine_match_with_matching_operation() {
    let fixture = SeamFixture::new();
    let mut engine = fixture.open_engine();
    let table = engine
        .register_table(fixture.descriptor())
        .expect("table registers");
    let dispatcher = EngineDispatcher::new(table);

    engine
        .assert_record(Assertion::new(table, Thought::new("alpha", "seeded")))
        .expect("seed alpha");
    engine
        .assert_record(Assertion::new(table, Thought::new("beta", "seeded")))
        .expect("seed beta");

    let query = ThoughtRequest::ListAll.into_request();
    let snapshot = dispatcher.dispatch_single(&mut engine, query.payloads().head());

    assert_eq!(snapshot, SnapshotIdentifier::new(2));
    let log = engine.commit_log();
    assert_eq!(
        log.len(),
        2,
        "Match must not write a commit-log entry — only Assert/Mutate/Retract do",
    );
}
