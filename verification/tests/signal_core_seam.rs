//! A request whose operations carry a verb beside their payload is lowered
//! into the engine's verbs, and the commit log shows the same verbs.

use sema_engine::{
    Assertion, CommitRequest, EncodedRecord, Engine, EngineOpen, FamilyName, Mutation, NonEmpty,
    QueryPlan, RecordKey, Retraction, SchemaHash, SemaOperation, SnapshotIdentifier, Store,
    TableDescriptor, TableName, TableReference,
};

/// A record with a textual key and body, archived as a pair.
struct Thought;

impl Thought {
    fn new(key: &str, body: &str) -> EncodedRecord {
        let archived = (key.to_string(), body.to_string());
        let bytes = rkyv::to_bytes::<rkyv::rancor::Error>(&archived)
            .expect("record archives")
            .to_vec();
        EncodedRecord::new(RecordKey::domain(key), bytes)
    }
}

/// The verb that an operation carries on the wire.
#[derive(Debug, Clone, Copy, PartialEq, Eq)]
enum SignalVerb {
    Assert,
    Mutate,
    Retract,
    Match,
}

/// What a component's contract carries.
#[derive(Debug, Clone, PartialEq, Eq)]
enum ThoughtRequest {
    Submit(EncodedRecord),
    Replace(EncodedRecord),
    Retire(RecordKey),
    ListAll,
}

impl ThoughtRequest {
    fn signal_verb(&self) -> SignalVerb {
        match self {
            ThoughtRequest::Submit(_) => SignalVerb::Assert,
            ThoughtRequest::Replace(_) => SignalVerb::Mutate,
            ThoughtRequest::Retire(_) => SignalVerb::Retract,
            ThoughtRequest::ListAll => SignalVerb::Match,
        }
    }

    fn into_request(self) -> Request {
        let verb = self.signal_verb();
        Request::from_operations(NonEmpty::single(Operation::new(verb, self)))
    }
}

struct Operation {
    verb: SignalVerb,
    payload: ThoughtRequest,
}

impl Operation {
    fn new(verb: SignalVerb, payload: ThoughtRequest) -> Self {
        Operation { verb, payload }
    }

    fn verb(&self) -> SignalVerb {
        self.verb
    }

    fn payload(&self) -> &ThoughtRequest {
        &self.payload
    }
}

#[derive(Debug)]
enum RequestRejectionReason {
    VerbPayloadMismatch { index: usize },
}

struct Request {
    operations: NonEmpty<Operation>,
}

impl Request {
    fn from_operations(operations: NonEmpty<Operation>) -> Self {
        Request { operations }
    }

    fn check(&self) -> Result<(), RequestRejectionReason> {
        for (index, operation) in each(&self.operations).into_iter().enumerate() {
            if operation.verb() != operation.payload().signal_verb() {
                return Err(RequestRejectionReason::VerbPayloadMismatch { index });
            }
        }
        Ok(())
    }

    fn into_checked(self) -> Result<Request, RequestRejectionReason> {
        self.check()?;
        Ok(self)
    }
}

fn each<T>(list: &NonEmpty<T>) -> Vec<&T> {
    (0..list.len()).map(|at| list.get(at)).collect()
}

struct SeamFixture;

impl SeamFixture {
    fn new() -> Self {
        SeamFixture
    }

    fn open_engine(&self) -> Engine {
        Engine::open(EngineOpen::new(Store::new())).expect("engine opens")
    }

    fn descriptor(&self) -> TableDescriptor<EncodedRecord> {
        TableDescriptor::new(
            TableName::new("thoughts"),
            FamilyName::new("thought"),
            SchemaHash::for_label("thought-v1"),
        )
    }
}

/// Run one operation through the verb that its payload selects.
fn dispatch_single(
    engine: &mut Engine,
    table: TableReference<EncodedRecord>,
    operation: &Operation,
) -> SnapshotIdentifier {
    assert_eq!(operation.verb(), operation.payload().signal_verb());
    match operation.payload() {
        ThoughtRequest::Submit(thought) => {
            let receipt = engine
                .assert_record(Assertion::new(table, thought.clone()))
                .expect("assert succeeds");
            assert_eq!(receipt.operation(), SemaOperation::Assert);
            receipt.snapshot()
        }
        ThoughtRequest::Replace(thought) => {
            let receipt = engine
                .mutate(Mutation::new(table, thought.clone()))
                .expect("mutate succeeds");
            assert_eq!(receipt.operation(), SemaOperation::Mutate);
            receipt.snapshot()
        }
        ThoughtRequest::Retire(key) => {
            let receipt = engine
                .retract(Retraction::new(table, key.clone()))
                .expect("retract succeeds");
            assert_eq!(receipt.operation(), SemaOperation::Retract);
            receipt.snapshot()
        }
        ThoughtRequest::ListAll => {
            let snapshot = engine
                .match_records(QueryPlan::all(table))
                .expect("match succeeds");
            assert_eq!(snapshot.operation(), SemaOperation::Match);
            snapshot.snapshot()
        }
    }
}

#[test]
fn signal_core_assert_operation_lands_as_engine_assert_with_matching_operation() {
    let fixture = SeamFixture::new();
    let mut engine = fixture.open_engine();
    let table = engine
        .register_table(fixture.descriptor())
        .expect("table registers");

    let request = ThoughtRequest::Submit(Thought::new("alpha", "first thought")).into_request();
    let checked = request.into_checked().expect("legacy check passes");
    let operation = checked.operations.head();

    let snapshot = dispatch_single(&mut engine, table, operation);

    assert_eq!(snapshot, SnapshotIdentifier::new(1));
    let log = engine.commit_log();
    assert_eq!(log.len(), 1);
    assert_eq!(log[0].snapshot(), snapshot);
    let head = log[0].operations().head();
    assert_eq!(head.operation(), SemaOperation::Assert);
    assert_eq!(head.table_name(), "thoughts");
    assert_eq!(head.key().map(RecordKey::to_owned_string), Some("alpha".to_string()));
}

#[test]
fn signal_core_mutate_operation_lands_as_engine_mutate_with_matching_operation() {
    let fixture = SeamFixture::new();
    let mut engine = fixture.open_engine();
    let table = engine
        .register_table(fixture.descriptor())
        .expect("table registers");

    let seed = ThoughtRequest::Submit(Thought::new("alpha", "original")).into_request();
    let seed_checked = seed.into_checked().expect("legacy check passes");
    let _ = dispatch_single(&mut engine, table, seed_checked.operations.head());

    let mutate = ThoughtRequest::Replace(Thought::new("alpha", "revised")).into_request();
    let mutate_checked = mutate.into_checked().expect("legacy check passes");
    let snapshot = dispatch_single(&mut engine, table, mutate_checked.operations.head());

    assert_eq!(snapshot, SnapshotIdentifier::new(2));
    let log = engine.commit_log();
    assert_eq!(log.len(), 2);
    let mutate_entry = log
        .iter()
        .find(|entry| entry.operations().head().operation() == SemaOperation::Mutate)
        .expect("commit log carries the mutate entry");
    assert_eq!(mutate_entry.snapshot(), snapshot);
    let head = mutate_entry.operations().head();
    assert_eq!(head.table_name(), "thoughts");
    assert_eq!(head.key().map(RecordKey::to_owned_string), Some("alpha".to_string()));

    let read = engine
        .match_records(QueryPlan::key(table, RecordKey::new("alpha")))
        .expect("match succeeds");
    assert_eq!(read.records(), &[Thought::new("alpha", "revised")]);
}

#[test]
fn signal_core_retract_operation_lands_as_engine_retract_with_matching_operation() {
    let fixture = SeamFixture::new();
    let mut engine = fixture.open_engine();
    let table = engine
        .register_table(fixture.descriptor())
        .expect("table registers");

    let seed = ThoughtRequest::Submit(Thought::new("alpha", "soon retired")).into_request();
    let _ = dispatch_single(
        &mut engine,
        table,
        seed.into_checked().unwrap().operations.head(),
    );

    let retire = ThoughtRequest::Retire(RecordKey::new("alpha")).into_request();
    let checked = retire.into_checked().expect("legacy check passes");
    let snapshot = dispatch_single(&mut engine, table, checked.operations.head());

    assert_eq!(snapshot, SnapshotIdentifier::new(2));
    let log = engine.commit_log();
    let retract_entry = log
        .iter()
        .find(|entry| entry.operations().head().operation() == SemaOperation::Retract)
        .expect("commit log carries the retract entry");
    assert_eq!(retract_entry.snapshot(), snapshot);
    assert_eq!(
        retract_entry
            .operations()
            .head()
            .key()
            .map(RecordKey::to_owned_string),
        Some("alpha".to_string()),
    );

    let read = engine
        .match_records(QueryPlan::all(table))
        .expect("match succeeds");
    assert!(
        read.records().is_empty(),
        "the retracted record is gone after engine.retract"
    );
}

#[test]
fn signal_core_multi_operation_request_lands_as_one_commit_log_entry_with_ordered_operations() {
    let fixture = SeamFixture::new();
    let mut engine = fixture.open_engine();
    let table = engine
        .register_table(fixture.descriptor())
        .expect("table registers");

    engine
        .assert_record(Assertion::new(table, Thought::new("alpha", "seeded")))
        .expect("seed alpha");
    engine
        .assert_record(Assertion::new(table, Thought::new("gamma", "seeded")))
        .expect("seed gamma");
    let pre_log_len = engine.commit_log().len();

    let operations = NonEmpty::try_from_vec(vec![
        Operation::new(
            SignalVerb::Assert,
            ThoughtRequest::Submit(Thought::new("beta", "newcomer")),
        ),
        Operation::new(
            SignalVerb::Mutate,
            ThoughtRequest::Replace(Thought::new("alpha", "revised")),
        ),
        Operation::new(
            SignalVerb::Retract,
            ThoughtRequest::Retire(RecordKey::new("gamma")),
        ),
    ])
    .expect("non-empty vector");
    let request: Request = Request::from_operations(operations);
    let checked = request.into_checked().expect("legacy check passes");

    let mut commit = CommitRequest::new(table);
    for operation in each(&checked.operations) {
        assert_eq!(
            operation.verb(),
            operation.payload().signal_verb(),
            "per-operation verb still matches payload signal_verb()",
        );
        commit = match operation.payload().clone() {
            ThoughtRequest::Submit(thought) => commit.assert_record(thought),
            ThoughtRequest::Replace(thought) => commit.mutate(thought),
            ThoughtRequest::Retire(key) => commit.retract(key),
            ThoughtRequest::ListAll => {
                panic!("read-shaped payload inside a multi-operation write commit")
            }
        };
    }
    let receipt = engine
        .commit(commit)
        .expect("multi-operation commit succeeds");

    assert_eq!(receipt.operation_count(), 3);
    assert_eq!(receipt.snapshot(), SnapshotIdentifier::new(3));

    let log = engine.commit_log();
    assert_eq!(
        log.len(),
        pre_log_len + 1,
        "multi-operation commit lands one CommitLogEntry, not one per operation",
    );
    let entry = log
        .last()
        .expect("commit log has the multi-operation entry at the tail");
    assert_eq!(entry.snapshot(), receipt.snapshot());

    let per_operation_effects: Vec<SemaOperation> = each(entry.operations())
        .into_iter()
        .map(|operation| operation.operation())
        .collect();
    assert_eq!(
        per_operation_effects,
        vec![
            SemaOperation::Assert,
            SemaOperation::Mutate,
            SemaOperation::Retract
        ],
        "Sema operations preserve the wire order: Assert, then Mutate, then Retract",
    );

    let per_operation_keys: Vec<Option<String>> = each(entry.operations())
        .into_iter()
        .map(|operation| operation.key().map(RecordKey::to_owned_string))
        .collect();
    assert_eq!(
        per_operation_keys,
        vec![
            Some("beta".to_string()),
            Some("alpha".to_string()),
            Some("gamma".to_string())
        ]
    );

    let snapshot = engine
        .match_records(QueryPlan::all(table))
        .expect("match succeeds");
    let mut records = snapshot.records().to_vec();
    records.sort_by_key(|record| record.key().to_owned_string());
    assert_eq!(
        records,
        vec![
            Thought::new("alpha", "revised"),
            Thought::new("beta", "newcomer"),
        ],
    );
}

#[test]
fn signal_core_match_operation_lands_as_engine_match_with_matching_operation() {
    let fixture = SeamFixture::new();
    let mut engine = fixture.open_engine();
    let table = engine
        .register_table(fixture.descriptor())
        .expect("table registers");

    engine
        .assert_record(Assertion::new(table, Thought::new("alpha", "seeded")))
        .expect("seed alpha");
    engine
        .assert_record(Assertion::new(table, Thought::new("beta", "seeded")))
        .expect("seed beta");

    let query = ThoughtRequest::ListAll.into_request();
    let checked = query.into_checked().expect("legacy check passes");
    let operation = checked.operations.head();
    assert_eq!(operation.verb(), SignalVerb::Match);
    assert_eq!(operation.payload().signal_verb(), SignalVerb::Match);

    let snapshot = dispatch_single(&mut engine, table, operation);

    assert_eq!(snapshot, SnapshotIdentifier::new(2));
    let log = engine.commit_log();
    assert_eq!(
        log.len(),
        2,
        "Match must not write a commit-log entry — only Assert/Mutate/Retract do",
    );
}

#[test]
fn signal_core_legacy_check_catches_verb_payload_mismatch_before_engine_call() {
    let fixture = SeamFixture::new();
    let mut engine = fixture.open_engine();
    let table = engine
        .register_table(fixture.descriptor())
        .expect("table registers");
    let pre_log_len = engine.commit_log().len();

    let operation = Operation::new(
        SignalVerb::Mutate,
        ThoughtRequest::Submit(Thought::new("alpha", "first")),
    );
    let request: Request = Request::from_operations(NonEmpty::single(operation));

    let rejection = request
        .check()
        .expect_err("verb/payload mismatch must be rejected");
    assert!(matches!(
        rejection,
        RequestRejectionReason::VerbPayloadMismatch { index: 0 }
    ));

    let post_log_len = engine.commit_log().len();
    assert_eq!(
        post_log_len, pre_log_len,
        "no engine commit happened — the wire layer rejected first",
    );

    let snapshot = engine
        .match_records(QueryPlan::all(table))
        .expect("match succeeds");
    assert!(snapshot.records().is_empty());
}
