//! A session buffers the ordinary write verbs into one group that is not
//! committed, and reads see it; the parked group lands exactly what the
//! direct writes would have committed, or leaves no trace; and it outlives
//! the engine that parked it.

use std::cell::RefCell;

use sema_engine::{
    Assertion, DeltaAnnouncer, DeltaKind, EncodedRecord, Engine, EngineOpen, EntryDigest, Error,
    FamilyDirectory, FamilyName, IdentifiedAssertion, IdentifiedQueryPlan,
    IdentifiedTableDescriptor, IdentifiedTableReference, Mutation, QueryPlan, RecordKey,
    Retraction, RowLanding, RowMaterializer, SchemaHash, SinkError, Store, SubscriptionDeliveryMode,
    SubscriptionEvent, SubscriptionSink, TableDescriptor, TableName, TableReference,
    VersionedCommitLogEntry, VersionedStoreName, VersioningPolicy,
};

/// A record with a textual key and body, archived as a pair.
struct Thought;

impl Thought {
    fn new(key: &str, body: &str) -> EncodedRecord {
        let archived = (key.to_string(), body.to_string());
        let bytes = rkyv::to_bytes::<rkyv::rancor::Error>(&archived)
            .expect("record archives")
            .to_vec();
        EncodedRecord::new(RecordKey::domain(key), bytes)
    }
}

/// A record whose identifier the engine mints.
struct Tally;

impl Tally {
    fn new(note: &str) -> EncodedRecord {
        EncodedRecord::new(RecordKey::domain(note), note.as_bytes().to_vec())
    }
}

struct Families {
    thoughts: TableReference<EncodedRecord>,
    tallies: IdentifiedTableReference<EncodedRecord>,
}

impl FamilyDirectory for Families {
    fn materialize(&self, row: RowMaterializer) -> Result<RowLanding, Error> {
        match row.family().family().as_str() {
            "thought" => row.apply(self.thoughts),
            "tally" => row.apply_identified(self.tallies),
            other => Err(Error::FamilyUnknown { family: other.to_owned() }),
        }
    }

    fn announce(&self, delta: DeltaAnnouncer) -> Result<Option<TableName>, Error> {
        match delta.family().family().as_str() {
            "thought" => delta.announce(self.thoughts),
            "tally" => delta.announce_identified(self.tallies),
            other => Err(Error::FamilyUnknown { family: other.to_owned() }),
        }
    }
}

/// Stores by name, each resting while no engine holds it.
struct Fixture {
    shelf: RefCell<Vec<(String, Store)>>,
}

impl Fixture {
    fn new() -> Self {
        Fixture { shelf: RefCell::new(Vec::new()) }
    }

    fn take(&self, name: &str) -> Store {
        let mut shelf = self.shelf.borrow_mut();
        match shelf.iter().position(|(held, _)| held == name) {
            Some(at) => shelf.remove(at).1,
            None => Store::new(),
        }
    }

    fn put(&self, name: &str, store: Store) {
        self.shelf.borrow_mut().push((name.to_string(), store));
    }

    fn close(&self, name: &str, engine: Engine) {
        self.put(name, engine.into_store());
    }

    fn open_store(&self, name: &str, store_name: &str) -> Engine {
        Engine::open(
            EngineOpen::new(self.take(name))
                .with_versioning(VersioningPolicy::new(VersionedStoreName::new(store_name))),
        )
        .expect("versioned engine opens")
    }

    fn thought_descriptor(&self) -> TableDescriptor<EncodedRecord> {
        TableDescriptor::new(
            TableName::new("thoughts"),
            FamilyName::new("thought"),
            SchemaHash::for_label("thought-v1"),
        )
    }

    fn tally_descriptor(&self) -> IdentifiedTableDescriptor<EncodedRecord> {
        IdentifiedTableDescriptor::new(
            TableName::new("tallies"),
            FamilyName::new("tally"),
            SchemaHash::for_label("tally-v1"),
        )
    }
}

struct Registered {
    engine: Engine,
    families: Families,
}

impl Registered {
    fn open(fixture: &Fixture, name: &str, store_name: &str) -> Self {
        let mut engine = fixture.open_store(name, store_name);
        let thoughts = engine
            .register_table(fixture.thought_descriptor())
            .expect("thoughts register");
        let tallies = engine
            .register_identified_table(fixture.tally_descriptor())
            .expect("tallies register");
        Registered { engine, families: Families { thoughts, tallies } }
    }

    /// Everything durable that a caller can observe.
    fn observable_state(&self) -> ObservableState {
        ObservableState {
            versioned_log: self.engine.versioned_commit_log(),
            commit_log_length: self.engine.commit_log().len(),
            outbox: self
                .engine
                .unshipped_outbox()
                .iter()
                .map(|row| (row.commit_sequence().value(), row.entry_digest()))
                .collect(),
            chain_head: self.engine.versioned_chain_head(),
            commit_sequence: self.engine.current_commit_sequence().value(),
            snapshot: self.engine.latest_snapshot().value(),
            thoughts: self
                .engine
                .match_records(QueryPlan::all(self.families.thoughts))
                .expect("thoughts read")
                .records()
                .to_vec(),
            tallies: self
                .engine
                .match_identified(IdentifiedQueryPlan::all(self.families.tallies))
                .expect("tallies read")
                .records()
                .iter()
                .map(|row| (row.identifier().value(), row.value().clone()))
                .collect(),
        }
    }
}

#[derive(Debug, PartialEq, Eq)]
struct ObservableState {
    versioned_log: Vec<VersionedCommitLogEntry>,
    commit_log_length: usize,
    outbox: Vec<(u64, EntryDigest)>,
    chain_head: Option<EntryDigest>,
    commit_sequence: u64,
    snapshot: u64,
    thoughts: Vec<EncodedRecord>,
    tallies: Vec<(u64, EncodedRecord)>,
}

/// One run of writes: an assertion, an identified assertion, an assertion
/// under a key that a read decides, a mutation and a retraction.
struct SequenceReceipts {
    tally_identifier: u64,
    derived_key: String,
}

impl SequenceReceipts {
    fn run(registered: &mut Registered) -> Self {
        let engine = &mut registered.engine;
        let families = &registered.families;
        engine
            .assert_record(Assertion::new(families.thoughts, Thought::new("alpha", "first")))
            .expect("alpha asserts");
        let tally = engine
            .assert_identified(IdentifiedAssertion::new(families.tallies, Tally::new("one")))
            .expect("tally asserts");
        let visible = engine
            .match_records(QueryPlan::all(families.thoughts))
            .expect("thoughts read mid-sequence");
        let derived_key = format!("derived-{}", visible.records().len());
        engine
            .assert_record(Assertion::new(families.thoughts, Thought::new(&derived_key, "second")))
            .expect("derived asserts");
        engine
            .mutate(Mutation::new(families.thoughts, Thought::new("alpha", "revised")))
            .expect("alpha mutates");
        engine
            .retract(Retraction::new(families.thoughts, RecordKey::new("alpha")))
            .expect("alpha retracts");
        SequenceReceipts { tally_identifier: tally.identifier().value(), derived_key }
    }
}

/// Keeps the changes that it is handed.
struct RecordEventLog {
    kinds: RefCell<Vec<DeltaKind>>,
}

impl RecordEventLog {
    fn new() -> Self {
        RecordEventLog { kinds: RefCell::new(Vec::new()) }
    }

    fn delta_kinds(&self) -> Vec<DeltaKind> {
        self.kinds.borrow().clone()
    }
}

impl SubscriptionSink<EncodedRecord> for RecordEventLog {
    fn delivery_mode(&self) -> SubscriptionDeliveryMode {
        SubscriptionDeliveryMode::Inline
    }

    fn deliver(&self, event: SubscriptionEvent<EncodedRecord>) -> Result<(), SinkError> {
        if let SubscriptionEvent::Delta(delta) = event {
            self.kinds.borrow_mut().push(delta.kind());
        }
        Ok(())
    }
}

/// Hand every queued change to the sink, as a host does after a commit.
fn deliver<Sink: SubscriptionSink<EncodedRecord>>(engine: &mut Engine, sink: &Sink) {
    for delta in engine.take_deltas() {
        let _ = sink.deliver(SubscriptionEvent::Delta(delta));
    }
}

#[test]
fn stage_then_discard_leaves_no_observable_trace() {
    let fixture = Fixture::new();
    let mut registered = Registered::open(&fixture, "discard", "discard");
    registered
        .engine
        .assert_record(Assertion::new(
            registered.families.thoughts,
            Thought::new("standing", "committed before staging"),
        ))
        .expect("baseline write");
    let before = registered.observable_state();

    registered
        .engine
        .begin_staged_group()
        .expect("session engages");
    SequenceReceipts::run(&mut registered);
    let receipt = registered
        .engine
        .park_staged_group()
        .expect("group parks")
        .expect("non-empty group stages");
    assert_ne!(
        Some(receipt.prospective_head()),
        before.chain_head,
        "the prospective head names a would-be advance"
    );

    let discard = registered
        .engine
        .discard_staged_group()
        .expect("group discards");
    assert_eq!(discard.prospective_head(), receipt.prospective_head());
    assert_eq!(discard.entry_count(), receipt.entry_count());

    let after = registered.observable_state();
    assert_eq!(
        before, after,
        "a discarded group must leave records, head, logs, outbox, and counters unchanged"
    );
    assert!(
        registered
            .engine
            .staged_group()
            .is_none(),
        "the slot is empty after a discard"
    );
}

#[test]
fn staged_group_materializes_byte_for_byte_with_direct_writes() {
    let fixture = Fixture::new();
    let mut direct = Registered::open(&fixture, "direct-twin", "twin");
    let mut staged = Registered::open(&fixture, "staged-twin", "twin");

    let direct_receipts = SequenceReceipts::run(&mut direct);

    staged.engine.begin_staged_group().expect("session engages");
    let staged_receipts = SequenceReceipts::run(&mut staged);
    assert_eq!(
        direct_receipts.tally_identifier, staged_receipts.tally_identifier,
        "identified mints must match the direct path"
    );
    assert_eq!(
        direct_receipts.derived_key, staged_receipts.derived_key,
        "read-dependent key derivation must observe the staged overlay"
    );
    let receipt = staged
        .engine
        .park_staged_group()
        .expect("group parks")
        .expect("non-empty group stages");
    staged
        .engine
        .materialize_staged_group(&staged.families)
        .expect("group materializes");

    let direct_state = direct.observable_state();
    let staged_state = staged.observable_state();
    assert_eq!(
        direct_state, staged_state,
        "stage-then-materialize must equal the direct writes byte-for-byte"
    );
    assert_eq!(
        Some(receipt.prospective_head()),
        staged_state.chain_head,
        "the granted digest is exactly the head the store now stands at"
    );

    // The next identified mint continues identically on both twins,
    // proving the durable counters advanced the same way.
    let direct_next = direct
        .engine
        .assert_identified(IdentifiedAssertion::new(
            direct.families.tallies,
            Tally::new("after"),
        ))
        .expect("direct next mint");
    let staged_next = staged
        .engine
        .assert_identified(IdentifiedAssertion::new(
            staged.families.tallies,
            Tally::new("after"),
        ))
        .expect("staged next mint");
    assert_eq!(
        direct_next.identifier().value(),
        staged_next.identifier().value()
    );
}

#[test]
fn prospective_head_equals_materialized_head() {
    let fixture = Fixture::new();
    let mut registered = Registered::open(&fixture, "prospect", "prospect");
    registered.engine.begin_staged_group().expect("engages");
    SequenceReceipts::run(&mut registered);
    let receipt = registered
        .engine
        .park_staged_group()
        .expect("parks")
        .expect("stages");
    let materialized = registered
        .engine
        .materialize_staged_group(&registered.families)
        .expect("materializes");
    assert_eq!(materialized.head(), receipt.prospective_head());
    assert_eq!(
        registered
            .engine
            .versioned_chain_head(),
        Some(receipt.prospective_head())
    );
}

#[test]
fn occupied_slot_survives_reopen_and_recovery_materialize_matches_the_twin() {
    let fixture = Fixture::new();
    // The pre-crash twin materializes immediately; the crashing store
    // parks, reopens, and materializes in recovery.
    let mut twin = Registered::open(&fixture, "recover-twin", "recover");
    twin.engine.begin_staged_group().expect("twin engages");
    SequenceReceipts::run(&mut twin);
    twin.engine
        .park_staged_group()
        .expect("twin parks")
        .expect("twin stages");
    twin.engine
        .materialize_staged_group(&twin.families)
        .expect("twin materializes");

    let receipt = {
        let mut crashing = Registered::open(&fixture, "recover", "recover");
        crashing.engine.begin_staged_group().expect("engages");
        SequenceReceipts::run(&mut crashing);
        let receipt = crashing
            .engine
            .park_staged_group()
            .expect("parks")
            .expect("stages");
        fixture.close("recover", crashing.engine);
        receipt
    };

    let mut reopened = Registered::open(&fixture, "recover", "recover");
    let summary = reopened
        .engine
        .staged_group()
        .expect("the parked slot survives the restart");
    assert_eq!(summary.prospective_head(), receipt.prospective_head());
    assert_eq!(summary.entry_count(), receipt.entry_count());
    assert_eq!(summary.base_predecessor(), None);

    reopened
        .engine
        .materialize_staged_group(&reopened.families)
        .expect("recovery materializes");
    assert!(
        reopened
            .engine
            .staged_group()
            .is_none()
    );
    assert_eq!(
        reopened.observable_state(),
        twin.observable_state(),
        "recovery materialization equals materializing before the crash"
    );
}

#[test]
fn occupied_slot_resolves_by_discard_after_reopen() {
    let fixture = Fixture::new();
    {
        let mut crashing = Registered::open(&fixture, "recover-discard", "recover-discard");
        crashing.engine.begin_staged_group().expect("engages");
        SequenceReceipts::run(&mut crashing);
        crashing
            .engine
            .park_staged_group()
            .expect("parks")
            .expect("stages");
        fixture.close("recover-discard", crashing.engine);
    }
    let mut reopened = Registered::open(&fixture, "recover-discard", "recover-discard");
    let fresh_twin = Registered::open(&fixture, "recover-discard-twin", "recover-discard");
    assert!(reopened.engine.staged_group().is_some());
    reopened.engine.discard_staged_group().expect("discards");
    assert!(reopened.engine.staged_group().is_none());
    assert_eq!(
        reopened.observable_state(),
        fresh_twin.observable_state(),
        "a discarded recovery slot leaves the store exactly as never written"
    );
}

#[test]
fn begin_is_refused_while_a_parked_group_stands_or_a_session_is_engaged() {
    let fixture = Fixture::new();
    let mut registered = Registered::open(&fixture, "refuse-begin", "refuse-begin");

    registered.engine.begin_staged_group().expect("engages");
    assert!(
        matches!(
            registered.engine.begin_staged_group(),
            Err(Error::StagingSessionEngaged)
        ),
        "a second engagement is a typed refusal"
    );
    SequenceReceipts::run(&mut registered);
    registered
        .engine
        .park_staged_group()
        .expect("parks")
        .expect("stages");
    assert!(
        matches!(
            registered.engine.begin_staged_group(),
            Err(Error::StagingSlotOccupied)
        ),
        "an unresolved parked group refuses a new build"
    );
}

#[test]
fn materialize_after_an_interleaved_commit_is_refused_fail_closed() {
    let fixture = Fixture::new();
    let mut registered = Registered::open(&fixture, "interleave", "interleave");
    registered.engine.begin_staged_group().expect("engages");
    SequenceReceipts::run(&mut registered);
    registered
        .engine
        .park_staged_group()
        .expect("parks")
        .expect("stages");
    // A write landing after the park (for example a Disabled-mode
    // writer or an older engine) moves the base out from under the
    // parked group.
    registered
        .engine
        .assert_record(Assertion::new(
            registered.families.thoughts,
            Thought::new("interloper", "moved the head"),
        ))
        .expect("interleaved write commits directly");
    assert!(
        matches!(
            registered
                .engine
                .materialize_staged_group(&registered.families),
            Err(Error::StagingBaseMoved { .. })
        ),
        "a parked group whose base moved must refuse to materialize"
    );
    registered.engine.discard_staged_group().expect("discards");
}

#[test]
fn empty_park_stages_nothing_and_disengages() {
    let fixture = Fixture::new();
    let mut registered = Registered::open(&fixture, "empty-park", "empty-park");
    registered.engine.begin_staged_group().expect("engages");
    assert!(
        registered
            .engine
            .park_staged_group()
            .expect("empty park succeeds")
            .is_none(),
        "an empty buffer parks nothing"
    );
    assert!(
        registered
            .engine
            .staged_group()
            .is_none()
    );
    // Disengaged: a direct write commits normally again.
    registered
        .engine
        .assert_record(Assertion::new(
            registered.families.thoughts,
            Thought::new("direct", "after empty park"),
        ))
        .expect("direct write after disengage");
    assert_eq!(
        registered
            .engine
            .versioned_commit_log()
            .len(),
        1
    );
}

#[test]
fn abandon_drops_the_buffer_without_a_durable_trace() {
    let fixture = Fixture::new();
    let mut registered = Registered::open(&fixture, "abandon", "abandon");
    let before = registered.observable_state();
    registered.engine.begin_staged_group().expect("engages");
    SequenceReceipts::run(&mut registered);
    registered.engine.abandon_staged_group();
    assert_eq!(before, registered.observable_state());
    assert!(
        registered
            .engine
            .staged_group()
            .is_none()
    );
    registered
        .engine
        .abandon_staged_group();
}

#[test]
fn materialize_and_discard_on_an_empty_slot_are_typed_refusals() {
    let fixture = Fixture::new();
    let mut registered = Registered::open(&fixture, "empty-slot", "empty-slot");
    assert!(matches!(
        registered
            .engine
            .materialize_staged_group(&registered.families),
        Err(Error::StagingSlotEmpty { .. })
    ));
    assert!(matches!(
        registered.engine.discard_staged_group(),
        Err(Error::StagingSlotEmpty { .. })
    ));
    assert!(matches!(
        registered.engine.park_staged_group(),
        Err(Error::StagingSessionNotEngaged { .. })
    ));
}

#[test]
fn engaged_reads_overlay_and_disengaged_reads_return_to_committed_state() {
    let fixture = Fixture::new();
    let mut registered = Registered::open(&fixture, "overlay", "overlay");
    registered
        .engine
        .assert_record(Assertion::new(
            registered.families.thoughts,
            Thought::new("committed", "before"),
        ))
        .expect("baseline");
    let committed_sequence = registered
        .engine
        .current_commit_sequence();

    registered.engine.begin_staged_group().expect("engages");
    registered
        .engine
        .assert_record(Assertion::new(
            registered.families.thoughts,
            Thought::new("staged", "buffered"),
        ))
        .expect("staged assert buffers");
    registered
        .engine
        .retract(Retraction::new(
            registered.families.thoughts,
            RecordKey::new("committed"),
        ))
        .expect("staged retract buffers");
    let tally = registered
        .engine
        .assert_identified(IdentifiedAssertion::new(
            registered.families.tallies,
            Tally::new("staged tally"),
        ))
        .expect("staged identified assert buffers");

    let engaged_thoughts = registered
        .engine
        .match_records(QueryPlan::all(registered.families.thoughts))
        .expect("engaged read");
    assert_eq!(
        engaged_thoughts.records(),
        &[Thought::new("staged", "buffered")],
        "the engaged read sees the staged assert and the staged retract"
    );
    let engaged_tallies = registered
        .engine
        .match_identified(IdentifiedQueryPlan::all(registered.families.tallies))
        .expect("engaged identified read");
    assert_eq!(engaged_tallies.records().len(), 1);
    assert_eq!(
        engaged_tallies.records()[0].identifier(),
        tally.identifier()
    );
    assert_eq!(
        registered
            .engine
            .current_commit_sequence()
            .value(),
        committed_sequence.value() + 3,
        "the engaged sequence reflects the buffered entries"
    );

    registered.engine.abandon_staged_group();
    let committed_thoughts = registered
        .engine
        .match_records(QueryPlan::all(registered.families.thoughts))
        .expect("committed read");
    assert_eq!(
        committed_thoughts.records(),
        &[Thought::new("committed", "before")],
        "after disengaging, reads return to committed state"
    );
    assert_eq!(
        registered
            .engine
            .current_commit_sequence(),
        committed_sequence
    );
}

#[test]
fn subscription_deltas_deliver_at_materialize_not_at_buffer_time() {
    let fixture = Fixture::new();
    let mut registered = Registered::open(&fixture, "deltas", "deltas");
    registered
        .engine
        .assert_record(Assertion::new(
            registered.families.thoughts,
            Thought::new("standing", "to be retracted"),
        ))
        .expect("baseline");
    let sink = RecordEventLog::new();
    registered
        .engine
        .subscribe(QueryPlan::all(registered.families.thoughts), &sink)
        .expect("subscription registers");

    registered.engine.begin_staged_group().expect("engages");
    registered
        .engine
        .assert_record(Assertion::new(
            registered.families.thoughts,
            Thought::new("fresh", "asserted"),
        ))
        .expect("buffers");
    registered
        .engine
        .mutate(Mutation::new(
            registered.families.thoughts,
            Thought::new("fresh", "mutated"),
        ))
        .expect("buffers");
    registered
        .engine
        .retract(Retraction::new(
            registered.families.thoughts,
            RecordKey::new("standing"),
        ))
        .expect("buffers");
    deliver(&mut registered.engine, &sink);
    assert!(
        sink.delta_kinds().is_empty(),
        "nothing is delivered while the group is only buffered"
    );
    registered
        .engine
        .park_staged_group()
        .expect("parks")
        .expect("stages");
    deliver(&mut registered.engine, &sink);
    assert!(
        sink.delta_kinds().is_empty(),
        "nothing is delivered while the group is only parked"
    );

    registered
        .engine
        .materialize_staged_group(&registered.families)
        .expect("materializes");
    deliver(&mut registered.engine, &sink);
    assert_eq!(
        sink.delta_kinds(),
        vec![DeltaKind::Assert, DeltaKind::Mutate, DeltaKind::Retract],
        "materialization delivers exactly the deltas the direct writes would have"
    );
}
