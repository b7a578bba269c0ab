//! Compaction of the version history keeps current state and restart
//! recovery, and lets only entries leave that a checkpoint covers and that
//! the store's topology acknowledges.

use sema_engine::{
    Assertion, CheckpointSequence, CommitSequence, EncodedRecord, Engine, EngineOpen, Error,
    FamilyDirectory, FamilyName, MirrorHead, Mutation, QueryPlan, RecordKey, Retraction,
    RowLanding, RowMaterializer, SchemaHash, Store, TableDescriptor, TableName, TableReference,
    VersionedHistoryAcknowledgement, VersionedHistoryRetention, VersionedRecoveryTopology,
    VersionedStoreName, VersioningPolicy,
};

fn thought(key: &str, body: &str) -> EncodedRecord {
    EncodedRecord::new(RecordKey::new(key), body.as_bytes().to_vec())
}

fn policy() -> VersioningPolicy {
    VersioningPolicy::new(VersionedStoreName::new("history"))
}

fn open(store: Store) -> Engine {
    Engine::open(EngineOpen::new(store).with_versioning(policy())).expect("versioned engine opens")
}

fn open_mirrored(store: Store) -> Engine {
    Engine::open(
        EngineOpen::new(store).with_versioning(
            policy().with_recovery_topology(VersionedRecoveryTopology::Mirror),
        ),
    )
    .expect("mirrored engine opens")
}

fn descriptor() -> TableDescriptor<EncodedRecord> {
    TableDescriptor::new(
        TableName::new("thoughts"),
        FamilyName::new("thought"),
        SchemaHash::for_label("thought-v1"),
    )
}

struct ThoughtDirectory {
    table: TableReference<EncodedRecord>,
}

impl FamilyDirectory for ThoughtDirectory {
    fn materialize(&self, row: RowMaterializer) -> Result<RowLanding, Error> {
        row.apply(self.table)
    }
}

#[test]
fn local_checkpoint_compaction_bounds_raw_history_and_preserves_restart_view() {
    let mut engine = open(Store::new());
    let table = engine.register_table(descriptor()).expect("table registers");
    engine
        .assert_record(Assertion::new(table, thought("alpha", "first")))
        .expect("initial write");
    engine
        .mutate(Mutation::new(table, thought("alpha", "current")))
        .expect("current write");

    let compacted = engine
        .compact_versioned_history(
            VersionedHistoryRetention::new(0),
            VersionedHistoryAcknowledgement::LocalCheckpoint,
        )
        .expect("verified local checkpoint compacts history");
    assert_eq!(compacted.compacted_entries(), 2);
    assert_eq!(compacted.retained_entries(), 0);
    assert!(engine.versioned_commit_log().is_empty());
    engine
        .mutate(Mutation::new(table, thought("alpha", "newest")))
        .expect("post-compaction write");
    engine
        .compact_versioned_history(
            VersionedHistoryRetention::new(0),
            VersionedHistoryAcknowledgement::LocalCheckpoint,
        )
        .expect("subsequent checkpoint replaces its compacted predecessor");
    assert_eq!(
        engine
            .latest_checkpoint()
            .expect("latest checkpoint reads")
            .expect("checkpoint exists")
            .metadata()
            .previous_checkpoint_digest(),
        None,
        "compaction retains one root checkpoint rather than accumulating a chain"
    );

    let mut reopened = open(engine.into_store());
    let table = reopened.register_table(descriptor()).expect("table registers");
    reopened
        .rebuild_from_log(&ThoughtDirectory { table })
        .expect("checkpoint rebuild succeeds after restart");
    let snapshot = reopened
        .match_records(QueryPlan::all(table))
        .expect("current view queries");
    assert_eq!(snapshot.records(), &[thought("alpha", "newest")]);
}

#[test]
fn local_checkpoint_acknowledgement_is_rejected_for_mirrored_store_without_mutation() {
    let mut engine = open_mirrored(Store::new());
    let table = engine.register_table(descriptor()).expect("table registers");
    engine
        .assert_record(Assertion::new(table, thought("alpha", "first")))
        .expect("write queues mirror row");

    let error = engine
        .compact_versioned_history(
            VersionedHistoryRetention::new(0),
            VersionedHistoryAcknowledgement::LocalCheckpoint,
        )
        .expect_err("a mirror topology cannot claim local-checkpoint recovery");
    assert!(matches!(error, Error::HistoryCompactionTopologyMismatch { .. }));
    assert_eq!(
        engine.versioned_commit_log().len(),
        1,
        "rejected compaction leaves replay history intact"
    );
    assert_eq!(
        engine.unshipped_outbox().len(),
        1,
        "rejected compaction never deletes unacknowledged mirror replay"
    );
    assert!(
        engine.latest_checkpoint().expect("checkpoint reads").is_none(),
        "topology validation happens before checkpoint mutation"
    );
}

#[test]
fn a_budget_keeps_the_last_entries() {
    let mut engine = open(Store::new());
    let table = engine.register_table(descriptor()).expect("registers");
    for key in ["a", "b", "c", "d"] {
        engine.assert_record(Assertion::new(table, thought(key, key))).expect("asserts");
    }
    engine
        .retract(Retraction::<EncodedRecord>::new(table, RecordKey::new("a")))
        .expect("retracts");
    let head = engine.versioned_chain_head();
    let log = engine.versioned_commit_log();
    let local = VersionedHistoryAcknowledgement::LocalCheckpoint;

    // A budget that holds every entry changes nothing.
    let idle = engine
        .compact_versioned_history(VersionedHistoryRetention::new(5), local)
        .expect("compacts");
    assert_eq!((idle.compacted_entries(), idle.retained_entries()), (0, 5));
    assert_eq!(idle.checkpoint_sequence(), None);
    assert_eq!(engine.versioned_commit_log(), log);

    let made = engine
        .compact_versioned_history(VersionedHistoryRetention::new(2), local)
        .expect("compacts");
    assert_eq!((made.compacted_entries(), made.retained_entries()), (3, 2));
    assert_eq!(made.checkpoint_sequence(), Some(CheckpointSequence::new(1)));
    assert_eq!(engine.versioned_commit_log(), log[3..].to_vec());
    assert_eq!(engine.commit_log().len(), 2);
    assert_eq!(engine.unshipped_outbox().len(), 2);
    assert_eq!(engine.versioned_chain_head(), head);
    assert_eq!(engine.current_commit_sequence(), CommitSequence::new(5));

    // The chain goes on, and a rebuild gives the same records.
    engine.assert_record(Assertion::new(table, thought("e", "e"))).expect("asserts");
    let entries = engine.versioned_commit_log();
    assert_eq!(entries[2].previous_entry_digest(), head);
    let before = engine.match_records(QueryPlan::all(table)).expect("reads").records().to_vec();
    engine.rebuild_from_log(&ThoughtDirectory { table }).expect("rebuilds");
    let after = engine.match_records(QueryPlan::all(table)).expect("reads").records().to_vec();
    assert_eq!(after, before);
    assert_eq!(after.len(), 4);
}

#[test]
fn a_mirrored_store_lets_only_confirmed_entries_leave() {
    let mut engine = open_mirrored(Store::new());
    let table = engine.register_table(descriptor()).expect("registers");
    for key in ["a", "b"] {
        engine.assert_record(Assertion::new(table, thought(key, key))).expect("asserts");
    }
    let log = engine.versioned_commit_log();
    let first = MirrorHead::new(CommitSequence::new(1), log[0].entry_digest());
    let second = MirrorHead::new(CommitSequence::new(2), log[1].entry_digest());
    let none = VersionedHistoryRetention::new(0);

    // Nothing was confirmed yet.
    assert!(matches!(
        engine.compact_versioned_history(none, VersionedHistoryAcknowledgement::Mirror(second)),
        Err(Error::HistoryCompactionUnacknowledged { required: 2, acknowledged: None })
    ));
    // The first entry is confirmed, the second is not.
    engine.acknowledge_mirror(first).expect("acknowledges");
    assert!(matches!(
        engine.compact_versioned_history(none, VersionedHistoryAcknowledgement::Mirror(first)),
        Err(Error::HistoryCompactionUnacknowledged { required: 2, acknowledged: Some(1) })
    ));
    let made = engine
        .compact_versioned_history(
            VersionedHistoryRetention::new(1),
            VersionedHistoryAcknowledgement::Mirror(first),
        )
        .expect("compacts");
    assert_eq!((made.compacted_entries(), made.retained_entries()), (1, 1));
    assert_eq!(engine.versioned_commit_log(), log[1..].to_vec());
    assert_eq!(engine.unshipped_outbox().len(), 1);

    // A store that recovers from its own checkpoints has no mirror to go by.
    let mut local = open(Store::new());
    assert!(matches!(
        local.compact_versioned_history(none, VersionedHistoryAcknowledgement::Mirror(first)),
        Err(Error::HistoryCompactionTopologyMismatch {
            topology: "local checkpoint",
            acknowledgement: "mirror",
        })
    ));
    let mut plain = Engine::open(EngineOpen::new(Store::new())).expect("opens");
    assert!(matches!(
        plain.compact_versioned_history(none, VersionedHistoryAcknowledgement::LocalCheckpoint),
        Err(Error::VersioningNotEnabled { .. })
    ));
}
