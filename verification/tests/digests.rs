//! Digests on given values: what each covers, and in what order.

use sema_engine::versioned::envelope::{OperationKind, ReplayEnvelope};
use sema_engine::versioned::identity;
use sema_engine::{
    CanonicalView, CheckpointMetadata, CheckpointSegment, CheckpointSequence, CommitSequence,
    CommitSequenceRange, EntryDigest, FamilyIdentity, FamilyInventory, FamilyName, NonEmpty,
    RecordIdentifier, RecordKey, SchemaHash, SegmentReference, SemaOperation, SnapshotIdentifier,
    StoreSchemaHash, TableName, VersionedCommitLogEntry, VersionedLogOperation, VersionedPayload,
    VersionedStoreName, ViewDigest, ViewRow,
};

fn thought() -> FamilyIdentity {
    FamilyIdentity::new(
        FamilyName::new("thought"),
        SchemaHash::for_label("thought-v1"),
        TableName::new("thoughts"),
    )
}

fn activity() -> FamilyIdentity {
    FamilyIdentity::new(
        FamilyName::new("activity"),
        SchemaHash::for_label("activity-v1"),
        TableName::new("activities"),
    )
}

fn inventory() -> StoreSchemaHash {
    StoreSchemaHash::from([thought()].as_slice())
}

fn first_entry() -> VersionedCommitLogEntry {
    VersionedCommitLogEntry::new(
        VersionedStoreName::new("notebook"),
        inventory(),
        CommitSequence::new(1),
        SnapshotIdentifier::new(1),
        None,
        NonEmpty::single(VersionedLogOperation::new(
            SemaOperation::Assert,
            thought(),
            Some(RecordKey::domain("alpha")),
            VersionedPayload::record(b"first".to_vec()),
        )),
    )
}

fn first_row() -> ViewRow {
    ViewRow::new(
        thought(),
        RecordKey::domain("alpha"),
        VersionedPayload::record(b"first".to_vec()),
    )
}

#[test]
fn schema_hash_is_the_hash_of_its_label() {
    assert_eq!(
        SchemaHash::for_label("thought-v1").to_text(),
        "885476a11588c9228a29256a8afc9691162b8a1b61f0f4460e315f6130f99551"
    );
    assert_eq!(SchemaHash::for_label(""), SchemaHash::new(*blake3::hash(b"").as_bytes()));
}

#[test]
fn store_schema_hash_covers_the_sorted_families() {
    assert_eq!(
        inventory().to_text(),
        "2d6bd3e3151b04d9be461c7de7f5ef2135a036baae970971952e4e53852d42a4"
    );
    let there = StoreSchemaHash::from([thought(), activity()].as_slice());
    let back = StoreSchemaHash::from([activity(), thought()].as_slice());
    assert_eq!(
        there.to_text(),
        "640c760e645ec527feb9b938b417aa01a52f4a3ed078531acdc6e49be0a63651"
    );
    assert_eq!(there, back);
    assert_eq!(
        StoreSchemaHash::from([].as_slice()).to_text(),
        "1e15b6a433f4dcd3d00c9a9ed9edca2d413067d9386d5a2f325d574c46b627ce"
    );
}

#[test]
fn entry_digest_covers_every_field() {
    let first = first_entry();
    assert_eq!(
        first.entry_digest().to_text(),
        "b3836bf9c447d1d424f81fbacab60e2d680215930e32ee987eae838591c4567e"
    );
    let second = VersionedCommitLogEntry::new(
        VersionedStoreName::new("notebook"),
        inventory(),
        CommitSequence::new(2),
        SnapshotIdentifier::new(2),
        Some(first.entry_digest()),
        NonEmpty::from_head_and_tail(
            VersionedLogOperation::new(
                SemaOperation::Retract,
                thought(),
                Some(RecordKey::domain("alpha")),
                VersionedPayload::tombstone(),
            ),
            vec![VersionedLogOperation::new(
                SemaOperation::Mutate,
                thought(),
                Some(RecordKey::identifier(RecordIdentifier::new(7))),
                VersionedPayload::record(b"second".to_vec()),
            )],
        ),
    );
    assert_eq!(
        second.entry_digest().to_text(),
        "8f1e71653c54dd331982bc532e4e3c09144d5d3e1206855b055fb31d236b934f"
    );
    assert!(second.is_sealed());
    assert!(!second.stored(EntryDigest::new([0; 32])).is_sealed());
}

#[test]
fn segment_digest_covers_its_rows() {
    let segment = CheckpointSegment::new(vec![first_row()]);
    assert_eq!(
        segment.digest().to_text(),
        "452b140f19f48ef142baa265c9d06dd4c5e31d7127def0c5ce47157cdf8208a9"
    );
    assert_eq!(segment.reference(), SegmentReference::new(segment.digest(), 1));
}

#[test]
fn view_digest_covers_the_kept_records() {
    let view = CanonicalView::fold(&[first_row()], &[], None).expect("folds");
    assert_eq!(
        view.digest().to_text(),
        "266c6a2fbea3058eef91b3c825b8d7ecf74f44d0b6ab48fbd83ed3b363b5e6d1"
    );
    let empty = CanonicalView::fold(&[], &[], None).expect("folds");
    assert_eq!(
        empty.digest().to_text(),
        "26d59104dce45ba8ff348e899c5f8c1fa7ea450a86b4c4e48cff36e4726c1ad0"
    );
    // The same record, logged in place of checkpointed.
    let logged = CanonicalView::fold(&[], &[first_entry()], None).expect("folds");
    assert_eq!(logged.digest(), view.digest());
}

#[test]
fn checkpoint_digest_covers_every_field() {
    let segment = CheckpointSegment::new(vec![first_row()]);
    let view = CanonicalView::fold(&[first_row()], &[], None).expect("folds");
    let metadata = CheckpointMetadata::new(
        CheckpointSequence::first(),
        VersionedStoreName::new("notebook"),
        inventory(),
        FamilyInventory::new(vec![thought()], Vec::new()),
        CommitSequenceRange::new(CommitSequence::new(1), CommitSequence::new(1)),
        SnapshotIdentifier::new(1),
        first_entry().entry_digest(),
        view.digest(),
        None,
        vec![segment.reference()],
    );
    assert_eq!(
        metadata.checkpoint_digest().to_text(),
        "e5cb9229744809f804116029524fa9c16ca37ac19e17bdfa9abbc97240514109"
    );
    assert_eq!(metadata.computed_digest(), metadata.checkpoint_digest());
    let other = ViewDigest::new([0; 32]);
    assert_ne!(other, view.digest());
}

#[test]
fn envelope_digest_covers_every_field() {
    let label = identity::SchemaHash::of_label("demo.entry.v1");
    assert_eq!(SchemaHash::new(*label.as_bytes()), SchemaHash::for_label("demo.entry.v1"));
    let entry = ReplayEnvelope::new(
        identity::CommitSequence::genesis(),
        OperationKind::Assert,
        label,
        identity::RecordKey::new(vec![1]),
        vec![1, 2, 3],
        identity::EntryDigest::zero(),
    );
    assert_eq!(
        EntryDigest::new(*entry.entry_digest().as_bytes()).to_text(),
        "035b23ad828ca96d4e272f5c4cd615bb5973776ec128f52711445a13df01cf76"
    );
}
