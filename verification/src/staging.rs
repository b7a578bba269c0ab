//! Staging: building a group of writes that an external grant may turn
//! into commits. A session buffers writes; parking keeps the built group
//! in the store; materializing lands it, and discarding leaves no trace.

use vstd::prelude::*;

use crate::error::{Error, Failure};
use crate::fold::same_head;
use crate::models::{lemma_views_push, option_view, views, Duplicate};
use crate::operation::NonEmpty;
use crate::order::same_text;
use crate::record::{
    message_view, read_as, read_stored, EngineStoredValue, KeyModel, RecordKey,
};
use crate::sequence::CommitSequence;
use crate::snapshot::SnapshotIdentifier;
use crate::subscribe::DeltaKind;
use crate::table::{IdentifiedTableReference, TableName, TableReference};
use crate::tables::{applied_all, countable, RecordTables, TablesModel, Write, WriteFact};
use crate::versioning::{
    sealed, EntryDigest, EntryModel, FamilyIdentity, FamilyModel, OperationModel, StoreSchemaHash,
    VersionedCommitLogEntry, VersionedLogOperation, VersionedStoreName,
};

verus! {

/// The record that a staged retraction removed, at its place in the group,
/// so that subscribers can be told of it when the group lands.
#[derive(Debug, PartialEq, Eq)]
pub struct StagedPreImage {
    entry_index: u64,
    operation_index: u64,
    bytes: Vec<u8>,
}

/// A staged pre-image as plain values.
pub struct PreImageModel {
    pub entry_index: u64,
    pub operation_index: u64,
    pub bytes: Seq<u8>,
}

impl View for StagedPreImage {
    type V = PreImageModel;

    closed spec fn view(&self) -> PreImageModel {
        PreImageModel {
            entry_index: self.entry_index,
            operation_index: self.operation_index,
            bytes: self.bytes@,
        }
    }
}

impl StagedPreImage {
    pub fn new(entry_index: u64, operation_index: u64, bytes: Vec<u8>) -> (made: Self)
        ensures
            made@ == (PreImageModel {
                entry_index: entry_index,
                operation_index: operation_index,
                bytes: bytes@,
            }),
    {
        StagedPreImage { entry_index, operation_index, bytes }
    }

    pub fn entry_index(&self) -> (found: u64)
        ensures
            found == self@.entry_index,
    {
        self.entry_index
    }

    pub fn operation_index(&self) -> (found: u64)
        ensures
            found == self@.operation_index,
    {
        self.operation_index
    }

    pub fn bytes(&self) -> (found: &[u8])
        ensures
            found@ == self@.bytes,
    {
        self.bytes.as_slice()
    }
}

impl Clone for StagedPreImage {
    fn clone(&self) -> (copy: Self)
        ensures
            copy@ == self@,
    {
        StagedPreImage {
            entry_index: self.entry_index,
            operation_index: self.operation_index,
            bytes: self.bytes.duplicate(),
        }
    }
}

/// A parked group: the entries that a build chained from the store's
/// head, and what its retractions removed. Everything that landing it
/// takes is here, so a parked group survives a restart.
#[derive(Debug, PartialEq, Eq)]
pub struct StagedOperationGroup {
    entries: Vec<VersionedCommitLogEntry>,
    retract_pre_images: Vec<StagedPreImage>,
}

/// A parked group as plain values.
pub struct GroupModel {
    pub entries: Seq<EntryModel>,
    pub pre_images: Seq<PreImageModel>,
}

/// What a group's retraction removed: the first pre-image at that place.
pub open spec fn pre_image_at(
    images: Seq<PreImageModel>,
    entry_index: int,
    operation_index: int,
) -> Option<Seq<u8>>
    decreases images.len(),
{
    if images.len() == 0 {
        None
    } else if images[0].entry_index == entry_index && images[0].operation_index
        == operation_index {
        Some(images[0].bytes)
    } else {
        pre_image_at(images.drop_first(), entry_index, operation_index)
    }
}

impl View for StagedOperationGroup {
    type V = GroupModel;

    closed spec fn view(&self) -> GroupModel {
        GroupModel { entries: views(self.entries@), pre_images: views(self.retract_pre_images@) }
    }
}

impl Clone for StagedOperationGroup {
    fn clone(&self) -> (copy: Self)
        ensures
            copy@ == self@,
    {
        let copy = StagedOperationGroup {
            entries: self.entries.clone(),
            retract_pre_images: self.retract_pre_images.clone(),
        };
        assert(copy@.entries =~= self@.entries);
        assert(copy@.pre_images =~= self@.pre_images);
        copy
    }
}

impl StagedOperationGroup {
    pub fn new(
        entries: Vec<VersionedCommitLogEntry>,
        retract_pre_images: Vec<StagedPreImage>,
    ) -> (group: Self)
        ensures
            group@ == (GroupModel {
                entries: views(entries@),
                pre_images: views(retract_pre_images@),
            }),
    {
        StagedOperationGroup { entries, retract_pre_images }
    }

    pub fn entries(&self) -> (entries: &[VersionedCommitLogEntry])
        ensures
            views(entries@) == self@.entries,
    {
        self.entries.as_slice()
    }

    /// What the group's retractions removed.
    pub fn pre_images(&self) -> (images: &[StagedPreImage])
        ensures
            views(images@) == self@.pre_images,
    {
        self.retract_pre_images.as_slice()
    }

    pub fn entry_count(&self) -> (count: usize)
        ensures
            count == self@.entries.len(),
    {
        self.entries.len()
    }

    /// The digest that the group's last entry would leave as the store's
    /// head: what a grant binds.
    pub fn prospective_head(&self) -> (head: Option<EntryDigest>)
        ensures
            option_view(head) == (if self@.entries.len() == 0 {
                None
            } else {
                Some(self@.entries.last().digest)
            }),
    {
        if self.entries.len() == 0 {
            None
        } else {
            Some(self.entries[self.entries.len() - 1].entry_digest())
        }
    }

    /// The head that the group was built over: the predecessor that its
    /// first entry names.
    pub fn base_predecessor(&self) -> (head: Option<EntryDigest>)
        ensures
            option_view(head) == (if self@.entries.len() == 0 {
                None
            } else {
                self@.entries[0].previous
            }),
    {
        if self.entries.len() == 0 {
            None
        } else {
            self.entries[0].previous_entry_digest()
        }
    }

    pub fn first_commit_sequence(&self) -> (sequence: Option<CommitSequence>)
        ensures
            option_view(sequence) == (if self@.entries.len() == 0 {
                None
            } else {
                Some(self@.entries[0].commit_sequence)
            }),
    {
        if self.entries.len() == 0 {
            None
        } else {
            Some(self.entries[0].commit_sequence())
        }
    }

    pub fn last_commit_sequence(&self) -> (sequence: Option<CommitSequence>)
        ensures
            option_view(sequence) == (if self@.entries.len() == 0 {
                None
            } else {
                Some(self@.entries.last().commit_sequence)
            }),
    {
        if self.entries.len() == 0 {
            None
        } else {
            Some(self.entries[self.entries.len() - 1].commit_sequence())
        }
    }

    /// What the retraction at a place in the group removed.
    pub fn retract_pre_image(&self, entry_index: usize, operation_index: usize) -> (bytes: Option<
        &[u8],
    >)
        ensures
            match bytes {
                Some(found) => pre_image_at(
                    self@.pre_images,
                    entry_index as int,
                    operation_index as int,
                ) == Some(found@),
                None => pre_image_at(
                    self@.pre_images,
                    entry_index as int,
                    operation_index as int,
                ) is None,
            },
    {
        let mut at: usize = 0;
        let ghost images = self@.pre_images;
        assert(images.skip(0) =~= images);
        while at < self.retract_pre_images.len()
            invariant
                at <= self.retract_pre_images.len(),
                images == self@.pre_images,
                pre_image_at(images, entry_index as int, operation_index as int) == pre_image_at(
                    images.skip(at as int),
                    entry_index as int,
                    operation_index as int,
                ),
            decreases self.retract_pre_images.len() - at,
        {
            let image = &self.retract_pre_images[at];
            assert(images.skip(at as int)[0] == image@);
            assert(images.skip(at as int).drop_first() =~= images.skip(at + 1));
            if image.entry_index() == entry_index as u64 && image.operation_index()
                == operation_index as u64 {
                return Some(image.bytes());
            }
            at = at + 1;
        }
        None
    }
}

/// What an occupied staging slot holds, for whoever decides whether to
/// land or discard it.
#[derive(Debug, Clone, Copy, PartialEq, Eq)]
pub struct StagedGroupSummary {
    prospective_head: EntryDigest,
    base_predecessor: Option<EntryDigest>,
    entry_count: usize,
    first_commit_sequence: CommitSequence,
    last_commit_sequence: CommitSequence,
}

/// A staged group summary as plain values.
pub struct GroupSummaryModel {
    pub prospective_head: Seq<u8>,
    pub base_predecessor: Option<Seq<u8>>,
    pub entry_count: usize,
    pub first_commit_sequence: u64,
    pub last_commit_sequence: u64,
}

impl View for StagedGroupSummary {
    type V = GroupSummaryModel;

    closed spec fn view(&self) -> GroupSummaryModel {
        GroupSummaryModel {
            prospective_head: self.prospective_head@,
            base_predecessor: option_view(self.base_predecessor),
            entry_count: self.entry_count,
            first_commit_sequence: self.first_commit_sequence@,
            last_commit_sequence: self.last_commit_sequence@,
        }
    }
}

impl StagedGroupSummary {
    pub fn new(
        prospective_head: EntryDigest,
        base_predecessor: Option<EntryDigest>,
        entry_count: usize,
        first_commit_sequence: CommitSequence,
        last_commit_sequence: CommitSequence,
    ) -> (made: Self)
        ensures
            made@ == (GroupSummaryModel {
                prospective_head: prospective_head@,
                base_predecessor: option_view(base_predecessor),
                entry_count: entry_count,
                first_commit_sequence: first_commit_sequence@,
                last_commit_sequence: last_commit_sequence@,
            }),
    {
        StagedGroupSummary {
            prospective_head,
            base_predecessor,
            entry_count,
            first_commit_sequence,
            last_commit_sequence,
        }
    }

    pub fn prospective_head(&self) -> (found: EntryDigest)
        ensures
            found@ == self@.prospective_head,
    {
        self.prospective_head
    }

    /// The head that the group chains from; `None` for a group built over an
    /// empty store.
    pub fn base_predecessor(&self) -> (found: Option<EntryDigest>)
        ensures
            option_view(found) == self@.base_predecessor,
    {
        self.base_predecessor
    }

    pub fn entry_count(&self) -> (found: usize)
        ensures
            found == self@.entry_count,
    {
        self.entry_count
    }

    pub fn first_commit_sequence(&self) -> (found: CommitSequence)
        ensures
            found@ == self@.first_commit_sequence,
    {
        self.first_commit_sequence
    }

    pub fn last_commit_sequence(&self) -> (found: CommitSequence)
        ensures
            found@ == self@.last_commit_sequence,
    {
        self.last_commit_sequence
    }
}

/// Receipt of a parked group: the head that a grant must bind.
#[derive(Debug, Clone, Copy, PartialEq, Eq)]
pub struct StageReceipt {
    prospective_head: EntryDigest,
    entry_count: usize,
    first_commit_sequence: CommitSequence,
    last_commit_sequence: CommitSequence,
}

/// A stage receipt as plain values.
pub struct StageReceiptModel {
    pub prospective_head: Seq<u8>,
    pub entry_count: usize,
    pub first_commit_sequence: u64,
    pub last_commit_sequence: u64,
}

impl View for StageReceipt {
    type V = StageReceiptModel;

    closed spec fn view(&self) -> StageReceiptModel {
        StageReceiptModel {
            prospective_head: self.prospective_head@,
            entry_count: self.entry_count,
            first_commit_sequence: self.first_commit_sequence@,
            last_commit_sequence: self.last_commit_sequence@,
        }
    }
}

impl StageReceipt {
    pub fn new(
        prospective_head: EntryDigest,
        entry_count: usize,
        first_commit_sequence: CommitSequence,
        last_commit_sequence: CommitSequence,
    ) -> (made: Self)
        ensures
            made@ == (StageReceiptModel {
                prospective_head: prospective_head@,
                entry_count: entry_count,
                first_commit_sequence: first_commit_sequence@,
                last_commit_sequence: last_commit_sequence@,
            }),
    {
        StageReceipt { prospective_head, entry_count, first_commit_sequence, last_commit_sequence }
    }

    pub fn prospective_head(&self) -> (found: EntryDigest)
        ensures
            found@ == self@.prospective_head,
    {
        self.prospective_head
    }

    pub fn entry_count(&self) -> (found: usize)
        ensures
            found == self@.entry_count,
    {
        self.entry_count
    }

    pub fn first_commit_sequence(&self) -> (found: CommitSequence)
        ensures
            found@ == self@.first_commit_sequence,
    {
        self.first_commit_sequence
    }

    pub fn last_commit_sequence(&self) -> (found: CommitSequence)
        ensures
            found@ == self@.last_commit_sequence,
    {
        self.last_commit_sequence
    }
}

/// Receipt of a landed group: the head that the store now stands at.
#[derive(Debug, Clone, Copy, PartialEq, Eq)]
pub struct MaterializeStagedReceipt {
    head: EntryDigest,
    commit_sequence: CommitSequence,
    snapshot: SnapshotIdentifier,
    entry_count: usize,
}

/// A materialize receipt as plain values.
pub struct MaterializeReceiptModel {
    pub head: Seq<u8>,
    pub commit_sequence: u64,
    pub snapshot: u64,
    pub entry_count: usize,
}

impl View for MaterializeStagedReceipt {
    type V = MaterializeReceiptModel;

    closed spec fn view(&self) -> MaterializeReceiptModel {
        MaterializeReceiptModel {
            head: self.head@,
            commit_sequence: self.commit_sequence@,
            snapshot: self.snapshot@,
            entry_count: self.entry_count,
        }
    }
}

impl MaterializeStagedReceipt {
    pub fn new(
        head: EntryDigest,
        commit_sequence: CommitSequence,
        snapshot: SnapshotIdentifier,
        entry_count: usize,
    ) -> (made: Self)
        ensures
            made@ == (MaterializeReceiptModel {
                head: head@,
                commit_sequence: commit_sequence@,
                snapshot: snapshot@,
                entry_count: entry_count,
            }),
    {
        MaterializeStagedReceipt { head, commit_sequence, snapshot, entry_count }
    }

    pub fn head(&self) -> (found: EntryDigest)
        ensures
            found@ == self@.head,
    {
        self.head
    }

    pub fn commit_sequence(&self) -> (found: CommitSequence)
        ensures
            found@ == self@.commit_sequence,
    {
        self.commit_sequence
    }

    pub fn snapshot(&self) -> (found: SnapshotIdentifier)
        ensures
            found@ == self@.snapshot,
    {
        self.snapshot
    }

    pub fn entry_count(&self) -> (found: usize)
        ensures
            found == self@.entry_count,
    {
        self.entry_count
    }
}

/// Receipt of a discarded group. Nothing but the slot changed.
#[derive(Debug, Clone, Copy, PartialEq, Eq)]
pub struct DiscardStagedReceipt {
    prospective_head: EntryDigest,
    entry_count: usize,
}

/// A discard receipt as plain values.
pub struct DiscardReceiptModel {
    pub prospective_head: Seq<u8>,
    pub entry_count: usize,
}

impl View for DiscardStagedReceipt {
    type V = DiscardReceiptModel;

    closed spec fn view(&self) -> DiscardReceiptModel {
        DiscardReceiptModel {
            prospective_head: self.prospective_head@,
            entry_count: self.entry_count,
        }
    }
}

impl DiscardStagedReceipt {
    pub fn new(prospective_head: EntryDigest, entry_count: usize) -> (made: Self)
        ensures
            made@ == (DiscardReceiptModel {
                prospective_head: prospective_head@,
                entry_count: entry_count,
            }),
    {
        DiscardStagedReceipt { prospective_head, entry_count }
    }

    pub fn prospective_head(&self) -> (found: EntryDigest)
        ensures
            found@ == self@.prospective_head,
    {
        self.prospective_head
    }

    pub fn entry_count(&self) -> (found: usize)
        ensures
            found == self@.entry_count,
    {
        self.entry_count
    }
}

/// Where the store stood when a session began. A group is parked and
/// landed only while the store still stands there.
#[derive(Debug, Clone, Copy, PartialEq, Eq)]
pub struct StagingBase {
    chain_head: Option<EntryDigest>,
    commit_sequence: CommitSequence,
    snapshot: SnapshotIdentifier,
}

/// A staging base as plain values.
pub struct BaseModel {
    pub chain_head: Option<Seq<u8>>,
    pub commit_sequence: u64,
    pub snapshot: u64,
}

impl View for StagingBase {
    type V = BaseModel;

    closed spec fn view(&self) -> BaseModel {
        BaseModel {
            chain_head: option_view(self.chain_head),
            commit_sequence: self.commit_sequence@,
            snapshot: self.snapshot@,
        }
    }
}

impl StagingBase {
    pub fn new(
        chain_head: Option<EntryDigest>,
        commit_sequence: CommitSequence,
        snapshot: SnapshotIdentifier,
    ) -> (made: Self)
        ensures
            made@ == (BaseModel {
                chain_head: option_view(chain_head),
                commit_sequence: commit_sequence@,
                snapshot: snapshot@,
            }),
    {
        StagingBase { chain_head, commit_sequence, snapshot }
    }

    pub fn chain_head(&self) -> (found: Option<EntryDigest>)
        ensures
            option_view(found) == self@.chain_head,
    {
        self.chain_head
    }

    pub fn commit_sequence(&self) -> (found: CommitSequence)
        ensures
            found@ == self@.commit_sequence,
    {
        self.commit_sequence
    }

    pub fn snapshot(&self) -> (found: SnapshotIdentifier)
        ensures
            found@ == self@.snapshot,
    {
        self.snapshot
    }

    /// The store still stands where it stood.
    pub fn is_current(
        &self,
        chain_head: Option<EntryDigest>,
        commit_sequence: CommitSequence,
        snapshot: SnapshotIdentifier,
    ) -> (current: bool)
        ensures
            current == (self@ == (BaseModel {
                chain_head: option_view(chain_head),
                commit_sequence: commit_sequence@,
                snapshot: snapshot@,
            })),
    {
        same_head(self.chain_head, chain_head) && self.commit_sequence.value()
            == commit_sequence.value() && self.snapshot.value() == snapshot.value()
    }
}

/// A session: the buffered entries, and the state that the same writes
/// made directly would have left.
#[derive(Debug, PartialEq, Eq)]
pub struct StagingSession {
    base: StagingBase,
    store_name: VersionedStoreName,
    store_schema_hash: StoreSchemaHash,
    entries: Vec<VersionedCommitLogEntry>,
    latest_commit_sequence: CommitSequence,
    latest_snapshot: SnapshotIdentifier,
    previous_entry_digest: Option<EntryDigest>,
    tables: RecordTables,
    retract_pre_images: Vec<StagedPreImage>,
}

/// A session as plain values.
#[verifier::ext_equal]
pub struct SessionModel {
    pub base: BaseModel,
    pub store_name: Seq<char>,
    pub schema_hash: Seq<u8>,
    pub entries: Seq<EntryModel>,
    pub commit_sequence: u64,
    pub snapshot: u64,
    pub chain_head: Option<Seq<u8>>,
    pub tables: TablesModel,
    pub pre_images: Seq<PreImageModel>,
}

/// The entry that a session buffers next.
pub open spec fn session_entry(
    session: SessionModel,
    operations: Seq<OperationModel>,
) -> EntryModel {
    sealed(
        EntryModel {
            store_name: session.store_name,
            schema_hash: session.schema_hash,
            commit_sequence: (session.commit_sequence + 1) as u64,
            snapshot: (session.snapshot + 1) as u64,
            previous: session.chain_head,
            digest: Seq::empty(),
            operations,
        },
    )
}

/// What the removals among one entry's writes removed.
pub open spec fn pre_images_of(entry_index: int, writes: Seq<WriteFact>) -> Seq<PreImageModel>
    decreases writes.len(),
{
    if writes.len() == 0 {
        Seq::empty()
    } else {
        let before = pre_images_of(entry_index, writes.drop_last());
        if writes.last().payload is None {
            before.push(
                PreImageModel {
                    entry_index: entry_index as u64,
                    operation_index: (writes.len() - 1) as u64,
                    bytes: writes.last().record,
                },
            )
        } else {
            before
        }
    }
}

/// The session after one entry's writes were buffered.
pub open spec fn buffered(
    session: SessionModel,
    operations: Seq<OperationModel>,
    writes: Seq<WriteFact>,
) -> SessionModel {
    let entry = session_entry(session, operations);
    SessionModel {
        entries: session.entries.push(entry),
        commit_sequence: entry.commit_sequence,
        snapshot: entry.snapshot,
        chain_head: Some(entry.digest),
        tables: applied_all(session.tables, writes),
        pre_images: session.pre_images + pre_images_of(session.entries.len() as int, writes),
        ..session
    }
}

impl View for StagingSession {
    type V = SessionModel;

    closed spec fn view(&self) -> SessionModel {
        SessionModel {
            base: self.base@,
            store_name: self.store_name@,
            schema_hash: self.store_schema_hash@,
            entries: views(self.entries@),
            commit_sequence: self.latest_commit_sequence@,
            snapshot: self.latest_snapshot@,
            chain_head: option_view(self.previous_entry_digest),
            tables: self.tables@,
            pre_images: views(self.retract_pre_images@),
        }
    }
}

impl StagingSession {
    pub fn new(
        base: StagingBase,
        store_name: VersionedStoreName,
        store_schema_hash: StoreSchemaHash,
        tables: RecordTables,
    ) -> (session: Self)
        ensures
            session@ == (SessionModel {
                base: base@,
                store_name: store_name@,
                schema_hash: store_schema_hash@,
                entries: Seq::empty(),
                commit_sequence: base@.commit_sequence,
                snapshot: base@.snapshot,
                chain_head: base@.chain_head,
                tables: tables@,
                pre_images: Seq::empty(),
            }),
    {
        let session = StagingSession {
            base,
            store_name,
            store_schema_hash,
            entries: Vec::new(),
            latest_commit_sequence: base.commit_sequence(),
            latest_snapshot: base.snapshot(),
            previous_entry_digest: base.chain_head(),
            tables,
            retract_pre_images: Vec::new(),
        };
        assert(session@.entries =~= Seq::empty());
        assert(session@.pre_images =~= Seq::empty());
        session
    }

    pub fn base(&self) -> (base: &StagingBase)
        ensures
            base@ == self@.base,
    {
        &self.base
    }

    pub fn entry_count(&self) -> (count: usize)
        ensures
            count == self@.entries.len(),
    {
        self.entries.len()
    }

    /// The commit sequence that the session stands at.
    pub fn engaged_commit_sequence(&self) -> (sequence: CommitSequence)
        ensures
            sequence@ == self@.commit_sequence,
    {
        self.latest_commit_sequence
    }

    /// The committed state that the session stands at.
    pub fn engaged_snapshot(&self) -> (snapshot: SnapshotIdentifier)
        ensures
            snapshot@ == self@.snapshot,
    {
        self.latest_snapshot
    }

    /// The record tables as the session's writes have left them.
    pub fn tables(&self) -> (tables: &RecordTables)
        ensures
            tables@ == self@.tables,
    {
        &self.tables
    }

    /// Buffer one entry, numbered and chained as the same write made
    /// directly would have been.
    pub fn append_entry(&mut self, operations: NonEmpty<VersionedLogOperation>) -> (stood: (
        CommitSequence,
        SnapshotIdentifier,
    ))
        requires
            old(self)@.commit_sequence < u64::MAX,
            old(self)@.snapshot < u64::MAX,
        ensures
            final(self)@ == (SessionModel {
                entries: old(self)@.entries.push(session_entry(old(self)@, views(operations@))),
                commit_sequence: (old(self)@.commit_sequence + 1) as u64,
                snapshot: (old(self)@.snapshot + 1) as u64,
                chain_head: Some(session_entry(old(self)@, views(operations@)).digest),
                ..old(self)@
            }),
            stood.0@ == final(self)@.commit_sequence,
            stood.1@ == final(self)@.snapshot,
    {
        let commit_sequence: CommitSequence = self.latest_commit_sequence.next();
        let snapshot: SnapshotIdentifier = self.latest_snapshot.next();
        let entry: VersionedCommitLogEntry = VersionedCommitLogEntry::new(
            self.store_name.clone(),
            self.store_schema_hash,
            commit_sequence,
            snapshot,
            self.previous_entry_digest,
            operations,
        );
        proof {
            lemma_views_push(self.entries@, entry);
        }
        self.previous_entry_digest = Some(entry.entry_digest());
        self.latest_commit_sequence = commit_sequence;
        self.latest_snapshot = snapshot;
        self.entries.push(entry);
        (commit_sequence, snapshot)
    }

    /// Keep what a removal of the entry buffered next removes.
    pub fn park_pre_image(&mut self, operation_index: usize, bytes: Vec<u8>)
        ensures
            final(self)@ == (SessionModel {
                pre_images: old(self)@.pre_images.push(
                    PreImageModel {
                        entry_index: old(self)@.entries.len() as u64,
                        operation_index: operation_index as u64,
                        bytes: bytes@,
                    },
                ),
                ..old(self)@
            }),
    {
        let image: StagedPreImage = StagedPreImage::new(
            self.entries.len() as u64,
            operation_index as u64,
            bytes,
        );
        proof {
            lemma_views_push(self.retract_pre_images@, image);
        }
        self.retract_pre_images.push(image);
    }

    /// Buffer one entry's writes.
    pub fn buffer(
        &mut self,
        operations: NonEmpty<VersionedLogOperation>,
        writes: &Vec<Write>,
    ) -> (stood: (CommitSequence, SnapshotIdentifier))
        requires
            old(self)@.commit_sequence < u64::MAX,
            old(self)@.snapshot < u64::MAX,
            forall|i: int| 0 <= i < writes@.len() ==> countable((#[trigger] writes@[i])@),
        ensures
            final(self)@ == buffered(old(self)@, views(operations@), views(writes@)),
            stood.0@ == final(self)@.commit_sequence,
            stood.1@ == final(self)@.snapshot,
    {
        let ghost before = self@;
        let ghost facts = views(writes@);
        let ghost index = self@.entries.len() as int;
        let mut at: usize = 0;
        assert(facts.take(0) =~= Seq::empty());
        assert(self@.pre_images =~= before.pre_images + pre_images_of(index, facts.take(0)));
        while at < writes.len()
            invariant
                at <= writes.len(),
                facts == views(writes@),
                index == before.entries.len(),
                self@ == (SessionModel {
                    pre_images: before.pre_images + pre_images_of(index, facts.take(at as int)),
                    ..before
                }),
            decreases writes.len() - at,
        {
            assert(facts.take(at + 1).drop_last() =~= facts.take(at as int));
            assert(facts.take(at + 1).last() == writes@[at as int]@);
            if writes[at].payload().is_tombstone() {
                self.park_pre_image(at, writes[at].record().duplicate());
            }
            at = at + 1;
            assert(self@.pre_images =~= before.pre_images + pre_images_of(
                index,
                facts.take(at as int),
            ));
        }
        assert(facts.take(at as int) =~= facts);
        self.tables.apply_all(writes);
        self.append_entry(operations)
    }

    /// The group that the session built.
    pub fn into_group(self) -> (group: StagedOperationGroup)
        ensures
            group@ == (GroupModel { entries: self@.entries, pre_images: self@.pre_images }),
    {
        StagedOperationGroup::new(self.entries, self.retract_pre_images)
    }
}

/// One staged write on its way to the subscribers of its table. A
/// directory picks the table reference.
#[derive(Debug, PartialEq, Eq)]
pub struct DeltaAnnouncer {
    kind: DeltaKind,
    family: FamilyIdentity,
    key: RecordKey,
    snapshot: SnapshotIdentifier,
    bytes: Vec<u8>,
}

/// A staged write's announcement as plain values.
pub struct AnnouncementModel {
    pub kind: DeltaKind,
    pub family: FamilyModel,
    pub key: KeyModel,
    pub snapshot: u64,
    pub bytes: Seq<u8>,
}

impl View for DeltaAnnouncer {
    type V = AnnouncementModel;

    closed spec fn view(&self) -> AnnouncementModel {
        AnnouncementModel {
            kind: self.kind,
            family: self.family@,
            key: self.key@,
            snapshot: self.snapshot@,
            bytes: self.bytes@,
        }
    }
}

impl Clone for DeltaAnnouncer {
    fn clone(&self) -> (copy: Self)
        ensures
            copy@ == self@,
    {
        DeltaAnnouncer {
            kind: self.kind,
            family: self.family.clone(),
            key: self.key.clone(),
            snapshot: self.snapshot,
            bytes: self.bytes.duplicate(),
        }
    }
}

impl DeltaAnnouncer {
    pub fn new(
        kind: DeltaKind,
        family: FamilyIdentity,
        key: RecordKey,
        snapshot: SnapshotIdentifier,
        bytes: Vec<u8>,
    ) -> (announcer: Self)
        ensures
            announcer@ == (AnnouncementModel {
                kind,
                family: family@,
                key: key@,
                snapshot: snapshot@,
                bytes: bytes@,
            }),
    {
        DeltaAnnouncer { kind, family, key, snapshot, bytes }
    }

    pub fn family(&self) -> (family: &FamilyIdentity)
        ensures
            family@ == self@.family,
    {
        &self.family
    }

    pub fn key(&self) -> (key: &RecordKey)
        ensures
            key@ == self@.key,
    {
        &self.key
    }

    pub fn kind(&self) -> (kind: DeltaKind)
        ensures
            kind == self@.kind,
    {
        self.kind
    }

    pub fn snapshot(&self) -> (snapshot: SnapshotIdentifier)
        ensures
            snapshot@ == self@.snapshot,
    {
        self.snapshot
    }

    pub fn bytes(&self) -> (bytes: &Vec<u8>)
        ensures
            bytes@ == self@.bytes,
    {
        &self.bytes
    }

    /// Tell the subscribers of a domain-keyed table, once the record was read
    /// back.
    pub fn announce<RecordValue: EngineStoredValue>(
        self,
        table: TableReference<RecordValue>,
    ) -> (outcome: Result<Option<TableName>, Error>)
        ensures
            exists|unread: Option<Seq<char>>|
                {
                    &&& if table@ == self@.family.table {
                        read_as::<RecordValue>(self@.bytes, unread)
                    } else {
                        unread is None
                    }
                    &&& #[trigger] announced_for(self@, table@, unread, outcome)
                },
    {
        match self.check_table(table.name()) {
            Ok(()) => {
                let read: Result<(), String> = read_stored::<RecordValue>(self.bytes.as_slice());
                let ghost unread = message_view(read);
                let outcome = self.announce_read(table, read);
                assert(announced_for(self@, table@, unread, outcome));
                outcome
            },
            Err(error) => {
                assert(announced_for(self@, table@, None, Err(error)));
                Err(error)
            },
        }
    }

    /// Tell the subscribers of a domain-keyed table, given what reading the
    /// record back came to.
    pub fn announce_read<RecordValue>(
        self,
        table: TableReference<RecordValue>,
        read: Result<(), String>,
    ) -> (outcome: Result<Option<TableName>, Error>)
        ensures
            announced_for(self@, table@, message_view(read), outcome),
    {
        match self.check_table(table.name()) {
            Ok(()) => match read {
                Ok(_) => Ok(Some(*table.name())),
                Err(message) => Err(
                    Error::VersionedPayloadDecode {
                        table: table.name().as_str().to_owned(),
                        message,
                    },
                ),
            },
            Err(error) => Err(error),
        }
    }

    /// Tell the subscribers of an engine-identified table, once the record was read
    /// back.
    pub fn announce_identified<RecordValue: EngineStoredValue>(
        self,
        table: IdentifiedTableReference<RecordValue>,
    ) -> (outcome: Result<Option<TableName>, Error>)
        ensures
            exists|unread: Option<Seq<char>>|
                {
                    &&& if table@ == self@.family.table {
                        read_as::<RecordValue>(self@.bytes, unread)
                    } else {
                        unread is None
                    }
                    &&& #[trigger] announced_for(self@, table@, unread, outcome)
                },
    {
        match self.check_table(table.name()) {
            Ok(()) => {
                let read: Result<(), String> = read_stored::<RecordValue>(self.bytes.as_slice());
                let ghost unread = message_view(read);
                let outcome = self.announce_identified_read(table, read);
                assert(announced_for(self@, table@, unread, outcome));
                outcome
            },
            Err(error) => {
                assert(announced_for(self@, table@, None, Err(error)));
                Err(error)
            },
        }
    }

    /// Tell the subscribers of an engine-identified table, given what reading the
    /// record back came to.
    pub fn announce_identified_read<RecordValue>(
        self,
        table: IdentifiedTableReference<RecordValue>,
        read: Result<(), String>,
    ) -> (outcome: Result<Option<TableName>, Error>)
        ensures
            announced_for(self@, table@, message_view(read), outcome),
    {
        match self.check_table(table.name()) {
            Ok(()) => match read {
                Ok(_) => Ok(Some(*table.name())),
                Err(message) => Err(
                    Error::VersionedPayloadDecode {
                        table: table.name().as_str().to_owned(),
                        message,
                    },
                ),
            },
            Err(error) => Err(error),
        }
    }

    fn check_table(&self, supplied: &TableName) -> (outcome: Result<(), Error>)
        ensures
            match outcome {
                Ok(()) => supplied@ == self@.family.table,
                Err(error) => supplied@ != self@.family.table && error@ == (
                Failure::MaterializeTableMismatch {
                    family: self@.family.family,
                    expected: self@.family.table,
                    supplied: supplied@,
                }),
            },
    {
        if same_text(supplied.as_str(), self.family.table_name()) {
            Ok(())
        } else {
            Err(
                Error::MaterializeTableMismatch {
                    family: self.family.family().as_str().to_owned(),
                    expected: self.family.table_name().to_owned(),
                    supplied: supplied.as_str().to_owned(),
                },
            )
        }
    }
}

/// An announcement goes to the subscribers of its family's table. It is
/// refused for any other, and where its record did not read back.
pub open spec fn announced_for(
    announcement: AnnouncementModel,
    table: Seq<char>,
    unread: Option<Seq<char>>,
    outcome: Result<Option<TableName>, Error>,
) -> bool {
    if table != announcement.family.table {
        outcome matches Err(error) && error@ == (Failure::MaterializeTableMismatch {
            family: announcement.family.family,
            expected: announcement.family.table,
            supplied: table,
        })
    } else {
        match unread {
            Some(message) => outcome matches Err(error) && error@ == (
            Failure::VersionedPayloadDecode { table, message }),
            None => outcome matches Ok(Some(name)) && name@ == table,
        }
    }
}

} // verus!
