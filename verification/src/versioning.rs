//! The versioned commit log's vocabulary: family identity, content
//! digests, payloads, and the hash-chained log entries themselves.

use vstd::bytes::spec_u64_to_le_bytes;
use vstd::prelude::*;
use vstd::std_specs::cmp::PartialEqSpecImpl;
use vstd::std_specs::convert::FromSpecImpl;
use vstd::string::*;
use vstd::utf8::encode_utf8;

use crate::catalog::Catalog;
use crate::checkpoint::CheckpointSequence;
use crate::digest::{
    blake3_digest, blake3_hash, counted, framed, joined, lemma_joined_push, tagged, update_bytes,
    update_tag, update_text, update_u64,
};
use crate::models::{lemma_views_push, option_view, views, Duplicate};
use crate::operation::{record_head, NonEmpty, SemaOperation};
use crate::order::{
    bytes_precede, lemma_bytes_irreflexive, lemma_bytes_total, lemma_bytes_transitive,
    lemma_text_irreflexive, lemma_text_total, lemma_text_transitive, relate_bytes, relate_text,
    same_bytes, same_text, text_precedes, Relation,
};
use crate::ordered_table::TableKey;
use crate::outbox::{HeadModel, MirrorHead};
use crate::record::{key_input, KeyModel, RecordKey};
use crate::sequence::CommitSequence;
use crate::snapshot::SnapshotIdentifier;
use crate::table::{counter_key_text, TableName, TableReference, IDENTIFIED_COUNTER_SUFFIX};
use crate::text::{append_hex, hex_text};

verus! {

/// The name a versioned store carries in its log entries and checkpoints.
#[derive(Debug, Eq)]
pub struct VersionedStoreName {
    text: String,
}

impl View for VersionedStoreName {
    type V = Seq<char>;

    closed spec fn view(&self) -> Seq<char> {
        self.text@
    }
}

impl Clone for VersionedStoreName {
    fn clone(&self) -> (copy: Self)
        ensures
            copy@ == self@,
    {
        VersionedStoreName { text: self.text.clone() }
    }
}

impl PartialEq for VersionedStoreName {
    fn eq(&self, other: &Self) -> (same: bool) {
        same_text(self.text.as_str(), other.text.as_str())
    }
}

impl PartialEqSpecImpl for VersionedStoreName {
    open spec fn obeys_eq_spec() -> bool {
        true
    }

    open spec fn eq_spec(&self, other: &Self) -> bool {
        self@ == other@
    }
}

impl VersionedStoreName {
    pub fn new(value: &str) -> (name: Self)
        ensures
            name@ == value@,
    {
        VersionedStoreName { text: value.to_owned() }
    }

    pub fn as_str(&self) -> (text: &str)
        ensures
            text@ == self@,
    {
        self.text.as_str()
    }
}

/// Where a store recovers its history from once entries have left it.
#[derive(Debug, Clone, Copy, PartialEq, Eq, Structural)]
pub enum VersionedRecoveryTopology {
    /// From the checkpoint that the store keeps itself.
    LocalCheckpoint,
    /// From a mirror that acknowledges what it stored.
    Mirror,
}

/// The word for a topology.
pub open spec fn topology_text(topology: VersionedRecoveryTopology) -> Seq<char> {
    match topology {
        VersionedRecoveryTopology::LocalCheckpoint => "local checkpoint"@,
        VersionedRecoveryTopology::Mirror => "mirror"@,
    }
}

impl VersionedRecoveryTopology {
    pub fn as_str(&self) -> (text: &'static str)
        ensures
            text@ == topology_text(*self),
    {
        match self {
            VersionedRecoveryTopology::LocalCheckpoint => "local checkpoint",
            VersionedRecoveryTopology::Mirror => "mirror",
        }
    }
}

/// The opt-in to a versioned commit log, under a store name.
#[derive(Debug, PartialEq, Eq)]
pub struct VersioningPolicy {
    store_name: VersionedStoreName,
    recovery_topology: VersionedRecoveryTopology,
}

impl View for VersioningPolicy {
    type V = Seq<char>;

    closed spec fn view(&self) -> Seq<char> {
        self.store_name@
    }
}

impl Clone for VersioningPolicy {
    fn clone(&self) -> (copy: Self)
        ensures
            copy@ == self@,
            copy.topology() == self.topology(),
    {
        VersioningPolicy {
            store_name: self.store_name.clone(),
            recovery_topology: self.recovery_topology,
        }
    }
}

impl VersioningPolicy {
    /// Where the store recovers its history from.
    pub closed spec fn topology(&self) -> VersionedRecoveryTopology {
        self.recovery_topology
    }

    /// A policy whose store recovers from its own checkpoints.
    pub fn new(store_name: VersionedStoreName) -> (policy: Self)
        ensures
            policy@ == store_name@,
            policy.topology() == VersionedRecoveryTopology::LocalCheckpoint,
    {
        VersioningPolicy {
            store_name,
            recovery_topology: VersionedRecoveryTopology::LocalCheckpoint,
        }
    }

    pub fn with_recovery_topology(self, topology: VersionedRecoveryTopology) -> (policy: Self)
        ensures
            policy@ == self@,
            policy.topology() == topology,
    {
        VersioningPolicy { store_name: self.store_name, recovery_topology: topology }
    }

    pub fn store_name(&self) -> (name: &VersionedStoreName)
        ensures
            name@ == self@,
    {
        &self.store_name
    }

    pub fn recovery_topology(&self) -> (topology: VersionedRecoveryTopology)
        ensures
            topology == self.topology(),
    {
        self.recovery_topology
    }
}

/// The raw-versioned-entry budget a component elects before it requests
/// compaction. A checkpoint preserves the current view while entries
/// beyond this budget are compacted; it is no substitute for a mirror.
#[derive(Debug, Clone, Copy, PartialEq, Eq, Structural)]
pub struct VersionedHistoryRetention {
    maximum_live_entries: u64,
}

impl View for VersionedHistoryRetention {
    type V = u64;

    closed spec fn view(&self) -> u64 {
        self.maximum_live_entries
    }
}

impl VersionedHistoryRetention {
    pub fn new(maximum_live_entries: u64) -> (retention: Self)
        ensures
            retention@ == maximum_live_entries,
    {
        VersionedHistoryRetention { maximum_live_entries }
    }

    pub fn maximum_live_entries(&self) -> (maximum: u64)
        ensures
            maximum == self@,
    {
        self.maximum_live_entries
    }
}

/// The durable acknowledgement that permits a checkpoint-covered prefix
/// to leave the local replay and outbox planes.
#[derive(Debug, Clone, Copy, PartialEq, Eq)]
pub enum VersionedHistoryAcknowledgement {
    /// No mirror consumer is configured. The verified local checkpoint
    /// is the complete recovery artifact.
    LocalCheckpoint,
    /// A configured mirror has durably acknowledged this history head.
    Mirror(MirrorHead),
}

/// An acknowledgement as plain values: the head that a mirror confirmed, or
/// none for the local checkpoint.
pub open spec fn acknowledged_head(
    acknowledgement: VersionedHistoryAcknowledgement,
) -> Option<HeadModel> {
    match acknowledgement {
        VersionedHistoryAcknowledgement::LocalCheckpoint => None,
        VersionedHistoryAcknowledgement::Mirror(head) => Some(head@),
    }
}

impl VersionedHistoryAcknowledgement {
    /// The topology that the acknowledgement belongs to.
    pub open spec fn kind(&self) -> VersionedRecoveryTopology {
        match acknowledged_head(*self) {
            None => VersionedRecoveryTopology::LocalCheckpoint,
            Some(_) => VersionedRecoveryTopology::Mirror,
        }
    }

    pub fn topology(&self) -> (topology: VersionedRecoveryTopology)
        ensures
            topology == self.kind(),
    {
        match self {
            VersionedHistoryAcknowledgement::LocalCheckpoint => {
                VersionedRecoveryTopology::LocalCheckpoint
            },
            VersionedHistoryAcknowledgement::Mirror(_) => VersionedRecoveryTopology::Mirror,
        }
    }
}

/// The outcome of a checkpoint-backed compaction of the version history.
#[derive(Debug, Clone, Copy, PartialEq, Eq, Structural)]
pub struct VersionedHistoryCompaction {
    compacted_entries: u64,
    retained_entries: u64,
    checkpoint_sequence: Option<CheckpointSequence>,
}

/// A compaction outcome as plain values.
pub struct CompactionModel {
    pub compacted_entries: u64,
    pub retained_entries: u64,
    pub checkpoint_sequence: Option<u64>,
}

impl View for VersionedHistoryCompaction {
    type V = CompactionModel;

    closed spec fn view(&self) -> CompactionModel {
        CompactionModel {
            compacted_entries: self.compacted_entries,
            retained_entries: self.retained_entries,
            checkpoint_sequence: option_view(self.checkpoint_sequence),
        }
    }
}

impl VersionedHistoryCompaction {
    pub fn new(
        compacted_entries: u64,
        retained_entries: u64,
        checkpoint_sequence: Option<CheckpointSequence>,
    ) -> (compaction: Self)
        ensures
            compaction@ == (CompactionModel {
                compacted_entries,
                retained_entries,
                checkpoint_sequence: option_view(checkpoint_sequence),
            }),
    {
        VersionedHistoryCompaction { compacted_entries, retained_entries, checkpoint_sequence }
    }

    pub fn compacted_entries(&self) -> (count: u64)
        ensures
            count == self@.compacted_entries,
    {
        self.compacted_entries
    }

    pub fn retained_entries(&self) -> (count: u64)
        ensures
            count == self@.retained_entries,
    {
        self.retained_entries
    }

    pub fn checkpoint_sequence(&self) -> (sequence: Option<CheckpointSequence>)
        ensures
            option_view(sequence) == self@.checkpoint_sequence,
    {
        self.checkpoint_sequence
    }
}

/// The schema declaration name of a record family: the stable identity
/// that survives table renames. Replay dispatches on the family, never
/// on the table coordinate.
#[derive(Debug, Eq, PartialOrd, Ord, Hash)]
pub struct FamilyName {
    text: String,
}

impl View for FamilyName {
    type V = Seq<char>;

    closed spec fn view(&self) -> Seq<char> {
        self.text@
    }
}

impl Clone for FamilyName {
    fn clone(&self) -> (copy: Self)
        ensures
            copy@ == self@,
    {
        FamilyName { text: self.text.clone() }
    }
}

impl PartialEq for FamilyName {
    fn eq(&self, other: &Self) -> (same: bool) {
        same_text(self.text.as_str(), other.text.as_str())
    }
}

impl PartialEqSpecImpl for FamilyName {
    open spec fn obeys_eq_spec() -> bool {
        true
    }

    open spec fn eq_spec(&self, other: &Self) -> bool {
        self@ == other@
    }
}

impl FamilyName {
    pub fn new(value: &str) -> (name: Self)
        ensures
            name@ == value@,
    {
        FamilyName { text: value.to_owned() }
    }

    pub fn as_str(&self) -> (text: &str)
        ensures
            text@ == self@,
    {
        self.text.as_str()
    }
}

/// Content hash of one family's schema declaration: the version identity
/// of that family.
#[derive(Debug, Clone, Copy, Eq, PartialOrd, Ord, Hash)]
pub struct SchemaHash {
    bytes: [u8; 32],
}

impl View for SchemaHash {
    type V = Seq<u8>;

    closed spec fn view(&self) -> Seq<u8> {
        self.bytes@
    }
}

impl PartialEq for SchemaHash {
    fn eq(&self, other: &Self) -> (same: bool) {
        same_bytes(&self.bytes, &other.bytes)
    }
}

impl PartialEqSpecImpl for SchemaHash {
    open spec fn obeys_eq_spec() -> bool {
        true
    }

    open spec fn eq_spec(&self, other: &Self) -> bool {
        self@ == other@
    }
}

impl SchemaHash {
    pub fn new(bytes: [u8; 32]) -> (digest: Self)
        ensures
            digest@ == bytes@,
    {
        SchemaHash { bytes }
    }

    pub fn bytes(&self) -> (bytes: &[u8; 32])
        ensures
            bytes@ == self@,
    {
        &self.bytes
    }

    /// The digest in lower-case hexadecimal.
    pub fn to_text(&self) -> (text: String)
        ensures
            text@ == hex_text(self@),
    {
        let mut text: String = String::new();
        append_hex(&mut text, &self.bytes);
        assert(text@ =~= hex_text(self@));
        text
    }

    /// A digest is thirty-two bytes long.
    pub proof fn lemma_len(self)
        ensures
            self@.len() == 32,
    {
    }
}

impl SchemaHash {
    /// The schema hash of a label: the BLAKE3 digest of its bytes.
    pub fn for_label(label: &str) -> (hash: Self)
        ensures
            hash@ == blake3_digest(encode_utf8(label@)),
    {
        SchemaHash::new(blake3_hash(label.as_bytes()))
    }
}

/// Derived store-level schema identity: a digest over the sorted family
/// inventory. Table names are left out, so a rename keeps it stable.
#[derive(Debug, Clone, Copy, Eq, PartialOrd, Ord, Hash)]
pub struct StoreSchemaHash {
    bytes: [u8; 32],
}

impl View for StoreSchemaHash {
    type V = Seq<u8>;

    closed spec fn view(&self) -> Seq<u8> {
        self.bytes@
    }
}

impl PartialEq for StoreSchemaHash {
    fn eq(&self, other: &Self) -> (same: bool) {
        same_bytes(&self.bytes, &other.bytes)
    }
}

impl PartialEqSpecImpl for StoreSchemaHash {
    open spec fn obeys_eq_spec() -> bool {
        true
    }

    open spec fn eq_spec(&self, other: &Self) -> bool {
        self@ == other@
    }
}

impl StoreSchemaHash {
    /// A hash read back from storage.
    pub fn stored(bytes: [u8; 32]) -> (digest: Self)
        ensures
            digest@ == bytes@,
    {
        StoreSchemaHash { bytes }
    }

    pub(crate) fn new(bytes: [u8; 32]) -> (digest: Self)
        ensures
            digest@ == bytes@,
    {
        StoreSchemaHash { bytes }
    }

    pub fn bytes(&self) -> (bytes: &[u8; 32])
        ensures
            bytes@ == self@,
    {
        &self.bytes
    }

    /// The digest in lower-case hexadecimal.
    pub fn to_text(&self) -> (text: String)
        ensures
            text@ == hex_text(self@),
    {
        let mut text: String = String::new();
        append_hex(&mut text, &self.bytes);
        assert(text@ =~= hex_text(self@));
        text
    }

    /// A digest is thirty-two bytes long.
    pub proof fn lemma_len(self)
        ensures
            self@.len() == 32,
    {
    }
}

/// Digest of one versioned commit log entry; each entry names the digest
/// of the one before it.
#[derive(Debug, Clone, Copy, Eq, PartialOrd, Ord, Hash)]
pub struct EntryDigest {
    bytes: [u8; 32],
}

impl View for EntryDigest {
    type V = Seq<u8>;

    closed spec fn view(&self) -> Seq<u8> {
        self.bytes@
    }
}

impl PartialEq for EntryDigest {
    fn eq(&self, other: &Self) -> (same: bool) {
        same_bytes(&self.bytes, &other.bytes)
    }
}

impl PartialEqSpecImpl for EntryDigest {
    open spec fn obeys_eq_spec() -> bool {
        true
    }

    open spec fn eq_spec(&self, other: &Self) -> bool {
        self@ == other@
    }
}

impl EntryDigest {
    pub fn new(bytes: [u8; 32]) -> (digest: Self)
        ensures
            digest@ == bytes@,
    {
        EntryDigest { bytes }
    }

    pub fn bytes(&self) -> (bytes: &[u8; 32])
        ensures
            bytes@ == self@,
    {
        &self.bytes
    }

    /// The digest in lower-case hexadecimal.
    pub fn to_text(&self) -> (text: String)
        ensures
            text@ == hex_text(self@),
    {
        let mut text: String = String::new();
        append_hex(&mut text, &self.bytes);
        assert(text@ =~= hex_text(self@));
        text
    }

    /// A digest is thirty-two bytes long.
    pub proof fn lemma_len(self)
        ensures
            self@.len() == 32,
    {
    }
}

/// A family name and schema hash: the coordinate that replay dispatches
/// on.
#[derive(Debug, PartialEq, Eq)]
pub struct FamilyVersion {
    family: FamilyName,
    schema_hash: SchemaHash,
}

/// The order of family versions: by name, then by schema hash.
pub open spec fn version_precedes(a: (Seq<char>, Seq<u8>), b: (Seq<char>, Seq<u8>)) -> bool {
    text_precedes(a.0, b.0) || (a.0 == b.0 && bytes_precede(a.1, b.1))
}

impl View for FamilyVersion {
    type V = (Seq<char>, Seq<u8>);

    closed spec fn view(&self) -> (Seq<char>, Seq<u8>) {
        (self.family@, self.schema_hash@)
    }
}

impl Clone for FamilyVersion {
    fn clone(&self) -> (copy: Self)
        ensures
            copy@ == self@,
    {
        FamilyVersion { family: self.family.clone(), schema_hash: self.schema_hash }
    }
}

impl FamilyVersion {
    pub fn new(family: FamilyName, schema_hash: SchemaHash) -> (version: Self)
        ensures
            version@ == (family@, schema_hash@),
    {
        FamilyVersion { family, schema_hash }
    }

    pub fn family(&self) -> (family: &FamilyName)
        ensures
            family@ == self@.0,
    {
        &self.family
    }

    pub fn schema_hash(&self) -> (hash: SchemaHash)
        ensures
            hash@ == self@.1,
    {
        self.schema_hash
    }
}

pub proof fn lemma_version_irreflexive(a: (Seq<char>, Seq<u8>))
    ensures
        !version_precedes(a, a),
{
    lemma_text_irreflexive(a.0);
    lemma_bytes_irreflexive(a.1);
}

pub proof fn lemma_version_transitive(
    a: (Seq<char>, Seq<u8>),
    b: (Seq<char>, Seq<u8>),
    c: (Seq<char>, Seq<u8>),
)
    requires
        version_precedes(a, b),
        version_precedes(b, c),
    ensures
        version_precedes(a, c),
{
    if text_precedes(a.0, b.0) && text_precedes(b.0, c.0) {
        lemma_text_transitive(a.0, b.0, c.0);
    } else if !text_precedes(a.0, b.0) && !text_precedes(b.0, c.0) {
        lemma_bytes_transitive(a.1, b.1, c.1);
    }
}

pub proof fn lemma_version_total(a: (Seq<char>, Seq<u8>), b: (Seq<char>, Seq<u8>))
    ensures
        version_precedes(a, b) || a == b || version_precedes(b, a),
{
    lemma_text_total(a.0, b.0);
    lemma_bytes_total(a.1, b.1);
}

/// Compare two family versions.
pub fn relate_versions(a: &FamilyVersion, b: &FamilyVersion) -> (relation: Relation)
    ensures
        relation == Relation::Before <==> version_precedes(a@, b@),
        relation == Relation::Same <==> a@ == b@,
        relation == Relation::After <==> version_precedes(b@, a@),
{
    proof {
        if text_precedes(a@.0, b@.0) && text_precedes(b@.0, a@.0) {
            lemma_text_transitive(a@.0, b@.0, a@.0);
        }
        lemma_text_irreflexive(a@.0);
    }
    let families = relate_text(a.family.as_str(), b.family.as_str());
    if families == Relation::Same {
        relate_bytes(a.schema_hash.bytes(), b.schema_hash.bytes())
    } else {
        families
    }
}

impl TableKey for FamilyVersion {
    open spec fn precedes(a: (Seq<char>, Seq<u8>), b: (Seq<char>, Seq<u8>)) -> bool {
        version_precedes(a, b)
    }

    proof fn lemma_irreflexive(a: (Seq<char>, Seq<u8>)) {
        lemma_version_irreflexive(a);
    }

    proof fn lemma_transitive(
        a: (Seq<char>, Seq<u8>),
        b: (Seq<char>, Seq<u8>),
        c: (Seq<char>, Seq<u8>),
    ) {
        lemma_version_transitive(a, b, c);
    }

    proof fn lemma_total(a: (Seq<char>, Seq<u8>), b: (Seq<char>, Seq<u8>)) {
        lemma_version_total(a, b);
    }

    fn relate(&self, other: &Self) -> (relation: Relation) {
        relate_versions(self, other)
    }
}

/// The full identity of a registered record family: the family name and
/// schema hash carry the durable identity; the table name is only the
/// current storage coordinate.
#[derive(Debug, Eq)]
pub struct FamilyIdentity {
    family: FamilyName,
    schema_hash: SchemaHash,
    table_name: String,
}

/// A family identity as plain values.
pub struct FamilyModel {
    pub family: Seq<char>,
    pub schema_hash: Seq<u8>,
    pub table: Seq<char>,
}

impl FamilyModel {
    /// The coordinate that replay dispatches on.
    pub open spec fn version(self) -> (Seq<char>, Seq<u8>) {
        (self.family, self.schema_hash)
    }
}

/// What a family identity contributes to digest inputs.
pub open spec fn family_input(family: FamilyModel) -> Seq<u8> {
    framed(encode_utf8(family.family)) + framed(family.schema_hash) + framed(
        encode_utf8(family.table),
    )
}

/// A family identity in words.
pub open spec fn family_text(family: FamilyModel) -> Seq<char> {
    family.family + "@"@ + hex_text(family.schema_hash) + " (table "@ + family.table + ")"@
}

impl View for FamilyIdentity {
    type V = FamilyModel;

    closed spec fn view(&self) -> FamilyModel {
        FamilyModel {
            family: self.family@,
            schema_hash: self.schema_hash@,
            table: self.table_name@,
        }
    }
}

impl Clone for FamilyIdentity {
    fn clone(&self) -> (copy: Self)
        ensures
            copy@ == self@,
    {
        FamilyIdentity {
            family: self.family.clone(),
            schema_hash: self.schema_hash,
            table_name: self.table_name.clone(),
        }
    }
}

impl PartialEq for FamilyIdentity {
    fn eq(&self, other: &Self) -> (same: bool) {
        self.shares_family(other) && same_text(self.table_name.as_str(), other.table_name.as_str())
    }
}

impl PartialEqSpecImpl for FamilyIdentity {
    open spec fn obeys_eq_spec() -> bool {
        true
    }

    open spec fn eq_spec(&self, other: &Self) -> bool {
        self@ == other@
    }
}

impl FamilyIdentity {
    pub fn new(family: FamilyName, schema_hash: SchemaHash, table: TableName) -> (identity: Self)
        ensures
            identity@ == (FamilyModel {
                family: family@,
                schema_hash: schema_hash@,
                table: table@,
            }),
    {
        FamilyIdentity { family, schema_hash, table_name: table.as_str().to_owned() }
    }

    /// An identity read back from storage, its table name as it was
    /// stored.
    pub fn stored(family: FamilyName, schema_hash: SchemaHash, table_name: String) -> (identity:
        Self)
        ensures
            identity@ == (FamilyModel {
                family: family@,
                schema_hash: schema_hash@,
                table: table_name@,
            }),
    {
        FamilyIdentity { family, schema_hash, table_name }
    }

    pub fn family(&self) -> (family: &FamilyName)
        ensures
            family@ == self@.family,
    {
        &self.family
    }

    pub fn schema_hash(&self) -> (hash: SchemaHash)
        ensures
            hash@ == self@.schema_hash,
    {
        self.schema_hash
    }

    pub fn table_name(&self) -> (name: &str)
        ensures
            name@ == self@.table,
    {
        self.table_name.as_str()
    }

    /// The family name and schema hash without the table coordinate.
    pub fn version(&self) -> (version: FamilyVersion)
        ensures
            version@ == self@.version(),
    {
        FamilyVersion::new(self.family.clone(), self.schema_hash)
    }

    /// Whether two identities name the same family version. The table
    /// coordinate is ignored: this is the replay dispatch relation.
    pub fn shares_family(&self, other: &FamilyIdentity) -> (shares: bool)
        ensures
            shares == (self@.version() == other@.version()),
    {
        self.family == other.family && self.schema_hash == other.schema_hash
    }

    /// Append the identity to a digest input.
    pub fn update_digest(&self, input: &mut Vec<u8>)
        ensures
            final(input)@ == old(input)@ + family_input(self@),
    {
        update_text(input, self.family.as_str());
        update_bytes(input, self.schema_hash.bytes());
        update_text(input, self.table_name.as_str());
        assert(input@ =~= old(input)@ + family_input(self@));
    }

    /// The durable next-record-identifier counter key of this family's
    /// table: the same key that the table's name derives.
    pub fn identified_counter_key(&self) -> (key: String)
        ensures
            key@ == counter_key_text(self@.table),
    {
        let mut key: String = self.table_name.clone();
        key.append(":");
        key.append(IDENTIFIED_COUNTER_SUFFIX);
        key
    }

    /// The identity in words.
    pub fn to_text(&self) -> (text: String)
        ensures
            text@ == family_text(self@),
    {
        let mut text: String = self.family.as_str().to_owned();
        text.append("@");
        append_hex(&mut text, self.schema_hash.bytes());
        text.append(" (table ");
        text.append(self.table_name.as_str());
        text.append(")");
        text
    }
}

/// Family versions compared for sorting.
pub open spec fn inventory_order() -> spec_fn((Seq<char>, Seq<u8>), (Seq<char>, Seq<u8>)) -> bool {
    |a: (Seq<char>, Seq<u8>), b: (Seq<char>, Seq<u8>)| a == b || version_precedes(a, b)
}

/// What one family contributes to the store schema input.
pub open spec fn version_input(version: (Seq<char>, Seq<u8>)) -> Seq<u8> {
    framed(encode_utf8(version.0)) + framed(version.1)
}

pub open spec fn version_inputs(inventory: Seq<(Seq<char>, Seq<u8>)>) -> Seq<Seq<u8>> {
    Seq::new(inventory.len(), |i: int| version_input(inventory[i]))
}

/// The digest input of a sorted family inventory.
pub open spec fn inventory_input(inventory: Seq<(Seq<char>, Seq<u8>)>) -> Seq<u8> {
    framed(encode_utf8("sema-engine-store-schema-hash-v1"@)) + counted(version_inputs(inventory))
}

/// The store schema hash of a family inventory, in whatever order.
pub open spec fn store_schema(inventory: Seq<(Seq<char>, Seq<u8>)>) -> Seq<u8> {
    blake3_digest(inventory_input(inventory.sort_by(inventory_order())))
}

/// The family versions of a list of identities.
pub open spec fn versions(families: Seq<FamilyModel>) -> Seq<(Seq<char>, Seq<u8>)> {
    Seq::new(families.len(), |i: int| families[i].version())
}

pub proof fn lemma_inventory_order()
    ensures
        vstd::relations::total_ordering(inventory_order()),
{
    let order = inventory_order();
    assert forall|a: (Seq<char>, Seq<u8>), b: (Seq<char>, Seq<u8>)| #[trigger]
        order(a, b) || #[trigger] order(b, a) by {
        lemma_version_total(a, b);
    }
    assert forall|a: (Seq<char>, Seq<u8>), b: (Seq<char>, Seq<u8>)|
        #[trigger] order(a, b) && #[trigger] order(b, a) implies a == b by {
        if a != b {
            lemma_version_transitive(a, b, a);
            lemma_version_irreflexive(a);
        }
    }
    assert forall|a: (Seq<char>, Seq<u8>), b: (Seq<char>, Seq<u8>), c: (Seq<char>, Seq<u8>)|
        #[trigger] order(a, b) && #[trigger] order(b, c) implies order(a, c) by {
        if a != b && b != c {
            lemma_version_transitive(a, b, c);
        }
    }
}

proof fn lemma_insert_multiset<A>(items: Seq<A>, at: int, item: A)
    requires
        0 <= at <= items.len(),
    ensures
        items.insert(at, item).to_multiset() == items.push(item).to_multiset(),
{
    let low = items.subrange(0, at);
    let high = items.subrange(at, items.len() as int);
    vstd::seq_lib::lemma_multiset_commutative(low.push(item), high);
    vstd::seq_lib::lemma_multiset_commutative(low, high);
    assert(low + high =~= items);
    assert(items.insert(at, item) =~= low.push(item) + high);
    low.to_multiset_ensures();
    items.to_multiset_ensures();
    assert(low.push(item).to_multiset() =~= low.to_multiset().insert(item));
    assert(items.push(item).to_multiset() =~= items.to_multiset().insert(item));
    assert(items.insert(at, item).to_multiset() =~= items.push(item).to_multiset());
}

impl StoreSchemaHash {
    /// The schema hash of a family inventory. The inventory is sorted, so
    /// the order it comes in does not matter.
    fn from_inventory(inventory: Vec<FamilyVersion>) -> (hash: Self)
        ensures
            hash@ == store_schema(views(inventory@)),
    {
        let mut sorted: Vec<FamilyVersion> = Vec::new();
        let mut at: usize = 0;
        let ghost order = inventory_order();
        proof {
            lemma_inventory_order();
            assert(views(sorted@) =~= views(inventory@).take(0));
        }
        while at < inventory.len()
            invariant
                at <= inventory.len(),
                order == inventory_order(),
                vstd::relations::total_ordering(order),
                vstd::relations::sorted_by(views(sorted@), order),
                views(sorted@).to_multiset() == views(inventory@).take(at as int).to_multiset(),
            decreases inventory.len() - at,
        {
            let item: FamilyVersion = inventory[at].clone();
            let mut place: usize = 0;
            while place < sorted.len() && relate_versions(&sorted[place], &item) != Relation::After
                invariant
                    place <= sorted.len(),
                    order == inventory_order(),
                    forall|i: int| 0 <= i < place ==> order(#[trigger] views(sorted@)[i], item@),
                decreases sorted.len() - place,
            {
                assert(views(sorted@)[place as int] == sorted@[place as int]@);
                proof {
                    lemma_version_total(sorted@[place as int]@, item@);
                }
                place = place + 1;
            }
            let ghost before = views(sorted@);
            assert(place < before.len() ==> order(item@, before[place as int])) by {
                if place < before.len() {
                    assert(before[place as int] == sorted@[place as int]@);
                }
            }
            proof {
                lemma_insert_multiset(before, place as int, item@);
                before.to_multiset_ensures();
                let taken = views(inventory@).take(at as int);
                taken.to_multiset_ensures();
                assert(views(inventory@).take(at + 1) =~= taken.push(item@));
                assert(before.push(item@).to_multiset() =~= before.to_multiset().insert(item@));
                assert(taken.push(item@).to_multiset() =~= taken.to_multiset().insert(item@));
                lemma_sorted_insert(before, place as int, item@, order);
            }
            sorted.insert(place, item);
            assert(views(sorted@) =~= before.insert(place as int, item@));
            at = at + 1;
        }
        proof {
            assert(views(inventory@).take(at as int) =~= views(inventory@));
            views(inventory@).lemma_sort_by_ensures(order);
            vstd::seq_lib::lemma_sorted_unique(
                views(sorted@),
                views(inventory@).sort_by(order),
                order,
            );
        }
        let mut input: Vec<u8> = Vec::new();
        update_text(&mut input, "sema-engine-store-schema-hash-v1");
        update_u64(&mut input, sorted.len() as u64);
        let ghost parts = version_inputs(views(sorted@));
        let ghost start = input@;
        let mut next: usize = 0;
        assert(parts.take(0) =~= Seq::empty());
        assert(input@ =~= start + joined(parts.take(0)));
        while next < sorted.len()
            invariant
                next <= sorted.len(),
                parts == version_inputs(views(sorted@)),
                input@ == start + joined(parts.take(next as int)),
            decreases sorted.len() - next,
        {
            let version = &sorted[next];
            update_text(&mut input, version.family().as_str());
            update_bytes(&mut input, version.schema_hash().bytes());
            proof {
                let part = parts[next as int];
                assert(views(sorted@)[next as int] == version@);
                lemma_joined_push(parts.take(next as int), part);
                assert(parts.take(next + 1) =~= parts.take(next as int).push(part));
                assert(input@ =~= start + joined(parts.take(next + 1)));
            }
            next = next + 1;
        }
        assert(parts.take(next as int) =~= parts);
        assert(input@ =~= inventory_input(views(sorted@)));
        StoreSchemaHash::new(blake3_hash(input.as_slice()))
    }
}

/// The schema hash of a catalog's registered families.
impl<'a> From<&'a Catalog> for StoreSchemaHash {
    fn from(catalog: &'a Catalog) -> (hash: Self)
        ensures
            hash@ == store_schema(versions(catalog@)),
    {
        let mut inventory: Vec<FamilyVersion> = Vec::new();
        let mut at: usize = 0;
        let registrations = catalog.registrations();
        while at < registrations.len()
            invariant
                at <= registrations.len(),
                views(registrations@) == catalog@,
                views(inventory@) == versions(catalog@).take(at as int),
            decreases registrations.len() - at,
        {
            let version: FamilyVersion = registrations[at].identity().version();
            proof {
                let all = versions(catalog@);
                assert(views(registrations@)[at as int] == registrations@[at as int]@);
                lemma_views_push(inventory@, version);
                assert(all.take(at + 1) =~= all.take(at as int).push(version@));
            }
            inventory.push(version);
            at = at + 1;
        }
        assert(versions(catalog@).take(at as int) =~= versions(catalog@));
        StoreSchemaHash::from_inventory(inventory)
    }
}

impl<'a> FromSpecImpl<&'a Catalog> for StoreSchemaHash {
    open spec fn obeys_from_spec() -> bool {
        false
    }

    open spec fn from_spec(catalog: &'a Catalog) -> StoreSchemaHash {
        arbitrary()
    }
}

/// The schema hash of a list of family identities.
impl<'a> From<&'a [FamilyIdentity]> for StoreSchemaHash {
    fn from(families: &'a [FamilyIdentity]) -> (hash: Self)
        ensures
            hash@ == store_schema(versions(views(families@))),
    {
        let mut inventory: Vec<FamilyVersion> = Vec::new();
        let mut at: usize = 0;
        let ghost models = views(families@);
        while at < families.len()
            invariant
                at <= families.len(),
                models == views(families@),
                views(inventory@) == versions(models).take(at as int),
            decreases families.len() - at,
        {
            let version: FamilyVersion = families[at].version();
            proof {
                let all = versions(models);
                lemma_views_push(inventory@, version);
                assert(all.take(at + 1) =~= all.take(at as int).push(version@));
            }
            inventory.push(version);
            at = at + 1;
        }
        assert(versions(models).take(at as int) =~= versions(models));
        StoreSchemaHash::from_inventory(inventory)
    }
}

impl<'a> FromSpecImpl<&'a [FamilyIdentity]> for StoreSchemaHash {
    open spec fn obeys_from_spec() -> bool {
        false
    }

    open spec fn from_spec(families: &'a [FamilyIdentity]) -> StoreSchemaHash {
        arbitrary()
    }
}

proof fn lemma_sorted_insert<A>(items: Seq<A>, at: int, item: A, order: spec_fn(A, A) -> bool)
    requires
        vstd::relations::total_ordering(order),
        vstd::relations::sorted_by(items, order),
        0 <= at <= items.len(),
        forall|i: int| 0 <= i < at ==> order(#[trigger] items[i], item),
        at < items.len() ==> order(item, items[at]),
    ensures
        vstd::relations::sorted_by(items.insert(at, item), order),
{
    let after = items.insert(at, item);
    assert forall|i: int, j: int| 0 <= i < j < after.len() implies #[trigger] order(
        after[i],
        after[j],
    ) by {
        let p = if i < at { i } else { i - 1 };
        let q = if j < at { j } else { j - 1 };
        if i == at {
            assert(order(item, items[at]));
            if q > at {
                assert(order(items[at], items[q]));
            }
        } else if j == at {
            assert(order(items[p], item));
        } else {
            assert(order(items[p], items[q]));
        }
    }
}

/// The payload of a logged operation: the record's archived bytes, or a
/// tombstone where the operation removes the record.
#[derive(Debug, PartialEq, Eq)]
pub enum VersionedPayload {
    Record { bytes: Vec<u8> },
    Tombstone,
}

impl View for VersionedPayload {
    type V = Option<Seq<u8>>;

    open spec fn view(&self) -> Option<Seq<u8>> {
        match *self {
            VersionedPayload::Record { bytes } => Some(bytes@),
            VersionedPayload::Tombstone => None,
        }
    }
}

impl Clone for VersionedPayload {
    fn clone(&self) -> (copy: Self)
        ensures
            copy@ == self@,
    {
        match self {
            VersionedPayload::Record { bytes } => VersionedPayload::Record { bytes: bytes.clone() },
            VersionedPayload::Tombstone => VersionedPayload::Tombstone,
        }
    }
}

/// What a payload contributes to digest inputs.
pub open spec fn payload_input(payload: Option<Seq<u8>>) -> Seq<u8> {
    match payload {
        Some(bytes) => tagged(Some(framed(bytes))),
        None => tagged(None),
    }
}

impl VersionedPayload {
    pub fn record(bytes: Vec<u8>) -> (payload: Self)
        ensures
            payload@ == Some(bytes@),
    {
        VersionedPayload::Record { bytes }
    }

    pub fn tombstone() -> (payload: Self)
        ensures
            payload@ == None::<Seq<u8>>,
    {
        VersionedPayload::Tombstone
    }

    pub fn bytes(&self) -> (bytes: Option<&[u8]>)
        ensures
            match bytes {
                Some(found) => self@ == Some(found@),
                None => self@ is None,
            },
    {
        match self {
            VersionedPayload::Record { bytes } => Some(bytes.as_slice()),
            VersionedPayload::Tombstone => None,
        }
    }

    pub fn is_tombstone(&self) -> (tombstone: bool)
        ensures
            tombstone == (self@ is None),
    {
        matches!(self, VersionedPayload::Tombstone)
    }

    /// Append the payload to a digest input.
    pub fn update_digest(&self, input: &mut Vec<u8>)
        ensures
            final(input)@ == old(input)@ + payload_input(self@),
    {
        match self {
            VersionedPayload::Record { bytes } => {
                update_tag(input, 1);
                update_bytes(input, bytes.as_slice());
            },
            VersionedPayload::Tombstone => {
                update_tag(input, 0);
            },
        }
        assert(input@ =~= old(input)@ + payload_input(self@));
    }
}

/// One logged operation with its payload.
#[derive(Debug, PartialEq, Eq)]
pub struct VersionedLogOperation {
    operation: SemaOperation,
    family: FamilyIdentity,
    key: Option<RecordKey>,
    payload: VersionedPayload,
}

/// A logged operation as plain values.
pub struct OperationModel {
    pub operation: SemaOperation,
    pub family: FamilyModel,
    pub key: Option<KeyModel>,
    pub payload: Option<Seq<u8>>,
}

/// What a key's presence and value contribute to digest inputs.
pub open spec fn optional_key_input(key: Option<KeyModel>) -> Seq<u8> {
    match key {
        Some(key) => tagged(Some(key_input(key))),
        None => tagged(None),
    }
}

/// What a logged operation contributes to digest inputs.
pub open spec fn operation_input(operation: OperationModel) -> Seq<u8> {
    framed(encode_utf8(record_head(operation.operation))) + family_input(operation.family)
        + optional_key_input(operation.key) + payload_input(operation.payload)
}

pub open spec fn operation_inputs(operations: Seq<OperationModel>) -> Seq<Seq<u8>> {
    Seq::new(operations.len(), |i: int| operation_input(operations[i]))
}

impl View for VersionedLogOperation {
    type V = OperationModel;

    closed spec fn view(&self) -> OperationModel {
        OperationModel {
            operation: self.operation,
            family: self.family@,
            key: option_view(self.key),
            payload: self.payload@,
        }
    }
}

impl Clone for VersionedLogOperation {
    fn clone(&self) -> (copy: Self)
        ensures
            copy@ == self@,
    {
        let key: Option<RecordKey> = match &self.key {
            Some(key) => Some(key.clone()),
            None => None,
        };
        VersionedLogOperation {
            operation: self.operation,
            family: self.family.clone(),
            key,
            payload: self.payload.clone(),
        }
    }
}

impl VersionedLogOperation {
    pub fn new(
        operation: SemaOperation,
        family: FamilyIdentity,
        key: Option<RecordKey>,
        payload: VersionedPayload,
    ) -> (logged: Self)
        ensures
            logged@ == (OperationModel {
                operation,
                family: family@,
                key: option_view(key),
                payload: payload@,
            }),
    {
        VersionedLogOperation { operation, family, key, payload }
    }

    pub fn operation(&self) -> (operation: SemaOperation)
        ensures
            operation == self@.operation,
    {
        self.operation
    }

    pub fn family(&self) -> (family: &FamilyIdentity)
        ensures
            family@ == self@.family,
    {
        &self.family
    }

    /// The table coordinate the operation landed in when it was logged.
    /// Replay must dispatch on the family, not on this.
    pub fn table_name(&self) -> (name: &str)
        ensures
            name@ == self@.family.table,
    {
        self.family.table_name()
    }

    pub fn key(&self) -> (key: Option<&RecordKey>)
        ensures
            option_view(key) == self@.key,
    {
        self.key.as_ref()
    }

    pub fn payload(&self) -> (payload: &VersionedPayload)
        ensures
            payload@ == self@.payload,
    {
        &self.payload
    }

    /// Append the operation to a digest input.
    pub fn update_digest(&self, input: &mut Vec<u8>)
        ensures
            final(input)@ == old(input)@ + operation_input(self@),
    {
        update_text(input, self.operation.as_record_head());
        self.family.update_digest(input);
        match &self.key {
            Some(key) => {
                update_tag(input, 1);
                key.update_digest(input);
            },
            None => {
                update_tag(input, 0);
            },
        }
        self.payload.update_digest(input);
        assert(input@ =~= old(input)@ + operation_input(self@));
    }
}

/// One entry of the versioned commit log: the operations of a commit
/// with their payloads, chained by digest to the entry before it.
#[derive(Debug, PartialEq, Eq)]
pub struct VersionedCommitLogEntry {
    store_name: VersionedStoreName,
    schema_hash: StoreSchemaHash,
    commit_sequence: CommitSequence,
    snapshot: SnapshotIdentifier,
    previous_entry_digest: Option<EntryDigest>,
    entry_digest: EntryDigest,
    operations: NonEmpty<VersionedLogOperation>,
}

/// A versioned log entry as plain values.
pub struct EntryModel {
    pub store_name: Seq<char>,
    pub schema_hash: Seq<u8>,
    pub commit_sequence: u64,
    pub snapshot: u64,
    pub previous: Option<Seq<u8>>,
    pub digest: Seq<u8>,
    pub operations: Seq<OperationModel>,
}

/// The digest input of an optional predecessor.
pub open spec fn previous_input(previous: Option<Seq<u8>>) -> Seq<u8> {
    match previous {
        Some(digest) => tagged(Some(framed(digest))),
        None => tagged(None),
    }
}

/// The digest input of an entry: every field but the digest itself.
pub open spec fn entry_input(entry: EntryModel) -> Seq<u8> {
    framed(encode_utf8("sema-engine-versioned-commit-log-entry-v2"@)) + framed(
        encode_utf8(entry.store_name),
    ) + framed(entry.schema_hash) + spec_u64_to_le_bytes(entry.commit_sequence)
        + spec_u64_to_le_bytes(entry.snapshot) + previous_input(entry.previous) + counted(
        operation_inputs(entry.operations),
    )
}

/// The entry whose digest is computed over its own fields.
pub open spec fn sealed(entry: EntryModel) -> EntryModel {
    EntryModel { digest: blake3_digest(entry_input(entry)), ..entry }
}

impl View for VersionedCommitLogEntry {
    type V = EntryModel;

    closed spec fn view(&self) -> EntryModel {
        EntryModel {
            store_name: self.store_name@,
            schema_hash: self.schema_hash@,
            commit_sequence: self.commit_sequence@,
            snapshot: self.snapshot@,
            previous: option_view(self.previous_entry_digest),
            digest: self.entry_digest@,
            operations: views(self.operations@),
        }
    }
}

impl Clone for VersionedCommitLogEntry {
    fn clone(&self) -> (copy: Self)
        ensures
            copy@ == self@,
    {
        let copy = VersionedCommitLogEntry {
            store_name: self.store_name.clone(),
            schema_hash: self.schema_hash,
            commit_sequence: self.commit_sequence,
            snapshot: self.snapshot,
            previous_entry_digest: self.previous_entry_digest,
            entry_digest: self.entry_digest,
            operations: self.operations.clone(),
        };
        assert(copy@.operations =~= self@.operations);
        copy
    }
}

impl Duplicate for VersionedCommitLogEntry {
    fn duplicate(&self) -> (copy: Self) {
        self.clone()
    }
}

impl EntryDigest {
    /// The digest of an entry's fields.
    pub fn from_entry_fields(
        store_name: &VersionedStoreName,
        schema_hash: StoreSchemaHash,
        commit_sequence: CommitSequence,
        snapshot: SnapshotIdentifier,
        previous_entry_digest: Option<EntryDigest>,
        operations: &NonEmpty<VersionedLogOperation>,
    ) -> (digest: Self)
        ensures
            forall|stored: Seq<u8>|
                digest@ == #[trigger] blake3_digest(
                    entry_input(
                        EntryModel {
                            store_name: store_name@,
                            schema_hash: schema_hash@,
                            commit_sequence: commit_sequence@,
                            snapshot: snapshot@,
                            previous: option_view(previous_entry_digest),
                            digest: stored,
                            operations: views(operations@),
                        },
                    ),
                ),
    {
        let mut input: Vec<u8> = Vec::new();
        update_text(&mut input, "sema-engine-versioned-commit-log-entry-v2");
        update_text(&mut input, store_name.as_str());
        update_bytes(&mut input, schema_hash.bytes());
        update_u64(&mut input, commit_sequence.value());
        update_u64(&mut input, snapshot.value());
        match previous_entry_digest {
            Some(digest) => {
                update_tag(&mut input, 1);
                update_bytes(&mut input, digest.bytes());
            },
            None => {
                update_tag(&mut input, 0);
            },
        }
        let ghost fields = input@;
        update_u64(&mut input, operations.len() as u64);
        let ghost start = input@;
        let ghost parts = operation_inputs(views(operations@));
        let mut at: usize = 0;
        assert(parts.take(0) =~= Seq::empty());
        assert(input@ =~= start + joined(parts.take(0)));
        while at < operations.len()
            invariant
                at <= operations@.len(),
                parts == operation_inputs(views(operations@)),
                input@ == start + joined(parts.take(at as int)),
            decreases operations@.len() - at,
        {
            let operation = operations.get(at);
            operation.update_digest(&mut input);
            proof {
                let part = parts[at as int];
                assert(views(operations@)[at as int] == operation@);
                lemma_joined_push(parts.take(at as int), part);
                assert(parts.take(at + 1) =~= parts.take(at as int).push(part));
                assert(input@ =~= start + joined(parts.take(at + 1)));
            }
            at = at + 1;
        }
        assert(parts.take(at as int) =~= parts);
        proof {
            let ghost_entry = EntryModel {
                store_name: store_name@,
                schema_hash: schema_hash@,
                commit_sequence: commit_sequence@,
                snapshot: snapshot@,
                previous: option_view(previous_entry_digest),
                digest: Seq::empty(),
                operations: views(operations@),
            };
            assert(input@ =~= entry_input(ghost_entry));
        }
        EntryDigest::new(blake3_hash(input.as_slice()))
    }
}

impl VersionedCommitLogEntry {
    pub fn new(
        store_name: VersionedStoreName,
        schema_hash: StoreSchemaHash,
        commit_sequence: CommitSequence,
        snapshot: SnapshotIdentifier,
        previous_entry_digest: Option<EntryDigest>,
        operations: NonEmpty<VersionedLogOperation>,
    ) -> (entry: Self)
        ensures
            entry@ == sealed(
                EntryModel {
                    store_name: store_name@,
                    schema_hash: schema_hash@,
                    commit_sequence: commit_sequence@,
                    snapshot: snapshot@,
                    previous: option_view(previous_entry_digest),
                    digest: Seq::empty(),
                    operations: views(operations@),
                },
            ),
    {
        let entry_digest = EntryDigest::from_entry_fields(
            &store_name,
            schema_hash,
            commit_sequence,
            snapshot,
            previous_entry_digest,
            &operations,
        );
        VersionedCommitLogEntry {
            store_name,
            schema_hash,
            commit_sequence,
            snapshot,
            previous_entry_digest,
            entry_digest,
            operations,
        }
    }

    pub fn store_name(&self) -> (name: &VersionedStoreName)
        ensures
            name@ == self@.store_name,
    {
        &self.store_name
    }

    /// The store schema hash at the time of the entry.
    pub fn schema_hash(&self) -> (hash: StoreSchemaHash)
        ensures
            hash@ == self@.schema_hash,
    {
        self.schema_hash
    }

    pub fn commit_sequence(&self) -> (sequence: CommitSequence)
        ensures
            sequence@ == self@.commit_sequence,
    {
        self.commit_sequence
    }

    pub fn snapshot(&self) -> (snapshot: SnapshotIdentifier)
        ensures
            snapshot@ == self@.snapshot,
    {
        self.snapshot
    }

    pub fn previous_entry_digest(&self) -> (digest: Option<EntryDigest>)
        ensures
            option_view(digest) == self@.previous,
    {
        self.previous_entry_digest
    }

    pub fn entry_digest(&self) -> (digest: EntryDigest)
        ensures
            digest@ == self@.digest,
    {
        self.entry_digest
    }

    pub fn operations(&self) -> (operations: &NonEmpty<VersionedLogOperation>)
        ensures
            views(operations@) == self@.operations,
    {
        &self.operations
    }

    pub fn operation_count(&self) -> (count: usize)
        ensures
            count == self@.operations.len(),
    {
        self.operations.len()
    }

    /// The digest of the entry's own fields.
    pub fn computed_digest(&self) -> (digest: EntryDigest)
        ensures
            digest@ == sealed(self@).digest,
    {
        let computed = EntryDigest::from_entry_fields(
            &self.store_name,
            self.schema_hash,
            self.commit_sequence,
            self.snapshot,
            self.previous_entry_digest,
            &self.operations,
        );
        assert(computed@ == blake3_digest(entry_input(self@)));
        computed
    }

    /// Whether the stored digest is the digest of the entry's own fields.
    pub fn is_sealed(&self) -> (genuine: bool)
        ensures
            genuine == (self@ == sealed(self@)),
    {
        self.computed_digest() == self.entry_digest
    }

    /// The same entry under a stored digest, which nothing checks: how an
    /// entry is read back from storage, for a fold to accept or refuse.
    pub fn stored(self, entry_digest: EntryDigest) -> (entry: Self)
        ensures
            entry@ == (EntryModel { digest: entry_digest@, ..self@ }),
    {
        VersionedCommitLogEntry {
            store_name: self.store_name,
            schema_hash: self.schema_hash,
            commit_sequence: self.commit_sequence,
            snapshot: self.snapshot,
            previous_entry_digest: self.previous_entry_digest,
            entry_digest,
            operations: self.operations,
        }
    }
}

/// One replay request: fold versioned log entries into the registered
/// family that the table reference names.
#[derive(Debug)]
pub struct VersionedReplay<RecordValue> {
    table: TableReference<RecordValue>,
    entries: Vec<VersionedCommitLogEntry>,
}

impl<RecordValue> View for VersionedReplay<RecordValue> {
    type V = (Seq<char>, Seq<EntryModel>);

    closed spec fn view(&self) -> (Seq<char>, Seq<EntryModel>) {
        (self.table@, views(self.entries@))
    }
}

impl<RecordValue> VersionedReplay<RecordValue> {
    pub fn new(
        table: TableReference<RecordValue>,
        entries: Vec<VersionedCommitLogEntry>,
    ) -> (replay: Self)
        ensures
            replay@ == (table@, views(entries@)),
    {
        VersionedReplay { table, entries }
    }

    pub fn table(&self) -> (table: &TableReference<RecordValue>)
        ensures
            table@ == self@.0,
    {
        &self.table
    }

    pub fn entries(&self) -> (entries: &[VersionedCommitLogEntry])
        ensures
            views(entries@) == self@.1,
    {
        self.entries.as_slice()
    }
}

/// Outcome of a versioned replay: how many logged operations applied to
/// the requested family and how many belonged to other families.
#[derive(Debug, Clone, Copy, PartialEq, Eq, Structural)]
pub struct ReplayReceipt {
    applied: usize,
    skipped: usize,
}

impl View for ReplayReceipt {
    type V = (usize, usize);

    closed spec fn view(&self) -> (usize, usize) {
        (self.applied, self.skipped)
    }
}

impl ReplayReceipt {
    pub fn new(applied: usize, skipped: usize) -> (receipt: Self)
        ensures
            receipt@ == (applied, skipped),
    {
        ReplayReceipt { applied, skipped }
    }

    pub fn applied(&self) -> (count: usize)
        ensures
            count == self@.0,
    {
        self.applied
    }

    pub fn skipped(&self) -> (count: usize)
        ensures
            count == self@.1,
    {
        self.skipped
    }
}

} // verus!
