//! Checkpoints with payload. A checkpoint digest verifies a state; a
//! checkpoint segment restores one: segments carry the sorted rows of
//! the canonical view under content addresses. Checkpoints are derived
//! from the versioned log, so writing one logs no versioned entry.

use vstd::bytes::spec_u64_to_le_bytes;
use vstd::prelude::*;
use vstd::std_specs::cmp::PartialEqSpecImpl;
use vstd::string::*;
use vstd::utf8::encode_utf8;

use crate::digest::{
    blake3_digest, blake3_hash, counted, framed, joined, lemma_joined_push, update_bytes,
    update_tag, update_text, update_u64,
};
use crate::error::{Error, Failure};
use crate::fold::{folded, row_input, view_digest, CanonicalView, RowModel, ViewDigest, ViewRow};
use crate::models::{lemma_views_push, option_view, views};
use crate::order::{relate_bytes, same_bytes, Relation};
use crate::ordered_table::TableKey;
use crate::record::key_text;
use crate::sequence::CommitSequence;
use crate::snapshot::SnapshotIdentifier;
use crate::table::{counter_key_text, IDENTIFIED_COUNTER_SUFFIX};
use crate::text::{append_hex, hex_text};
use crate::versioning::{
    family_input, previous_input, EntryDigest, FamilyIdentity, FamilyModel, StoreSchemaHash,
    VersionedStoreName,
};

verus! {

/// Soft budget for one segment's payload and key bytes. The view is
/// walked in order, and a new segment starts where the next row would
/// exceed the budget.
pub const SEGMENT_BYTE_BUDGET: u64 = 1048576;

/// Ordinal of a checkpoint within one store, counting from one. It counts
/// checkpoints, not commits.
#[derive(Debug, Clone, Copy, PartialEq, Eq, PartialOrd, Ord, Hash, Structural)]
pub struct CheckpointSequence {
    value: u64,
}

impl View for CheckpointSequence {
    type V = u64;

    closed spec fn view(&self) -> u64 {
        self.value
    }
}

impl CheckpointSequence {
    pub fn new(value: u64) -> (made: Self)
        ensures
            made@ == value,
    {
        CheckpointSequence { value }
    }

    pub fn first() -> (made: Self)
        ensures
            made@ == 1,
    {
        CheckpointSequence { value: 1 }
    }

    pub fn value(self) -> (value: u64)
        ensures
            value == self@,
    {
        self.value
    }

    pub fn next(self) -> (made: Self)
        requires
            self@ < u64::MAX,
        ensures
            made@ == self@ + 1,
    {
        CheckpointSequence { value: self.value + 1 }
    }
}

/// Inclusive range of commit sequences whose effects a checkpoint's view
/// contains.
#[derive(Debug, Clone, Copy, PartialEq, Eq, PartialOrd, Ord, Hash, Structural)]
pub struct CommitSequenceRange {
    first: CommitSequence,
    last: CommitSequence,
}

/// A commit sequence range as plain numbers.
pub struct RangeModel {
    pub first: u64,
    pub last: u64,
}

impl View for CommitSequenceRange {
    type V = RangeModel;

    closed spec fn view(&self) -> RangeModel {
        RangeModel { first: self.first@, last: self.last@ }
    }
}

impl CommitSequenceRange {
    pub fn new(first: CommitSequence, last: CommitSequence) -> (range: Self)
        ensures
            range@ == (RangeModel { first: first@, last: last@ }),
    {
        CommitSequenceRange { first, last }
    }

    pub fn first(self) -> (sequence: CommitSequence)
        ensures
            sequence@ == self@.first,
    {
        self.first
    }

    pub fn last(self) -> (sequence: CommitSequence)
        ensures
            sequence@ == self@.last,
    {
        self.last
    }

    pub fn contains(self, sequence: CommitSequence) -> (inside: bool)
        ensures
            inside == (self@.first <= sequence@ && sequence@ <= self@.last),
    {
        self.first.value() <= sequence.value() && sequence.value() <= self.last.value()
    }
}

/// Content address of one checkpoint segment's rows.
#[derive(Debug, Clone, Copy, Eq, PartialOrd, Ord, Hash)]
pub struct SegmentDigest {
    bytes: [u8; 32],
}

impl View for SegmentDigest {
    type V = Seq<u8>;

    closed spec fn view(&self) -> Seq<u8> {
        self.bytes@
    }
}

impl PartialEq for SegmentDigest {
    fn eq(&self, other: &Self) -> (same: bool) {
        same_bytes(&self.bytes, &other.bytes)
    }
}

impl PartialEqSpecImpl for SegmentDigest {
    open spec fn obeys_eq_spec() -> bool {
        true
    }

    open spec fn eq_spec(&self, other: &Self) -> bool {
        self@ == other@
    }
}

impl SegmentDigest {
    pub fn new(bytes: [u8; 32]) -> (digest: Self)
        ensures
            digest@ == bytes@,
    {
        SegmentDigest { bytes }
    }

    pub fn bytes(&self) -> (bytes: &[u8; 32])
        ensures
            bytes@ == self@,
    {
        &self.bytes
    }

    /// The digest in lower-case hexadecimal.
    pub fn to_text(&self) -> (text: String)
        ensures
            text@ == hex_text(self@),
    {
        let mut text: String = String::new();
        append_hex(&mut text, &self.bytes);
        assert(text@ =~= hex_text(self@));
        text
    }

    /// A digest is thirty-two bytes long.
    pub proof fn lemma_len(self)
        ensures
            self@.len() == 32,
    {
    }
}

impl TableKey for SegmentDigest {
    open spec fn precedes(a: Seq<u8>, b: Seq<u8>) -> bool {
        crate::order::bytes_precede(a, b)
    }

    proof fn lemma_irreflexive(a: Seq<u8>) {
        crate::order::lemma_bytes_irreflexive(a);
    }

    proof fn lemma_transitive(a: Seq<u8>, b: Seq<u8>, c: Seq<u8>) {
        crate::order::lemma_bytes_transitive(a, b, c);
    }

    proof fn lemma_total(a: Seq<u8>, b: Seq<u8>) {
        crate::order::lemma_bytes_total(a, b);
    }

    fn relate(&self, other: &Self) -> (relation: Relation) {
        relate_bytes(&self.bytes, &other.bytes)
    }
}

/// Digest naming one whole checkpoint: every metadata field and the ordered
/// segment references. Checkpoints chain through it.
#[derive(Debug, Clone, Copy, Eq, PartialOrd, Ord, Hash)]
pub struct CheckpointDigest {
    bytes: [u8; 32],
}

impl View for CheckpointDigest {
    type V = Seq<u8>;

    closed spec fn view(&self) -> Seq<u8> {
        self.bytes@
    }
}

impl PartialEq for CheckpointDigest {
    fn eq(&self, other: &Self) -> (same: bool) {
        same_bytes(&self.bytes, &other.bytes)
    }
}

impl PartialEqSpecImpl for CheckpointDigest {
    open spec fn obeys_eq_spec() -> bool {
        true
    }

    open spec fn eq_spec(&self, other: &Self) -> bool {
        self@ == other@
    }
}

impl CheckpointDigest {
    pub fn new(bytes: [u8; 32]) -> (digest: Self)
        ensures
            digest@ == bytes@,
    {
        CheckpointDigest { bytes }
    }

    pub fn bytes(&self) -> (bytes: &[u8; 32])
        ensures
            bytes@ == self@,
    {
        &self.bytes
    }

    /// The digest in lower-case hexadecimal.
    pub fn to_text(&self) -> (text: String)
        ensures
            text@ == hex_text(self@),
    {
        let mut text: String = String::new();
        append_hex(&mut text, &self.bytes);
        assert(text@ =~= hex_text(self@));
        text
    }

    /// A digest is thirty-two bytes long.
    pub proof fn lemma_len(self)
        ensures
            self@.len() == 32,
    {
    }
}

/// Durable next-record-identifier state of one engine-identified table,
/// captured into checkpoints so that a restored store never mints an
/// identifier twice, not even that of a retracted record.
#[derive(Debug, PartialEq, Eq)]
pub struct IdentifiedCounter {
    table_name: String,
    next_identifier: u64,
}

/// An identified counter as plain values.
pub struct CounterModel {
    pub table: Seq<char>,
    pub next: u64,
}

/// What a counter contributes to digest inputs.
pub open spec fn counter_input(counter: CounterModel) -> Seq<u8> {
    framed(encode_utf8(counter.table)) + spec_u64_to_le_bytes(counter.next)
}

impl View for IdentifiedCounter {
    type V = CounterModel;

    closed spec fn view(&self) -> CounterModel {
        CounterModel { table: self.table_name@, next: self.next_identifier }
    }
}

impl Clone for IdentifiedCounter {
    fn clone(&self) -> (copy: Self)
        ensures
            copy@ == self@,
    {
        IdentifiedCounter {
            table_name: self.table_name.clone(),
            next_identifier: self.next_identifier,
        }
    }
}

impl IdentifiedCounter {
    pub fn new(table_name: &str, next_identifier: u64) -> (counter: Self)
        ensures
            counter@ == (CounterModel { table: table_name@, next: next_identifier }),
    {
        IdentifiedCounter { table_name: table_name.to_owned(), next_identifier }
    }

    pub fn table_name(&self) -> (name: &str)
        ensures
            name@ == self@.table,
    {
        self.table_name.as_str()
    }

    pub fn next_identifier(&self) -> (next: u64)
        ensures
            next == self@.next,
    {
        self.next_identifier
    }

    /// The counter-table key this row restores into.
    pub fn counter_key(&self) -> (key: String)
        ensures
            key@ == counter_key_text(self@.table),
    {
        let mut key: String = self.table_name.clone();
        key.append(":");
        key.append(IDENTIFIED_COUNTER_SUFFIX);
        key
    }

    /// Append the counter to a digest input.
    pub fn update_digest(&self, input: &mut Vec<u8>)
        ensures
            final(input)@ == old(input)@ + counter_input(self@),
    {
        update_text(input, self.table_name.as_str());
        update_u64(input, self.next_identifier);
        assert(input@ =~= old(input)@ + counter_input(self@));
    }
}

/// The registered family inventory that a checkpoint captures: every
/// family identity and the identified-counter rows. Import restores it
/// verbatim.
#[derive(Debug, PartialEq, Eq)]
pub struct FamilyInventory {
    families: Vec<FamilyIdentity>,
    identified_counters: Vec<IdentifiedCounter>,
}

/// A family inventory as plain values.
pub struct InventoryModel {
    pub families: Seq<FamilyModel>,
    pub counters: Seq<CounterModel>,
}

pub open spec fn family_inputs(families: Seq<FamilyModel>) -> Seq<Seq<u8>> {
    Seq::new(families.len(), |i: int| family_input(families[i]))
}

pub open spec fn counter_inputs(counters: Seq<CounterModel>) -> Seq<Seq<u8>> {
    Seq::new(counters.len(), |i: int| counter_input(counters[i]))
}

/// What an inventory contributes to digest inputs.
pub open spec fn family_inventory_input(inventory: InventoryModel) -> Seq<u8> {
    counted(family_inputs(inventory.families)) + counted(counter_inputs(inventory.counters))
}

impl View for FamilyInventory {
    type V = InventoryModel;

    closed spec fn view(&self) -> InventoryModel {
        InventoryModel {
            families: views(self.families@),
            counters: views(self.identified_counters@),
        }
    }
}

impl Clone for FamilyInventory {
    fn clone(&self) -> (copy: Self)
        ensures
            copy@ == self@,
    {
        let copy = FamilyInventory {
            families: self.families.clone(),
            identified_counters: self.identified_counters.clone(),
        };
        assert(copy@.families =~= self@.families);
        assert(copy@.counters =~= self@.counters);
        copy
    }
}

impl FamilyInventory {
    pub fn new(
        families: Vec<FamilyIdentity>,
        identified_counters: Vec<IdentifiedCounter>,
    ) -> (inventory: Self)
        ensures
            inventory@ == (InventoryModel {
                families: views(families@),
                counters: views(identified_counters@),
            }),
    {
        FamilyInventory { families, identified_counters }
    }

    pub fn families(&self) -> (families: &[FamilyIdentity])
        ensures
            views(families@) == self@.families,
    {
        self.families.as_slice()
    }

    pub fn identified_counters(&self) -> (counters: &[IdentifiedCounter])
        ensures
            views(counters@) == self@.counters,
    {
        self.identified_counters.as_slice()
    }

    /// Append the inventory to a digest input.
    pub fn update_digest(&self, input: &mut Vec<u8>)
        ensures
            final(input)@ == old(input)@ + family_inventory_input(self@),
    {
        let ghost begin = input@;
        update_u64(input, self.families.len() as u64);
        let ghost start = input@;
        let ghost parts = family_inputs(self@.families);
        let mut at: usize = 0;
        assert(parts.take(0) =~= Seq::empty());
        assert(input@ =~= start + joined(parts.take(0)));
        while at < self.families.len()
            invariant
                at <= self.families.len(),
                parts == family_inputs(self@.families),
                input@ == start + joined(parts.take(at as int)),
            decreases self.families.len() - at,
        {
            self.families[at].update_digest(input);
            proof {
                let part = parts[at as int];
                assert(self@.families[at as int] == self.families@[at as int]@);
                lemma_joined_push(parts.take(at as int), part);
                assert(parts.take(at + 1) =~= parts.take(at as int).push(part));
                assert(input@ =~= start + joined(parts.take(at + 1)));
            }
            at = at + 1;
        }
        assert(parts.take(at as int) =~= parts);
        assert(input@ =~= begin + counted(parts));
        let ghost middle = input@;
        update_u64(input, self.identified_counters.len() as u64);
        let ghost second = input@;
        let ghost more = counter_inputs(self@.counters);
        let mut next: usize = 0;
        assert(more.take(0) =~= Seq::empty());
        assert(input@ =~= second + joined(more.take(0)));
        while next < self.identified_counters.len()
            invariant
                next <= self.identified_counters.len(),
                more == counter_inputs(self@.counters),
                input@ == second + joined(more.take(next as int)),
            decreases self.identified_counters.len() - next,
        {
            self.identified_counters[next].update_digest(input);
            proof {
                let part = more[next as int];
                assert(self@.counters[next as int] == self.identified_counters@[next as int]@);
                lemma_joined_push(more.take(next as int), part);
                assert(more.take(next + 1) =~= more.take(next as int).push(part));
                assert(input@ =~= second + joined(more.take(next + 1)));
            }
            next = next + 1;
        }
        assert(more.take(next as int) =~= more);
        assert(input@ =~= begin + family_inventory_input(self@));
    }
}

/// Reference from checkpoint metadata to one segment, in view order.
#[derive(Debug, Clone, Copy, PartialEq, Eq)]
pub struct SegmentReference {
    digest: SegmentDigest,
    row_count: u64,
}

/// A segment reference as plain values.
pub struct ReferenceModel {
    pub digest: Seq<u8>,
    pub row_count: u64,
}

/// What a reference contributes to digest inputs.
pub open spec fn reference_input(reference: ReferenceModel) -> Seq<u8> {
    framed(reference.digest) + spec_u64_to_le_bytes(reference.row_count)
}

impl View for SegmentReference {
    type V = ReferenceModel;

    closed spec fn view(&self) -> ReferenceModel {
        ReferenceModel { digest: self.digest@, row_count: self.row_count }
    }
}

impl SegmentReference {
    pub fn new(digest: SegmentDigest, row_count: u64) -> (reference: Self)
        ensures
            reference@ == (ReferenceModel { digest: digest@, row_count }),
    {
        SegmentReference { digest, row_count }
    }

    pub fn digest(&self) -> (digest: SegmentDigest)
        ensures
            digest@ == self@.digest,
    {
        self.digest
    }

    pub fn row_count(&self) -> (count: u64)
        ensures
            count == self@.row_count,
    {
        self.row_count
    }

    /// Append the reference to a digest input.
    pub fn update_digest(&self, input: &mut Vec<u8>)
        ensures
            final(input)@ == old(input)@ + reference_input(self@),
    {
        update_bytes(input, self.digest.bytes());
        update_u64(input, self.row_count);
        assert(input@ =~= old(input)@ + reference_input(self@));
    }
}

/// One chunk of the canonical view: consecutive rows in view order. The
/// digest it is stored and referenced under covers exactly these rows.
#[derive(Debug, PartialEq, Eq)]
pub struct CheckpointSegment {
    rows: Vec<ViewRow>,
}

pub open spec fn row_inputs(rows: Seq<RowModel>) -> Seq<Seq<u8>> {
    Seq::new(rows.len(), |i: int| row_input(rows[i]))
}

/// The content address of a segment's rows.
pub open spec fn segment_digest(rows: Seq<RowModel>) -> Seq<u8> {
    blake3_digest(
        framed(encode_utf8("sema-engine-checkpoint-segment-v1"@)) + counted(row_inputs(rows)),
    )
}

/// The reference to a segment with these rows.
pub open spec fn segment_reference(rows: Seq<RowModel>) -> ReferenceModel {
    ReferenceModel { digest: segment_digest(rows), row_count: rows.len() as u64 }
}

/// A row's weight against the segment budget.
pub open spec fn row_weight(row: RowModel) -> nat {
    let payload = match row.payload {
        Some(bytes) => bytes.len(),
        None => 0,
    };
    payload + 1 + encode_utf8(key_text(row.key)).len()
}

pub open spec fn rows_weight(rows: Seq<RowModel>) -> nat
    decreases rows.len(),
{
    if rows.len() == 0 {
        0
    } else {
        rows_weight(rows.drop_last()) + row_weight(rows.last())
    }
}

/// The chunking of rows walked so far: the finished segments and the one
/// being filled. A row that would push a non-empty segment over the
/// budget starts the next one.
pub open spec fn chunking(rows: Seq<RowModel>) -> (Seq<Seq<RowModel>>, Seq<RowModel>)
    decreases rows.len(),
{
    if rows.len() == 0 {
        (Seq::empty(), Seq::empty())
    } else {
        let (finished, current) = chunking(rows.drop_last());
        let row = rows.last();
        if current.len() > 0 && rows_weight(current) + row_weight(row) > SEGMENT_BYTE_BUDGET {
            (finished.push(current), seq![row])
        } else {
            (finished, current.push(row))
        }
    }
}

/// The segments of a view: the finished ones and the last.
pub open spec fn chunked(rows: Seq<RowModel>) -> Seq<Seq<RowModel>> {
    let (finished, current) = chunking(rows);
    if current.len() > 0 {
        finished.push(current)
    } else {
        finished
    }
}

/// The rows of segments in view order.
pub open spec fn all_rows(segments: Seq<Seq<RowModel>>) -> Seq<RowModel>
    decreases segments.len(),
{
    if segments.len() == 0 {
        Seq::empty()
    } else {
        all_rows(segments.drop_last()) + segments.last()
    }
}

/// A segment holds at least one row, and more than one only within the
/// budget.
pub open spec fn segment_fits(rows: Seq<RowModel>) -> bool {
    rows.len() == 1 || (rows.len() > 1 && rows_weight(rows) <= SEGMENT_BYTE_BUDGET)
}

proof fn lemma_chunking(rows: Seq<RowModel>)
    ensures
        ({
            let (finished, current) = chunking(rows);
            &&& all_rows(finished) + current == rows
            &&& rows.len() > 0 ==> segment_fits(current)
            &&& forall|i: int| 0 <= i < finished.len() ==> segment_fits(#[trigger] finished[i])
        }),
    decreases rows.len(),
{
    let (finished, current) = chunking(rows);
    if rows.len() == 0 {
        assert(all_rows(finished) + current =~= rows);
    } else {
        lemma_chunking(rows.drop_last());
        let (before, open) = chunking(rows.drop_last());
        let row = rows.last();
        assert(rows =~= rows.drop_last().push(row));
        if open.len() > 0 && rows_weight(open) + row_weight(row) > SEGMENT_BYTE_BUDGET {
            assert(finished.drop_last() =~= before);
            assert(all_rows(finished) + current =~= rows);
        } else {
            assert(current.drop_last() =~= open);
            assert(all_rows(finished) + current =~= rows);
        }
    }
}

/// Chunking keeps every row in its place, leaves no segment empty, and
/// goes over the budget only for a row that is too large by itself.
pub proof fn lemma_chunked(rows: Seq<RowModel>)
    ensures
        all_rows(chunked(rows)) == rows,
        forall|i: int| 0 <= i < chunked(rows).len() ==> segment_fits(#[trigger] chunked(rows)[i]),
{
    lemma_chunking(rows);
    let (finished, current) = chunking(rows);
    if current.len() > 0 {
        assert(finished.push(current).drop_last() =~= finished);
    } else {
        assert(all_rows(finished) =~= rows);
    }
}

impl View for CheckpointSegment {
    type V = Seq<RowModel>;

    closed spec fn view(&self) -> Seq<RowModel> {
        views(self.rows@)
    }
}

impl Clone for CheckpointSegment {
    fn clone(&self) -> (copy: Self)
        ensures
            copy@ == self@,
    {
        let copy = CheckpointSegment { rows: self.rows.clone() };
        assert(copy@ =~= self@);
        copy
    }
}

impl CheckpointSegment {
    pub fn new(rows: Vec<ViewRow>) -> (segment: Self)
        ensures
            segment@ == views(rows@),
    {
        CheckpointSegment { rows }
    }

    pub fn rows(&self) -> (rows: &[ViewRow])
        ensures
            views(rows@) == self@,
    {
        self.rows.as_slice()
    }

    pub fn row_count(&self) -> (count: usize)
        ensures
            count == self@.len(),
    {
        self.rows.len()
    }

    pub fn digest(&self) -> (digest: SegmentDigest)
        ensures
            digest@ == segment_digest(self@),
    {
        let mut input: Vec<u8> = Vec::new();
        update_text(&mut input, "sema-engine-checkpoint-segment-v1");
        update_u64(&mut input, self.rows.len() as u64);
        let ghost start = input@;
        let ghost parts = row_inputs(self@);
        let mut at: usize = 0;
        assert(parts.take(0) =~= Seq::empty());
        assert(input@ =~= start + joined(parts.take(0)));
        while at < self.rows.len()
            invariant
                at <= self.rows.len(),
                parts == row_inputs(self@),
                input@ == start + joined(parts.take(at as int)),
            decreases self.rows.len() - at,
        {
            self.rows[at].update_digest(&mut input);
            proof {
                let part = parts[at as int];
                assert(self@[at as int] == self.rows@[at as int]@);
                lemma_joined_push(parts.take(at as int), part);
                assert(parts.take(at + 1) =~= parts.take(at as int).push(part));
                assert(input@ =~= start + joined(parts.take(at + 1)));
            }
            at = at + 1;
        }
        assert(parts.take(at as int) =~= parts);
        assert(input@ =~= framed(encode_utf8("sema-engine-checkpoint-segment-v1"@)) + counted(
            parts,
        ));
        SegmentDigest::new(blake3_hash(input.as_slice()))
    }

    pub fn reference(&self) -> (reference: SegmentReference)
        ensures
            reference@ == segment_reference(self@),
    {
        SegmentReference::new(self.digest(), self.rows.len() as u64)
    }

    /// Chunk view rows into segments at the byte budget, with at least
    /// one row in each.
    pub fn chunk(rows: &[ViewRow]) -> (segments: Vec<Self>)
        ensures
            views(segments@) == chunked(views(rows@)),
    {
        let mut segments: Vec<CheckpointSegment> = Vec::new();
        let mut current: Vec<ViewRow> = Vec::new();
        let mut current_bytes: u128 = 0;
        let mut at: usize = 0;
        let ghost models = views(rows@);
        assert(models.take(0) =~= Seq::empty());
        assert(views(segments@) =~= Seq::empty());
        assert(views(current@) =~= Seq::empty());
        while at < rows.len()
            invariant
                at <= rows.len(),
                models == views(rows@),
                (views(segments@), views(current@)) == chunking(models.take(at as int)),
                current_bytes == rows_weight(views(current@)),
                current_bytes <= SEGMENT_BYTE_BUDGET + 2 * (usize::MAX as u128) + 1,
                current@.len() == 0 ==> current_bytes == 0,
            decreases rows.len() - at,
        {
            let row = &rows[at];
            let payload_bytes: u128 = match row.payload().bytes() {
                Some(bytes) => bytes.len() as u128,
                None => 0,
            };
            let row_bytes: u128 = payload_bytes + row.key().encoded_len();
            assert(models.take(at + 1).drop_last() =~= models.take(at as int));
            assert(models.take(at + 1).last() == row@);
            assert(row_bytes == row_weight(row@));
            if current.len() > 0 && current_bytes + row_bytes > SEGMENT_BYTE_BUDGET as u128 {
                let mut finished: Vec<ViewRow> = Vec::new();
                std::mem::swap(&mut finished, &mut current);
                let segment: CheckpointSegment = CheckpointSegment::new(finished);
                proof {
                    lemma_views_push(segments@, segment);
                }
                segments.push(segment);
                current_bytes = 0;
                assert(views(current@) =~= Seq::empty());
                assert(rows_weight(views(current@)) == 0);
            }
            let copy: ViewRow = row.clone();
            proof {
                lemma_views_push(current@, copy);
                let extended = views(current@).push(copy@);
                assert(extended.drop_last() =~= views(current@));
                assert(rows_weight(extended) == rows_weight(views(current@)) + row_weight(row@));
                if current@.len() == 0 {
                    assert(extended =~= seq![row@]);
                }
            }
            current_bytes = current_bytes + row_bytes;
            current.push(copy);
            at = at + 1;
        }
        assert(models.take(at as int) =~= models);
        if current.len() > 0 {
            let segment: CheckpointSegment = CheckpointSegment::new(current);
            proof {
                lemma_views_push(segments@, segment);
            }
            segments.push(segment);
        }
        segments
    }
}

/// Durable description of one checkpoint. The metadata alone can verify
/// a reconstructed state; restoring one takes the referenced segments.
#[derive(Debug, PartialEq, Eq)]
pub struct CheckpointMetadata {
    sequence: CheckpointSequence,
    store_name: VersionedStoreName,
    store_schema_hash: StoreSchemaHash,
    family_inventory: FamilyInventory,
    covered: CommitSequenceRange,
    covered_snapshot: SnapshotIdentifier,
    covered_entry_digest: EntryDigest,
    view_digest: ViewDigest,
    previous_checkpoint_digest: Option<CheckpointDigest>,
    segments: Vec<SegmentReference>,
    checkpoint_digest: CheckpointDigest,
}

/// Checkpoint metadata as plain values.
pub struct MetadataModel {
    pub sequence: u64,
    pub store_name: Seq<char>,
    pub store_schema_hash: Seq<u8>,
    pub inventory: InventoryModel,
    pub covered: RangeModel,
    pub snapshot: u64,
    pub entry_digest: Seq<u8>,
    pub view_digest: Seq<u8>,
    pub previous: Option<Seq<u8>>,
    pub segments: Seq<ReferenceModel>,
    pub digest: Seq<u8>,
}

pub open spec fn reference_inputs(references: Seq<ReferenceModel>) -> Seq<Seq<u8>> {
    Seq::new(references.len(), |i: int| reference_input(references[i]))
}

/// The digest input of checkpoint metadata: every field but the digest
/// itself.
pub open spec fn metadata_input(metadata: MetadataModel) -> Seq<u8> {
    framed(encode_utf8("sema-engine-checkpoint-v1"@)) + spec_u64_to_le_bytes(metadata.sequence)
        + framed(encode_utf8(metadata.store_name)) + framed(metadata.store_schema_hash)
        + family_inventory_input(metadata.inventory) + spec_u64_to_le_bytes(
        metadata.covered.first,
    ) + spec_u64_to_le_bytes(metadata.covered.last) + spec_u64_to_le_bytes(metadata.snapshot)
        + framed(metadata.entry_digest) + framed(metadata.view_digest) + previous_input(
        metadata.previous,
    ) + counted(reference_inputs(metadata.segments))
}

/// The metadata whose digest is computed over its own fields.
pub open spec fn sealed_metadata(metadata: MetadataModel) -> MetadataModel {
    MetadataModel { digest: blake3_digest(metadata_input(metadata)), ..metadata }
}

impl View for CheckpointMetadata {
    type V = MetadataModel;

    closed spec fn view(&self) -> MetadataModel {
        MetadataModel {
            sequence: self.sequence@,
            store_name: self.store_name@,
            store_schema_hash: self.store_schema_hash@,
            inventory: self.family_inventory@,
            covered: self.covered@,
            snapshot: self.covered_snapshot@,
            entry_digest: self.covered_entry_digest@,
            view_digest: self.view_digest@,
            previous: option_view(self.previous_checkpoint_digest),
            segments: views(self.segments@),
            digest: self.checkpoint_digest@,
        }
    }
}

impl Clone for CheckpointMetadata {
    fn clone(&self) -> (copy: Self)
        ensures
            copy@ == self@,
    {
        let copy = CheckpointMetadata {
            sequence: self.sequence,
            store_name: self.store_name.clone(),
            store_schema_hash: self.store_schema_hash,
            family_inventory: self.family_inventory.clone(),
            covered: self.covered,
            covered_snapshot: self.covered_snapshot,
            covered_entry_digest: self.covered_entry_digest,
            view_digest: self.view_digest,
            previous_checkpoint_digest: self.previous_checkpoint_digest,
            segments: self.segments.clone(),
            checkpoint_digest: self.checkpoint_digest,
        };
        assert(copy@.segments =~= self@.segments);
        copy
    }
}

impl CheckpointMetadata {
    /// Metadata named by the digest of its own fields.
    pub fn new(
        sequence: CheckpointSequence,
        store_name: VersionedStoreName,
        store_schema_hash: StoreSchemaHash,
        family_inventory: FamilyInventory,
        covered: CommitSequenceRange,
        covered_snapshot: SnapshotIdentifier,
        covered_entry_digest: EntryDigest,
        view_digest: ViewDigest,
        previous_checkpoint_digest: Option<CheckpointDigest>,
        segments: Vec<SegmentReference>,
    ) -> (metadata: Self)
        ensures
            metadata@ == sealed_metadata(
                MetadataModel {
                    sequence: sequence@,
                    store_name: store_name@,
                    store_schema_hash: store_schema_hash@,
                    inventory: family_inventory@,
                    covered: covered@,
                    snapshot: covered_snapshot@,
                    entry_digest: covered_entry_digest@,
                    view_digest: view_digest@,
                    previous: option_view(previous_checkpoint_digest),
                    segments: views(segments@),
                    digest: Seq::empty(),
                },
            ),
    {
        let unnamed = CheckpointMetadata {
            sequence,
            store_name,
            store_schema_hash,
            family_inventory,
            covered,
            covered_snapshot,
            covered_entry_digest,
            view_digest,
            previous_checkpoint_digest,
            segments,
            checkpoint_digest: CheckpointDigest::new([0; 32]),
        };
        let checkpoint_digest = unnamed.computed_digest();
        assert(metadata_input(unnamed@) == metadata_input(
            MetadataModel { digest: Seq::empty(), ..unnamed@ },
        ));
        unnamed.named(checkpoint_digest)
    }

    /// The same metadata under a stored digest, which nothing checks: how
    /// metadata is read back from storage, for `Checkpoint::verify` to
    /// accept or refuse.
    pub fn named(self, checkpoint_digest: CheckpointDigest) -> (metadata: Self)
        ensures
            metadata@ == (MetadataModel { digest: checkpoint_digest@, ..self@ }),
    {
        CheckpointMetadata {
            sequence: self.sequence,
            store_name: self.store_name,
            store_schema_hash: self.store_schema_hash,
            family_inventory: self.family_inventory,
            covered: self.covered,
            covered_snapshot: self.covered_snapshot,
            covered_entry_digest: self.covered_entry_digest,
            view_digest: self.view_digest,
            previous_checkpoint_digest: self.previous_checkpoint_digest,
            segments: self.segments,
            checkpoint_digest,
        }
    }

    pub fn sequence(&self) -> (sequence: CheckpointSequence)
        ensures
            sequence@ == self@.sequence,
    {
        self.sequence
    }

    pub fn store_name(&self) -> (name: &VersionedStoreName)
        ensures
            name@ == self@.store_name,
    {
        &self.store_name
    }

    pub fn store_schema_hash(&self) -> (hash: StoreSchemaHash)
        ensures
            hash@ == self@.store_schema_hash,
    {
        self.store_schema_hash
    }

    pub fn family_inventory(&self) -> (inventory: &FamilyInventory)
        ensures
            inventory@ == self@.inventory,
    {
        &self.family_inventory
    }

    pub fn covered(&self) -> (range: CommitSequenceRange)
        ensures
            range@ == self@.covered,
    {
        self.covered
    }

    pub fn covered_snapshot(&self) -> (snapshot: SnapshotIdentifier)
        ensures
            snapshot@ == self@.snapshot,
    {
        self.covered_snapshot
    }

    /// Digest of the last covered entry: what a continuing log suffix
    /// must name as its predecessor.
    pub fn covered_entry_digest(&self) -> (digest: EntryDigest)
        ensures
            digest@ == self@.entry_digest,
    {
        self.covered_entry_digest
    }

    pub fn view_digest(&self) -> (digest: ViewDigest)
        ensures
            digest@ == self@.view_digest,
    {
        self.view_digest
    }

    pub fn previous_checkpoint_digest(&self) -> (digest: Option<CheckpointDigest>)
        ensures
            option_view(digest) == self@.previous,
    {
        self.previous_checkpoint_digest
    }

    pub fn segments(&self) -> (references: &[SegmentReference])
        ensures
            views(references@) == self@.segments,
    {
        self.segments.as_slice()
    }

    pub fn checkpoint_digest(&self) -> (digest: CheckpointDigest)
        ensures
            digest@ == self@.digest,
    {
        self.checkpoint_digest
    }

    /// The digest of the metadata's own fields.
    pub fn computed_digest(&self) -> (digest: CheckpointDigest)
        ensures
            digest@ == blake3_digest(metadata_input(self@)),
    {
        let mut input: Vec<u8> = Vec::new();
        update_text(&mut input, "sema-engine-checkpoint-v1");
        update_u64(&mut input, self.sequence.value());
        update_text(&mut input, self.store_name.as_str());
        update_bytes(&mut input, self.store_schema_hash.bytes());
        self.family_inventory.update_digest(&mut input);
        update_u64(&mut input, self.covered.first().value());
        update_u64(&mut input, self.covered.last().value());
        update_u64(&mut input, self.covered_snapshot.value());
        update_bytes(&mut input, self.covered_entry_digest.bytes());
        update_bytes(&mut input, self.view_digest.bytes());
        match self.previous_checkpoint_digest {
            Some(digest) => {
                update_tag(&mut input, 1);
                update_bytes(&mut input, digest.bytes());
            },
            None => {
                update_tag(&mut input, 0);
            },
        }
        update_u64(&mut input, self.segments.len() as u64);
        let ghost start = input@;
        let ghost parts = reference_inputs(self@.segments);
        let mut at: usize = 0;
        assert(parts.take(0) =~= Seq::empty());
        assert(input@ =~= start + joined(parts.take(0)));
        while at < self.segments.len()
            invariant
                at <= self.segments.len(),
                parts == reference_inputs(self@.segments),
                input@ == start + joined(parts.take(at as int)),
            decreases self.segments.len() - at,
        {
            self.segments[at].update_digest(&mut input);
            proof {
                let part = parts[at as int];
                assert(self@.segments[at as int] == self.segments@[at as int]@);
                lemma_joined_push(parts.take(at as int), part);
                assert(parts.take(at + 1) =~= parts.take(at as int).push(part));
                assert(input@ =~= start + joined(parts.take(at + 1)));
            }
            at = at + 1;
        }
        assert(parts.take(at as int) =~= parts);
        assert(input@ =~= metadata_input(self@));
        CheckpointDigest::new(blake3_hash(input.as_slice()))
    }
}

/// One whole checkpoint: the metadata and its segments in view order.
#[derive(Debug, PartialEq, Eq)]
pub struct Checkpoint {
    metadata: CheckpointMetadata,
    segments: Vec<CheckpointSegment>,
}

/// A checkpoint as plain values.
pub struct CheckpointModel {
    pub metadata: MetadataModel,
    pub segments: Seq<Seq<RowModel>>,
}

/// The content addresses of a list of segments.
pub open spec fn segment_digests(segments: Seq<Seq<RowModel>>) -> Seq<Seq<u8>> {
    Seq::new(segments.len(), |i: int| segment_digest(segments[i]))
}

/// The first segment whose address is not the one its reference names.
pub open spec fn misplaced_segment(
    references: Seq<ReferenceModel>,
    digests: Seq<Seq<u8>>,
) -> Option<Failure>
    decreases references.len(),
{
    if references.len() == 0 {
        None
    } else {
        match misplaced_segment(references.drop_last(), digests.drop_last()) {
            Some(failure) => Some(failure),
            None => if digests.last() != references.last().digest {
                Some(
                    Failure::SegmentDigestMismatch {
                        referenced: references.last().digest,
                        computed: digests.last(),
                    },
                )
            } else {
                None
            },
        }
    }
}

/// What is wrong with a checkpoint, given the digests that were computed
/// over its metadata, over each of its segments and over the view that
/// its rows fold to.
pub open spec fn objection(
    checkpoint: CheckpointModel,
    metadata_digest: Seq<u8>,
    digests: Seq<Seq<u8>>,
    view: Result<Seq<u8>, Failure>,
) -> Option<Failure> {
    let metadata = checkpoint.metadata;
    let supplied = checkpoint.segments.len();
    let referenced = metadata.segments.len();
    if metadata_digest != metadata.digest {
        Some(
            Failure::CheckpointDigestMismatch {
                stored: metadata.digest,
                computed: metadata_digest,
            },
        )
    } else if supplied < referenced {
        Some(Failure::SegmentMissing { digest: metadata.segments[supplied as int].digest })
    } else if supplied > referenced {
        Some(
            Failure::SegmentSurplus {
                referenced: referenced as usize,
                supplied: supplied as usize,
            },
        )
    } else {
        match misplaced_segment(metadata.segments, digests) {
            Some(failure) => Some(failure),
            None => match view {
                Err(failure) => Some(failure),
                Ok(digest) => if digest != metadata.view_digest {
                    Some(
                        Failure::ViewDigestMismatch {
                            expected: metadata.view_digest,
                            computed: digest,
                        },
                    )
                } else {
                    None
                },
            },
        }
    }
}

/// The view digest of checkpoint rows.
pub open spec fn rows_view_digest(rows: Seq<RowModel>) -> Result<Seq<u8>, Failure> {
    match folded(rows, Seq::empty(), None) {
        Ok(view) => Ok(view_digest(view.cells)),
        Err(failure) => Err(failure),
    }
}

/// What is wrong with a checkpoint; nothing, if every content address
/// holds.
pub open spec fn verification(checkpoint: CheckpointModel) -> Option<Failure> {
    objection(
        checkpoint,
        blake3_digest(metadata_input(checkpoint.metadata)),
        segment_digests(checkpoint.segments),
        rows_view_digest(all_rows(checkpoint.segments)),
    )
}

impl View for Checkpoint {
    type V = CheckpointModel;

    closed spec fn view(&self) -> CheckpointModel {
        CheckpointModel { metadata: self.metadata@, segments: views(self.segments@) }
    }
}

impl Clone for Checkpoint {
    fn clone(&self) -> (copy: Self)
        ensures
            copy@ == self@,
    {
        let copy = Checkpoint { metadata: self.metadata.clone(), segments: self.segments.clone() };
        assert(copy@.segments =~= self@.segments);
        copy
    }
}

impl Checkpoint {
    pub fn new(metadata: CheckpointMetadata, segments: Vec<CheckpointSegment>) -> (checkpoint: Self)
        ensures
            checkpoint@ == (CheckpointModel { metadata: metadata@, segments: views(segments@) }),
    {
        Checkpoint { metadata, segments }
    }

    pub fn metadata(&self) -> (metadata: &CheckpointMetadata)
        ensures
            metadata@ == self@.metadata,
    {
        &self.metadata
    }

    pub fn segments(&self) -> (segments: &[CheckpointSegment])
        ensures
            views(segments@) == self@.segments,
    {
        self.segments.as_slice()
    }

    /// All view rows in view order, concatenated across segments.
    pub fn rows(&self) -> (rows: Vec<ViewRow>)
        ensures
            views(rows@) == all_rows(self@.segments),
    {
        let mut rows: Vec<ViewRow> = Vec::new();
        let mut at: usize = 0;
        let ghost segments = self@.segments;
        assert(segments.take(0) =~= Seq::empty());
        assert(views(rows@) =~= Seq::empty());
        while at < self.segments.len()
            invariant
                at <= self.segments.len(),
                segments == self@.segments,
                views(rows@) == all_rows(segments.take(at as int)),
            decreases self.segments.len() - at,
        {
            let mut part: Vec<ViewRow> = self.segments[at].rows.clone();
            assert(views(part@) =~= self.segments@[at as int]@);
            assert(segments[at as int] == self.segments@[at as int]@);
            let ghost before = rows@;
            let ghost added = part@;
            rows.append(&mut part);
            assert(views(rows@) =~= views(before) + views(added));
            assert(segments.take(at + 1).drop_last() =~= segments.take(at as int));
            at = at + 1;
        }
        assert(segments.take(at as int) =~= segments);
        rows
    }

    /// Verify every content address: the checkpoint digest over the
    /// metadata, each segment against its reference, and the view digest
    /// against the folded segment rows.
    pub fn verify(&self) -> (outcome: Result<(), Error>)
        ensures
            match outcome {
                Ok(()) => verification(self@) is None,
                Err(error) => verification(self@) == Some(error@),
            },
    {
        let mut digests: Vec<SegmentDigest> = Vec::new();
        let mut at: usize = 0;
        let ghost expected = segment_digests(self@.segments);
        assert(views(digests@) =~= expected.take(0));
        while at < self.segments.len()
            invariant
                at <= self.segments.len(),
                expected == segment_digests(self@.segments),
                views(digests@) == expected.take(at as int),
            decreases self.segments.len() - at,
        {
            let digest: SegmentDigest = self.segments[at].digest();
            proof {
                assert(self@.segments[at as int] == self.segments@[at as int]@);
                lemma_views_push(digests@, digest);
                assert(expected.take(at + 1) =~= expected.take(at as int).push(digest@));
            }
            digests.push(digest);
            at = at + 1;
        }
        assert(expected.take(at as int) =~= expected);
        let rows: Vec<ViewRow> = self.rows();
        let entries: Vec<crate::versioning::VersionedCommitLogEntry> = Vec::new();
        assert(views(entries@) =~= Seq::empty());
        let view: Result<ViewDigest, Error> = match CanonicalView::fold(
            rows.as_slice(),
            entries.as_slice(),
            None,
        ) {
            Ok(view) => Ok(view.digest()),
            Err(error) => Err(error),
        };
        self.verify_against(self.metadata.computed_digest(), digests.as_slice(), view)
    }

    /// Hold the checkpoint against digests computed over its parts.
    pub fn verify_against(
        &self,
        metadata_digest: CheckpointDigest,
        digests: &[SegmentDigest],
        view: Result<ViewDigest, Error>,
    ) -> (outcome: Result<(), Error>)
        requires
            digests@.len() == self@.segments.len(),
        ensures
            match outcome {
                Ok(()) => objection(
                    self@,
                    metadata_digest@,
                    views(digests@),
                    result_model(view),
                ) is None,
                Err(error) => objection(
                    self@,
                    metadata_digest@,
                    views(digests@),
                    result_model(view),
                ) == Some(error@),
            },
    {
        if metadata_digest != self.metadata.checkpoint_digest {
            return Err(
                Error::CheckpointDigestMismatch {
                    stored: self.metadata.checkpoint_digest,
                    computed: metadata_digest,
                },
            );
        }
        let supplied: usize = self.segments.len();
        let referenced: usize = self.metadata.segments.len();
        if supplied < referenced {
            // The first reference past the supplied count names what is
            // missing.
            return Err(
                Error::SegmentMissing { digest: self.metadata.segments[supplied].digest() },
            );
        }
        if supplied > referenced {
            return Err(Error::SegmentSurplus { referenced, supplied });
        }
        let ghost references = self@.metadata.segments;
        let ghost addresses = views(digests@);
        let mut at: usize = 0;
        assert(references.take(0) =~= Seq::empty());
        while at < digests.len()
            invariant
                at <= digests.len(),
                digests@.len() == self.metadata.segments@.len(),
                references == self@.metadata.segments,
                references == views(self.metadata.segments@),
                addresses == views(digests@),
                misplaced_segment(references.take(at as int), addresses.take(at as int)) is None,
                misplaced_segment(references, addresses) is Some ==> objection(
                    self@,
                    metadata_digest@,
                    addresses,
                    result_model(view),
                ) == misplaced_segment(references, addresses),
            decreases digests.len() - at,
        {
            let reference = self.metadata.segments[at];
            assert(references[at as int] == reference@);
            assert(references.take(at + 1).drop_last() =~= references.take(at as int));
            assert(addresses.take(at + 1).drop_last() =~= addresses.take(at as int));
            if digests[at] != reference.digest() {
                let error = Error::SegmentDigestMismatch {
                    referenced: reference.digest(),
                    computed: digests[at],
                };
                proof {
                    lemma_misplaced(references, addresses, at + 1, error@);
                }
                return Err(error);
            }
            at = at + 1;
        }
        assert(references.take(at as int) =~= references);
        assert(addresses.take(at as int) =~= addresses);
        match view {
            Err(error) => Err(error),
            Ok(computed) => {
                if computed != self.metadata.view_digest {
                    Err(
                        Error::ViewDigestMismatch {
                            expected: self.metadata.view_digest,
                            computed,
                        },
                    )
                } else {
                    Ok(())
                }
            },
        }
    }
}

/// The model of a view digest or the refusal that came in its place.
pub open spec fn result_model(view: Result<ViewDigest, Error>) -> Result<Seq<u8>, Failure> {
    match view {
        Ok(digest) => Ok(digest@),
        Err(error) => Err(error@),
    }
}

proof fn lemma_misplaced(
    references: Seq<ReferenceModel>,
    digests: Seq<Seq<u8>>,
    at: int,
    failure: Failure,
)
    requires
        references.len() == digests.len(),
        0 <= at <= references.len(),
        misplaced_segment(references.take(at), digests.take(at)) == Some(failure),
    ensures
        misplaced_segment(references, digests) == Some(failure),
    decreases references.len() - at,
{
    if at == references.len() {
        assert(references.take(at) =~= references);
        assert(digests.take(at) =~= digests);
    } else {
        assert(references.take(at + 1).drop_last() =~= references.take(at));
        assert(digests.take(at + 1).drop_last() =~= digests.take(at));
        lemma_misplaced(references, digests, at + 1, failure);
    }
}

/// Owned byte artifact for moving a checkpoint across processes. What is
/// decoded from it is verified before it is handed on.
#[derive(Debug, PartialEq, Eq)]
pub struct PortableCheckpoint {
    bytes: Vec<u8>,
}

impl View for PortableCheckpoint {
    type V = Seq<u8>;

    closed spec fn view(&self) -> Seq<u8> {
        self.bytes@
    }
}

impl PortableCheckpoint {
    pub fn from_bytes(bytes: Vec<u8>) -> (portable: Self)
        ensures
            portable@ == bytes@,
    {
        PortableCheckpoint { bytes }
    }

    pub fn as_bytes(&self) -> (bytes: &[u8])
        ensures
            bytes@ == self@,
    {
        self.bytes.as_slice()
    }

    pub fn into_bytes(self) -> (bytes: Vec<u8>)
        ensures
            bytes@ == self@,
    {
        self.bytes
    }

    /// Accept a checkpoint decoded from these bytes, or say why not: the
    /// bytes did not decode, or a content address does not hold.
    pub fn accept(&self, decoded: Result<Checkpoint, String>) -> (outcome: Result<Checkpoint, Error>)
        ensures
            match (decoded, outcome) {
                (Err(message), Err(error)) => error@ == (Failure::CheckpointDecode {
                    message: message@,
                }),
                (Ok(checkpoint), Err(error)) => verification(checkpoint@) == Some(error@),
                (Ok(checkpoint), Ok(accepted)) => {
                    &&& verification(checkpoint@) is None
                    &&& accepted == checkpoint
                },
                (Err(_), Ok(_)) => false,
            },
    {
        match decoded {
            Err(message) => Err(Error::CheckpointDecode { message }),
            Ok(checkpoint) => match checkpoint.verify() {
                Ok(()) => Ok(checkpoint),
                Err(error) => Err(error),
            },
        }
    }
}

/// Receipt of a checkpoint: what was covered, how it is named, and how
/// much payload it carries.
#[derive(Debug, Clone, Copy, PartialEq, Eq)]
pub struct CheckpointReceipt {
    sequence: CheckpointSequence,
    covered: CommitSequenceRange,
    view_digest: ViewDigest,
    checkpoint_digest: CheckpointDigest,
    segment_count: usize,
    row_count: usize,
}

/// A checkpoint receipt as plain values.
pub struct CheckpointReceiptModel {
    pub sequence: u64,
    pub covered: RangeModel,
    pub view_digest: Seq<u8>,
    pub checkpoint_digest: Seq<u8>,
    pub segment_count: nat,
    pub row_count: nat,
}

impl View for CheckpointReceipt {
    type V = CheckpointReceiptModel;

    closed spec fn view(&self) -> CheckpointReceiptModel {
        CheckpointReceiptModel {
            sequence: self.sequence@,
            covered: self.covered@,
            view_digest: self.view_digest@,
            checkpoint_digest: self.checkpoint_digest@,
            segment_count: self.segment_count as nat,
            row_count: self.row_count as nat,
        }
    }
}

impl CheckpointReceipt {
    pub fn new(
        sequence: CheckpointSequence,
        covered: CommitSequenceRange,
        view_digest: ViewDigest,
        checkpoint_digest: CheckpointDigest,
        segment_count: usize,
        row_count: usize,
    ) -> (receipt: Self)
        ensures
            receipt@ == (CheckpointReceiptModel {
                sequence: sequence@,
                covered: covered@,
                view_digest: view_digest@,
                checkpoint_digest: checkpoint_digest@,
                segment_count: segment_count as nat,
                row_count: row_count as nat,
            }),
    {
        CheckpointReceipt {
            sequence,
            covered,
            view_digest,
            checkpoint_digest,
            segment_count,
            row_count,
        }
    }

    pub fn sequence(&self) -> (sequence: CheckpointSequence)
        ensures
            sequence@ == self@.sequence,
    {
        self.sequence
    }

    pub fn covered(&self) -> (range: CommitSequenceRange)
        ensures
            range@ == self@.covered,
    {
        self.covered
    }

    pub fn view_digest(&self) -> (digest: ViewDigest)
        ensures
            digest@ == self@.view_digest,
    {
        self.view_digest
    }

    pub fn checkpoint_digest(&self) -> (digest: CheckpointDigest)
        ensures
            digest@ == self@.checkpoint_digest,
    {
        self.checkpoint_digest
    }

    pub fn segment_count(&self) -> (count: usize)
        ensures
            count == self@.segment_count,
    {
        self.segment_count
    }

    pub fn row_count(&self) -> (count: usize)
        ensures
            count == self@.row_count,
    {
        self.row_count
    }
}

} // verus!
