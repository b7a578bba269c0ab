//! The bytes under every digest, field by field, and the texts that keys and
//! identities are written as.

use vstd::bytes::{spec_u32_to_le_bytes, spec_u64_to_le_bytes};
use vstd::prelude::*;
use vstd::relations::sorted_by;
use vstd::utf8::encode_utf8;

use crate::checkpoint::{
    counter_inputs, family_inputs, reference_inputs, row_inputs, CheckpointDigest,
    CheckpointMetadata, CheckpointSegment, CounterModel, MetadataModel, ReferenceModel,
    SegmentDigest,
};
use crate::digest::{blake3_digest, joined};
use crate::fold::{
    cell_inputs, coordinate_precedes, kept_rows, view_digest, view_ordered, CanonicalView,
    Coordinate, FoldModel, RowModel, ViewDigest, ViewKey,
};
use crate::laws::folds::{kept_at, lemma_sound_select, selected_cells, sound};
use crate::laws::landing::lemma_flatten_last;
use crate::operation::SemaOperation;
use crate::ordered_table::{has_key, keyed_at, lemma_position, TableKey};
use crate::record::KeyModel;
use crate::specification::archived_key;
use crate::table::counter_key_text;
use crate::text::{decimal_text, hex_text};
use crate::versioned::envelope::{OperationKind, ReplayEnvelope};
use crate::versioned::family::family_hash;
use crate::versioned::identity::EntryDigest as EnvelopeDigest;
use crate::versioning::{
    family_text, inventory_order, lemma_inventory_order, operation_inputs, store_schema,
    version_inputs, version_precedes, EntryDigest, FamilyModel, OperationModel,
    VersionedCommitLogEntry,
};

verus! {

/// Bytes behind their length, in eight bytes.
pub open spec fn sized(bytes: Seq<u8>) -> Seq<u8> {
    spec_u64_to_le_bytes(bytes.len() as u64) + bytes
}

/// Text behind the length of its UTF-8 bytes.
pub open spec fn sized_text(text: Seq<char>) -> Seq<u8> {
    sized(encode_utf8(text))
}

/// Parts one after the other, behind their number.
pub open spec fn numbered_parts(parts: Seq<Seq<u8>>) -> Seq<u8> {
    spec_u64_to_le_bytes(parts.len() as u64) + parts.flatten()
}

/// Sized bytes that may be missing, behind a byte that says so.
pub open spec fn maybe_sized(bytes: Option<Seq<u8>>) -> Seq<u8> {
    match bytes {
        Some(bytes) => seq![1u8] + sized(bytes),
        None => seq![0u8],
    }
}

/// A key: a byte for its kind, and its text; an identifier's is decimal.
pub open spec fn key_bytes(key: KeyModel) -> Seq<u8> {
    match key {
        KeyModel::Domain(text) => seq![1u8] + sized_text(text),
        KeyModel::Identifier(number) => seq![2u8] + sized_text(decimal_text(number as nat)),
    }
}

/// A family: its name, its schema and its table.
pub open spec fn family_bytes(family: FamilyModel) -> Seq<u8> {
    sized_text(family.family) + sized(family.schema_hash) + sized_text(family.table)
}

/// The word for a verb of the log.
pub open spec fn verb_word(operation: SemaOperation) -> Seq<char> {
    match operation {
        SemaOperation::Assert => "Assert"@,
        SemaOperation::Mutate => "Mutate"@,
        SemaOperation::Retract => "Retract"@,
        SemaOperation::Match => "Match"@,
        SemaOperation::Subscribe => "Subscribe"@,
        SemaOperation::Validate => "Validate"@,
    }
}

/// A logged operation: its verb, its family, its key and its record.
pub open spec fn operation_bytes(operation: OperationModel) -> Seq<u8> {
    let key = match operation.key {
        Some(key) => seq![1u8] + key_bytes(key),
        None => seq![0u8],
    };
    sized_text(verb_word(operation.operation)) + family_bytes(operation.family) + key
        + maybe_sized(operation.payload)
}

/// Joining parts is putting them one after the other.
proof fn lemma_joined_flat(parts: Seq<Seq<u8>>)
    ensures
        joined(parts) == parts.flatten(),
    decreases parts.len(),
{
    lemma_flatten_last(parts);
    if parts.len() > 0 {
        lemma_joined_flat(parts.drop_last());
    }
}

/// The digest of a log entry is that of every field of it but the digest: the
/// store's name, the schema, the place, the digest before it, and every
/// operation in order.
pub proof fn lemma_entry_digest_call(entry: &VersionedCommitLogEntry, digest: EntryDigest)
    requires
        call_ensures(VersionedCommitLogEntry::computed_digest, (entry,), digest),
    ensures
        digest@ == blake3_digest(
            sized_text("sema-engine-versioned-commit-log-entry-v2"@) + sized_text(
                entry@.store_name,
            ) + sized(entry@.schema_hash) + spec_u64_to_le_bytes(entry@.commit_sequence)
                + spec_u64_to_le_bytes(entry@.snapshot) + maybe_sized(entry@.previous)
                + numbered_parts(
                entry@.operations.map_values(
                    |operation: OperationModel| operation_bytes(operation),
                ),
            ),
        ),
{
    let parts = entry@.operations.map_values(
        |operation: OperationModel| operation_bytes(operation),
    );
    assert(operation_inputs(entry@.operations) =~= parts) by {
        assert forall|i: int| 0 <= i < parts.len() implies operation_inputs(
            entry@.operations,
        )[i] == #[trigger] parts[i] by {}
    }
    lemma_joined_flat(parts);
}

/// A row: its family, its key and its record.
pub open spec fn row_bytes(row: RowModel) -> Seq<u8> {
    family_bytes(row.family) + key_bytes(row.key) + maybe_sized(row.payload)
}

/// The digest of a segment is that of its rows in order.
pub proof fn lemma_segment_digest_call(segment: &CheckpointSegment, digest: SegmentDigest)
    requires
        call_ensures(CheckpointSegment::digest, (segment,), digest),
    ensures
        digest@ == blake3_digest(
            sized_text("sema-engine-checkpoint-segment-v1"@) + numbered_parts(
                segment@.map_values(|row: RowModel| row_bytes(row)),
            ),
        ),
{
    let parts = segment@.map_values(|row: RowModel| row_bytes(row));
    assert(row_inputs(segment@) =~= parts);
    lemma_joined_flat(parts);
}

/// A counter: its table and where it stands.
pub open spec fn counter_bytes(counter: CounterModel) -> Seq<u8> {
    sized_text(counter.table) + spec_u64_to_le_bytes(counter.next)
}

/// A reference to a segment: its digest and how many rows it has.
pub open spec fn reference_bytes(reference: ReferenceModel) -> Seq<u8> {
    sized(reference.digest) + spec_u64_to_le_bytes(reference.row_count)
}

/// The bytes of a checkpoint's metadata: every field of it but the digest.
pub open spec fn metadata_bytes(metadata: MetadataModel) -> Seq<u8> {
    sized_text("sema-engine-checkpoint-v1"@) + spec_u64_to_le_bytes(metadata.sequence)
        + sized_text(metadata.store_name) + sized(metadata.store_schema_hash) + (numbered_parts(
        metadata.inventory.families.map_values(|family: FamilyModel| family_bytes(family)),
    ) + numbered_parts(
        metadata.inventory.counters.map_values(|counter: CounterModel| counter_bytes(counter)),
    )) + spec_u64_to_le_bytes(metadata.covered.first) + spec_u64_to_le_bytes(
        metadata.covered.last,
    ) + spec_u64_to_le_bytes(metadata.snapshot) + sized(metadata.entry_digest) + sized(
        metadata.view_digest,
    ) + maybe_sized(metadata.previous) + numbered_parts(
        metadata.segments.map_values(|reference: ReferenceModel| reference_bytes(reference)),
    )
}

/// The digest of a checkpoint is that of its metadata.
pub proof fn lemma_checkpoint_digest_call(metadata: &CheckpointMetadata, digest: CheckpointDigest)
    requires
        call_ensures(CheckpointMetadata::computed_digest, (metadata,), digest),
    ensures
        digest@ == blake3_digest(metadata_bytes(metadata@)),
{
    let families = metadata@.inventory.families;
    let counters = metadata@.inventory.counters;
    let segments = metadata@.segments;
    let of_families = families.map_values(|family: FamilyModel| family_bytes(family));
    let of_counters = counters.map_values(|counter: CounterModel| counter_bytes(counter));
    let of_segments = segments.map_values(
        |reference: ReferenceModel| reference_bytes(reference),
    );
    assert(family_inputs(families) =~= of_families);
    assert(counter_inputs(counters) =~= of_counters);
    assert(reference_inputs(segments) =~= of_segments);
    lemma_joined_flat(of_families);
    lemma_joined_flat(of_counters);
    lemma_joined_flat(of_segments);
}

/// A record of a view: its family's name and schema, its key and its bytes.
pub open spec fn cell_bytes(cell: (Coordinate, Option<Seq<u8>>)) -> Seq<u8> {
    sized_text(cell.0.0.0) + sized(cell.0.0.1) + key_bytes(cell.0.1) + sized(cell.1->0)
}

/// The records of a view, each once, by rising coordinate.
pub open spec fn records_listed(
    cells: Seq<(Coordinate, Option<Seq<u8>>)>,
    view: FoldModel,
) -> bool {
    &&& view_ordered(cells)
    &&& forall|i: int|
        0 <= i < cells.len() ==> (#[trigger] cells[i]).1 is Some && kept_at(view, cells[i].0)
            == cells[i].1
    &&& forall|at: Coordinate| #[trigger]
        kept_at(view, at) is Some ==> exists|i: int|
            0 <= i < cells.len() && (#[trigger] cells[i]).0 == at
}

/// The digest of a view is that of its records in order.
pub proof fn lemma_view_digest_call(view: &CanonicalView, digest: ViewDigest)
    requires
        call_ensures(CanonicalView::digest, (view,), digest),
        sound(view@),
    ensures
        exists|cells: Seq<(Coordinate, Option<Seq<u8>>)>|
            {
                &&& #[trigger] records_listed(cells, view@)
                &&& digest@ == blake3_digest(
                    sized_text("sema-engine-view-digest-v1"@) + numbered_parts(
                        cells.map_values(
                            |cell: (Coordinate, Option<Seq<u8>>)| cell_bytes(cell),
                        ),
                    ),
                )
            },
{
    let cells = kept_rows(view@.cells);
    lemma_sound_select(view@, true);
    assert forall|i: int| 0 <= i < cells.len() implies (#[trigger] cells[i]).1 is Some && kept_at(
        view@,
        cells[i].0,
    ) == cells[i].1 by {
        lemma_position::<ViewKey, Option<Seq<u8>>>(cells, i);
        assert(selected_cells(view@.cells, true).dom().contains(cells[i].0));
    }
    assert forall|at: Coordinate| #[trigger] kept_at(view@, at) is Some implies exists|i: int|
        0 <= i < cells.len() && (#[trigger] cells[i]).0 == at by {
        assert(selected_cells(view@.cells, true).dom().contains(at));
        assert(has_key(cells, at));
        let i = choose|i: int| keyed_at(cells, at, i);
        assert(cells[i].0 == at);
    }
    assert(view_ordered(cells)) by {
        assert forall|i: int, j: int|
            0 <= i < j < cells.len() implies coordinate_precedes(
            #[trigger] cells[i].0,
            #[trigger] cells[j].0,
        ) by {
            assert(<ViewKey as TableKey>::precedes(cells[i].0, cells[j].0));
        }
    }
    let parts = cells.map_values(|cell: (Coordinate, Option<Seq<u8>>)| cell_bytes(cell));
    assert(cell_inputs(cells) =~= parts);
    lemma_joined_flat(parts);
    assert(records_listed(cells, view@));
}

/// A family version: its name and its schema.
pub open spec fn version_bytes(version: (Seq<char>, Seq<u8>)) -> Seq<u8> {
    sized_text(version.0) + sized(version.1)
}

/// The versions of an inventory, sorted by name and schema.
pub open spec fn versions_sorted(
    sorted: Seq<(Seq<char>, Seq<u8>)>,
    inventory: Seq<(Seq<char>, Seq<u8>)>,
) -> bool {
    &&& sorted.to_multiset() == inventory.to_multiset()
    &&& forall|i: int, j: int|
        0 <= i < j < sorted.len() ==> #[trigger] sorted[i] == #[trigger] sorted[j]
            || version_precedes(sorted[i], sorted[j])
}

/// The schema of a store is the digest of its family versions, sorted by
/// name and schema.
pub proof fn lemma_store_schema(inventory: Seq<(Seq<char>, Seq<u8>)>)
    ensures
        exists|sorted: Seq<(Seq<char>, Seq<u8>)>|
            {
                &&& #[trigger] versions_sorted(sorted, inventory)
                &&& store_schema(inventory) == blake3_digest(
                    sized_text("sema-engine-store-schema-hash-v1"@) + numbered_parts(
                        sorted.map_values(
                            |version: (Seq<char>, Seq<u8>)| version_bytes(version),
                        ),
                    ),
                )
            },
{
    let order = inventory_order();
    let sorted = inventory.sort_by(order);
    lemma_inventory_order();
    inventory.lemma_sort_by_ensures(order);
    let parts = sorted.map_values(|version: (Seq<char>, Seq<u8>)| version_bytes(version));
    assert(version_inputs(sorted) =~= parts);
    lemma_joined_flat(parts);
    assert(sorted_by(sorted, order));
    assert forall|i: int, j: int| 0 <= i < j < sorted.len() implies #[trigger] sorted[i]
        == #[trigger] sorted[j] || version_precedes(sorted[i], sorted[j]) by {
        assert(order(sorted[i], sorted[j]));
    }
    assert(versions_sorted(sorted, inventory));
    assert(store_schema(inventory) == blake3_digest(
        sized_text("sema-engine-store-schema-hash-v1"@) + numbered_parts(parts),
    ));
}

/// Bytes behind their length, in four bytes.
pub open spec fn short_sized(bytes: Seq<u8>) -> Seq<u8> {
    spec_u32_to_le_bytes(bytes.len() as u32) + bytes
}

/// The byte for an operation of the reusable log.
pub open spec fn operation_byte(operation: OperationKind) -> u8 {
    match operation {
        OperationKind::Assert => 0,
        OperationKind::Retract => 1,
        OperationKind::SchemaTransition => 2,
        OperationKind::Checkpoint => 3,
    }
}

/// The digest of an entry of the reusable log is that of its place, its
/// operation, its schema, its key, its payload and the digest before it.
pub proof fn lemma_envelope_digest_call(entry: &ReplayEnvelope, digest: EnvelopeDigest)
    requires
        call_ensures(ReplayEnvelope::compute_digest, (entry,), digest),
    ensures
        digest@ == blake3_digest(
            spec_u64_to_le_bytes(entry@.sequence) + seq![operation_byte(entry@.operation)]
                + entry@.schema_hash + short_sized(entry@.key) + short_sized(entry@.payload)
                + entry@.previous,
        ),
{
}

/// A family of the reusable log is named by the digest of its label.
pub proof fn lemma_family_hash(label: Seq<char>)
    ensures
        family_hash(label) == blake3_digest(encode_utf8(label)),
{
}

/// A typed key's text is that of its archive, in hexadecimal; a counter's
/// name follows its table's; a family is written with its schema and table.
pub proof fn lemma_texts(archive: Seq<u8>, table: Seq<char>, family: FamilyModel)
    ensures
        archived_key(Ok(archive)) matches Ok(key) && key == KeyModel::Domain(
            "rkyv:"@ + hex_text(archive),
        ),
        counter_key_text(table) == table + ":"@ + "next_record_identifier"@,
        family_text(family) == family.family + "@"@ + hex_text(family.schema_hash) + " (table "@
            + family.table + ")"@,
{
}

} // verus!
