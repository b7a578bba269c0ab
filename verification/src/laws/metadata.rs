//! Digest inputs of inventories and checkpoint metadata: two values with
//! the same input are the same value.

use vstd::bytes::spec_u64_to_le_bytes;
use vstd::prelude::*;
use vstd::utf8::encode_utf8;

use crate::checkpoint::{
    counter_input, counter_inputs, family_inputs, family_inventory_input, metadata_input,
    reference_input, reference_inputs, CounterModel, InventoryModel, MetadataModel, ReferenceModel,
};
use crate::digest::{counted, framed, joined, lemma_framed_delimited, lemma_u64_delimited};
use crate::laws::digests::{
    family_fits, fits, lemma_family_delimited, lemma_joined_front, lemma_payload_delimited,
    lemma_regrouped_long, lemma_same_front, lemma_text_delimited, payload_fits, text_fits,
};
use crate::versioning::{
    family_input, inventory_input, inventory_order, lemma_inventory_order, payload_input,
    version_input, version_inputs, versions, FamilyModel,
};

verus! {

/// Equally many families can be read off the front of an input.
proof fn lemma_families_delimited(
    a: Seq<FamilyModel>,
    b: Seq<FamilyModel>,
    x: Seq<u8>,
    y: Seq<u8>,
)
    requires
        a.len() == b.len(),
        forall|i: int| 0 <= i < a.len() ==> family_fits(#[trigger] a[i]),
        forall|i: int| 0 <= i < b.len() ==> family_fits(#[trigger] b[i]),
        joined(family_inputs(a)) + x == joined(family_inputs(b)) + y,
    ensures
        a == b,
        x == y,
    decreases a.len(),
{
    if a.len() == 0 {
        assert(a =~= b);
        assert(joined(family_inputs(a)) + x =~= x);
        assert(joined(family_inputs(b)) + y =~= y);
    } else {
        let p = a.drop_first();
        let q = b.drop_first();
        lemma_joined_front(family_inputs(a));
        lemma_joined_front(family_inputs(b));
        assert(family_inputs(a).drop_first() =~= family_inputs(p));
        assert(family_inputs(b).drop_first() =~= family_inputs(q));
        let m = joined(family_inputs(p)) + x;
        let n = joined(family_inputs(q)) + y;
        assert(joined(family_inputs(a)) + x =~= family_input(a[0]) + m);
        assert(joined(family_inputs(b)) + y =~= family_input(b[0]) + n);
        lemma_family_delimited(a[0], b[0], m, n);
        lemma_families_delimited(p, q, x, y);
        assert(a =~= seq![a[0]] + p);
        assert(b =~= seq![b[0]] + q);
    }
}

/// A counter whose lengths fit.
pub open spec fn counter_fits(counter: CounterModel) -> bool {
    text_fits(counter.table)
}

/// Equally many counters can be read off the front of an input.
proof fn lemma_counters_delimited(
    a: Seq<CounterModel>,
    b: Seq<CounterModel>,
    x: Seq<u8>,
    y: Seq<u8>,
)
    requires
        a.len() == b.len(),
        forall|i: int| 0 <= i < a.len() ==> counter_fits(#[trigger] a[i]),
        forall|i: int| 0 <= i < b.len() ==> counter_fits(#[trigger] b[i]),
        joined(counter_inputs(a)) + x == joined(counter_inputs(b)) + y,
    ensures
        a == b,
        x == y,
    decreases a.len(),
{
    if a.len() == 0 {
        assert(a =~= b);
        assert(joined(counter_inputs(a)) + x =~= x);
        assert(joined(counter_inputs(b)) + y =~= y);
    } else {
        let p = a.drop_first();
        let q = b.drop_first();
        lemma_joined_front(counter_inputs(a));
        lemma_joined_front(counter_inputs(b));
        assert(counter_inputs(a).drop_first() =~= counter_inputs(p));
        assert(counter_inputs(b).drop_first() =~= counter_inputs(q));
        let m = joined(counter_inputs(p)) + x;
        let n = joined(counter_inputs(q)) + y;
        let s = spec_u64_to_le_bytes(a[0].next) + m;
        let t = spec_u64_to_le_bytes(b[0].next) + n;
        assert(counter_inputs(a)[0] == counter_input(a[0]));
        assert(counter_inputs(b)[0] == counter_input(b[0]));
        assert(joined(counter_inputs(a)) + x =~= framed(encode_utf8(a[0].table)) + s);
        assert(joined(counter_inputs(b)) + y =~= framed(encode_utf8(b[0].table)) + t);
        lemma_text_delimited(a[0].table, b[0].table, s, t);
        lemma_u64_delimited(a[0].next, b[0].next, m, n);
        lemma_counters_delimited(p, q, x, y);
        assert(a =~= seq![a[0]] + p);
        assert(b =~= seq![b[0]] + q);
    }
}

/// A segment reference whose lengths fit.
pub open spec fn reference_fits(reference: ReferenceModel) -> bool {
    fits(reference.digest)
}

/// Equally many references can be read off an input.
proof fn lemma_references_delimited(a: Seq<ReferenceModel>, b: Seq<ReferenceModel>)
    requires
        a.len() == b.len(),
        forall|i: int| 0 <= i < a.len() ==> reference_fits(#[trigger] a[i]),
        forall|i: int| 0 <= i < b.len() ==> reference_fits(#[trigger] b[i]),
        joined(reference_inputs(a)) == joined(reference_inputs(b)),
    ensures
        a == b,
    decreases a.len(),
{
    if a.len() == 0 {
        assert(a =~= b);
    } else {
        let p = a.drop_first();
        let q = b.drop_first();
        lemma_joined_front(reference_inputs(a));
        lemma_joined_front(reference_inputs(b));
        assert(reference_inputs(a).drop_first() =~= reference_inputs(p));
        assert(reference_inputs(b).drop_first() =~= reference_inputs(q));
        let m = joined(reference_inputs(p));
        let n = joined(reference_inputs(q));
        let s = spec_u64_to_le_bytes(a[0].row_count) + m;
        let t = spec_u64_to_le_bytes(b[0].row_count) + n;
        assert(reference_inputs(a)[0] == reference_input(a[0]));
        assert(reference_inputs(b)[0] == reference_input(b[0]));
        assert(joined(reference_inputs(a)) =~= framed(a[0].digest) + s);
        assert(joined(reference_inputs(b)) =~= framed(b[0].digest) + t);
        lemma_framed_delimited(a[0].digest, b[0].digest, s, t);
        lemma_u64_delimited(a[0].row_count, b[0].row_count, m, n);
        lemma_references_delimited(p, q);
        assert(a =~= seq![a[0]] + p);
        assert(b =~= seq![b[0]] + q);
    }
}

/// An inventory whose lengths fit, as those of every value in memory do.
pub open spec fn inventory_fits(inventory: InventoryModel) -> bool {
    &&& inventory.families.len() <= u64::MAX
    &&& inventory.counters.len() <= u64::MAX
    &&& forall|i: int|
        0 <= i < inventory.families.len() ==> family_fits(#[trigger] inventory.families[i])
    &&& forall|i: int|
        0 <= i < inventory.counters.len() ==> counter_fits(#[trigger] inventory.counters[i])
}

/// Two counted lists and a rest, read from the front.
proof fn lemma_two_lists(a: Seq<u8>, b: Seq<u8>, c: Seq<u8>, d: Seq<u8>, rest: Seq<u8>)
    ensures
        (a + b) + (c + d) + rest == a + (b + (c + (d + rest))),
{
    assert((a + b) + (c + d) + rest =~= a + (b + (c + (d + rest))));
}

/// An inventory can be read off the front of an input.
proof fn lemma_inventory_delimited(
    a: InventoryModel,
    b: InventoryModel,
    x: Seq<u8>,
    y: Seq<u8>,
)
    requires
        inventory_fits(a),
        inventory_fits(b),
        family_inventory_input(a) + x == family_inventory_input(b) + y,
    ensures
        a == b,
        x == y,
{
    let a3 = joined(counter_inputs(a.counters)) + x;
    let b3 = joined(counter_inputs(b.counters)) + y;
    let a2 = spec_u64_to_le_bytes(counter_inputs(a.counters).len() as u64) + a3;
    let b2 = spec_u64_to_le_bytes(counter_inputs(b.counters).len() as u64) + b3;
    let a1 = joined(family_inputs(a.families)) + a2;
    let b1 = joined(family_inputs(b.families)) + b2;
    let a0 = spec_u64_to_le_bytes(family_inputs(a.families).len() as u64);
    let b0 = spec_u64_to_le_bytes(family_inputs(b.families).len() as u64);
    lemma_two_lists(
        a0,
        joined(family_inputs(a.families)),
        spec_u64_to_le_bytes(counter_inputs(a.counters).len() as u64),
        joined(counter_inputs(a.counters)),
        x,
    );
    lemma_two_lists(
        b0,
        joined(family_inputs(b.families)),
        spec_u64_to_le_bytes(counter_inputs(b.counters).len() as u64),
        joined(counter_inputs(b.counters)),
        y,
    );
    lemma_u64_delimited(
        family_inputs(a.families).len() as u64,
        family_inputs(b.families).len() as u64,
        a1,
        b1,
    );
    lemma_families_delimited(a.families, b.families, a2, b2);
    lemma_u64_delimited(
        counter_inputs(a.counters).len() as u64,
        counter_inputs(b.counters).len() as u64,
        a3,
        b3,
    );
    lemma_counters_delimited(a.counters, b.counters, x, y);
}

/// Metadata whose lengths fit, as those of every value in memory do.
pub open spec fn metadata_fits(metadata: MetadataModel) -> bool {
    &&& text_fits(metadata.store_name)
    &&& fits(metadata.store_schema_hash)
    &&& inventory_fits(metadata.inventory)
    &&& fits(metadata.entry_digest)
    &&& fits(metadata.view_digest)
    &&& payload_fits(metadata.previous)
    &&& metadata.segments.len() <= u64::MAX
    &&& forall|i: int|
        0 <= i < metadata.segments.len() ==> reference_fits(#[trigger] metadata.segments[i])
}

/// The parts of a metadata input past its inventory.
spec fn coverage_input(metadata: MetadataModel) -> Seq<u8> {
    spec_u64_to_le_bytes(metadata.covered.last) + (spec_u64_to_le_bytes(metadata.snapshot) + (
    framed(metadata.entry_digest) + (framed(metadata.view_digest) + (payload_input(
        metadata.previous,
    ) + counted(reference_inputs(metadata.segments))))))
}

/// A metadata input, read from the front.
proof fn lemma_metadata_regrouped(metadata: MetadataModel)
    ensures
        metadata_input(metadata) == framed(encode_utf8("sema-engine-checkpoint-v1"@)) + (
        spec_u64_to_le_bytes(metadata.sequence) + (framed(encode_utf8(metadata.store_name)) + (
        framed(metadata.store_schema_hash) + (family_inventory_input(metadata.inventory) + (
        spec_u64_to_le_bytes(metadata.covered.first) + coverage_input(metadata)))))),
{
    let domain = framed(encode_utf8("sema-engine-checkpoint-v1"@));
    let front = domain + spec_u64_to_le_bytes(metadata.sequence) + framed(
        encode_utf8(metadata.store_name),
    ) + framed(metadata.store_schema_hash) + family_inventory_input(metadata.inventory)
        + spec_u64_to_le_bytes(metadata.covered.first);
    lemma_regrouped_long(
        front,
        spec_u64_to_le_bytes(metadata.covered.last),
        spec_u64_to_le_bytes(metadata.snapshot),
        framed(metadata.entry_digest),
        framed(metadata.view_digest),
        payload_input(metadata.previous),
        counted(reference_inputs(metadata.segments)),
    );
    lemma_regrouped_long(
        domain,
        spec_u64_to_le_bytes(metadata.sequence),
        framed(encode_utf8(metadata.store_name)),
        framed(metadata.store_schema_hash),
        family_inventory_input(metadata.inventory),
        spec_u64_to_le_bytes(metadata.covered.first),
        coverage_input(metadata),
    );
}

/// The parts past the inventory are covered.
proof fn lemma_coverage_covered(a: MetadataModel, b: MetadataModel)
    requires
        metadata_fits(a),
        metadata_fits(b),
        coverage_input(a) == coverage_input(b),
    ensures
        a.covered.last == b.covered.last,
        a.snapshot == b.snapshot,
        a.entry_digest == b.entry_digest,
        a.view_digest == b.view_digest,
        a.previous == b.previous,
        a.segments == b.segments,
{
    let a4 = counted(reference_inputs(a.segments));
    let b4 = counted(reference_inputs(b.segments));
    let a3 = payload_input(a.previous) + a4;
    let b3 = payload_input(b.previous) + b4;
    let a2 = framed(a.view_digest) + a3;
    let b2 = framed(b.view_digest) + b3;
    let a1 = framed(a.entry_digest) + a2;
    let b1 = framed(b.entry_digest) + b2;
    let a0 = spec_u64_to_le_bytes(a.snapshot) + a1;
    let b0 = spec_u64_to_le_bytes(b.snapshot) + b1;
    lemma_u64_delimited(a.covered.last, b.covered.last, a0, b0);
    lemma_u64_delimited(a.snapshot, b.snapshot, a1, b1);
    lemma_framed_delimited(a.entry_digest, b.entry_digest, a2, b2);
    lemma_framed_delimited(a.view_digest, b.view_digest, a3, b3);
    lemma_payload_delimited(a.previous, b.previous, a4, b4);
    lemma_u64_delimited(
        reference_inputs(a.segments).len() as u64,
        reference_inputs(b.segments).len() as u64,
        joined(reference_inputs(a.segments)),
        joined(reference_inputs(b.segments)),
    );
    lemma_references_delimited(a.segments, b.segments);
}

/// A checkpoint's digest covers all of its metadata: metadata with the same
/// digest input differ in nothing but the digest they carry.
pub proof fn lemma_checkpoint_digest_covers_metadata(a: MetadataModel, b: MetadataModel)
    requires
        metadata_fits(a),
        metadata_fits(b),
        metadata_input(a) == metadata_input(b),
    ensures
        a == (MetadataModel { digest: a.digest, ..b }),
{
    lemma_metadata_regrouped(a);
    lemma_metadata_regrouped(b);
    let domain = framed(encode_utf8("sema-engine-checkpoint-v1"@));
    let a4 = spec_u64_to_le_bytes(a.covered.first) + coverage_input(a);
    let b4 = spec_u64_to_le_bytes(b.covered.first) + coverage_input(b);
    let a3 = family_inventory_input(a.inventory) + a4;
    let b3 = family_inventory_input(b.inventory) + b4;
    let a2 = framed(a.store_schema_hash) + a3;
    let b2 = framed(b.store_schema_hash) + b3;
    let a1 = framed(encode_utf8(a.store_name)) + a2;
    let b1 = framed(encode_utf8(b.store_name)) + b2;
    let a0 = spec_u64_to_le_bytes(a.sequence) + a1;
    let b0 = spec_u64_to_le_bytes(b.sequence) + b1;
    lemma_same_front(domain, a0, b0);
    lemma_u64_delimited(a.sequence, b.sequence, a1, b1);
    lemma_text_delimited(a.store_name, b.store_name, a2, b2);
    lemma_framed_delimited(a.store_schema_hash, b.store_schema_hash, a3, b3);
    lemma_inventory_delimited(a.inventory, b.inventory, a4, b4);
    lemma_u64_delimited(a.covered.first, b.covered.first, coverage_input(a), coverage_input(b));
    lemma_coverage_covered(a, b);
}

/// A family version whose lengths fit.
pub open spec fn version_fits(version: (Seq<char>, Seq<u8>)) -> bool {
    text_fits(version.0) && fits(version.1)
}

/// Equally many versions can be read off an input.
proof fn lemma_versions_delimited(
    a: Seq<(Seq<char>, Seq<u8>)>,
    b: Seq<(Seq<char>, Seq<u8>)>,
)
    requires
        a.len() == b.len(),
        forall|i: int| 0 <= i < a.len() ==> version_fits(#[trigger] a[i]),
        forall|i: int| 0 <= i < b.len() ==> version_fits(#[trigger] b[i]),
        joined(version_inputs(a)) == joined(version_inputs(b)),
    ensures
        a == b,
    decreases a.len(),
{
    if a.len() == 0 {
        assert(a =~= b);
    } else {
        let p = a.drop_first();
        let q = b.drop_first();
        lemma_joined_front(version_inputs(a));
        lemma_joined_front(version_inputs(b));
        assert(version_inputs(a).drop_first() =~= version_inputs(p));
        assert(version_inputs(b).drop_first() =~= version_inputs(q));
        let m = joined(version_inputs(p));
        let n = joined(version_inputs(q));
        let s = framed(a[0].1) + m;
        let t = framed(b[0].1) + n;
        assert(version_inputs(a)[0] == version_input(a[0]));
        assert(version_inputs(b)[0] == version_input(b[0]));
        assert(joined(version_inputs(a)) =~= framed(encode_utf8(a[0].0)) + s);
        assert(joined(version_inputs(b)) =~= framed(encode_utf8(b[0].0)) + t);
        lemma_text_delimited(a[0].0, b[0].0, s, t);
        lemma_framed_delimited(a[0].1, b[0].1, m, n);
        lemma_versions_delimited(p, q);
        assert(a =~= seq![a[0]] + p);
        assert(b =~= seq![b[0]] + q);
    }
}

/// The sorted inventory that a store schema hash is computed over.
pub open spec fn schema_inventory(families: Seq<FamilyModel>) -> Seq<(Seq<char>, Seq<u8>)> {
    versions(families).sort_by(inventory_order())
}

/// The store schema hash covers the inventory: inventories of different
/// family versions have different digest inputs.
pub proof fn lemma_store_schema_covers_inventory(a: Seq<FamilyModel>, b: Seq<FamilyModel>)
    requires
        a.len() <= u64::MAX,
        b.len() <= u64::MAX,
        forall|i: int| 0 <= i < a.len() ==> family_fits(#[trigger] a[i]),
        forall|i: int| 0 <= i < b.len() ==> family_fits(#[trigger] b[i]),
        inventory_input(schema_inventory(a)) == inventory_input(schema_inventory(b)),
    ensures
        schema_inventory(a) == schema_inventory(b),
        versions(a).to_multiset() == versions(b).to_multiset(),
{
    let p = schema_inventory(a);
    let q = schema_inventory(b);
    lemma_sorted_versions_fit(a);
    lemma_sorted_versions_fit(b);
    let domain = framed(encode_utf8("sema-engine-store-schema-hash-v1"@));
    lemma_same_front(domain, counted(version_inputs(p)), counted(version_inputs(q)));
    lemma_u64_delimited(
        version_inputs(p).len() as u64,
        version_inputs(q).len() as u64,
        joined(version_inputs(p)),
        joined(version_inputs(q)),
    );
    lemma_versions_delimited(p, q);
}

/// Sorting an inventory keeps its versions.
proof fn lemma_sorted_versions_fit(families: Seq<FamilyModel>)
    requires
        forall|i: int| 0 <= i < families.len() ==> family_fits(#[trigger] families[i]),
    ensures
        schema_inventory(families).len() == families.len(),
        versions(families).to_multiset() == schema_inventory(families).to_multiset(),
        forall|i: int|
            0 <= i < schema_inventory(families).len() ==> version_fits(
                #[trigger] schema_inventory(families)[i],
            ),
{
    let plain = versions(families);
    let sorted = schema_inventory(families);
    lemma_inventory_order();
    plain.lemma_sort_by_ensures(inventory_order());
    plain.to_multiset_ensures();
    sorted.to_multiset_ensures();
    assert(sorted.len() == sorted.to_multiset().len());
    assert forall|i: int| 0 <= i < sorted.len() implies version_fits(#[trigger] sorted[i]) by {
        assert(sorted.contains(sorted[i]));
        assert(plain.contains(sorted[i]));
        let j = choose|j: int| 0 <= j < plain.len() && plain[j] == sorted[i];
        assert(family_fits(families[j]));
    }
}

} // verus!
