//! Digest inputs: two values with the same input are the same value, so a
//! digest covers every field it is computed over.

use vstd::bytes::spec_u64_to_le_bytes;
use vstd::prelude::*;
use vstd::seq_lib::lemma_sorted_unique;
use vstd::utf8::{encode_utf8, encode_utf8_decode_utf8};

use crate::checkpoint::{row_inputs, segment_digest};
use crate::digest::{
    counted, framed, joined, lemma_framed_delimited, lemma_joined_push, lemma_u64_delimited,
};
use crate::fold::{cell_input, cell_inputs, row_input, Coordinate, RowModel};
use crate::operation::{lemma_record_head_injective, record_head, SemaOperation};
use crate::record::{key_input, key_kind, key_text, kind_tag, KeyModel};
use crate::text::lemma_decimal_injective;
use crate::versioning::{
    entry_input, family_input, inventory_order, lemma_inventory_order, operation_input,
    operation_inputs, optional_key_input, payload_input, store_schema, versions, EntryModel,
    FamilyModel, OperationModel,
};

verus! {

/// A byte string whose length fits its eight bytes.
pub open spec fn fits(bytes: Seq<u8>) -> bool {
    bytes.len() <= u64::MAX
}

/// A text whose length fits its eight bytes.
pub open spec fn text_fits(text: Seq<char>) -> bool {
    fits(encode_utf8(text))
}

pub open spec fn family_fits(family: FamilyModel) -> bool {
    text_fits(family.family) && fits(family.schema_hash) && text_fits(family.table)
}

pub open spec fn payload_fits(payload: Option<Seq<u8>>) -> bool {
    payload matches Some(bytes) ==> fits(bytes)
}

pub open spec fn operation_fits(operation: OperationModel) -> bool {
    &&& family_fits(operation.family)
    &&& operation.key matches Some(key) ==> text_fits(key_text(key))
    &&& payload_fits(operation.payload)
}

/// Every length of an entry fits, as every length of a value in memory
/// does.
pub open spec fn entry_fits(entry: EntryModel) -> bool {
    &&& text_fits(entry.store_name)
    &&& fits(entry.schema_hash)
    &&& payload_fits(entry.previous)
    &&& entry.operations.len() <= u64::MAX
    &&& forall|i: int|
        0 <= i < entry.operations.len() ==> operation_fits(#[trigger] entry.operations[i])
}

/// Four parts and a rest, read from the front.
proof fn lemma_regrouped(a: Seq<u8>, b: Seq<u8>, c: Seq<u8>, d: Seq<u8>, rest: Seq<u8>)
    ensures
        a + b + c + d + rest == a + (b + (c + (d + rest))),
{
    assert(a + b + c + d + rest =~= a + (b + (c + (d + rest))));
}

/// Six parts and a rest, read from the front.
pub proof fn lemma_regrouped_long(
    a: Seq<u8>,
    b: Seq<u8>,
    c: Seq<u8>,
    d: Seq<u8>,
    e: Seq<u8>,
    f: Seq<u8>,
    rest: Seq<u8>,
)
    ensures
        a + b + c + d + e + f + rest == a + (b + (c + (d + (e + (f + rest))))),
{
    lemma_regrouped(a, b, c, d, e);
    let tail = b + (c + (d + e));
    assert(a + tail + f + rest =~= a + (tail + (f + rest)));
    lemma_regrouped(b, c, d, e, f + rest);
    assert(tail =~= b + c + d + e);
}

/// What follows a common front is common too.
pub proof fn lemma_same_front(front: Seq<u8>, x: Seq<u8>, y: Seq<u8>)
    requires
        front + x == front + y,
    ensures
        x == y,
{
    assert(x =~= (front + x).skip(front.len() as int));
    assert(y =~= (front + y).skip(front.len() as int));
}

/// A framed text can be read off the front of an input.
pub proof fn lemma_text_delimited(a: Seq<char>, b: Seq<char>, x: Seq<u8>, y: Seq<u8>)
    requires
        text_fits(a),
        text_fits(b),
        framed(encode_utf8(a)) + x == framed(encode_utf8(b)) + y,
    ensures
        a == b,
        x == y,
{
    lemma_framed_delimited(encode_utf8(a), encode_utf8(b), x, y);
    encode_utf8_decode_utf8(a);
    encode_utf8_decode_utf8(b);
}

/// An optional framed part can be read off the front of an input.
pub proof fn lemma_payload_delimited(
    a: Option<Seq<u8>>,
    b: Option<Seq<u8>>,
    x: Seq<u8>,
    y: Seq<u8>,
)
    requires
        payload_fits(a),
        payload_fits(b),
        payload_input(a) + x == payload_input(b) + y,
    ensures
        a == b,
        x == y,
{
    assert((payload_input(a) + x)[0] == payload_input(a)[0]);
    assert((payload_input(b) + y)[0] == payload_input(b)[0]);
    match (a, b) {
        (Some(p), Some(q)) => {
            assert((payload_input(a) + x).skip(1) =~= framed(p) + x);
            assert((payload_input(b) + y).skip(1) =~= framed(q) + y);
            lemma_framed_delimited(p, q, x, y);
        },
        _ => {
            assert((payload_input(a) + x).skip(1) =~= x);
            assert((payload_input(b) + y).skip(1) =~= y);
        },
    }
}

/// A family identity can be read off the front of an input.
pub proof fn lemma_family_delimited(a: FamilyModel, b: FamilyModel, x: Seq<u8>, y: Seq<u8>)
    requires
        family_fits(a),
        family_fits(b),
        family_input(a) + x == family_input(b) + y,
    ensures
        a == b,
        x == y,
{
    let p = framed(encode_utf8(a.table)) + x;
    let q = framed(encode_utf8(b.table)) + y;
    let m = framed(a.schema_hash) + p;
    let n = framed(b.schema_hash) + q;
    assert(family_input(a) + x =~= framed(encode_utf8(a.family)) + m);
    assert(family_input(b) + y =~= framed(encode_utf8(b.family)) + n);
    lemma_text_delimited(a.family, b.family, m, n);
    lemma_framed_delimited(a.schema_hash, b.schema_hash, p, q);
    lemma_text_delimited(a.table, b.table, x, y);
}

/// A key can be read off the front of an input.
proof fn lemma_key_delimited(a: KeyModel, b: KeyModel, x: Seq<u8>, y: Seq<u8>)
    requires
        text_fits(key_text(a)),
        text_fits(key_text(b)),
        key_input(a) + x == key_input(b) + y,
    ensures
        a == b,
        x == y,
{
    assert((key_input(a) + x)[0] == kind_tag(key_kind(a)));
    assert((key_input(b) + y)[0] == kind_tag(key_kind(b)));
    assert((key_input(a) + x).skip(1) =~= framed(encode_utf8(key_text(a))) + x);
    assert((key_input(b) + y).skip(1) =~= framed(encode_utf8(key_text(b))) + y);
    lemma_text_delimited(key_text(a), key_text(b), x, y);
    match (a, b) {
        (KeyModel::Identifier(p), KeyModel::Identifier(q)) => {
            lemma_decimal_injective(p as nat, q as nat);
        },
        _ => {},
    }
}

/// An optional key can be read off the front of an input.
proof fn lemma_optional_key_delimited(
    a: Option<KeyModel>,
    b: Option<KeyModel>,
    x: Seq<u8>,
    y: Seq<u8>,
)
    requires
        a matches Some(key) ==> text_fits(key_text(key)),
        b matches Some(key) ==> text_fits(key_text(key)),
        optional_key_input(a) + x == optional_key_input(b) + y,
    ensures
        a == b,
        x == y,
{
    assert((optional_key_input(a) + x)[0] == optional_key_input(a)[0]);
    assert((optional_key_input(b) + y)[0] == optional_key_input(b)[0]);
    match (a, b) {
        (Some(p), Some(q)) => {
            assert((optional_key_input(a) + x).skip(1) =~= key_input(p) + x);
            assert((optional_key_input(b) + y).skip(1) =~= key_input(q) + y);
            lemma_key_delimited(p, q, x, y);
        },
        _ => {
            assert((optional_key_input(a) + x).skip(1) =~= x);
            assert((optional_key_input(b) + y).skip(1) =~= y);
        },
    }
}

/// The words for operations are short.
proof fn lemma_record_head_fits(operation: SemaOperation)
    ensures
        text_fits(record_head(operation)),
{
    reveal_strlit("Assert");
    reveal_strlit("Mutate");
    reveal_strlit("Retract");
    reveal_strlit("Match");
    reveal_strlit("Subscribe");
    reveal_strlit("Validate");
    vstd::utf8::is_ascii_chars_encode_utf8(record_head(operation));
}

/// A logged operation can be read off the front of an input.
proof fn lemma_operation_delimited(
    a: OperationModel,
    b: OperationModel,
    x: Seq<u8>,
    y: Seq<u8>,
)
    requires
        operation_fits(a),
        operation_fits(b),
        operation_input(a) + x == operation_input(b) + y,
    ensures
        a == b,
        x == y,
{
    let p = payload_input(a.payload) + x;
    let q = payload_input(b.payload) + y;
    let m = optional_key_input(a.key) + p;
    let n = optional_key_input(b.key) + q;
    let s = family_input(a.family) + m;
    let t = family_input(b.family) + n;
    lemma_regrouped(
        framed(encode_utf8(record_head(a.operation))),
        family_input(a.family),
        optional_key_input(a.key),
        payload_input(a.payload),
        x,
    );
    lemma_regrouped(
        framed(encode_utf8(record_head(b.operation))),
        family_input(b.family),
        optional_key_input(b.key),
        payload_input(b.payload),
        y,
    );
    lemma_record_head_fits(a.operation);
    lemma_record_head_fits(b.operation);
    lemma_text_delimited(record_head(a.operation), record_head(b.operation), s, t);
    lemma_record_head_injective(a.operation, b.operation);
    lemma_family_delimited(a.family, b.family, m, n);
    lemma_optional_key_delimited(a.key, b.key, p, q);
    lemma_payload_delimited(a.payload, b.payload, x, y);
}

/// The first part stands in front.
pub proof fn lemma_joined_front(parts: Seq<Seq<u8>>)
    requires
        parts.len() > 0,
    ensures
        joined(parts) == parts[0] + joined(parts.drop_first()),
    decreases parts.len(),
{
    if parts.len() == 1 {
        assert(parts.drop_last() =~= Seq::empty());
        assert(parts.drop_first() =~= Seq::empty());
        assert(joined(parts) =~= parts[0] + joined(parts.drop_first()));
    } else {
        let less = parts.drop_last();
        lemma_joined_front(less);
        assert(parts.drop_first() =~= less.drop_first().push(parts.last()));
        lemma_joined_push(less.drop_first(), parts.last());
        assert(joined(parts) =~= parts[0] + joined(parts.drop_first()));
    }
}

/// Equally many operations can be read off the front of an input.
proof fn lemma_operations_delimited(a: Seq<OperationModel>, b: Seq<OperationModel>)
    requires
        a.len() == b.len(),
        forall|i: int| 0 <= i < a.len() ==> operation_fits(#[trigger] a[i]),
        forall|i: int| 0 <= i < b.len() ==> operation_fits(#[trigger] b[i]),
        joined(operation_inputs(a)) == joined(operation_inputs(b)),
    ensures
        a == b,
    decreases a.len(),
{
    if a.len() == 0 {
        assert(a =~= b);
    } else {
        let p = a.drop_first();
        let q = b.drop_first();
        lemma_joined_front(operation_inputs(a));
        lemma_joined_front(operation_inputs(b));
        assert(operation_inputs(a).drop_first() =~= operation_inputs(p));
        assert(operation_inputs(b).drop_first() =~= operation_inputs(q));
        lemma_operation_delimited(
            a[0],
            b[0],
            joined(operation_inputs(p)),
            joined(operation_inputs(q)),
        );
        lemma_operations_delimited(p, q);
        assert(a =~= seq![a[0]] + p);
        assert(b =~= seq![b[0]] + q);
    }
}

/// An entry's digest covers the whole entry: entries with the same digest
/// input differ in nothing but the digest they carry.
pub proof fn lemma_entry_digest_covers_entry(a: EntryModel, b: EntryModel)
    requires
        entry_fits(a),
        entry_fits(b),
        entry_input(a) == entry_input(b),
    ensures
        a == (EntryModel { digest: a.digest, ..b }),
{
    let domain = framed(encode_utf8("sema-engine-versioned-commit-log-entry-v2"@));
    let a5 = counted(operation_inputs(a.operations));
    let b5 = counted(operation_inputs(b.operations));
    let a4 = payload_input(a.previous) + a5;
    let b4 = payload_input(b.previous) + b5;
    let a3 = spec_u64_to_le_bytes(a.snapshot) + a4;
    let b3 = spec_u64_to_le_bytes(b.snapshot) + b4;
    let a2 = spec_u64_to_le_bytes(a.commit_sequence) + a3;
    let b2 = spec_u64_to_le_bytes(b.commit_sequence) + b3;
    let a1 = framed(a.schema_hash) + a2;
    let b1 = framed(b.schema_hash) + b2;
    let a0 = framed(encode_utf8(a.store_name)) + a1;
    let b0 = framed(encode_utf8(b.store_name)) + b1;
    lemma_regrouped_long(
        domain,
        framed(encode_utf8(a.store_name)),
        framed(a.schema_hash),
        spec_u64_to_le_bytes(a.commit_sequence),
        spec_u64_to_le_bytes(a.snapshot),
        payload_input(a.previous),
        a5,
    );
    lemma_regrouped_long(
        domain,
        framed(encode_utf8(b.store_name)),
        framed(b.schema_hash),
        spec_u64_to_le_bytes(b.commit_sequence),
        spec_u64_to_le_bytes(b.snapshot),
        payload_input(b.previous),
        b5,
    );
    lemma_same_front(domain, a0, b0);
    lemma_text_delimited(a.store_name, b.store_name, a1, b1);
    lemma_framed_delimited(a.schema_hash, b.schema_hash, a2, b2);
    lemma_u64_delimited(a.commit_sequence, b.commit_sequence, a3, b3);
    lemma_u64_delimited(a.snapshot, b.snapshot, a4, b4);
    lemma_payload_delimited(a.previous, b.previous, a5, b5);
    lemma_u64_delimited(
        operation_inputs(a.operations).len() as u64,
        operation_inputs(b.operations).len() as u64,
        joined(operation_inputs(a.operations)),
        joined(operation_inputs(b.operations)),
    );
    lemma_operations_delimited(a.operations, b.operations);
}

pub open spec fn row_fits(row: RowModel) -> bool {
    family_fits(row.family) && text_fits(key_text(row.key)) && payload_fits(row.payload)
}

/// A row can be read off the front of an input.
proof fn lemma_row_delimited(a: RowModel, b: RowModel, x: Seq<u8>, y: Seq<u8>)
    requires
        row_fits(a),
        row_fits(b),
        row_input(a) + x == row_input(b) + y,
    ensures
        a == b,
        x == y,
{
    let p = payload_input(a.payload) + x;
    let q = payload_input(b.payload) + y;
    let m = key_input(a.key) + p;
    let n = key_input(b.key) + q;
    assert(row_input(a) + x =~= family_input(a.family) + m);
    assert(row_input(b) + y =~= family_input(b.family) + n);
    lemma_family_delimited(a.family, b.family, m, n);
    lemma_key_delimited(a.key, b.key, p, q);
    lemma_payload_delimited(a.payload, b.payload, x, y);
}

/// Equally many rows can be read off the front of an input.
proof fn lemma_rows_delimited(a: Seq<RowModel>, b: Seq<RowModel>)
    requires
        a.len() == b.len(),
        forall|i: int| 0 <= i < a.len() ==> row_fits(#[trigger] a[i]),
        forall|i: int| 0 <= i < b.len() ==> row_fits(#[trigger] b[i]),
        joined(row_inputs(a)) == joined(row_inputs(b)),
    ensures
        a == b,
    decreases a.len(),
{
    if a.len() == 0 {
        assert(a =~= b);
    } else {
        let p = a.drop_first();
        let q = b.drop_first();
        lemma_joined_front(row_inputs(a));
        lemma_joined_front(row_inputs(b));
        assert(row_inputs(a).drop_first() =~= row_inputs(p));
        assert(row_inputs(b).drop_first() =~= row_inputs(q));
        lemma_row_delimited(a[0], b[0], joined(row_inputs(p)), joined(row_inputs(q)));
        lemma_rows_delimited(p, q);
        assert(a =~= seq![a[0]] + p);
        assert(b =~= seq![b[0]] + q);
    }
}

/// A segment's content address covers its rows: segments with the same
/// digest input hold the same rows.
pub proof fn lemma_segment_digest_covers_rows(a: Seq<RowModel>, b: Seq<RowModel>)
    requires
        a.len() <= u64::MAX,
        b.len() <= u64::MAX,
        forall|i: int| 0 <= i < a.len() ==> row_fits(#[trigger] a[i]),
        forall|i: int| 0 <= i < b.len() ==> row_fits(#[trigger] b[i]),
        counted(row_inputs(a)) == counted(row_inputs(b)),
    ensures
        a == b,
        segment_digest(a) == segment_digest(b),
{
    lemma_u64_delimited(
        row_inputs(a).len() as u64,
        row_inputs(b).len() as u64,
        joined(row_inputs(a)),
        joined(row_inputs(b)),
    );
    lemma_rows_delimited(a, b);
}

/// A kept cell whose lengths fit.
pub open spec fn cell_fits(cell: (Coordinate, Option<Seq<u8>>)) -> bool {
    &&& text_fits(cell.0.0.0)
    &&& fits(cell.0.0.1)
    &&& text_fits(key_text(cell.0.1))
    &&& cell.1 matches Some(bytes) && fits(bytes)
}

/// A kept cell can be read off the front of an input.
proof fn lemma_cell_delimited(
    a: (Coordinate, Option<Seq<u8>>),
    b: (Coordinate, Option<Seq<u8>>),
    x: Seq<u8>,
    y: Seq<u8>,
)
    requires
        cell_fits(a),
        cell_fits(b),
        cell_input(a) + x == cell_input(b) + y,
    ensures
        a == b,
        x == y,
{
    let a3 = framed(a.1->0) + x;
    let b3 = framed(b.1->0) + y;
    let a2 = key_input(a.0.1) + a3;
    let b2 = key_input(b.0.1) + b3;
    let a1 = framed(a.0.0.1) + a2;
    let b1 = framed(b.0.0.1) + b2;
    lemma_regrouped(
        framed(encode_utf8(a.0.0.0)),
        framed(a.0.0.1),
        key_input(a.0.1),
        framed(a.1->0),
        x,
    );
    lemma_regrouped(
        framed(encode_utf8(b.0.0.0)),
        framed(b.0.0.1),
        key_input(b.0.1),
        framed(b.1->0),
        y,
    );
    lemma_text_delimited(a.0.0.0, b.0.0.0, a1, b1);
    lemma_framed_delimited(a.0.0.1, b.0.0.1, a2, b2);
    lemma_key_delimited(a.0.1, b.0.1, a3, b3);
    lemma_framed_delimited(a.1->0, b.1->0, x, y);
}

/// Equally many cells can be read off the front of an input.
proof fn lemma_cells_delimited(
    a: Seq<(Coordinate, Option<Seq<u8>>)>,
    b: Seq<(Coordinate, Option<Seq<u8>>)>,
)
    requires
        a.len() == b.len(),
        forall|i: int| 0 <= i < a.len() ==> cell_fits(#[trigger] a[i]),
        forall|i: int| 0 <= i < b.len() ==> cell_fits(#[trigger] b[i]),
        joined(cell_inputs(a)) == joined(cell_inputs(b)),
    ensures
        a == b,
    decreases a.len(),
{
    if a.len() == 0 {
        assert(a =~= b);
    } else {
        let p = a.drop_first();
        let q = b.drop_first();
        lemma_joined_front(cell_inputs(a));
        lemma_joined_front(cell_inputs(b));
        assert(cell_inputs(a).drop_first() =~= cell_inputs(p));
        assert(cell_inputs(b).drop_first() =~= cell_inputs(q));
        lemma_cell_delimited(a[0], b[0], joined(cell_inputs(p)), joined(cell_inputs(q)));
        lemma_cells_delimited(p, q);
        assert(a =~= seq![a[0]] + p);
        assert(b =~= seq![b[0]] + q);
    }
}

/// The view digest covers the records: lists of records with the same
/// digest input are the same.
pub proof fn lemma_view_digest_covers_records(
    a: Seq<(Coordinate, Option<Seq<u8>>)>,
    b: Seq<(Coordinate, Option<Seq<u8>>)>,
)
    requires
        a.len() <= u64::MAX,
        b.len() <= u64::MAX,
        forall|i: int| 0 <= i < a.len() ==> cell_fits(#[trigger] a[i]),
        forall|i: int| 0 <= i < b.len() ==> cell_fits(#[trigger] b[i]),
        counted(cell_inputs(a)) == counted(cell_inputs(b)),
    ensures
        a == b,
{
    lemma_u64_delimited(
        cell_inputs(a).len() as u64,
        cell_inputs(b).len() as u64,
        joined(cell_inputs(a)),
        joined(cell_inputs(b)),
    );
    lemma_cells_delimited(a, b);
}

/// The store schema hash does not depend on the order of registration nor
/// on table names: inventories of the same family versions have the same
/// hash.
pub proof fn lemma_store_schema_ignores_order(a: Seq<FamilyModel>, b: Seq<FamilyModel>)
    requires
        versions(a).to_multiset() == versions(b).to_multiset(),
    ensures
        store_schema(versions(a)) == store_schema(versions(b)),
{
    let order = inventory_order();
    lemma_inventory_order();
    versions(a).lemma_sort_by_ensures(order);
    versions(b).lemma_sort_by_ensures(order);
    lemma_sorted_unique(versions(a).sort_by(order), versions(b).sort_by(order), order);
}

/// Renaming the table of a family keeps the store schema hash.
pub proof fn lemma_store_schema_ignores_tables(
    families: Seq<FamilyModel>,
    at: int,
    table: Seq<char>,
)
    requires
        0 <= at < families.len(),
    ensures
        store_schema(versions(families.update(at, FamilyModel { table, ..families[at] })))
            == store_schema(versions(families)),
{
    let renamed = families.update(at, FamilyModel { table, ..families[at] });
    assert(versions(renamed) =~= versions(families));
}

} // verus!
