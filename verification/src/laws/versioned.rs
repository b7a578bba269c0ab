//! The reusable log: commits link by themselves, and every field of an
//! entry is under its digest.

use vstd::bytes::{
    lemma_auto_spec_u32_to_from_le_bytes, spec_u32_to_le_bytes, spec_u64_to_le_bytes,
};
use vstd::prelude::*;

use crate::digest::lemma_u64_delimited;
use crate::listing::{lemma_numbered_push, row_values};
use crate::versioned::envelope::{
    envelope_input, envelope_refusal, operation_tag, short_framed, EnvelopeModel, OperationKind,
};
use crate::versioned::log::{by_sequence, has_next, next_envelope, SameFileLog, VersionedLog};
use crate::versioned::migration::Reducer;
use crate::versioned::record::ComponentRecord;
use crate::versioned::view::{applied_entry, blank_view, digest_before, folded_entries, ViewOutcome};

verus! {

/// Every entry is sealed and records the entry before it.
pub open spec fn linked(entries: Seq<EnvelopeModel>) -> bool {
    forall|i: int|
        0 <= i < entries.len() ==> envelope_refusal(
            #[trigger] entries[i],
            digest_before(entries, i),
        ) is None
}

/// A commit links by itself: whatever it records, a linked log stays
/// linked.
pub proof fn lemma_commit_links(
    entries: Seq<EnvelopeModel>,
    operation: OperationKind,
    schema_hash: Seq<u8>,
    key: Seq<u8>,
    payload: Seq<u8>,
)
    requires
        linked(entries),
    ensures
        linked(entries.push(next_envelope(entries, operation, schema_hash, key, payload))),
{
    let entry = next_envelope(entries, operation, schema_hash, key, payload);
    let longer = entries.push(entry);
    assert forall|i: int| 0 <= i < longer.len() implies envelope_refusal(
        #[trigger] longer[i],
        digest_before(longer, i),
    ) is None by {
        if i < entries.len() {
            assert(longer[i] == entries[i]);
            assert(digest_before(longer, i) == digest_before(entries, i));
        }
    }
}

/// The entries' positions rise.
pub open spec fn in_order(entries: Seq<EnvelopeModel>) -> bool {
    forall|i: int, j: int|
        0 <= i < j < entries.len() ==> (#[trigger] entries[i]).sequence < (
        #[trigger] entries[j]).sequence
}

/// A commit comes last: one table keyed by position appends as a file of
/// frames does.
pub proof fn lemma_commit_comes_last(
    entries: Seq<EnvelopeModel>,
    operation: OperationKind,
    schema_hash: Seq<u8>,
    key: Seq<u8>,
    payload: Seq<u8>,
)
    requires
        in_order(entries),
        has_next(entries),
    ensures
        ({
            let entry = next_envelope(entries, operation, schema_hash, key, payload);
            &&& in_order(entries.push(entry))
            &&& SameFileLog::appended(entries, entry) == entries.push(entry)
        }),
{
    let entry = next_envelope(entries, operation, schema_hash, key, payload);
    let rows = by_sequence(entries);
    assert forall|i: int| 0 <= i < rows.len() implies (#[trigger] rows[i]).0 < entry.sequence by {
        assert(entries[i].sequence <= entries.last().sequence);
    }
    assert forall|i: int, j: int| 0 <= i < j < rows.len() implies (#[trigger] rows[i]).0 < (
    #[trigger] rows[j]).0 by {
        assert(entries[i].sequence < entries[j].sequence);
    }
    lemma_numbered_push(rows, entry.sequence, entry);
    assert(row_values(rows.push((entry.sequence, entry))) =~= entries.push(entry));
    let longer = entries.push(entry);
    assert forall|i: int, j: int| 0 <= i < j < longer.len() implies (
    #[trigger] longer[i]).sequence < (#[trigger] longer[j]).sequence by {
        if j == entries.len() {
            assert(rows[i].0 < entry.sequence);
        } else {
            assert(entries[i].sequence < entries[j].sequence);
        }
    }
}

/// The view folded from entries without looking at their links.
pub open spec fn applied_entries<Record: ComponentRecord, Step: Reducer>(
    entries: Seq<EnvelopeModel>,
    reducers: Seq<Step>,
) -> ViewOutcome<Record>
    decreases entries.len(),
{
    if entries.len() == 0 {
        ViewOutcome { view: blank_view(), refusal: None }
    } else {
        let before = applied_entries::<Record, Step>(entries.drop_last(), reducers);
        if before.refusal is Some {
            before
        } else {
            applied_entry(before.view, entries.last(), reducers)
        }
    }
}

/// A linked log is never refused for its links: rebuilding it comes to
/// applying its entries one after the other.
pub proof fn lemma_linked_log_folds<Record: ComponentRecord, Step: Reducer>(
    entries: Seq<EnvelopeModel>,
    reducers: Seq<Step>,
)
    requires
        linked(entries),
    ensures
        folded_entries::<Record, Step>(entries, reducers) == applied_entries::<Record, Step>(
            entries,
            reducers,
        ),
    decreases entries.len(),
{
    if entries.len() > 0 {
        let less = entries.drop_last();
        assert forall|i: int| 0 <= i < less.len() implies envelope_refusal(
            #[trigger] less[i],
            digest_before(less, i),
        ) is None by {
            assert(less[i] == entries[i]);
            assert(digest_before(less, i) == digest_before(entries, i));
        }
        lemma_linked_log_folds::<Record, Step>(less, reducers);
        assert(envelope_refusal(
            entries[entries.len() - 1],
            digest_before(entries, entries.len() - 1),
        ) is None);
    }
}

/// A short byte string can be read off the front of an input.
pub proof fn lemma_short_delimited(a: Seq<u8>, b: Seq<u8>, x: Seq<u8>, y: Seq<u8>)
    requires
        a.len() <= u32::MAX,
        b.len() <= u32::MAX,
        short_framed(a) + x == short_framed(b) + y,
    ensures
        a == b,
        x == y,
{
    lemma_auto_spec_u32_to_from_le_bytes();
    let p = spec_u32_to_le_bytes(a.len() as u32);
    let q = spec_u32_to_le_bytes(b.len() as u32);
    let s = short_framed(a) + x;
    let t = short_framed(b) + y;
    assert(p.len() == 4 && q.len() == 4);
    assert(p =~= s.take(4));
    assert(q =~= t.take(4));
    assert(a.len() as u32 == b.len() as u32);
    assert(a =~= s.subrange(4, 4 + a.len() as int));
    assert(b =~= t.subrange(4, 4 + a.len() as int));
    assert(x =~= s.skip(4 + a.len() as int));
    assert(y =~= t.skip(4 + a.len() as int));
}

/// An entry whose hashes are thirty-two bytes long and whose other lengths
/// fit their four bytes.
pub open spec fn envelope_fits(entry: EnvelopeModel) -> bool {
    &&& entry.schema_hash.len() == 32
    &&& entry.previous.len() == 32
    &&& entry.key.len() <= u32::MAX
    &&& entry.payload.len() <= u32::MAX
}

/// An entry's digest covers the whole entry: entries with the same digest
/// input differ in nothing but the digest they carry. A key or a payload
/// of four gigabytes or more is left out: its length wraps.
pub proof fn lemma_envelope_digest_covers_entry(a: EnvelopeModel, b: EnvelopeModel)
    requires
        envelope_fits(a),
        envelope_fits(b),
        envelope_input(a) == envelope_input(b),
    ensures
        a == (EnvelopeModel { digest: a.digest, ..b }),
{
    let a3 = short_framed(a.payload) + a.previous;
    let b3 = short_framed(b.payload) + b.previous;
    let a2 = short_framed(a.key) + a3;
    let b2 = short_framed(b.key) + b3;
    let a1 = seq![operation_tag(a.operation)] + (a.schema_hash + a2);
    let b1 = seq![operation_tag(b.operation)] + (b.schema_hash + b2);
    assert(envelope_input(a) =~= spec_u64_to_le_bytes(a.sequence) + a1);
    assert(envelope_input(b) =~= spec_u64_to_le_bytes(b.sequence) + b1);
    lemma_u64_delimited(a.sequence, b.sequence, a1, b1);
    assert(a1[0] == operation_tag(a.operation));
    assert(b1[0] == operation_tag(b.operation));
    assert(a1.subrange(1, 33) =~= a.schema_hash);
    assert(b1.subrange(1, 33) =~= b.schema_hash);
    assert(a1.skip(33) =~= a2);
    assert(b1.skip(33) =~= b2);
    lemma_short_delimited(a.key, b.key, a3, b3);
    lemma_short_delimited(a.payload, b.payload, a.previous, b.previous);
}

} // verus!
