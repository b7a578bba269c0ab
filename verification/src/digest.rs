//! Digest inputs: the unambiguous byte strings that content addresses
//! are computed over, and the one call that computes them.

use vstd::bytes::*;
use vstd::prelude::*;

verus! {

/// What BLAKE3 gives for an input in its default hashing mode.
pub uninterp spec fn blake3_digest(input: Seq<u8>) -> Seq<u8>;

/// Calls `blake3::hash` and copies the digest out of its `Hash`. The
/// digest is a function of the input bytes alone; nothing else is
/// claimed of it.
#[verifier::external_body]
pub(crate) fn blake3_hash(input: &[u8]) -> (digest: [u8; 32])
    ensures
        digest@ == blake3_digest(input@),
{
    *blake3::hash(input).as_bytes()
}

/// A byte string behind its length: eight bytes, least significant first.
pub open spec fn framed(bytes: Seq<u8>) -> Seq<u8> {
    spec_u64_to_le_bytes(bytes.len() as u64) + bytes
}

/// An optional part of an input: a tag byte tells whether it is there.
pub open spec fn tagged(part: Option<Seq<u8>>) -> Seq<u8> {
    match part {
        Some(bytes) => seq![1u8] + bytes,
        None => seq![0u8],
    }
}

/// The concatenation of the parts of an input, in order.
pub open spec fn joined(parts: Seq<Seq<u8>>) -> Seq<u8>
    decreases parts.len(),
{
    if parts.len() == 0 {
        Seq::empty()
    } else {
        joined(parts.drop_last()) + parts.last()
    }
}

/// A counted list of parts: their number, then the parts in order.
pub open spec fn counted(parts: Seq<Seq<u8>>) -> Seq<u8> {
    spec_u64_to_le_bytes(parts.len() as u64) + joined(parts)
}

/// Append a number to a digest input, least significant byte first.
pub fn update_u64(input: &mut Vec<u8>, value: u64)
    ensures
        final(input)@ == old(input)@ + spec_u64_to_le_bytes(value),
{
    let mut bytes: Vec<u8> = u64_to_le_bytes(value);
    input.append(&mut bytes);
}

/// Append a byte string behind its length to a digest input.
pub fn update_bytes(input: &mut Vec<u8>, bytes: &[u8])
    ensures
        final(input)@ == old(input)@ + framed(bytes@),
{
    let ghost start = input@;
    update_u64(input, bytes.len() as u64);
    let ghost middle = input@;
    input.extend_from_slice(bytes);
    assert(input@ =~= middle + bytes@);
    assert(input@ =~= start + framed(bytes@));
}

/// Append the UTF-8 bytes of a text behind their length to a digest input.
pub fn update_text(input: &mut Vec<u8>, text: &str)
    ensures
        final(input)@ == old(input)@ + framed(vstd::utf8::encode_utf8(text@)),
{
    update_bytes(input, text.as_bytes());
}

/// Append one byte to a digest input.
pub fn update_tag(input: &mut Vec<u8>, tag: u8)
    ensures
        final(input)@ == old(input)@ + seq![tag],
{
    input.push(tag);
    assert(input@ =~= old(input)@ + seq![tag]);
}

/// One more part extends the concatenation.
pub proof fn lemma_joined_push(parts: Seq<Seq<u8>>, part: Seq<u8>)
    ensures
        joined(parts.push(part)) == joined(parts) + part,
{
    assert(parts.push(part).drop_last() =~= parts);
}

/// The eight-byte form of a number can be read off the front of an input.
pub proof fn lemma_u64_delimited(a: u64, b: u64, x: Seq<u8>, y: Seq<u8>)
    requires
        spec_u64_to_le_bytes(a) + x == spec_u64_to_le_bytes(b) + y,
    ensures
        a == b,
        x == y,
{
    lemma_auto_spec_u64_to_from_le_bytes();
    let p = spec_u64_to_le_bytes(a);
    let q = spec_u64_to_le_bytes(b);
    assert(p.len() == 8 && q.len() == 8);
    assert(p =~= (p + x).take(8));
    assert(q =~= (q + y).take(8));
    assert(x =~= (p + x).skip(8));
    assert(y =~= (q + y).skip(8));
}

/// A framed byte string can be read off the front of an input.
pub proof fn lemma_framed_delimited(a: Seq<u8>, b: Seq<u8>, x: Seq<u8>, y: Seq<u8>)
    requires
        a.len() <= u64::MAX,
        b.len() <= u64::MAX,
        framed(a) + x == framed(b) + y,
    ensures
        a == b,
        x == y,
{
    let p = spec_u64_to_le_bytes(a.len() as u64);
    let q = spec_u64_to_le_bytes(b.len() as u64);
    assert(framed(a) + x =~= p + (a + x));
    assert(framed(b) + y =~= q + (b + y));
    lemma_u64_delimited(a.len() as u64, b.len() as u64, a + x, b + y);
    assert(a =~= (a + x).take(a.len() as int));
    assert(b =~= (b + y).take(a.len() as int));
    assert(x =~= (a + x).skip(a.len() as int));
    assert(y =~= (b + y).skip(a.len() as int));
}

} // verus!
