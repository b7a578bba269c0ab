//! The orders that stored keys are kept in: bytes compare
//! lexicographically and text compares by its UTF-8 bytes.

use vstd::prelude::*;
use vstd::utf8::encode_utf8;

verus! {

/// Where one value stands relative to another in a total order.
#[derive(Debug, Clone, Copy, PartialEq, Eq, Structural)]
pub enum Relation {
    Before,
    Same,
    After,
}

/// `a` and `b` agree below position `at`, where `a` ends or holds the
/// smaller byte.
pub open spec fn diverges(a: Seq<u8>, b: Seq<u8>, at: int) -> bool {
    &&& 0 <= at <= a.len()
    &&& at < b.len()
    &&& forall|j: int| 0 <= j < at ==> a[j] == b[j]
    &&& at < a.len() ==> a[at] < b[at]
}

/// The lexicographic order on byte sequences.
pub open spec fn bytes_precede(a: Seq<u8>, b: Seq<u8>) -> bool {
    exists|at: int| diverges(a, b, at)
}

/// The order of text: that of its UTF-8 bytes.
pub open spec fn text_precedes(a: Seq<char>, b: Seq<char>) -> bool {
    bytes_precede(encode_utf8(a), encode_utf8(b))
}

pub proof fn lemma_bytes_irreflexive(a: Seq<u8>)
    ensures
        !bytes_precede(a, a),
{
}

pub proof fn lemma_bytes_transitive(a: Seq<u8>, b: Seq<u8>, c: Seq<u8>)
    requires
        bytes_precede(a, b),
        bytes_precede(b, c),
    ensures
        bytes_precede(a, c),
{
    let i = choose|at: int| diverges(a, b, at);
    let j = choose|at: int| diverges(b, c, at);
    if i <= j {
        assert(diverges(a, c, i));
    } else {
        assert(diverges(a, c, j));
    }
}

proof fn lemma_bytes_total_from(a: Seq<u8>, b: Seq<u8>, at: int)
    requires
        0 <= at <= a.len(),
        at <= b.len(),
        forall|j: int| 0 <= j < at ==> a[j] == b[j],
    ensures
        bytes_precede(a, b) || a == b || bytes_precede(b, a),
    decreases a.len() - at,
{
    if at == a.len() && at == b.len() {
        assert(a =~= b);
    } else if at == a.len() {
        assert(diverges(a, b, at));
    } else if at == b.len() {
        assert(diverges(b, a, at));
    } else if a[at] < b[at] {
        assert(diverges(a, b, at));
    } else if b[at] < a[at] {
        assert(diverges(b, a, at));
    } else {
        lemma_bytes_total_from(a, b, at + 1);
    }
}

pub proof fn lemma_bytes_total(a: Seq<u8>, b: Seq<u8>)
    ensures
        bytes_precede(a, b) || a == b || bytes_precede(b, a),
{
    lemma_bytes_total_from(a, b, 0);
}

/// Distinct texts have distinct UTF-8 encodings.
pub proof fn lemma_utf8_injective(a: Seq<char>, b: Seq<char>)
    requires
        encode_utf8(a) == encode_utf8(b),
    ensures
        a == b,
{
    vstd::utf8::encode_utf8_decode_utf8(a);
    vstd::utf8::encode_utf8_decode_utf8(b);
}

pub proof fn lemma_text_irreflexive(a: Seq<char>)
    ensures
        !text_precedes(a, a),
{
}

pub proof fn lemma_text_transitive(a: Seq<char>, b: Seq<char>, c: Seq<char>)
    requires
        text_precedes(a, b),
        text_precedes(b, c),
    ensures
        text_precedes(a, c),
{
    lemma_bytes_transitive(encode_utf8(a), encode_utf8(b), encode_utf8(c));
}

pub proof fn lemma_text_total(a: Seq<char>, b: Seq<char>)
    ensures
        text_precedes(a, b) || a == b || text_precedes(b, a),
{
    lemma_bytes_total(encode_utf8(a), encode_utf8(b));
    if encode_utf8(a) == encode_utf8(b) {
        lemma_utf8_injective(a, b);
    }
}

/// Compare two byte slices lexicographically.
pub fn relate_bytes(a: &[u8], b: &[u8]) -> (relation: Relation)
    ensures
        relation == Relation::Before <==> bytes_precede(a@, b@),
        relation == Relation::Same <==> a@ == b@,
        relation == Relation::After <==> bytes_precede(b@, a@),
{
    let mut at: usize = 0;
    proof {
        lemma_bytes_irreflexive(a@);
        if bytes_precede(a@, b@) && bytes_precede(b@, a@) {
            lemma_bytes_transitive(a@, b@, a@);
        }
    }
    while at < a.len() && at < b.len()
        invariant
            at <= a.len(),
            at <= b.len(),
            forall|j: int| 0 <= j < at ==> a[j] == b[j],
            a@ == b@ ==> !bytes_precede(a@, b@),
            !(bytes_precede(a@, b@) && bytes_precede(b@, a@)),
        decreases a.len() - at,
    {
        if a[at] < b[at] {
            assert(diverges(a@, b@, at as int));
            return Relation::Before;
        }
        if b[at] < a[at] {
            assert(diverges(b@, a@, at as int));
            return Relation::After;
        }
        at = at + 1;
    }
    if at < b.len() {
        assert(diverges(a@, b@, at as int));
        Relation::Before
    } else if at < a.len() {
        assert(diverges(b@, a@, at as int));
        Relation::After
    } else {
        assert(a@ =~= b@);
        Relation::Same
    }
}

/// Compare two texts by their UTF-8 bytes.
pub fn relate_text(a: &str, b: &str) -> (relation: Relation)
    ensures
        relation == Relation::Before <==> text_precedes(a@, b@),
        relation == Relation::Same <==> a@ == b@,
        relation == Relation::After <==> text_precedes(b@, a@),
{
    let relation = relate_bytes(a.as_bytes(), b.as_bytes());
    proof {
        if encode_utf8(a@) == encode_utf8(b@) {
            lemma_utf8_injective(a@, b@);
        }
    }
    relation
}

/// Compare two numbers.
pub fn relate_numbers(a: u64, b: u64) -> (relation: Relation)
    ensures
        relation == Relation::Before <==> a < b,
        relation == Relation::Same <==> a == b,
        relation == Relation::After <==> b < a,
{
    if a < b {
        Relation::Before
    } else if a == b {
        Relation::Same
    } else {
        Relation::After
    }
}

/// Whether two byte slices hold the same bytes.
pub fn same_bytes(a: &[u8], b: &[u8]) -> (same: bool)
    ensures
        same == (a@ == b@),
{
    relate_bytes(a, b) == Relation::Same
}

/// Whether two texts hold the same characters.
pub fn same_text(a: &str, b: &str) -> (same: bool)
    ensures
        same == (a@ == b@),
{
    relate_text(a, b) == Relation::Same
}

} // verus!
