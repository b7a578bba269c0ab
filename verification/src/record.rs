//! Record keys and records as the engine stores them.

use vstd::prelude::*;
use vstd::std_specs::cmp::PartialEqSpecImpl;
use vstd::string::*;
use vstd::utf8::encode_utf8;

use crate::digest::{framed, update_tag, update_text};
use crate::order::{
    lemma_text_irreflexive, lemma_text_total, lemma_text_transitive, relate_numbers, relate_text,
    text_precedes, Relation,
};
use crate::text::{append_hex, decimal, decimal_text, hex_text};

verus! {

#[derive(Debug, Clone, Copy, PartialEq, Eq, PartialOrd, Ord, Hash, Structural)]
pub enum RecordKeyKind {
    Domain,
    Identifier,
}

/// The byte that a key kind contributes to digest inputs.
pub open spec fn kind_tag(kind: RecordKeyKind) -> u8 {
    match kind {
        RecordKeyKind::Domain => 1,
        RecordKeyKind::Identifier => 2,
    }
}

impl RecordKeyKind {
    pub fn digest_tag(self) -> (tag: u8)
        ensures
            tag == kind_tag(self),
    {
        match self {
            RecordKeyKind::Domain => 1,
            RecordKeyKind::Identifier => 2,
        }
    }
}

/// The identifier the engine minted for a record of an engine-identified
/// family, counting from one.
#[derive(Debug, Clone, Copy, PartialEq, Eq, PartialOrd, Ord, Hash, Structural)]
pub struct RecordIdentifier {
    value: u64,
}

impl View for RecordIdentifier {
    type V = u64;

    closed spec fn view(&self) -> u64 {
        self.value
    }
}

impl RecordIdentifier {
    pub fn new(value: u64) -> (made: Self)
        ensures
            made@ == value,
    {
        RecordIdentifier { value }
    }

    pub fn first() -> (made: Self)
        ensures
            made@ == 1,
    {
        RecordIdentifier { value: 1 }
    }

    pub fn value(self) -> (value: u64)
        ensures
            value == self@,
    {
        self.value
    }

    pub fn next(self) -> (made: Self)
        requires
            self@ < u64::MAX,
        ensures
            made@ == self@ + 1,
    {
        RecordIdentifier { value: self.value + 1 }
    }
}

/// A record's key within its family table. A `Domain` key carries an
/// author-supplied string; an `Identifier` key carries the typed
/// identifier that the engine minted. The two arms are the only legal
/// key shapes, so no string parsing recovers the kind.
#[derive(Debug, Eq, PartialOrd, Ord, Hash)]
pub enum RecordKey {
    Domain(String),
    Identifier(RecordIdentifier),
}

/// A record key as plain values.
pub enum KeyModel {
    Domain(Seq<char>),
    Identifier(u64),
}

/// The canonical string form of a key: the domain string verbatim, or
/// the identifier in decimal.
pub open spec fn key_text(key: KeyModel) -> Seq<char> {
    match key {
        KeyModel::Domain(text) => text,
        KeyModel::Identifier(value) => decimal_text(value as nat),
    }
}

pub open spec fn key_kind(key: KeyModel) -> RecordKeyKind {
    match key {
        KeyModel::Domain(_) => RecordKeyKind::Domain,
        KeyModel::Identifier(_) => RecordKeyKind::Identifier,
    }
}

/// What a key contributes to digest inputs: its kind and its canonical
/// string.
pub open spec fn key_input(key: KeyModel) -> Seq<u8> {
    seq![kind_tag(key_kind(key))] + framed(encode_utf8(key_text(key)))
}

/// The order of keys: domain keys by their text, then identifiers by
/// their number.
pub open spec fn key_precedes(a: KeyModel, b: KeyModel) -> bool {
    match (a, b) {
        (KeyModel::Domain(x), KeyModel::Domain(y)) => text_precedes(x, y),
        (KeyModel::Domain(_), KeyModel::Identifier(_)) => true,
        (KeyModel::Identifier(_), KeyModel::Domain(_)) => false,
        (KeyModel::Identifier(x), KeyModel::Identifier(y)) => x < y,
    }
}

impl View for RecordKey {
    type V = KeyModel;

    open spec fn view(&self) -> KeyModel {
        match *self {
            RecordKey::Domain(text) => KeyModel::Domain(text@),
            RecordKey::Identifier(identifier) => KeyModel::Identifier(identifier@),
        }
    }
}

impl Clone for RecordKey {
    fn clone(&self) -> (copy: Self)
        ensures
            copy@ == self@,
    {
        match self {
            RecordKey::Domain(text) => RecordKey::Domain(text.clone()),
            RecordKey::Identifier(identifier) => RecordKey::Identifier(*identifier),
        }
    }
}

pub proof fn lemma_key_irreflexive(a: KeyModel)
    ensures
        !key_precedes(a, a),
{
    if let KeyModel::Domain(text) = a {
        lemma_text_irreflexive(text);
    }
}

pub proof fn lemma_key_transitive(a: KeyModel, b: KeyModel, c: KeyModel)
    requires
        key_precedes(a, b),
        key_precedes(b, c),
    ensures
        key_precedes(a, c),
{
    match (a, b, c) {
        (KeyModel::Domain(x), KeyModel::Domain(y), KeyModel::Domain(z)) => {
            lemma_text_transitive(x, y, z);
        },
        _ => {},
    }
}

pub proof fn lemma_key_total(a: KeyModel, b: KeyModel)
    ensures
        key_precedes(a, b) || a == b || key_precedes(b, a),
{
    match (a, b) {
        (KeyModel::Domain(x), KeyModel::Domain(y)) => {
            lemma_text_total(x, y);
        },
        _ => {},
    }
}

/// Compare two record keys.
pub fn relate_keys(a: &RecordKey, b: &RecordKey) -> (relation: Relation)
    ensures
        relation == Relation::Before <==> key_precedes(a@, b@),
        relation == Relation::Same <==> a@ == b@,
        relation == Relation::After <==> key_precedes(b@, a@),
{
    match (a, b) {
        (RecordKey::Domain(x), RecordKey::Domain(y)) => relate_text(x.as_str(), y.as_str()),
        (RecordKey::Domain(_), RecordKey::Identifier(_)) => Relation::Before,
        (RecordKey::Identifier(_), RecordKey::Domain(_)) => Relation::After,
        (RecordKey::Identifier(x), RecordKey::Identifier(y)) => relate_numbers(
            x.value(),
            y.value(),
        ),
    }
}

impl PartialEq for RecordKey {
    fn eq(&self, other: &Self) -> (same: bool) {
        relate_keys(self, other) == Relation::Same
    }
}

impl PartialEqSpecImpl for RecordKey {
    open spec fn obeys_eq_spec() -> bool {
        true
    }

    open spec fn eq_spec(&self, other: &Self) -> bool {
        self@ == other@
    }
}

impl RecordKey {
    pub fn new(value: &str) -> (key: Self)
        ensures
            key@ == KeyModel::Domain(value@),
    {
        RecordKey::domain(value)
    }

    pub fn domain(value: &str) -> (key: Self)
        ensures
            key@ == KeyModel::Domain(value@),
    {
        RecordKey::Domain(value.to_owned())
    }

    pub fn identifier(identifier: RecordIdentifier) -> (key: Self)
        ensures
            key@ == KeyModel::Identifier(identifier@),
    {
        RecordKey::Identifier(identifier)
    }

    /// The domain key of a typed key's archive: `rkyv:` and the archive
    /// in hexadecimal. Equal archives give equal keys.
    pub fn from_archive(archive: &[u8]) -> (key: Self)
        ensures
            key@ == KeyModel::Domain("rkyv:"@ + hex_text(archive@)),
    {
        let mut text: String = "rkyv:".to_owned();
        append_hex(&mut text, archive);
        RecordKey::Domain(text)
    }

    pub fn kind(&self) -> (kind: RecordKeyKind)
        ensures
            kind == key_kind(self@),
    {
        match self {
            RecordKey::Domain(_) => RecordKeyKind::Domain,
            RecordKey::Identifier(_) => RecordKeyKind::Identifier,
        }
    }

    /// The canonical string form: what digests cover and what a
    /// domain-keyed family table stores the record under.
    pub fn to_owned_string(&self) -> (text: String)
        ensures
            text@ == key_text(self@),
    {
        match self {
            RecordKey::Domain(text) => text.clone(),
            RecordKey::Identifier(identifier) => decimal(identifier.value()),
        }
    }

    /// The typed identifier of an `Identifier` key.
    pub fn identifier_value(&self) -> (identifier: Option<RecordIdentifier>)
        ensures
            match (identifier, self@) {
                (Some(found), KeyModel::Identifier(value)) => found@ == value,
                (None, KeyModel::Domain(_)) => true,
                _ => false,
            },
    {
        match self {
            RecordKey::Domain(_) => None,
            RecordKey::Identifier(identifier) => Some(*identifier),
        }
    }

    /// The key's weight in a checkpoint segment: its kind and its
    /// canonical bytes.
    pub fn encoded_len(&self) -> (len: u128)
        ensures
            len == 1 + encode_utf8(key_text(self@)).len(),
            len <= usize::MAX as u128 + 1,
    {
        let text: String = self.to_owned_string();
        1 + text.as_str().as_bytes().len() as u128
    }

    /// Append the key to a digest input.
    pub fn update_digest(&self, input: &mut Vec<u8>)
        ensures
            final(input)@ == old(input)@ + key_input(self@),
    {
        let text: String = self.to_owned_string();
        update_tag(input, self.kind().digest_tag());
        update_text(input, text.as_str());
        assert(input@ =~= old(input)@ + key_input(self@));
    }
}

/// A value that knows the key it is stored under.
/// A verified implementor defines the spec functions; of one that does not
/// define them nothing is known.
pub trait EngineRecord: Clone {
    /// The key as plain values.
    open spec fn key_model(&self) -> KeyModel {
        arbitrary()
    }

    fn record_key(&self) -> (key: RecordKey)
        ensures
            key@ == self.key_model(),
    ;
}

/// A type that records are stored as. Bytes that were archived elsewhere
/// read back as one, or do not.
pub trait EngineStoredValue {
    /// Read archived bytes back, or say why they do not read back.
    fn read_back(bytes: &[u8]) -> Result<(), String>;
}

/// Why bytes did not read back, if they did not.
pub open spec fn message_view(read: Result<(), String>) -> Option<Seq<char>> {
    match read {
        Ok(_) => None,
        Err(message) => Some(message@),
    }
}

/// Reading bytes back as a type came to this.
pub open spec fn read_as<RecordValue: EngineStoredValue>(
    payload: Seq<u8>,
    unread: Option<Seq<char>>,
) -> bool {
    exists|bytes: &[u8], answer: Result<(), String>|
        {
            &&& bytes@ == payload
            &&& message_view(answer) == unread
            &&& #[trigger] call_ensures(RecordValue::read_back, (bytes,), answer)
        }
}

/// Read archived bytes back as a type.
pub fn read_stored<RecordValue: EngineStoredValue>(bytes: &[u8]) -> (answer: Result<(), String>)
    ensures
        read_as::<RecordValue>(bytes@, message_view(answer)),
{
    let answer = RecordValue::read_back(bytes);
    assert(call_ensures(RecordValue::read_back, (bytes,), answer));
    answer
}

/// A record as the engine stores it: its key and its archived bytes.
#[derive(Debug, PartialEq, Eq)]
pub struct EncodedRecord {
    key: RecordKey,
    bytes: Vec<u8>,
}

/// An encoded record as plain values.
pub struct RecordModel {
    pub key: KeyModel,
    pub bytes: Seq<u8>,
}

impl View for EncodedRecord {
    type V = RecordModel;

    closed spec fn view(&self) -> RecordModel {
        RecordModel { key: self.key@, bytes: self.bytes@ }
    }
}

impl EncodedRecord {
    pub fn new(key: RecordKey, bytes: Vec<u8>) -> (record: Self)
        ensures
            record@ == (RecordModel { key: key@, bytes: bytes@ }),
    {
        EncodedRecord { key, bytes }
    }

    pub fn key(&self) -> (key: &RecordKey)
        ensures
            key@ == self@.key,
    {
        &self.key
    }

    pub fn bytes(&self) -> (bytes: &Vec<u8>)
        ensures
            bytes@ == self@.bytes,
    {
        &self.bytes
    }
}

impl EngineStoredValue for EncodedRecord {
    /// A record that is held as its bytes always reads back.
    fn read_back(_bytes: &[u8]) -> (answer: Result<(), String>)
        ensures
            answer is Ok,
    {
        Ok(())
    }
}

impl Clone for EncodedRecord {
    fn clone(&self) -> (copy: Self)
        ensures
            copy@ == self@,
    {
        EncodedRecord { key: self.key.clone(), bytes: self.bytes.clone() }
    }
}

impl EngineRecord for EncodedRecord {
    closed spec fn key_model(&self) -> KeyModel {
        self@.key
    }

    fn record_key(&self) -> (key: RecordKey)
        ensures
            key@ == self@.key,
    {
        self.key.clone()
    }
}

} // verus!
