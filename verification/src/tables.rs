//! The record tables of a store: domain-keyed rows, engine-identified
//! rows, and the counters that mint identifiers.

use vstd::prelude::*;
use vstd::string::*;

use crate::fold::{RowModel, ViewRow};
use crate::models::{views, Duplicate};
use crate::operation::SemaOperation;
use crate::order::{
    lemma_text_irreflexive, lemma_text_total, lemma_text_transitive, relate_numbers, relate_text,
    same_text, text_precedes, Relation,
};
use crate::ordered_table::{lemma_map_take, map_of, rising, OrderedTable, TableKey};
use crate::record::{key_text, KeyModel, RecordIdentifier, RecordKey};
use crate::table::{counter_key_text, TableName};
use crate::versioning::VersionedPayload;

verus! {

/// Where a domain-keyed row stands: its table, and its key as text.
pub type DomainCell = (Seq<char>, Seq<char>);

/// Where an engine-identified row stands: its table and its identifier.
pub type IdentifiedCell = (Seq<char>, u64);

/// The storage coordinate of a domain-keyed row.
#[derive(Debug, PartialEq, Eq)]
pub struct DomainCoordinate {
    table: String,
    key: String,
}

/// The order of domain-keyed rows: by table, then by key.
pub open spec fn domain_precedes(a: DomainCell, b: DomainCell) -> bool {
    text_precedes(a.0, b.0) || (a.0 == b.0 && text_precedes(a.1, b.1))
}

impl View for DomainCoordinate {
    type V = DomainCell;

    closed spec fn view(&self) -> DomainCell {
        (self.table@, self.key@)
    }
}

impl Duplicate for DomainCoordinate {
    fn duplicate(&self) -> (copy: Self) {
        DomainCoordinate { table: self.table.clone(), key: self.key.clone() }
    }
}

impl DomainCoordinate {
    pub fn new(table: &str, key: &str) -> (coordinate: Self)
        ensures
            coordinate@ == (table@, key@),
    {
        DomainCoordinate { table: table.to_owned(), key: key.to_owned() }
    }

    pub fn table(&self) -> (table: &str)
        ensures
            table@ == self@.0,
    {
        self.table.as_str()
    }

    pub fn key(&self) -> (key: &str)
        ensures
            key@ == self@.1,
    {
        self.key.as_str()
    }
}

impl TableKey for DomainCoordinate {
    open spec fn precedes(a: DomainCell, b: DomainCell) -> bool {
        domain_precedes(a, b)
    }

    proof fn lemma_irreflexive(a: DomainCell) {
        lemma_text_irreflexive(a.0);
        lemma_text_irreflexive(a.1);
    }

    proof fn lemma_transitive(a: DomainCell, b: DomainCell, c: DomainCell) {
        if text_precedes(a.0, b.0) && text_precedes(b.0, c.0) {
            lemma_text_transitive(a.0, b.0, c.0);
        } else if !text_precedes(a.0, b.0) && !text_precedes(b.0, c.0) {
            lemma_text_transitive(a.1, b.1, c.1);
        }
    }

    proof fn lemma_total(a: DomainCell, b: DomainCell) {
        lemma_text_total(a.0, b.0);
        lemma_text_total(a.1, b.1);
    }

    fn relate(&self, other: &Self) -> (relation: Relation) {
        proof {
            lemma_text_irreflexive(self@.0);
            if text_precedes(self@.0, other@.0) && text_precedes(other@.0, self@.0) {
                lemma_text_transitive(self@.0, other@.0, self@.0);
            }
        }
        let tables = relate_text(self.table.as_str(), other.table.as_str());
        if tables == Relation::Same {
            relate_text(self.key.as_str(), other.key.as_str())
        } else {
            tables
        }
    }
}

/// The storage coordinate of an engine-identified row.
#[derive(Debug, PartialEq, Eq)]
pub struct IdentifiedCoordinate {
    table: String,
    identifier: u64,
}

/// The order of engine-identified rows: by table, then by identifier.
pub open spec fn identified_precedes(a: IdentifiedCell, b: IdentifiedCell) -> bool {
    text_precedes(a.0, b.0) || (a.0 == b.0 && a.1 < b.1)
}

impl View for IdentifiedCoordinate {
    type V = IdentifiedCell;

    closed spec fn view(&self) -> IdentifiedCell {
        (self.table@, self.identifier)
    }
}

impl Duplicate for IdentifiedCoordinate {
    fn duplicate(&self) -> (copy: Self) {
        IdentifiedCoordinate { table: self.table.clone(), identifier: self.identifier }
    }
}

impl IdentifiedCoordinate {
    pub fn new(table: &str, identifier: u64) -> (coordinate: Self)
        ensures
            coordinate@ == (table@, identifier),
    {
        IdentifiedCoordinate { table: table.to_owned(), identifier }
    }

    pub fn table(&self) -> (table: &str)
        ensures
            table@ == self@.0,
    {
        self.table.as_str()
    }

    pub fn identifier(&self) -> (identifier: u64)
        ensures
            identifier == self@.1,
    {
        self.identifier
    }
}

impl TableKey for IdentifiedCoordinate {
    open spec fn precedes(a: IdentifiedCell, b: IdentifiedCell) -> bool {
        identified_precedes(a, b)
    }

    proof fn lemma_irreflexive(a: IdentifiedCell) {
        lemma_text_irreflexive(a.0);
    }

    proof fn lemma_transitive(a: IdentifiedCell, b: IdentifiedCell, c: IdentifiedCell) {
        if text_precedes(a.0, b.0) && text_precedes(b.0, c.0) {
            lemma_text_transitive(a.0, b.0, c.0);
        }
    }

    proof fn lemma_total(a: IdentifiedCell, b: IdentifiedCell) {
        lemma_text_total(a.0, b.0);
    }

    fn relate(&self, other: &Self) -> (relation: Relation) {
        proof {
            lemma_text_irreflexive(self@.0);
            if text_precedes(self@.0, other@.0) && text_precedes(other@.0, self@.0) {
                lemma_text_transitive(self@.0, other@.0, self@.0);
            }
        }
        let tables = relate_text(self.table.as_str(), other.table.as_str());
        if tables == Relation::Same {
            relate_numbers(self.identifier, other.identifier)
        } else {
            tables
        }
    }
}

/// Where a write lands within its table.
pub enum Slot {
    Domain(Seq<char>),
    Identified(u64),
}

/// One write as plain values: the operation that is logged for `key`, the
/// row it lands at, the payload it leaves there (`None` removes the row),
/// and the record that subscribers are told of.
pub struct WriteFact {
    pub table: Seq<char>,
    pub slot: Slot,
    pub operation: SemaOperation,
    pub key: KeyModel,
    pub payload: Option<Seq<u8>>,
    pub record: Seq<u8>,
}

/// One write, checked and ready to land.
#[derive(Debug, PartialEq, Eq)]
pub struct Write {
    table: TableName,
    identifier: Option<RecordIdentifier>,
    operation: SemaOperation,
    key: RecordKey,
    payload: VersionedPayload,
    record: Vec<u8>,
}

impl View for Write {
    type V = WriteFact;

    closed spec fn view(&self) -> WriteFact {
        WriteFact {
            table: self.table@,
            slot: match self.identifier {
                Some(identifier) => Slot::Identified(identifier@),
                None => Slot::Domain(key_text(self.key@)),
            },
            operation: self.operation,
            key: self.key@,
            payload: self.payload@,
            record: self.record@,
        }
    }
}

/// A write of `bytes` under `key` of a domain-keyed table.
pub open spec fn domain_write(
    operation: SemaOperation,
    table: Seq<char>,
    key: KeyModel,
    bytes: Seq<u8>,
) -> WriteFact {
    WriteFact {
        table,
        slot: Slot::Domain(key_text(key)),
        operation,
        key,
        payload: Some(bytes),
        record: bytes,
    }
}

/// The removal of the record under `key` of a domain-keyed table.
pub open spec fn domain_removal(table: Seq<char>, key: KeyModel, removed: Seq<u8>) -> WriteFact {
    WriteFact {
        table,
        slot: Slot::Domain(key_text(key)),
        operation: SemaOperation::Retract,
        key,
        payload: None,
        record: removed,
    }
}

/// A write of `bytes` under an identifier of an engine-identified table.
pub open spec fn identified_write(
    operation: SemaOperation,
    table: Seq<char>,
    identifier: u64,
    bytes: Seq<u8>,
) -> WriteFact {
    WriteFact {
        table,
        slot: Slot::Identified(identifier),
        operation,
        key: KeyModel::Identifier(identifier),
        payload: Some(bytes),
        record: bytes,
    }
}

/// The removal of the record under an identifier of an engine-identified
/// table.
pub open spec fn identified_removal(
    table: Seq<char>,
    identifier: u64,
    removed: Seq<u8>,
) -> WriteFact {
    WriteFact {
        table,
        slot: Slot::Identified(identifier),
        operation: SemaOperation::Retract,
        key: KeyModel::Identifier(identifier),
        payload: None,
        record: removed,
    }
}

impl Write {
    pub fn domain(
        operation: SemaOperation,
        table: TableName,
        key: RecordKey,
        bytes: &Vec<u8>,
    ) -> (write: Self)
        ensures
            write@ == domain_write(operation, table@, key@, bytes@),
    {
        Write {
            table,
            identifier: None,
            operation,
            key,
            payload: VersionedPayload::record(bytes.duplicate()),
            record: bytes.duplicate(),
        }
    }

    pub fn domain_removal(table: TableName, key: RecordKey, removed: Vec<u8>) -> (write: Self)
        ensures
            write@ == domain_removal(table@, key@, removed@),
    {
        Write {
            table,
            identifier: None,
            operation: SemaOperation::Retract,
            key,
            payload: VersionedPayload::tombstone(),
            record: removed,
        }
    }

    pub fn identified(
        operation: SemaOperation,
        table: TableName,
        identifier: RecordIdentifier,
        bytes: &Vec<u8>,
    ) -> (write: Self)
        ensures
            write@ == identified_write(operation, table@, identifier@, bytes@),
    {
        Write {
            table,
            identifier: Some(identifier),
            operation,
            key: RecordKey::identifier(identifier),
            payload: VersionedPayload::record(bytes.duplicate()),
            record: bytes.duplicate(),
        }
    }

    pub fn identified_removal(
        table: TableName,
        identifier: RecordIdentifier,
        removed: Vec<u8>,
    ) -> (write: Self)
        ensures
            write@ == identified_removal(table@, identifier@, removed@),
    {
        Write {
            table,
            identifier: Some(identifier),
            operation: SemaOperation::Retract,
            key: RecordKey::identifier(identifier),
            payload: VersionedPayload::tombstone(),
            record: removed,
        }
    }

    pub fn table(&self) -> (table: &TableName)
        ensures
            table@ == self@.table,
    {
        &self.table
    }

    pub fn operation(&self) -> (operation: SemaOperation)
        ensures
            operation == self@.operation,
    {
        self.operation
    }

    pub fn key(&self) -> (key: &RecordKey)
        ensures
            key@ == self@.key,
    {
        &self.key
    }

    pub fn payload(&self) -> (payload: &VersionedPayload)
        ensures
            payload@ == self@.payload,
    {
        &self.payload
    }

    pub fn record(&self) -> (record: &Vec<u8>)
        ensures
            record@ == self@.record,
    {
        &self.record
    }

    /// The write lands in a domain-keyed table, so subscribers hear of it.
    pub fn is_domain(&self) -> (domain: bool)
        ensures
            domain == (self@.slot is Domain),
    {
        self.identifier.is_none()
    }
}

/// The record tables as plain values.
#[verifier::ext_equal]
pub struct TablesModel {
    pub records: Map<DomainCell, Seq<u8>>,
    pub identified: Map<IdentifiedCell, Seq<u8>>,
    pub counters: Map<Seq<char>, u64>,
}

/// Empty record tables.
pub open spec fn no_tables() -> TablesModel {
    TablesModel { records: Map::empty(), identified: Map::empty(), counters: Map::empty() }
}

/// The tables after a payload landed at a slot.
pub open spec fn placed(
    tables: TablesModel,
    table: Seq<char>,
    slot: Slot,
    payload: Option<Seq<u8>>,
) -> TablesModel {
    match (slot, payload) {
        (Slot::Domain(key), Some(bytes)) => TablesModel {
            records: tables.records.insert((table, key), bytes),
            ..tables
        },
        (Slot::Domain(key), None) => TablesModel {
            records: tables.records.remove((table, key)),
            ..tables
        },
        (Slot::Identified(identifier), Some(bytes)) => TablesModel {
            identified: tables.identified.insert((table, identifier), bytes),
            ..tables
        },
        (Slot::Identified(identifier), None) => TablesModel {
            identified: tables.identified.remove((table, identifier)),
            ..tables
        },
    }
}

/// The tables after one write. An identified assertion moves the table's
/// counter past the identifier it used.
pub open spec fn applied(tables: TablesModel, write: WriteFact) -> TablesModel {
    let after = placed(tables, write.table, write.slot, write.payload);
    match write.slot {
        Slot::Identified(identifier) if write.operation == SemaOperation::Assert => TablesModel {
            counters: after.counters.insert(
                counter_key_text(write.table),
                (identifier + 1) as u64,
            ),
            ..after
        },
        _ => after,
    }
}

/// A counter can move past the identifier that a write mints.
pub open spec fn countable(write: WriteFact) -> bool {
    match write.slot {
        Slot::Identified(identifier) => write.operation == SemaOperation::Assert ==> identifier
            < u64::MAX,
        Slot::Domain(_) => true,
    }
}

/// The tables after writes in order.
pub open spec fn applied_all(tables: TablesModel, writes: Seq<WriteFact>) -> TablesModel
    decreases writes.len(),
{
    if writes.len() == 0 {
        tables
    } else {
        applied(applied_all(tables, writes.drop_last()), writes.last())
    }
}

/// Where a view row lands: by the kind of its key.
pub open spec fn key_slot(key: KeyModel) -> Slot {
    match key {
        KeyModel::Domain(text) => Slot::Domain(text),
        KeyModel::Identifier(identifier) => Slot::Identified(identifier),
    }
}

/// The tables after view rows landed in order. No counter moves.
pub open spec fn rows_placed(tables: TablesModel, rows: Seq<RowModel>) -> TablesModel
    decreases rows.len(),
{
    if rows.len() == 0 {
        tables
    } else {
        placed(
            rows_placed(tables, rows.drop_last()),
            rows.last().family.table,
            key_slot(rows.last().key),
            rows.last().payload,
        )
    }
}

/// The rows of one domain-keyed table.
pub open spec fn domain_rows(records: Map<DomainCell, Seq<u8>>, table: Seq<char>) -> Map<
    Seq<char>,
    Seq<u8>,
> {
    Map::new(
        |key: Seq<char>| records.dom().contains((table, key)),
        |key: Seq<char>| records[(table, key)],
    )
}

/// The rows of one engine-identified table.
pub open spec fn identified_rows(
    identified: Map<IdentifiedCell, Seq<u8>>,
    table: Seq<char>,
) -> Map<u64, Seq<u8>> {
    Map::new(
        |identifier: u64| identified.dom().contains((table, identifier)),
        |identifier: u64| identified[(table, identifier)],
    )
}

/// The identifier that an identified table mints next: one for a table
/// that has minted none.
pub open spec fn next_identifier(tables: TablesModel, table: Seq<char>) -> u64 {
    let key = counter_key_text(table);
    if tables.counters.dom().contains(key) {
        tables.counters[key]
    } else {
        1
    }
}

/// The record tables of a store.
#[derive(Debug, PartialEq, Eq)]
pub struct RecordTables {
    pub records: OrderedTable<DomainCoordinate, Vec<u8>>,
    pub identified: OrderedTable<IdentifiedCoordinate, Vec<u8>>,
    pub counters: OrderedTable<String, u64>,
}

impl View for RecordTables {
    type V = TablesModel;

    open spec fn view(&self) -> TablesModel {
        TablesModel {
            records: self.records@,
            identified: self.identified@,
            counters: self.counters@,
        }
    }
}

impl Duplicate for RecordTables {
    fn duplicate(&self) -> (copy: Self) {
        RecordTables {
            records: self.records.duplicate(),
            identified: self.identified.duplicate(),
            counters: self.counters.duplicate(),
        }
    }
}

impl RecordTables {
    pub fn new() -> (tables: Self)
        ensures
            tables@ == no_tables(),
    {
        RecordTables {
            records: OrderedTable::new(),
            identified: OrderedTable::new(),
            counters: OrderedTable::new(),
        }
    }

    /// The record under a key of a domain-keyed table.
    pub fn record(&self, table: &TableName, key: &RecordKey) -> (found: Option<Vec<u8>>)
        ensures
            match found {
                Some(bytes) => {
                    &&& self@.records.dom().contains((table@, key_text(key@)))
                    &&& bytes@ == self@.records[(table@, key_text(key@))]
                },
                None => !self@.records.dom().contains((table@, key_text(key@))),
            },
    {
        let text: String = key.to_owned_string();
        match self.records.get(&DomainCoordinate::new(table.as_str(), text.as_str())) {
            Some(bytes) => Some(bytes.duplicate()),
            None => None,
        }
    }

    /// The record under an identifier of an engine-identified table.
    pub fn identified_record(&self, table: &TableName, identifier: RecordIdentifier) -> (found:
        Option<Vec<u8>>)
        ensures
            match found {
                Some(bytes) => {
                    &&& self@.identified.dom().contains((table@, identifier@))
                    &&& bytes@ == self@.identified[(table@, identifier@)]
                },
                None => !self@.identified.dom().contains((table@, identifier@)),
            },
    {
        match self.identified.get(&IdentifiedCoordinate::new(table.as_str(), identifier.value())) {
            Some(bytes) => Some(bytes.duplicate()),
            None => None,
        }
    }

    /// The identifier that an identified table mints next.
    pub fn next_record_identifier(&self, table: &TableName) -> (identifier: RecordIdentifier)
        ensures
            identifier@ == next_identifier(self@, table@),
    {
        match self.counters.get(&table.identified_counter_key()) {
            Some(next) => RecordIdentifier::new(*next),
            None => RecordIdentifier::first(),
        }
    }

    /// Land a payload at a row of a domain-keyed table.
    pub fn place(&mut self, table: &str, key: &str, payload: &VersionedPayload)
        ensures
            final(self)@ == placed(old(self)@, table@, Slot::Domain(key@), payload@),
    {
        let coordinate: DomainCoordinate = DomainCoordinate::new(table, key);
        match payload {
            VersionedPayload::Record { bytes } => {
                self.records.insert(coordinate, bytes.duplicate());
            },
            VersionedPayload::Tombstone => {
                self.records.remove(&coordinate);
            },
        }
    }

    /// Land a payload at a row of an engine-identified table.
    pub fn place_identified(&mut self, table: &str, identifier: u64, payload: &VersionedPayload)
        ensures
            final(self)@ == placed(old(self)@, table@, Slot::Identified(identifier), payload@),
    {
        let coordinate: IdentifiedCoordinate = IdentifiedCoordinate::new(table, identifier);
        match payload {
            VersionedPayload::Record { bytes } => {
                self.identified.insert(coordinate, bytes.duplicate());
            },
            VersionedPayload::Tombstone => {
                self.identified.remove(&coordinate);
            },
        }
    }

    /// Land view rows in order.
    pub fn place_rows(&mut self, rows: &[ViewRow])
        ensures
            final(self)@ == rows_placed(old(self)@, views(rows@)),
    {
        let mut at: usize = 0;
        let ghost models = views(rows@);
        let ghost base = self@;
        assert(models.take(0) =~= Seq::empty());
        while at < rows.len()
            invariant
                at <= rows.len(),
                models == views(rows@),
                self@ == rows_placed(base, models.take(at as int)),
            decreases rows.len() - at,
        {
            let row = &rows[at];
            assert(models.take(at + 1).drop_last() =~= models.take(at as int));
            assert(models.take(at + 1).last() == row@);
            match row.key().identifier_value() {
                Some(identifier) => {
                    self.place_identified(
                        row.family().table_name(),
                        identifier.value(),
                        row.payload(),
                    );
                },
                None => {
                    let text: String = row.key().to_owned_string();
                    self.place(row.family().table_name(), text.as_str(), row.payload());
                },
            }
            at = at + 1;
        }
        assert(models.take(at as int) =~= models);
    }

    /// Apply one write.
    pub fn apply(&mut self, write: &Write)
        requires
            countable(write@),
        ensures
            final(self)@ == applied(old(self)@, write@),
    {
        match write.identifier {
            Some(identifier) => {
                self.place_identified(write.table.as_str(), identifier.value(), &write.payload);
                if write.operation == SemaOperation::Assert {
                    self.counters.insert(
                        write.table.identified_counter_key(),
                        identifier.next().value(),
                    );
                }
            },
            None => {
                let text: String = write.key.to_owned_string();
                self.place(write.table.as_str(), text.as_str(), &write.payload);
            },
        }
    }

    /// Apply writes in order.
    pub fn apply_all(&mut self, writes: &Vec<Write>)
        requires
            forall|i: int| 0 <= i < writes@.len() ==> countable((#[trigger] writes@[i])@),
        ensures
            final(self)@ == applied_all(old(self)@, views(writes@)),
    {
        let mut at: usize = 0;
        let ghost facts = views(writes@);
        let ghost base = self@;
        assert(facts.take(0) =~= Seq::empty());
        while at < writes.len()
            invariant
                at <= writes.len(),
                facts == views(writes@),
                self@ == applied_all(base, facts.take(at as int)),
                forall|i: int| 0 <= i < writes@.len() ==> countable((#[trigger] writes@[i])@),
            decreases writes.len() - at,
        {
            assert(facts.take(at + 1).drop_last() =~= facts.take(at as int));
            assert(facts.take(at + 1).last() == writes@[at as int]@);
            self.apply(&writes[at]);
            at = at + 1;
        }
        assert(facts.take(at as int) =~= facts);
    }

    /// The rows of one domain-keyed table, in key order.
    pub fn rows_of(&self, table: &TableName) -> (rows: OrderedTable<String, Vec<u8>>)
        ensures
            rows@ == domain_rows(self@.records, table@),
    {
        self.rows_named(table.as_str())
    }

    /// The rows of the domain-keyed table of a name, in key order.
    pub fn rows_named(&self, table: &str) -> (rows: OrderedTable<String, Vec<u8>>)
        ensures
            rows@ == domain_rows(self@.records, table@),
    {
        let mut rows: OrderedTable<String, Vec<u8>> = OrderedTable::new();
        let count: usize = self.records.len();
        let ghost listing = self.records.listing();
        let mut at: usize = 0;
        assert(listing.take(0) =~= Seq::empty());
        assert(map_of(listing.take(0)) =~= Map::empty());
        assert(rows@ =~= domain_rows(map_of(listing.take(0)), table@));
        while at < count
            invariant
                at <= count,
                count == listing.len(),
                listing == self.records.listing(),
                rising::<DomainCoordinate, Seq<u8>>(listing),
                rows@ == domain_rows(map_of(listing.take(at as int)), table@),
            decreases count - at,
        {
            let ghost before = map_of(listing.take(at as int));
            let ghost cell = listing[at as int];
            proof {
                lemma_map_take::<DomainCoordinate, Seq<u8>>(listing, at as int);
            }
            let coordinate = self.records.key_at(at);
            if same_text(coordinate.table(), table) {
                rows.insert(coordinate.key().to_owned(), self.records.value_at(at).duplicate());
                assert(rows@ =~= domain_rows(before.insert(cell.0, cell.1), table@));
            } else {
                assert(rows@ =~= domain_rows(before.insert(cell.0, cell.1), table@));
            }
            at = at + 1;
        }
        assert(listing.take(at as int) =~= listing);
        rows
    }

    /// The rows of one engine-identified table, by rising identifier.
    pub fn identified_rows_of(&self, table: &TableName) -> (rows: OrderedTable<u64, Vec<u8>>)
        ensures
            rows@ == identified_rows(self@.identified, table@),
    {
        let mut rows: OrderedTable<u64, Vec<u8>> = OrderedTable::new();
        let count: usize = self.identified.len();
        let ghost listing = self.identified.listing();
        let mut at: usize = 0;
        assert(listing.take(0) =~= Seq::empty());
        assert(map_of(listing.take(0)) =~= Map::empty());
        assert(rows@ =~= identified_rows(map_of(listing.take(0)), table@));
        while at < count
            invariant
                at <= count,
                count == listing.len(),
                listing == self.identified.listing(),
                rising::<IdentifiedCoordinate, Seq<u8>>(listing),
                rows@ == identified_rows(map_of(listing.take(at as int)), table@),
            decreases count - at,
        {
            let ghost before = map_of(listing.take(at as int));
            let ghost cell = listing[at as int];
            proof {
                lemma_map_take::<IdentifiedCoordinate, Seq<u8>>(listing, at as int);
            }
            let coordinate = self.identified.key_at(at);
            if same_text(coordinate.table(), table.as_str()) {
                rows.insert(coordinate.identifier(), self.identified.value_at(at).duplicate());
                assert(rows@ =~= identified_rows(before.insert(cell.0, cell.1), table@));
            } else {
                assert(rows@ =~= identified_rows(before.insert(cell.0, cell.1), table@));
            }
            at = at + 1;
        }
        assert(listing.take(at as int) =~= listing);
        rows
    }
}

} // verus!
