//! The fold: the versioned log is the authoritative source of truth, and
//! the canonical view is its fold, the last write of every key after
//! applying the logged operations in commit order. Checkpoint segments
//! persist a folded view, rebuild derives the materialized tables from
//! it, and the view digest names it.

use vstd::prelude::*;
use vstd::std_specs::cmp::PartialEqSpecImpl;
use vstd::utf8::encode_utf8;

use crate::catalog::family_of;
use crate::digest::{
    blake3_digest, blake3_hash, counted, framed, joined, lemma_joined_push, update_bytes,
    update_text, update_u64,
};
use crate::error::{Error, Failure};
use crate::models::{lemma_views_push, option_view, views};
use crate::operation::{record_head, NonEmpty, SemaOperation};
use crate::order::{same_bytes, same_text, Relation};
use crate::ordered_table::{lemma_rising_unique, map_of, rising, OrderedTable, TableKey};
use crate::record::{
    key_input, key_precedes, key_text, lemma_key_irreflexive, lemma_key_total,
    lemma_key_transitive, message_view, read_as, read_stored, relate_keys, EngineStoredValue,
    KeyModel, RecordKey, RecordKeyKind,
};
use crate::staging::DeltaAnnouncer;
use crate::table::{IdentifiedTableReference, TableName, TableReference};
use crate::tables::{key_slot, placed, TablesModel};
use crate::text::{append_hex, hex_text};
use crate::versioning::{
    family_input, lemma_version_irreflexive, lemma_version_total, lemma_version_transitive,
    payload_input, relate_versions, sealed, version_precedes, EntryDigest, EntryModel, FamilyIdentity,
    FamilyModel, FamilyVersion, OperationModel, VersionedCommitLogEntry, VersionedLogOperation,
    VersionedPayload,
};

verus! {

/// Digest of the canonical view: the row count, then every family name,
/// schema hash, key and payload in view order. The table coordinate is
/// left out, so a rename keeps the digest stable.
#[derive(Debug, Clone, Copy, Eq, PartialOrd, Ord, Hash)]
pub struct ViewDigest {
    bytes: [u8; 32],
}

impl View for ViewDigest {
    type V = Seq<u8>;

    closed spec fn view(&self) -> Seq<u8> {
        self.bytes@
    }
}

impl PartialEq for ViewDigest {
    fn eq(&self, other: &Self) -> (same: bool) {
        same_bytes(&self.bytes, &other.bytes)
    }
}

impl PartialEqSpecImpl for ViewDigest {
    open spec fn obeys_eq_spec() -> bool {
        true
    }

    open spec fn eq_spec(&self, other: &Self) -> bool {
        self@ == other@
    }
}

impl ViewDigest {
    pub fn new(bytes: [u8; 32]) -> (digest: Self)
        ensures
            digest@ == bytes@,
    {
        ViewDigest { bytes }
    }

    pub fn bytes(&self) -> (bytes: &[u8; 32])
        ensures
            bytes@ == self@,
    {
        &self.bytes
    }

    /// The digest in lower-case hexadecimal.
    pub fn to_text(&self) -> (text: String)
        ensures
            text@ == hex_text(self@),
    {
        let mut text: String = String::new();
        append_hex(&mut text, &self.bytes);
        assert(text@ =~= hex_text(self@));
        text
    }

    /// A digest is thirty-two bytes long.
    pub proof fn lemma_len(self)
        ensures
            self@.len() == 32,
    {
    }
}

/// One row of the canonical view: the family identity with its current
/// table coordinate, the record key, and the payload that the fold of
/// the log left at that key.
#[derive(Debug, PartialEq, Eq)]
pub struct ViewRow {
    family: FamilyIdentity,
    key: RecordKey,
    payload: VersionedPayload,
}

/// A view row as plain values.
pub struct RowModel {
    pub family: FamilyModel,
    pub key: KeyModel,
    pub payload: Option<Seq<u8>>,
}

/// What a row contributes to a segment's digest input.
pub open spec fn row_input(row: RowModel) -> Seq<u8> {
    family_input(row.family) + key_input(row.key) + payload_input(row.payload)
}

impl View for ViewRow {
    type V = RowModel;

    closed spec fn view(&self) -> RowModel {
        RowModel { family: self.family@, key: self.key@, payload: self.payload@ }
    }
}

impl Clone for ViewRow {
    fn clone(&self) -> (copy: Self)
        ensures
            copy@ == self@,
    {
        ViewRow {
            family: self.family.clone(),
            key: self.key.clone(),
            payload: self.payload.clone(),
        }
    }
}

impl ViewRow {
    pub fn new(family: FamilyIdentity, key: RecordKey, payload: VersionedPayload) -> (row: Self)
        ensures
            row@ == (RowModel { family: family@, key: key@, payload: payload@ }),
    {
        ViewRow { family, key, payload }
    }

    pub fn family(&self) -> (family: &FamilyIdentity)
        ensures
            family@ == self@.family,
    {
        &self.family
    }

    pub fn key(&self) -> (key: &RecordKey)
        ensures
            key@ == self@.key,
    {
        &self.key
    }

    pub fn payload(&self) -> (payload: &VersionedPayload)
        ensures
            payload@ == self@.payload,
    {
        &self.payload
    }

    /// Append the row to a digest input.
    pub fn update_digest(&self, input: &mut Vec<u8>)
        ensures
            final(input)@ == old(input)@ + row_input(self@),
    {
        self.family.update_digest(input);
        self.key.update_digest(input);
        self.payload.update_digest(input);
        assert(input@ =~= old(input)@ + row_input(self@));
    }
}

/// Where a record stands in the view: its family version and its key.
/// The table is no part of it.
pub type Coordinate = ((Seq<char>, Seq<u8>), KeyModel);

/// The order of the canonical view: by family name, schema hash, key.
pub open spec fn coordinate_precedes(a: Coordinate, b: Coordinate) -> bool {
    version_precedes(a.0, b.0) || (a.0 == b.0 && key_precedes(a.1, b.1))
}

/// The semantic coordinate of one view row.
#[derive(Debug, PartialEq, Eq)]
pub struct ViewKey {
    version: FamilyVersion,
    key: RecordKey,
}

impl View for ViewKey {
    type V = Coordinate;

    closed spec fn view(&self) -> Coordinate {
        (self.version@, self.key@)
    }
}

impl ViewKey {
    pub fn new(family: &FamilyIdentity, key: &RecordKey) -> (made: Self)
        ensures
            made@ == (family@.version(), key@),
    {
        ViewKey { version: family.version(), key: key.clone() }
    }

    pub fn version(&self) -> (version: &FamilyVersion)
        ensures
            version@ == self@.0,
    {
        &self.version
    }

    pub fn key(&self) -> (key: &RecordKey)
        ensures
            key@ == self@.1,
    {
        &self.key
    }
}

impl TableKey for ViewKey {
    open spec fn precedes(a: Coordinate, b: Coordinate) -> bool {
        coordinate_precedes(a, b)
    }

    proof fn lemma_irreflexive(a: Coordinate) {
        lemma_version_irreflexive(a.0);
        lemma_key_irreflexive(a.1);
    }

    proof fn lemma_transitive(a: Coordinate, b: Coordinate, c: Coordinate) {
        if version_precedes(a.0, b.0) && version_precedes(b.0, c.0) {
            lemma_version_transitive(a.0, b.0, c.0);
        } else if !version_precedes(a.0, b.0) && !version_precedes(b.0, c.0) {
            lemma_key_transitive(a.1, b.1, c.1);
        }
    }

    proof fn lemma_total(a: Coordinate, b: Coordinate) {
        lemma_version_total(a.0, b.0);
        lemma_key_total(a.1, b.1);
    }

    fn relate(&self, other: &Self) -> (relation: Relation) {
        proof {
            lemma_version_irreflexive(self@.0);
            if version_precedes(self@.0, other@.0) && version_precedes(other@.0, self@.0) {
                lemma_version_transitive(self@.0, other@.0, self@.0);
            }
        }
        let versions = relate_versions(&self.version, &other.version);
        if versions == Relation::Same {
            relate_keys(&self.key, &other.key)
        } else {
            versions
        }
    }
}

/// A folded view: what stands at every coordinate the fold touched (a
/// payload, or nothing where the last write removed it), and the family
/// identity that the folded rows and entries first declared for each
/// family version.
#[verifier::ext_equal]
pub struct FoldModel {
    pub cells: Map<Coordinate, Option<Seq<u8>>>,
    pub identities: Map<(Seq<char>, Seq<u8>), FamilyModel>,
}

/// The view before anything is folded.
pub open spec fn empty_fold() -> FoldModel {
    FoldModel { cells: Map::empty(), identities: Map::empty() }
}

/// The view after `family` was declared and a write left `payload` at its
/// `key`. The first declaration of a family version stands.
pub open spec fn written(
    view: FoldModel,
    family: FamilyModel,
    key: KeyModel,
    payload: Option<Seq<u8>>,
) -> FoldModel {
    FoldModel {
        cells: view.cells.insert((family.version(), key), payload),
        identities: if view.identities.dom().contains(family.version()) {
            view.identities
        } else {
            view.identities.insert(family.version(), family)
        },
    }
}

/// Fold one checkpoint row: it must carry a record.
pub open spec fn fold_row(view: FoldModel, row: RowModel) -> Result<FoldModel, Failure> {
    match row.payload {
        Some(_) => Ok(written(view, row.family, row.key, row.payload)),
        None => Err(Failure::ReplayTombstonePayload { table: row.family.table }),
    }
}

/// Fold one logged operation: assertions and mutations leave their
/// record, retractions leave nothing.
pub open spec fn fold_operation(view: FoldModel, operation: OperationModel) -> Result<
    FoldModel,
    Failure,
> {
    match operation.key {
        None => Err(Failure::ReplayMissingKey { family: operation.family.family }),
        Some(key) => match operation.operation {
            SemaOperation::Assert | SemaOperation::Mutate => match operation.payload {
                Some(_) => Ok(written(view, operation.family, key, operation.payload)),
                None => Err(Failure::ReplayTombstonePayload { table: operation.family.table }),
            },
            SemaOperation::Retract => Ok(written(view, operation.family, key, None)),
            other => Err(Failure::ReplayUnsupportedOperation { operation: record_head(other) }),
        },
    }
}

pub open spec fn fold_rows(view: FoldModel, rows: Seq<RowModel>) -> Result<FoldModel, Failure>
    decreases rows.len(),
{
    if rows.len() == 0 {
        Ok(view)
    } else {
        match fold_rows(view, rows.drop_last()) {
            Ok(before) => fold_row(before, rows.last()),
            Err(failure) => Err(failure),
        }
    }
}

pub open spec fn fold_operations(view: FoldModel, operations: Seq<OperationModel>) -> Result<
    FoldModel,
    Failure,
>
    decreases operations.len(),
{
    if operations.len() == 0 {
        Ok(view)
    } else {
        match fold_operations(view, operations.drop_last()) {
            Ok(before) => fold_operation(before, operations.last()),
            Err(failure) => Err(failure),
        }
    }
}

/// The digest that the entry after `entries` must name, if they follow
/// `head`.
pub open spec fn head_after(head: Option<Seq<u8>>, entries: Seq<EntryModel>) -> Option<Seq<u8>> {
    if entries.len() == 0 {
        head
    } else {
        Some(entries.last().digest)
    }
}

/// Fold one entry that must follow `previous` and carry the digest of its
/// own fields.
pub open spec fn fold_entry(
    view: FoldModel,
    previous: Option<Seq<u8>>,
    entry: EntryModel,
) -> Result<FoldModel, Failure> {
    if entry.previous != previous || entry != sealed(entry) {
        Err(Failure::VersionedChainBroken { sequence: entry.commit_sequence })
    } else {
        fold_operations(view, entry.operations)
    }
}

pub open spec fn fold_entries(
    view: FoldModel,
    head: Option<Seq<u8>>,
    entries: Seq<EntryModel>,
) -> Result<FoldModel, Failure>
    decreases entries.len(),
{
    if entries.len() == 0 {
        Ok(view)
    } else {
        match fold_entries(view, head, entries.drop_last()) {
            Ok(before) => fold_entry(before, head_after(head, entries.drop_last()), entries.last()),
            Err(failure) => Err(failure),
        }
    }
}

/// The fold of checkpoint rows and the entries that continue them from
/// `head`.
pub open spec fn folded(
    rows: Seq<RowModel>,
    entries: Seq<EntryModel>,
    head: Option<Seq<u8>>,
) -> Result<FoldModel, Failure> {
    match fold_rows(empty_fold(), rows) {
        Ok(view) => fold_entries(view, head, entries),
        Err(failure) => Err(failure),
    }
}

/// The rows of a listing that hold a record (`kept`), or those that do
/// not.
pub open spec fn select(
    listing: Seq<(Coordinate, Option<Seq<u8>>)>,
    kept: bool,
) -> Seq<(Coordinate, Option<Seq<u8>>)>
    decreases listing.len(),
{
    if listing.len() == 0 {
        Seq::empty()
    } else {
        let before = select(listing.drop_last(), kept);
        if (listing.last().1 is Some) == kept {
            before.push(listing.last())
        } else {
            before
        }
    }
}

/// Rows in view order, no coordinate twice.
pub open spec fn view_ordered(rows: Seq<(Coordinate, Option<Seq<u8>>)>) -> bool {
    forall|i: int, j: int|
        0 <= i < j < rows.len() ==> coordinate_precedes(
            #[trigger] rows[i].0,
            #[trigger] rows[j].0,
        )
}

/// The cells of a view in view order.
pub open spec fn view_listing(cells: Map<Coordinate, Option<Seq<u8>>>) -> Seq<
    (Coordinate, Option<Seq<u8>>),
> {
    choose|rows: Seq<(Coordinate, Option<Seq<u8>>)>| view_ordered(rows) && map_of(rows) == cells
}

/// The view order is the order that view keys are stored in.
pub proof fn lemma_view_listing(rows: Seq<(Coordinate, Option<Seq<u8>>)>)
    requires
        rising::<ViewKey, Option<Seq<u8>>>(rows),
    ensures
        view_ordered(rows),
        view_listing(map_of(rows)) == rows,
{
    assert(view_ordered(rows)) by {
        assert forall|i: int, j: int| 0 <= i < j < rows.len() implies coordinate_precedes(
            #[trigger] rows[i].0,
            #[trigger] rows[j].0,
        ) by {
            assert(ViewKey::precedes(rows[i].0, rows[j].0));
        }
    }
    let found = view_listing(map_of(rows));
    assert(view_ordered(rows) && map_of(rows) == map_of(rows));
    assert(rising::<ViewKey, Option<Seq<u8>>>(found));
    lemma_rising_unique::<ViewKey, Option<Seq<u8>>>(found, rows);
}

/// The records of a folded view in view order.
pub open spec fn kept_rows(cells: Map<Coordinate, Option<Seq<u8>>>) -> Seq<
    (Coordinate, Option<Seq<u8>>),
> {
    select(view_listing(cells), true)
}

/// The coordinates that a folded view touched and left empty, in view
/// order.
pub open spec fn cleared_rows(cells: Map<Coordinate, Option<Seq<u8>>>) -> Seq<
    (Coordinate, Option<Seq<u8>>),
> {
    select(view_listing(cells), false)
}

/// What a kept row contributes to the view's digest input.
pub open spec fn cell_input(cell: (Coordinate, Option<Seq<u8>>)) -> Seq<u8> {
    framed(encode_utf8(cell.0.0.0)) + framed(cell.0.0.1) + key_input(cell.0.1) + framed(cell.1->0)
}

pub open spec fn cell_inputs(cells: Seq<(Coordinate, Option<Seq<u8>>)>) -> Seq<Seq<u8>> {
    Seq::new(cells.len(), |i: int| cell_input(cells[i]))
}

/// The digest of a folded view's records.
pub open spec fn view_digest(cells: Map<Coordinate, Option<Seq<u8>>>) -> Seq<u8> {
    blake3_digest(
        framed(encode_utf8("sema-engine-view-digest-v1"@)) + counted(cell_inputs(kept_rows(cells))),
    )
}

/// The full identity of a family version: as the fold declared it, else
/// as the inventory has it.
pub open spec fn resolved(
    identities: Map<(Seq<char>, Seq<u8>), FamilyModel>,
    inventory: Seq<FamilyModel>,
    version: (Seq<char>, Seq<u8>),
) -> Option<FamilyModel> {
    if identities.dom().contains(version) {
        Some(identities[version])
    } else {
        family_of(inventory, version)
    }
}

/// View rows for a list of cells, refused at the first unknown family.
pub open spec fn resolved_rows(
    identities: Map<(Seq<char>, Seq<u8>), FamilyModel>,
    inventory: Seq<FamilyModel>,
    cells: Seq<(Coordinate, Option<Seq<u8>>)>,
) -> Result<Seq<RowModel>, Failure>
    decreases cells.len(),
{
    if cells.len() == 0 {
        Ok(Seq::empty())
    } else {
        match resolved_rows(identities, inventory, cells.drop_last()) {
            Err(failure) => Err(failure),
            Ok(rows) => {
                let cell = cells.last();
                match resolved(identities, inventory, cell.0.0) {
                    Some(family) => Ok(rows.push(RowModel { family, key: cell.0.1, payload: cell.1 })),
                    None => Err(Failure::FamilyUnknown { family: cell.0.0.0 }),
                }
            },
        }
    }
}

/// A view ready to materialize: the rows to clear, then the rows to
/// insert.
#[verifier::ext_equal]
pub struct MaterializeModel {
    pub rows: Seq<RowModel>,
    pub cleared: Seq<RowModel>,
}

/// The materializable projection of a folded view.
pub open spec fn materialized(view: FoldModel, inventory: Seq<FamilyModel>) -> Result<
    MaterializeModel,
    Failure,
> {
    match resolved_rows(view.identities, inventory, cleared_rows(view.cells)) {
        Err(failure) => Err(failure),
        Ok(cleared) => match resolved_rows(view.identities, inventory, kept_rows(view.cells)) {
            Err(failure) => Err(failure),
            Ok(rows) => Ok(MaterializeModel { rows, cleared }),
        },
    }
}

/// The fold state: the last write at every coordinate touched, and the
/// declared family identities.
#[derive(Debug, PartialEq, Eq)]
pub struct CanonicalView {
    cells: OrderedTable<ViewKey, VersionedPayload>,
    identities: OrderedTable<FamilyVersion, FamilyIdentity>,
}

impl View for CanonicalView {
    type V = FoldModel;

    closed spec fn view(&self) -> FoldModel {
        FoldModel { cells: self.cells@, identities: self.identities@ }
    }
}

impl CanonicalView {
    pub fn empty() -> (view: Self)
        ensures
            view@ == empty_fold(),
    {
        CanonicalView { cells: OrderedTable::new(), identities: OrderedTable::new() }
    }

    fn write(&mut self, family: &FamilyIdentity, key: &RecordKey, payload: VersionedPayload)
        ensures
            final(self)@ == written(old(self)@, family@, key@, payload@),
    {
        let version: FamilyVersion = family.version();
        if !self.identities.contains_key(&version) {
            self.identities.insert(version, family.clone());
        }
        self.cells.insert(ViewKey::new(family, key), payload);
    }

    /// Fold checkpoint rows and versioned log entries into the canonical
    /// view, verifying the digest chain link by link from `chain_head`.
    /// Each entry digest is recomputed from the entry's own fields, so a
    /// tampered entry cannot ride a stored digest through the chain.
    pub fn fold(
        checkpoint_rows: &[ViewRow],
        entries: &[VersionedCommitLogEntry],
        chain_head: Option<EntryDigest>,
    ) -> (outcome: Result<Self, Error>)
        ensures
            match outcome {
                Ok(view) => folded(views(checkpoint_rows@), views(entries@), option_view(chain_head))
                    == Ok::<FoldModel, Failure>(view@),
                Err(error) => folded(
                    views(checkpoint_rows@),
                    views(entries@),
                    option_view(chain_head),
                ) == Err::<FoldModel, Failure>(error@),
            },
    {
        let mut view: CanonicalView = CanonicalView::empty();
        let mut at: usize = 0;
        let ghost rows = views(checkpoint_rows@);
        let ghost logged = views(entries@);
        let ghost head = option_view(chain_head);
        assert(rows.take(0) =~= Seq::empty());
        while at < checkpoint_rows.len()
            invariant
                at <= checkpoint_rows.len(),
                rows == views(checkpoint_rows@),
                fold_rows(empty_fold(), rows.take(at as int)) == Ok::<FoldModel, Failure>(view@),
            decreases checkpoint_rows.len() - at,
        {
            assert(rows.take(at + 1).drop_last() =~= rows.take(at as int));
            assert(rows.take(at + 1).last() == checkpoint_rows@[at as int]@);
            match view.apply_checkpoint_row(&checkpoint_rows[at]) {
                Ok(()) => {},
                Err(error) => {
                    proof {
                        lemma_rows_fail(empty_fold(), rows, at + 1, error@);
                    }
                    return Err(error);
                },
            }
            at = at + 1;
        }
        assert(rows.take(at as int) =~= rows);
        let ghost base = view@;
        let mut previous: Option<EntryDigest> = chain_head;
        let mut next: usize = 0;
        assert(logged.take(0) =~= Seq::empty());
        while next < entries.len()
            invariant
                next <= entries.len(),
                rows == views(checkpoint_rows@),
                logged == views(entries@),
                head == option_view(chain_head),
                fold_rows(empty_fold(), rows) == Ok::<FoldModel, Failure>(base),
                fold_entries(base, head, logged.take(next as int)) == Ok::<FoldModel, Failure>(
                    view@,
                ),
                option_view(previous) == head_after(head, logged.take(next as int)),
            decreases entries.len() - next,
        {
            let entry = &entries[next];
            let ghost before = view@;
            assert(logged.take(next + 1).drop_last() =~= logged.take(next as int));
            assert(logged.take(next + 1).last() == entry@);
            if !same_head(entry.previous_entry_digest(), previous) || !entry.is_sealed() {
                let error = Error::VersionedChainBroken {
                    sequence: entry.commit_sequence().value(),
                };
                proof {
                    lemma_entries_fail(base, head, logged, next + 1, error@);
                }
                return Err(error);
            }
            match view.apply_operations(entry.operations()) {
                Ok(()) => {},
                Err(error) => {
                    proof {
                        lemma_entries_fail(base, head, logged, next + 1, error@);
                    }
                    return Err(error);
                },
            }
            previous = Some(entry.entry_digest());
            next = next + 1;
        }
        assert(logged.take(next as int) =~= logged);
        Ok(view)
    }

    fn apply_checkpoint_row(&mut self, row: &ViewRow) -> (outcome: Result<(), Error>)
        ensures
            match outcome {
                Ok(()) => fold_row(old(self)@, row@) == Ok::<FoldModel, Failure>(final(self)@),
                Err(error) => {
                    &&& fold_row(old(self)@, row@) == Err::<FoldModel, Failure>(error@)
                    &&& final(self)@ == old(self)@
                },
            },
    {
        if row.payload().is_tombstone() {
            return Err(
                Error::ReplayTombstonePayload { table: row.family().table_name().to_owned() },
            );
        }
        self.write(row.family(), row.key(), row.payload().clone());
        Ok(())
    }

    fn apply_operations(&mut self, operations: &NonEmpty<VersionedLogOperation>) -> (outcome: Result<
        (),
        Error,
    >)
        ensures
            match outcome {
                Ok(()) => fold_operations(old(self)@, views(operations@)) == Ok::<
                    FoldModel,
                    Failure,
                >(final(self)@),
                Err(error) => {
                    &&& fold_operations(old(self)@, views(operations@)) == Err::<
                        FoldModel,
                        Failure,
                    >(error@)
                    &&& exists|at: int|
                        {
                            &&& 0 <= at < operations@.len()
                            &&& fold_operations(old(self)@, #[trigger] views(operations@).take(at))
                                == Ok::<FoldModel, Failure>(final(self)@)
                            &&& fold_operation(final(self)@, views(operations@)[at]) == Err::<
                                FoldModel,
                                Failure,
                            >(error@)
                        }
                },
            },
    {
        let mut at: usize = 0;
        let ghost models = views(operations@);
        let ghost base = self@;
        assert(models.take(0) =~= Seq::empty());
        while at < operations.len()
            invariant
                at <= operations@.len(),
                models == views(operations@),
                base == old(self)@,
                fold_operations(base, models.take(at as int)) == Ok::<FoldModel, Failure>(self@),
            decreases operations@.len() - at,
        {
            let operation = operations.get(at);
            assert(models.take(at + 1).drop_last() =~= models.take(at as int));
            assert(models.take(at + 1).last() == operation@);
            match self.apply_operation(operation) {
                Ok(()) => {},
                Err(error) => {
                    proof {
                        lemma_operations_fail(base, models, at + 1, error@);
                    }
                    return Err(error);
                },
            }
            at = at + 1;
        }
        assert(models.take(at as int) =~= models);
        Ok(())
    }

    fn apply_operation(&mut self, operation: &VersionedLogOperation) -> (outcome: Result<(), Error>)
        ensures
            match outcome {
                Ok(()) => fold_operation(old(self)@, operation@) == Ok::<FoldModel, Failure>(
                    final(self)@,
                ),
                Err(error) => {
                    &&& fold_operation(old(self)@, operation@) == Err::<FoldModel, Failure>(error@)
                    &&& final(self)@ == old(self)@
                },
            },
    {
        let family = operation.family();
        let key: &RecordKey = match operation.key() {
            Some(key) => key,
            None => {
                return Err(
                    Error::ReplayMissingKey { family: family.family().as_str().to_owned() },
                );
            },
        };
        match operation.operation() {
            SemaOperation::Assert | SemaOperation::Mutate => {
                if operation.payload().is_tombstone() {
                    return Err(
                        Error::ReplayTombstonePayload { table: family.table_name().to_owned() },
                    );
                }
                self.write(family, key, operation.payload().clone());
            },
            SemaOperation::Retract => {
                self.write(family, key, VersionedPayload::tombstone());
            },
            other => {
                return Err(
                    Error::ReplayUnsupportedOperation {
                        operation: other.as_record_head().to_owned(),
                    },
                );
            },
        }
        Ok(())
    }

    /// The digest of the view's records.
    pub fn digest(&self) -> (digest: ViewDigest)
        ensures
            digest@ == view_digest(self@.cells),
    {
        let mut body: Vec<u8> = Vec::new();
        let mut count: u64 = 0;
        let mut at: usize = 0;
        let total: usize = self.cells.len();
        let ghost listing = self.cells.listing();
        proof {
            lemma_view_listing(listing);
        }
        assert(listing.take(0) =~= Seq::empty());
        assert(cell_inputs(select(listing.take(0), true)) =~= Seq::empty());
        while at < total
            invariant
                at <= total,
                total == listing.len(),
                listing == self.cells.listing(),
                count == select(listing.take(at as int), true).len(),
                count <= at,
                body@ == joined(cell_inputs(select(listing.take(at as int), true))),
            decreases total - at,
        {
            let payload = self.cells.value_at(at);
            let key = self.cells.key_at(at);
            let ghost before = select(listing.take(at as int), true);
            assert(listing.take(at + 1).drop_last() =~= listing.take(at as int));
            if let Some(bytes) = payload.bytes() {
                update_text(&mut body, key.version().family().as_str());
                update_bytes(&mut body, key.version().schema_hash().bytes());
                key.key().update_digest(&mut body);
                update_bytes(&mut body, bytes);
                count = count + 1;
                proof {
                    let cell = listing[at as int];
                    let after = before.push(cell);
                    assert(cell_inputs(after) =~= cell_inputs(before).push(cell_input(cell)));
                    lemma_joined_push(cell_inputs(before), cell_input(cell));
                    assert(body@ =~= joined(cell_inputs(before)) + cell_input(cell));
                }
            }
            at = at + 1;
        }
        assert(listing.take(at as int) =~= listing);
        let mut input: Vec<u8> = Vec::new();
        update_text(&mut input, "sema-engine-view-digest-v1");
        update_u64(&mut input, count);
        input.append(&mut body);
        let ghost rows = kept_rows(self@.cells);
        assert(rows == select(listing, true));
        assert(input@ =~= framed(encode_utf8("sema-engine-view-digest-v1"@)) + counted(
            cell_inputs(rows),
        ));
        ViewDigest::new(blake3_hash(input.as_slice()))
    }

    /// Project the view into materializable rows, each with its full
    /// family identity. Coordinates that the fold touched but did not
    /// keep become tombstone rows that clear stale state.
    pub fn into_rows(self, inventory: &[FamilyIdentity]) -> (outcome: Result<
        MaterializeRows,
        Error,
    >)
        ensures
            match outcome {
                Ok(rows) => materialized(self@, views(inventory@)) == Ok::<
                    MaterializeModel,
                    Failure,
                >(rows@),
                Err(error) => materialized(self@, views(inventory@)) == Err::<
                    MaterializeModel,
                    Failure,
                >(error@),
            },
    {
        let cleared: Vec<ViewRow> = match self.selected(inventory, false) {
            Ok(cleared) => cleared,
            Err(error) => {
                return Err(error);
            },
        };
        match self.selected(inventory, true) {
            Ok(rows) => Ok(MaterializeRows { rows, cleared }),
            Err(error) => Err(error),
        }
    }

    fn selected(&self, inventory: &[FamilyIdentity], kept: bool) -> (outcome: Result<
        Vec<ViewRow>,
        Error,
    >)
        ensures
            match outcome {
                Ok(rows) => resolved_rows(
                    self@.identities,
                    views(inventory@),
                    select(view_listing(self@.cells), kept),
                ) == Ok::<Seq<RowModel>, Failure>(views(rows@)),
                Err(error) => resolved_rows(
                    self@.identities,
                    views(inventory@),
                    select(view_listing(self@.cells), kept),
                ) == Err::<Seq<RowModel>, Failure>(error@),
            },
    {
        let mut rows: Vec<ViewRow> = Vec::new();
        let mut at: usize = 0;
        let total: usize = self.cells.len();
        let ghost listing = self.cells.listing();
        proof {
            lemma_view_listing(listing);
        }
        let ghost known = views(inventory@);
        let ghost identities = self@.identities;
        assert(listing.take(0) =~= Seq::empty());
        assert(views(rows@) =~= Seq::empty());
        while at < total
            invariant
                at <= total,
                total == listing.len(),
                listing == self.cells.listing(),
                listing == view_listing(self@.cells),
                known == views(inventory@),
                identities == self@.identities,
                resolved_rows(identities, known, select(listing.take(at as int), kept)) == Ok::<
                    Seq<RowModel>,
                    Failure,
                >(views(rows@)),
            decreases total - at,
        {
            let payload = self.cells.value_at(at);
            let key = self.cells.key_at(at);
            let ghost before = select(listing.take(at as int), kept);
            let ghost cell = listing[at as int];
            assert(listing.take(at + 1).drop_last() =~= listing.take(at as int));
            if payload.is_tombstone() != kept {
                assert(before.push(cell).drop_last() =~= before);
                match self.resolve_identity(inventory, key.version()) {
                    Ok(family) => {
                        let row: ViewRow = ViewRow::new(family, key.key().clone(), payload.clone());
                        proof {
                            lemma_views_push(rows@, row);
                        }
                        rows.push(row);
                    },
                    Err(error) => {
                        proof {
                            lemma_select_fails(
                                identities,
                                known,
                                listing,
                                kept,
                                at + 1,
                                error@,
                            );
                        }
                        return Err(error);
                    },
                }
            }
            at = at + 1;
        }
        assert(listing.take(at as int) =~= listing);
        Ok(rows)
    }

    /// Resolve a folded key's full identity: the fold's own declarations
    /// first, then the supplied inventory.
    fn resolve_identity(&self, inventory: &[FamilyIdentity], version: &FamilyVersion) -> (outcome:
        Result<FamilyIdentity, Error>)
        ensures
            match outcome {
                Ok(identity) => resolved(self@.identities, views(inventory@), version@) == Some(
                    identity@,
                ),
                Err(error) => {
                    &&& resolved(self@.identities, views(inventory@), version@) is None
                    &&& error@ == (Failure::FamilyUnknown { family: version@.0 })
                },
            },
    {
        if let Some(identity) = self.identities.get(version) {
            return Ok(identity.clone());
        }
        let mut at: usize = 0;
        let ghost known = views(inventory@);
        assert(known.skip(0) =~= known);
        while at < inventory.len()
            invariant
                at <= inventory.len(),
                known == views(inventory@),
                !self@.identities.dom().contains(version@),
                family_of(known, version@) == family_of(known.skip(at as int), version@),
            decreases inventory.len() - at,
        {
            let identity = &inventory[at];
            assert(known.skip(at as int)[0] == identity@);
            assert(known.skip(at as int).drop_first() =~= known.skip(at + 1));
            if *identity.family() == *version.family() && identity.schema_hash()
                == version.schema_hash() {
                return Ok(identity.clone());
            }
            at = at + 1;
        }
        Err(Error::FamilyUnknown { family: version.family().as_str().to_owned() })
    }
}

/// Whether two optional digests agree.
pub fn same_head(a: Option<EntryDigest>, b: Option<EntryDigest>) -> (same: bool)
    ensures
        same == (option_view(a) == option_view(b)),
{
    match (a, b) {
        (Some(x), Some(y)) => x == y,
        (None, None) => true,
        _ => false,
    }
}

proof fn lemma_rows_fail(view: FoldModel, rows: Seq<RowModel>, at: int, failure: Failure)
    requires
        0 <= at <= rows.len(),
        fold_rows(view, rows.take(at)) == Err::<FoldModel, Failure>(failure),
    ensures
        fold_rows(view, rows) == Err::<FoldModel, Failure>(failure),
    decreases rows.len() - at,
{
    if at == rows.len() {
        assert(rows.take(at) =~= rows);
    } else {
        assert(rows.take(at + 1).drop_last() =~= rows.take(at));
        lemma_rows_fail(view, rows, at + 1, failure);
    }
}

proof fn lemma_operations_fail(
    view: FoldModel,
    operations: Seq<OperationModel>,
    at: int,
    failure: Failure,
)
    requires
        0 <= at <= operations.len(),
        fold_operations(view, operations.take(at)) == Err::<FoldModel, Failure>(failure),
    ensures
        fold_operations(view, operations) == Err::<FoldModel, Failure>(failure),
    decreases operations.len() - at,
{
    if at == operations.len() {
        assert(operations.take(at) =~= operations);
    } else {
        assert(operations.take(at + 1).drop_last() =~= operations.take(at));
        lemma_operations_fail(view, operations, at + 1, failure);
    }
}

proof fn lemma_entries_fail(
    view: FoldModel,
    head: Option<Seq<u8>>,
    entries: Seq<EntryModel>,
    at: int,
    failure: Failure,
)
    requires
        0 <= at <= entries.len(),
        fold_entries(view, head, entries.take(at)) == Err::<FoldModel, Failure>(failure),
    ensures
        fold_entries(view, head, entries) == Err::<FoldModel, Failure>(failure),
    decreases entries.len() - at,
{
    if at == entries.len() {
        assert(entries.take(at) =~= entries);
    } else {
        assert(entries.take(at + 1).drop_last() =~= entries.take(at));
        lemma_entries_fail(view, head, entries, at + 1, failure);
    }
}

proof fn lemma_select_fails(
    identities: Map<(Seq<char>, Seq<u8>), FamilyModel>,
    inventory: Seq<FamilyModel>,
    listing: Seq<(Coordinate, Option<Seq<u8>>)>,
    kept: bool,
    at: int,
    failure: Failure,
)
    requires
        0 <= at <= listing.len(),
        resolved_rows(identities, inventory, select(listing.take(at), kept)) == Err::<
            Seq<RowModel>,
            Failure,
        >(failure),
    ensures
        resolved_rows(identities, inventory, select(listing, kept)) == Err::<
            Seq<RowModel>,
            Failure,
        >(failure),
    decreases listing.len() - at,
{
    if at == listing.len() {
        assert(listing.take(at) =~= listing);
    } else {
        assert(listing.take(at + 1).drop_last() =~= listing.take(at));
        let before = select(listing.take(at), kept);
        assert(before.push(listing[at]).drop_last() =~= before);
        lemma_select_fails(identities, inventory, listing, kept, at + 1, failure);
    }
}

/// The materializable projection of a folded view: the final rows to
/// insert, and the tombstone rows that clear keys the fold touched but
/// did not keep.
#[derive(Debug, PartialEq, Eq)]
pub struct MaterializeRows {
    rows: Vec<ViewRow>,
    cleared: Vec<ViewRow>,
}

impl View for MaterializeRows {
    type V = MaterializeModel;

    closed spec fn view(&self) -> MaterializeModel {
        MaterializeModel { rows: views(self.rows@), cleared: views(self.cleared@) }
    }
}

impl MaterializeRows {
    pub fn rows(&self) -> (rows: &[ViewRow])
        ensures
            views(rows@) == self@.rows,
    {
        self.rows.as_slice()
    }

    pub fn cleared(&self) -> (rows: &[ViewRow])
        ensures
            views(rows@) == self@.cleared,
    {
        self.cleared.as_slice()
    }

    /// All rows in application order: clears first, then inserts.
    pub fn iter(&self) -> (rows: Vec<ViewRow>)
        ensures
            views(rows@) == self@.cleared + self@.rows,
    {
        let mut rows: Vec<ViewRow> = self.cleared.clone();
        let mut kept: Vec<ViewRow> = self.rows.clone();
        assert(views(rows@) =~= self@.cleared);
        assert(views(kept@) =~= self@.rows);
        let ghost first = rows@;
        let ghost second = kept@;
        rows.append(&mut kept);
        assert(views(rows@) =~= views(first) + views(second));
        rows
    }
}

/// Receipt of a rebuild: the digest naming the refolded view and how it
/// materialized.
#[derive(Debug, Clone, Copy, PartialEq, Eq)]
pub struct RebuildReceipt {
    view_digest: ViewDigest,
    row_count: usize,
    cleared_count: usize,
    folded_entry_count: usize,
}

/// A rebuild receipt as plain values.
pub struct RebuildModel {
    pub view_digest: Seq<u8>,
    pub row_count: nat,
    pub cleared_count: nat,
    pub folded_entry_count: nat,
}

impl View for RebuildReceipt {
    type V = RebuildModel;

    closed spec fn view(&self) -> RebuildModel {
        RebuildModel {
            view_digest: self.view_digest@,
            row_count: self.row_count as nat,
            cleared_count: self.cleared_count as nat,
            folded_entry_count: self.folded_entry_count as nat,
        }
    }
}

impl RebuildReceipt {
    pub fn new(
        view_digest: ViewDigest,
        row_count: usize,
        cleared_count: usize,
        folded_entry_count: usize,
    ) -> (receipt: Self)
        ensures
            receipt@ == (RebuildModel {
                view_digest: view_digest@,
                row_count: row_count as nat,
                cleared_count: cleared_count as nat,
                folded_entry_count: folded_entry_count as nat,
            }),
    {
        RebuildReceipt { view_digest, row_count, cleared_count, folded_entry_count }
    }

    pub fn view_digest(&self) -> (digest: ViewDigest)
        ensures
            digest@ == self@.view_digest,
    {
        self.view_digest
    }

    pub fn row_count(&self) -> (count: usize)
        ensures
            count == self@.row_count,
    {
        self.row_count
    }

    pub fn cleared_count(&self) -> (count: usize)
        ensures
            count == self@.cleared_count,
    {
        self.cleared_count
    }

    /// How many versioned log entries the fold applied on top of the
    /// checkpoint rows.
    pub fn folded_entry_count(&self) -> (count: usize)
        ensures
            count == self@.folded_entry_count,
    {
        self.folded_entry_count
    }
}

/// Why a row cannot land in a domain-keyed table, if it cannot.
pub open spec fn domain_refusal(row: RowModel, table: Seq<char>) -> Option<Failure> {
    if table != row.family.table {
        Some(
            Failure::MaterializeTableMismatch {
                family: row.family.family,
                expected: row.family.table,
                supplied: table,
            },
        )
    } else {
        match row.key {
            KeyModel::Domain(_) => None,
            KeyModel::Identifier(_) => Some(
                Failure::MaterializeKeyKindMismatch {
                    table,
                    key: key_text(row.key),
                    expected: "domain"@,
                    found: "identifier"@,
                },
            ),
        }
    }
}

/// Why a row cannot land in an engine-identified table, if it cannot.
pub open spec fn identified_refusal(row: RowModel, table: Seq<char>) -> Option<Failure> {
    if table != row.family.table {
        Some(
            Failure::MaterializeTableMismatch {
                family: row.family.family,
                expected: row.family.table,
                supplied: table,
            },
        )
    } else {
        match row.key {
            KeyModel::Identifier(_) => None,
            KeyModel::Domain(_) => Some(
                Failure::MaterializeKeyKindMismatch {
                    table,
                    key: key_text(row.key),
                    expected: "identifier"@,
                    found: "domain"@,
                },
            ),
        }
    }
}

/// What a directory made of a row that it was handed: the row lands in its
/// table, or it is left out.
#[derive(Debug)]
pub struct RowLanding {
    row: Option<ViewRow>,
}

impl View for RowLanding {
    type V = Option<RowModel>;

    closed spec fn view(&self) -> Option<RowModel> {
        option_view(self.row)
    }
}

impl RowLanding {
    /// What the landing leaves of record tables.
    pub open spec fn leaves(&self, tables: TablesModel) -> TablesModel {
        match self@ {
            Some(row) => placed(tables, row.family.table, key_slot(row.key), row.payload),
            None => tables,
        }
    }

    /// Leave a row out: its table stays as it is.
    pub fn left_out() -> (landing: Self)
        ensures
            landing@ is None,
            forall|tables: TablesModel| #[trigger] landing.leaves(tables) == tables,
    {
        RowLanding { row: None }
    }

    pub fn lands(&self) -> (lands: bool)
        ensures
            lands == (self@ is Some),
    {
        self.row.is_some()
    }
}

/// The record tables after a payload landed at a key of a domain-keyed
/// table: the key holds the record, or nothing for a tombstone, and no
/// other row, table or counter is written.
pub open spec fn domain_row_left(
    tables: TablesModel,
    table: Seq<char>,
    key: Seq<char>,
    payload: Option<Seq<u8>>,
) -> TablesModel {
    TablesModel {
        records: match payload {
            Some(bytes) => tables.records.insert((table, key), bytes),
            None => tables.records.remove((table, key)),
        },
        ..tables
    }
}

/// The record tables after a payload landed at an identifier of an
/// engine-identified table: the identifier holds the record, or nothing
/// for a tombstone, and no other row, table or counter is written.
pub open spec fn identified_row_left(
    tables: TablesModel,
    table: Seq<char>,
    identifier: u64,
    payload: Option<Seq<u8>>,
) -> TablesModel {
    TablesModel {
        identified: match payload {
            Some(bytes) => tables.identified.insert((table, identifier), bytes),
            None => tables.identified.remove((table, identifier)),
        },
        ..tables
    }
}

/// Why a row whose payload was read back as a record lands nowhere, given
/// why its key or table refuses it.
pub open spec fn read_refusal(
    row: RowModel,
    refused: Option<Failure>,
    read: Option<Seq<char>>,
) -> Option<Failure> {
    match (refused, row.payload, read) {
        (Some(failure), _, _) => Some(failure),
        (None, Some(_), Some(message)) => Some(
            Failure::VersionedPayloadDecode { table: row.family.table, message },
        ),
        _ => None,
    }
}

/// Reading a row's payload back came to this. A row that is refused for
/// its table or its key is not read, and a tombstone has nothing to read.
pub open spec fn row_read<RecordValue: EngineStoredValue>(
    row: RowModel,
    refused: Option<Failure>,
    unread: Option<Seq<char>>,
) -> bool {
    match (refused, row.payload) {
        (None, Some(bytes)) => read_as::<RecordValue>(bytes, unread),
        _ => unread is None,
    }
}

/// What applying a row comes to, given why its table or key refuses it and
/// why its payload did not read back.
pub open spec fn row_applied(
    row: RowModel,
    refused: Option<Failure>,
    unread: Option<Seq<char>>,
    outcome: Result<RowLanding, Error>,
) -> bool {
    match outcome {
        Ok(landing) => read_refusal(row, refused, unread) is None && landing@ == Some(row),
        Err(error) => read_refusal(row, refused, unread) == Some(error@),
    }
}

/// The rows that land of those a directory was handed.
pub open spec fn landed_rows(rows: Seq<RowModel>, taken: Seq<bool>) -> Seq<RowModel>
    decreases rows.len(),
{
    if rows.len() == 0 {
        Seq::empty()
    } else {
        let before = landed_rows(rows.drop_last(), taken);
        if rows.len() <= taken.len() && taken[rows.len() - 1] {
            before.push(rows.last())
        } else {
            before
        }
    }
}

/// Where every row is taken, every row lands.
pub proof fn lemma_all_land(rows: Seq<RowModel>, taken: Seq<bool>)
    requires
        rows.len() <= taken.len(),
        forall|i: int| 0 <= i < rows.len() ==> #[trigger] taken[i],
    ensures
        landed_rows(rows, taken) == rows,
    decreases rows.len(),
{
    if rows.len() > 0 {
        lemma_all_land(rows.drop_last(), taken);
        assert(rows.drop_last().push(rows.last()) =~= rows);
    } else {
        assert(landed_rows(rows, taken) =~= rows);
    }
}

/// One view row on its way into its table. A directory picks the table
/// reference; the row lands nowhere else.
#[derive(Debug, PartialEq, Eq)]
pub struct RowMaterializer {
    row: ViewRow,
}

impl View for RowMaterializer {
    type V = RowModel;

    closed spec fn view(&self) -> RowModel {
        self.row@
    }
}

impl RowMaterializer {
    pub fn new(row: ViewRow) -> (materializer: Self)
        ensures
            materializer@ == row@,
    {
        RowMaterializer { row }
    }

    pub fn family(&self) -> (family: &FamilyIdentity)
        ensures
            family@ == self@.family,
    {
        self.row.family()
    }

    pub fn key(&self) -> (key: &RecordKey)
        ensures
            key@ == self@.key,
    {
        self.row.key()
    }

    pub fn payload(&self) -> (payload: &VersionedPayload)
        ensures
            payload@ == self@.payload,
    {
        self.row.payload()
    }

    /// Apply the row to a domain-keyed table: its record, once it was read
    /// back, lands under its key, or the key is cleared for a tombstone.
    pub fn apply<RecordValue: EngineStoredValue>(
        self,
        table: TableReference<RecordValue>,
    ) -> (outcome: Result<RowLanding, Error>)
        ensures
            exists|unread: Option<Seq<char>>|
                {
                    &&& row_read::<RecordValue>(self@, domain_refusal(self@, table@), unread)
                    &&& #[trigger] row_applied(
                        self@,
                        domain_refusal(self@, table@),
                        unread,
                        outcome,
                    )
                },
            outcome matches Ok(landing) ==> forall|tables: TablesModel| #[trigger]
                landing.leaves(tables) == domain_row_left(
                    tables,
                    table@,
                    self@.key->Domain_0,
                    self@.payload,
                ),
    {
        match self.domain_refusal(table.name()) {
            Some(error) => {
                assert(row_applied(
                    self@,
                    domain_refusal(self@, table@),
                    None,
                    Err::<RowLanding, Error>(error),
                ));
                Err(error)
            },
            None => {
                let read: Result<(), String> = match self.row.payload().bytes() {
                    Some(bytes) => read_stored::<RecordValue>(bytes),
                    None => Ok(()),
                };
                let ghost unread = message_view(read);
                let outcome = self.apply_read(table, read);
                assert(row_read::<RecordValue>(self@, domain_refusal(self@, table@), unread));
                assert(row_applied(self@, domain_refusal(self@, table@), unread, outcome));
                outcome
            },
        }
    }

    /// Apply the row to a domain-keyed table, given what reading its
    /// payload back as a record of the table came to.
    pub fn apply_read<RecordValue>(
        self,
        table: TableReference<RecordValue>,
        read: Result<(), String>,
    ) -> (outcome: Result<RowLanding, Error>)
        ensures
            row_applied(self@, domain_refusal(self@, table@), message_view(read), outcome),
            outcome matches Ok(landing) ==> forall|tables: TablesModel| #[trigger]
                landing.leaves(tables) == domain_row_left(
                    tables,
                    table@,
                    self@.key->Domain_0,
                    self@.payload,
                ),
    {
        match self.domain_refusal(table.name()) {
            Some(error) => Err(error),
            None => match self.unread(read) {
                Some(error) => Err(error),
                None => Ok(RowLanding { row: Some(self.row) }),
            },
        }
    }

    /// Why the row cannot land in a table of this name, if it cannot.
    fn domain_refusal(&self, table: &TableName) -> (refusal: Option<Error>)
        ensures
            option_view(refusal) == domain_refusal(self@, table@),
    {
        match self.check_table(table) {
            Ok(()) => {},
            Err(error) => {
                return Some(error);
            },
        }
        match self.row.key().kind() {
            RecordKeyKind::Domain => None,
            RecordKeyKind::Identifier => Some(
                Error::MaterializeKeyKindMismatch {
                    table: table.as_str().to_owned(),
                    key: self.row.key().to_owned_string(),
                    expected: "domain",
                    found: "identifier",
                },
            ),
        }
    }

    /// Apply the row to an engine-identified table: its record, once it was
    /// read back, lands under the identifier that was minted when the
    /// operation was logged, or the identifier is cleared for a tombstone.
    pub fn apply_identified<RecordValue: EngineStoredValue>(
        self,
        table: IdentifiedTableReference<RecordValue>,
    ) -> (outcome: Result<RowLanding, Error>)
        ensures
            exists|unread: Option<Seq<char>>|
                {
                    &&& row_read::<RecordValue>(self@, identified_refusal(self@, table@), unread)
                    &&& #[trigger] row_applied(
                        self@,
                        identified_refusal(self@, table@),
                        unread,
                        outcome,
                    )
                },
            outcome matches Ok(landing) ==> forall|tables: TablesModel| #[trigger]
                landing.leaves(tables) == identified_row_left(
                    tables,
                    table@,
                    self@.key->Identifier_0,
                    self@.payload,
                ),
    {
        match self.identified_refusal(table.name()) {
            Some(error) => {
                assert(row_applied(
                    self@,
                    identified_refusal(self@, table@),
                    None,
                    Err::<RowLanding, Error>(error),
                ));
                Err(error)
            },
            None => {
                let read: Result<(), String> = match self.row.payload().bytes() {
                    Some(bytes) => read_stored::<RecordValue>(bytes),
                    None => Ok(()),
                };
                let ghost unread = message_view(read);
                let outcome = self.apply_identified_read(table, read);
                assert(row_read::<RecordValue>(self@, identified_refusal(self@, table@), unread));
                assert(row_applied(self@, identified_refusal(self@, table@), unread, outcome));
                outcome
            },
        }
    }

    /// Apply the row to an engine-identified table, given what reading its
    /// payload back as a record of the table came to.
    pub fn apply_identified_read<RecordValue>(
        self,
        table: IdentifiedTableReference<RecordValue>,
        read: Result<(), String>,
    ) -> (outcome: Result<RowLanding, Error>)
        ensures
            row_applied(self@, identified_refusal(self@, table@), message_view(read), outcome),
            outcome matches Ok(landing) ==> forall|tables: TablesModel| #[trigger]
                landing.leaves(tables) == identified_row_left(
                    tables,
                    table@,
                    self@.key->Identifier_0,
                    self@.payload,
                ),
    {
        match self.identified_refusal(table.name()) {
            Some(error) => Err(error),
            None => match self.unread(read) {
                Some(error) => Err(error),
                None => Ok(RowLanding { row: Some(self.row) }),
            },
        }
    }

    /// Why the row cannot land in a table of this name, if it cannot.
    fn identified_refusal(&self, table: &TableName) -> (refusal: Option<Error>)
        ensures
            option_view(refusal) == identified_refusal(self@, table@),
    {
        match self.check_table(table) {
            Ok(()) => {},
            Err(error) => {
                return Some(error);
            },
        }
        match self.row.key().kind() {
            RecordKeyKind::Identifier => None,
            RecordKeyKind::Domain => Some(
                Error::MaterializeKeyKindMismatch {
                    table: table.as_str().to_owned(),
                    key: self.row.key().to_owned_string(),
                    expected: "identifier",
                    found: "domain",
                },
            ),
        }
    }

    /// The refusal of a record that did not read back. A tombstone has
    /// nothing to read.
    fn unread(&self, read: Result<(), String>) -> (refusal: Option<Error>)
        ensures
            option_view(refusal) == read_refusal(self@, None, message_view(read)),
    {
        match read {
            Ok(_) => None,
            Err(message) => {
                if self.row.payload().is_tombstone() {
                    None
                } else {
                    Some(
                        Error::VersionedPayloadDecode {
                            table: self.row.family().table_name().to_owned(),
                            message,
                        },
                    )
                }
            },
        }
    }

    fn check_table(&self, supplied: &TableName) -> (outcome: Result<(), Error>)
        ensures
            match outcome {
                Ok(()) => supplied@ == self@.family.table,
                Err(error) => {
                    &&& supplied@ != self@.family.table
                    &&& error@ == (Failure::MaterializeTableMismatch {
                        family: self@.family.family,
                        expected: self@.family.table,
                        supplied: supplied@,
                    })
                },
            },
    {
        if same_text(supplied.as_str(), self.row.family().table_name()) {
            Ok(())
        } else {
            Err(
                Error::MaterializeTableMismatch {
                    family: self.row.family().family().as_str().to_owned(),
                    expected: self.row.family().table_name().to_owned(),
                    supplied: supplied.as_str().to_owned(),
                },
            )
        }
    }
}

/// A component's knowledge of its record families. The engine folds the
/// log; the directory applies each row to its table, leaves it out, or
/// refuses it. A row lands only where the directory applied it.
pub trait FamilyDirectory {
    fn materialize(&self, row: RowMaterializer) -> Result<RowLanding, Error>;

    /// The table whose subscribers are to be told of a staged write that
    /// landed. By default no one is told.
    fn announce(&self, _delta: DeltaAnnouncer) -> Result<Option<TableName>, Error> {
        Ok(None)
    }
}

} // verus!
