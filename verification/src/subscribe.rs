//! Subscriptions: who is told of which writes, and what they are told.

use vstd::prelude::*;
use vstd::string::*;

use crate::models::{lemma_views_push, option_view, views, Duplicate};
use crate::operation::SemaOperation;
use crate::query::{filter_accepts, FilterModel, QueryFilter, QuerySnapshot, QuerySnapshotModel};
use crate::record::{EncodedRecord, KeyModel, RecordKey, RecordModel};
use crate::snapshot::SnapshotIdentifier;
use crate::table::TableName;

verus! {

/// Ordinal of a subscription within one store, counting from one.
#[derive(Debug, Clone, Copy, PartialEq, Eq, PartialOrd, Ord, Hash, Structural)]
pub struct SubscriptionId {
    value: u64,
}

impl View for SubscriptionId {
    type V = u64;

    closed spec fn view(&self) -> u64 {
        self.value
    }
}

impl SubscriptionId {
    pub fn new(value: u64) -> (made: Self)
        ensures
            made@ == value,
    {
        SubscriptionId { value }
    }

    pub fn first() -> (made: Self)
        ensures
            made@ == 1,
    {
        SubscriptionId { value: 1 }
    }

    pub fn value(self) -> (value: u64)
        ensures
            value == self@,
    {
        self.value
    }

    pub fn next(self) -> (made: Self)
        requires
            self@ < u64::MAX,
        ensures
            made@ == self@ + 1,
    {
        SubscriptionId { value: self.value + 1 }
    }
}

/// The identifier of a subscription, by its long name.
pub type SubscriptionIdentifier = SubscriptionId;

/// What a subscriber holds: its subscription, the table, and the committed
/// state the subscription began from.
#[derive(Debug, Clone, Copy, PartialEq, Eq)]
pub struct SubscriptionHandle {
    id: SubscriptionId,
    table: TableName,
    snapshot: SnapshotIdentifier,
}

/// A subscription handle as plain values.
pub struct HandleModel {
    pub id: u64,
    pub table: Seq<char>,
    pub snapshot: u64,
}

impl View for SubscriptionHandle {
    type V = HandleModel;

    closed spec fn view(&self) -> HandleModel {
        HandleModel {
            id: self.id@,
            table: self.table@,
            snapshot: self.snapshot@,
        }
    }
}

impl SubscriptionHandle {
    pub fn new(id: SubscriptionId, table: TableName, snapshot: SnapshotIdentifier) -> (made: Self)
        ensures
            made@ == (HandleModel {
                id: id@,
                table: table@,
                snapshot: snapshot@,
            }),
    {
        SubscriptionHandle { id, table, snapshot }
    }

    pub fn id(&self) -> (found: SubscriptionId)
        ensures
            found@ == self@.id,
    {
        self.id
    }

    pub fn table(&self) -> (found: &TableName)
        ensures
            found@ == self@.table,
    {
        &self.table
    }

    pub fn snapshot(&self) -> (found: SnapshotIdentifier)
        ensures
            found@ == self@.snapshot,
    {
        self.snapshot
    }
}

/// The durable record of a subscription. A reopened store still has it;
/// the sink has to subscribe anew.
#[derive(Debug, PartialEq, Eq)]
pub struct SubscriptionRegistration {
    id: SubscriptionId,
    table_name: String,
    filter: QueryFilter,
    snapshot: SnapshotIdentifier,
}

/// A subscription registration as plain values.
pub struct RegistrationModel {
    pub id: u64,
    pub table: Seq<char>,
    pub filter: FilterModel,
    pub snapshot: u64,
}

impl View for SubscriptionRegistration {
    type V = RegistrationModel;

    closed spec fn view(&self) -> RegistrationModel {
        RegistrationModel {
            id: self.id@,
            table: self.table_name@,
            filter: self.filter@,
            snapshot: self.snapshot@,
        }
    }
}

impl Clone for SubscriptionRegistration {
    fn clone(&self) -> (copy: Self)
        ensures
            copy@ == self@,
    {
        SubscriptionRegistration {
            id: self.id,
            table_name: self.table_name.clone(),
            filter: self.filter.clone(),
            snapshot: self.snapshot,
        }
    }
}

impl Duplicate for SubscriptionRegistration {
    fn duplicate(&self) -> (copy: Self) {
        self.clone()
    }
}

impl SubscriptionRegistration {
    pub fn new(handle: SubscriptionHandle, filter: QueryFilter) -> (registration: Self)
        ensures
            registration@ == (RegistrationModel {
                id: handle@.id,
                table: handle@.table,
                filter: filter@,
                snapshot: handle@.snapshot,
            }),
    {
        SubscriptionRegistration {
            id: handle.id(),
            table_name: handle.table().as_str().to_owned(),
            filter,
            snapshot: handle.snapshot(),
        }
    }

    /// A registration read back from storage, its table name as it was
    /// stored.
    pub fn stored(
        id: SubscriptionId,
        table_name: String,
        filter: QueryFilter,
        snapshot: SnapshotIdentifier,
    ) -> (registration: Self)
        ensures
            registration@ == (RegistrationModel {
                id: id@,
                table: table_name@,
                filter: filter@,
                snapshot: snapshot@,
            }),
    {
        SubscriptionRegistration { id, table_name, filter, snapshot }
    }

    pub fn id(&self) -> (id: SubscriptionId)
        ensures
            id@ == self@.id,
    {
        self.id
    }

    pub fn table_name(&self) -> (name: &str)
        ensures
            name@ == self@.table,
    {
        self.table_name.as_str()
    }

    pub fn filter(&self) -> (filter: &QueryFilter)
        ensures
            filter@ == self@.filter,
    {
        &self.filter
    }

    pub fn snapshot(&self) -> (snapshot: SnapshotIdentifier)
        ensures
            snapshot@ == self@.snapshot,
    {
        self.snapshot
    }
}

/// Which write a delta tells of.
#[derive(Debug, Clone, Copy, PartialEq, Eq, PartialOrd, Ord, Structural)]
pub enum DeltaKind {
    Assert,
    Mutate,
    Retract,
}

/// The operation that a delta tells of.
pub open spec fn delta_operation(kind: DeltaKind) -> SemaOperation {
    match kind {
        DeltaKind::Assert => SemaOperation::Assert,
        DeltaKind::Mutate => SemaOperation::Mutate,
        DeltaKind::Retract => SemaOperation::Retract,
    }
}

impl DeltaKind {
    pub fn verb(&self) -> (operation: SemaOperation)
        ensures
            operation == delta_operation(*self),
    {
        match self {
            DeltaKind::Assert => SemaOperation::Assert,
            DeltaKind::Mutate => SemaOperation::Mutate,
            DeltaKind::Retract => SemaOperation::Retract,
        }
    }
}

/// What a subscriber is handed first: the matched records of the committed
/// state its subscription begins from.
#[derive(Debug, PartialEq, Eq)]
pub struct InitialSnapshot<RecordValue> {
    handle: SubscriptionHandle,
    snapshot: QuerySnapshot<RecordValue>,
}

/// An initial snapshot as plain values.
pub struct InitialModel<RecordValue> {
    pub handle: HandleModel,
    pub snapshot: QuerySnapshotModel<RecordValue>,
}

impl<RecordValue> View for InitialSnapshot<RecordValue> {
    type V = InitialModel<RecordValue>;

    closed spec fn view(&self) -> InitialModel<RecordValue> {
        InitialModel {
            handle: self.handle@,
            snapshot: self.snapshot@,
        }
    }
}

impl<RecordValue> InitialSnapshot<RecordValue> {
    pub fn new(handle: SubscriptionHandle, snapshot: QuerySnapshot<RecordValue>) -> (made: Self)
        ensures
            made@ == (InitialModel {
                handle: handle@,
                snapshot: snapshot@,
            }),
    {
        InitialSnapshot { handle, snapshot }
    }

    pub fn handle(&self) -> (found: SubscriptionHandle)
        ensures
            found@ == self@.handle,
    {
        self.handle
    }

    pub fn snapshot(&self) -> (found: &QuerySnapshot<RecordValue>)
        ensures
            found@ == self@.snapshot,
    {
        &self.snapshot
    }
}

/// Receipt of a subscription.
#[derive(Debug, PartialEq, Eq)]
pub struct SubscriptionReceipt<RecordValue> {
    handle: SubscriptionHandle,
    initial: InitialSnapshot<RecordValue>,
}

/// A subscription receipt as plain values.
pub struct ReceiptModel<RecordValue> {
    pub handle: HandleModel,
    pub initial: InitialModel<RecordValue>,
}

impl<RecordValue> View for SubscriptionReceipt<RecordValue> {
    type V = ReceiptModel<RecordValue>;

    closed spec fn view(&self) -> ReceiptModel<RecordValue> {
        ReceiptModel {
            handle: self.handle@,
            initial: self.initial@,
        }
    }
}

impl<RecordValue> SubscriptionReceipt<RecordValue> {
    pub fn new(handle: SubscriptionHandle, initial: InitialSnapshot<RecordValue>) -> (made: Self)
        ensures
            made@ == (ReceiptModel {
                handle: handle@,
                initial: initial@,
            }),
    {
        SubscriptionReceipt { handle, initial }
    }

    pub fn handle(&self) -> (found: SubscriptionHandle)
        ensures
            found@ == self@.handle,
    {
        self.handle
    }

    pub fn initial(&self) -> (found: &InitialSnapshot<RecordValue>)
        ensures
            found@ == self@.initial,
    {
        &self.initial
    }
}

/// One committed write as a subscriber is told of it. A retraction carries
/// the record it removed.
#[derive(Debug, PartialEq, Eq)]
pub struct SubscriptionDelta<RecordValue> {
    handle: SubscriptionHandle,
    kind: DeltaKind,
    table: TableName,
    key: RecordKey,
    snapshot: SnapshotIdentifier,
    record: RecordValue,
}

/// A subscription delta as plain values.
pub struct DeltaModel<RecordValue> {
    pub handle: HandleModel,
    pub kind: DeltaKind,
    pub table: Seq<char>,
    pub key: KeyModel,
    pub snapshot: u64,
    pub record: RecordValue,
}

impl<RecordValue> View for SubscriptionDelta<RecordValue> {
    type V = DeltaModel<RecordValue>;

    closed spec fn view(&self) -> DeltaModel<RecordValue> {
        DeltaModel {
            handle: self.handle@,
            kind: self.kind,
            table: self.table@,
            key: self.key@,
            snapshot: self.snapshot@,
            record: self.record,
        }
    }
}

impl<RecordValue> SubscriptionDelta<RecordValue> {
    pub fn new(
        handle: SubscriptionHandle,
        kind: DeltaKind,
        table: TableName,
        key: RecordKey,
        snapshot: SnapshotIdentifier,
        record: RecordValue,
    ) -> (made: Self)
        ensures
            made@ == (DeltaModel {
                handle: handle@,
                kind: kind,
                table: table@,
                key: key@,
                snapshot: snapshot@,
                record: record,
            }),
    {
        SubscriptionDelta { handle, kind, table, key, snapshot, record }
    }

    pub fn handle(&self) -> (found: SubscriptionHandle)
        ensures
            found@ == self@.handle,
    {
        self.handle
    }

    pub fn kind(&self) -> (found: DeltaKind)
        ensures
            found == self@.kind,
    {
        self.kind
    }

    pub fn table(&self) -> (found: &TableName)
        ensures
            found@ == self@.table,
    {
        &self.table
    }

    pub fn key(&self) -> (found: &RecordKey)
        ensures
            found@ == self@.key,
    {
        &self.key
    }

    pub fn snapshot(&self) -> (found: SnapshotIdentifier)
        ensures
            found@ == self@.snapshot,
    {
        self.snapshot
    }

    pub fn record(&self) -> (found: &RecordValue)
        ensures
            *found == self@.record,
    {
        &self.record
    }
}

/// The model of a delta that carries an encoded record.
pub open spec fn delta_fact(delta: SubscriptionDelta<EncodedRecord>) -> DeltaModel<RecordModel> {
    DeltaModel {
        handle: delta@.handle,
        kind: delta@.kind,
        table: delta@.table,
        key: delta@.key,
        snapshot: delta@.snapshot,
        record: delta@.record@,
    }
}

/// The models of deltas that carry encoded records.
pub open spec fn delta_facts(deltas: Seq<SubscriptionDelta<EncodedRecord>>) -> Seq<
    DeltaModel<RecordModel>,
> {
    Seq::new(deltas.len(), |i: int| delta_fact(deltas[i]))
}

/// What a sink is handed.
#[derive(Debug, PartialEq, Eq)]
pub enum SubscriptionEvent<RecordValue> {
    InitialSnapshot(InitialSnapshot<RecordValue>),
    Delta(SubscriptionDelta<RecordValue>),
}

/// Why a sink did not take an event.
#[derive(Debug, PartialEq, Eq)]
pub struct SinkError {
    message: String,
}

impl View for SinkError {
    type V = Seq<char>;

    closed spec fn view(&self) -> Seq<char> {
        self.message@
    }
}

impl Clone for SinkError {
    fn clone(&self) -> (copy: Self)
        ensures
            copy@ == self@,
    {
        SinkError { message: self.message.clone() }
    }
}

impl SinkError {
    pub fn new(message: &str) -> (error: Self)
        ensures
            error@ == message@,
    {
        SinkError { message: message.to_owned() }
    }

    pub fn message(&self) -> (message: &str)
        ensures
            message@ == self@,
    {
        self.message.as_str()
    }
}

/// A delta that a sink did not take. The commit it tells of stands.
#[derive(Debug, PartialEq, Eq)]
pub struct SubscriptionDeliveryFailure {
    handle: SubscriptionHandle,
    message: String,
}

/// A delivery failure as plain values.
pub struct DeliveryFailureModel {
    pub handle: HandleModel,
    pub message: Seq<char>,
}

impl View for SubscriptionDeliveryFailure {
    type V = DeliveryFailureModel;

    closed spec fn view(&self) -> DeliveryFailureModel {
        DeliveryFailureModel { handle: self.handle@, message: self.message@ }
    }
}

impl SubscriptionDeliveryFailure {
    pub fn new(handle: SubscriptionHandle, error: SinkError) -> (failure: Self)
        ensures
            failure@ == (DeliveryFailureModel { handle: handle@, message: error@ }),
    {
        SubscriptionDeliveryFailure { handle, message: error.message }
    }

    pub fn handle(&self) -> (handle: SubscriptionHandle)
        ensures
            handle@ == self@.handle,
    {
        self.handle
    }

    pub fn message(&self) -> (message: &str)
        ensures
            message@ == self@.message,
    {
        self.message.as_str()
    }
}

/// When a sink is handed its deltas.
#[derive(Debug, Clone, Copy, PartialEq, Eq, Structural)]
pub enum SubscriptionDeliveryMode {
    /// On a thread of its own, so that a slow sink holds up no writer.
    Detached,
    /// By the writer, before its call returns.
    Inline,
}

/// Where a subscriber's events go.
pub trait SubscriptionSink<RecordValue> {
    fn deliver(&self, event: SubscriptionEvent<RecordValue>) -> Result<(), SinkError>;

    fn delivery_mode(&self) -> SubscriptionDeliveryMode {
        SubscriptionDeliveryMode::Detached
    }
}

/// An inclusive range of committed states, open at its end if it has none.
#[derive(Debug, Clone, Copy, PartialEq, Eq, Structural)]
pub struct SequenceRange {
    start: SnapshotIdentifier,
    end: Option<SnapshotIdentifier>,
}

/// A sequence range as plain numbers.
pub struct SequenceRangeModel {
    pub start: u64,
    pub end: Option<u64>,
}

/// A committed state lies in a range.
pub open spec fn sequence_contains(range: SequenceRangeModel, snapshot: u64) -> bool {
    &&& range.start <= snapshot
    &&& range.end matches Some(end) ==> snapshot <= end
}

impl View for SequenceRange {
    type V = SequenceRangeModel;

    closed spec fn view(&self) -> SequenceRangeModel {
        SequenceRangeModel { start: self.start@, end: option_view(self.end) }
    }
}

impl SequenceRange {
    pub fn from(start: SnapshotIdentifier) -> (range: Self)
        ensures
            range@ == (SequenceRangeModel { start: start@, end: None }),
    {
        SequenceRange { start, end: None }
    }

    pub fn between(start: SnapshotIdentifier, end: SnapshotIdentifier) -> (range: Self)
        ensures
            range@ == (SequenceRangeModel { start: start@, end: Some(end@) }),
    {
        SequenceRange { start, end: Some(end) }
    }

    pub fn contains(&self, snapshot: SnapshotIdentifier) -> (inside: bool)
        ensures
            inside == sequence_contains(self@, snapshot@),
    {
        let before_end: bool = match self.end {
            Some(end) => snapshot.value() <= end.value(),
            None => true,
        };
        self.start.value() <= snapshot.value() && before_end
    }
}

/// A live subscription: whom to tell, and of which keys.
#[derive(Debug, PartialEq, Eq)]
pub struct ActiveSubscription {
    handle: SubscriptionHandle,
    filter: QueryFilter,
}

/// A live subscription as plain values.
pub struct ActiveModel {
    pub handle: HandleModel,
    pub filter: FilterModel,
}

/// A live subscription is told of writes to a key of a table.
pub open spec fn told(active: ActiveModel, table: Seq<char>, key: KeyModel) -> bool {
    active.handle.table == table && filter_accepts(active.filter, key)
}

impl View for ActiveSubscription {
    type V = ActiveModel;

    closed spec fn view(&self) -> ActiveModel {
        ActiveModel { handle: self.handle@, filter: self.filter@ }
    }
}

impl ActiveSubscription {
    pub fn new(handle: SubscriptionHandle, filter: QueryFilter) -> (active: Self)
        ensures
            active@ == (ActiveModel { handle: handle@, filter: filter@ }),
    {
        ActiveSubscription { handle, filter }
    }

    pub fn handle(&self) -> (handle: SubscriptionHandle)
        ensures
            handle@ == self@.handle,
    {
        self.handle
    }

    pub fn matches(&self, table: &TableName, key: &RecordKey) -> (matched: bool)
        ensures
            matched == told(self@, table@, key@),
    {
        *self.handle.table() == *table && self.filter.accepts(key)
    }
}

/// The deltas that a write puts out, one for each live subscription that
/// is told of it, in the order the subscriptions were made.
pub open spec fn fanned(
    active: Seq<ActiveModel>,
    kind: DeltaKind,
    table: Seq<char>,
    key: KeyModel,
    snapshot: u64,
    record: RecordModel,
) -> Seq<DeltaModel<RecordModel>>
    decreases active.len(),
{
    if active.len() == 0 {
        Seq::empty()
    } else {
        let before = fanned(active.drop_last(), kind, table, key, snapshot, record);
        if told(active.last(), table, key) {
            before.push(
                DeltaModel { handle: active.last().handle, kind, table, key, snapshot, record },
            )
        } else {
            before
        }
    }
}

/// The live subscriptions of an engine.
#[derive(Debug, PartialEq, Eq)]
pub struct SubscriptionRegistry {
    entries: Vec<ActiveSubscription>,
}

impl View for SubscriptionRegistry {
    type V = Seq<ActiveModel>;

    closed spec fn view(&self) -> Seq<ActiveModel> {
        views(self.entries@)
    }
}

impl SubscriptionRegistry {
    pub fn new() -> (registry: Self)
        ensures
            registry@ == Seq::<ActiveModel>::empty(),
    {
        let registry = SubscriptionRegistry { entries: Vec::new() };
        assert(registry@ =~= Seq::empty());
        registry
    }

    pub fn add_subscription(&mut self, entry: ActiveSubscription)
        ensures
            final(self)@ == old(self)@.push(entry@),
    {
        proof {
            lemma_views_push(self.entries@, entry);
        }
        self.entries.push(entry);
    }

    /// Queue one write's deltas for every live subscription that is told
    /// of it.
    pub fn deliver_delta(
        &self,
        deltas: &mut Vec<SubscriptionDelta<EncodedRecord>>,
        kind: DeltaKind,
        table: TableName,
        key: &RecordKey,
        snapshot: SnapshotIdentifier,
        record: &EncodedRecord,
    )
        ensures
            delta_facts(final(deltas)@) == delta_facts(old(deltas)@) + fanned(
                self@,
                kind,
                table@,
                key@,
                snapshot@,
                record@,
            ),
    {
        let mut at: usize = 0;
        let ghost before = delta_facts(deltas@);
        let ghost active = self@;
        assert(active.take(0) =~= Seq::empty());
        assert(delta_facts(deltas@) =~= before + fanned(
            active.take(0),
            kind,
            table@,
            key@,
            snapshot@,
            record@,
        ));
        while at < self.entries.len()
            invariant
                at <= self.entries.len(),
                active == self@,
                delta_facts(deltas@) == before + fanned(
                    active.take(at as int),
                    kind,
                    table@,
                    key@,
                    snapshot@,
                    record@,
                ),
            decreases self.entries.len() - at,
        {
            assert(active.take(at + 1).drop_last() =~= active.take(at as int));
            assert(active.take(at + 1).last() == self.entries@[at as int]@);
            if self.entries[at].matches(&table, key) {
                let delta: SubscriptionDelta<EncodedRecord> = SubscriptionDelta::new(
                    self.entries[at].handle(),
                    kind,
                    table,
                    key.clone(),
                    snapshot,
                    record.clone(),
                );
                proof {
                    assert(delta_facts(deltas@.push(delta)) =~= delta_facts(deltas@).push(
                        delta_fact(delta),
                    ));
                }
                deltas.push(delta);
            }
            at = at + 1;
            assert(delta_facts(deltas@) =~= before + fanned(
                active.take(at as int),
                kind,
                table@,
                key@,
                snapshot@,
                record@,
            ));
        }
        assert(active.take(at as int) =~= active);
    }
}

} // verus!
