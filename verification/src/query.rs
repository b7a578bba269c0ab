//! Query plans, read plans, and what a query answers.

use std::marker::PhantomData;

use vstd::prelude::*;
use vstd::string::*;

use crate::models::option_view;
use crate::operation::SemaOperation;
use crate::order::Relation;
use crate::record::{key_precedes, relate_keys, KeyModel, RecordIdentifier, RecordKey};
use crate::snapshot::{DatabaseMarker, MarkerModel, SnapshotIdentifier};
use crate::table::{IdentifiedRecord, IdentifiedTableReference, TableName, TableReference};

verus! {

/// An inclusive range of record keys, open at either end.
#[derive(Debug, PartialEq, Eq)]
pub struct KeyRange {
    start: Option<RecordKey>,
    end: Option<RecordKey>,
}

/// A key range as plain values.
pub struct KeyRangeModel {
    pub start: Option<KeyModel>,
    pub end: Option<KeyModel>,
}

/// A key lies in a range.
pub open spec fn range_contains(range: KeyRangeModel, key: KeyModel) -> bool {
    &&& range.start matches Some(start) ==> !key_precedes(key, start)
    &&& range.end matches Some(end) ==> !key_precedes(end, key)
}

impl View for KeyRange {
    type V = KeyRangeModel;

    closed spec fn view(&self) -> KeyRangeModel {
        KeyRangeModel { start: option_view(self.start), end: option_view(self.end) }
    }
}

impl Clone for KeyRange {
    fn clone(&self) -> (copy: Self)
        ensures
            copy@ == self@,
    {
        let start: Option<RecordKey> = match &self.start {
            Some(key) => Some(key.clone()),
            None => None,
        };
        let end: Option<RecordKey> = match &self.end {
            Some(key) => Some(key.clone()),
            None => None,
        };
        KeyRange { start, end }
    }
}

impl KeyRange {
    pub fn new(start: Option<RecordKey>, end: Option<RecordKey>) -> (range: Self)
        ensures
            range@ == (KeyRangeModel { start: option_view(start), end: option_view(end) }),
    {
        KeyRange { start, end }
    }

    pub fn from(start: RecordKey) -> (range: Self)
        ensures
            range@ == (KeyRangeModel { start: Some(start@), end: None }),
    {
        KeyRange::new(Some(start), None)
    }

    pub fn through(end: RecordKey) -> (range: Self)
        ensures
            range@ == (KeyRangeModel { start: None, end: Some(end@) }),
    {
        KeyRange::new(None, Some(end))
    }

    pub fn between(start: RecordKey, end: RecordKey) -> (range: Self)
        ensures
            range@ == (KeyRangeModel { start: Some(start@), end: Some(end@) }),
    {
        KeyRange::new(Some(start), Some(end))
    }

    /// The first key inside, if the range has one.
    pub fn start(&self) -> (key: Option<&RecordKey>)
        ensures
            option_view(key) == self@.start,
    {
        self.start.as_ref()
    }

    /// The last key inside, if the range has one.
    pub fn end(&self) -> (key: Option<&RecordKey>)
        ensures
            option_view(key) == self@.end,
    {
        self.end.as_ref()
    }

    pub fn contains(&self, key: &RecordKey) -> (inside: bool)
        ensures
            inside == range_contains(self@, key@),
    {
        let after_start: bool = match &self.start {
            Some(start) => relate_keys(key, start) != Relation::Before,
            None => true,
        };
        let before_end: bool = match &self.end {
            Some(end) => relate_keys(end, key) != Relation::Before,
            None => true,
        };
        after_start && before_end
    }
}

/// An inclusive range of record identifiers, open at either end.
#[derive(Debug, Clone, Copy, PartialEq, Eq, Structural)]
pub struct RecordIdentifierRange {
    start: Option<RecordIdentifier>,
    end: Option<RecordIdentifier>,
}

/// An identifier range as plain values.
pub struct IdentifierRangeModel {
    pub start: Option<u64>,
    pub end: Option<u64>,
}

/// An identifier lies in a range.
pub open spec fn identifier_range_contains(range: IdentifierRangeModel, identifier: u64) -> bool {
    &&& range.start matches Some(start) ==> start <= identifier
    &&& range.end matches Some(end) ==> identifier <= end
}

impl View for RecordIdentifierRange {
    type V = IdentifierRangeModel;

    closed spec fn view(&self) -> IdentifierRangeModel {
        IdentifierRangeModel { start: option_view(self.start), end: option_view(self.end) }
    }
}

impl RecordIdentifierRange {
    pub fn new(start: Option<RecordIdentifier>, end: Option<RecordIdentifier>) -> (range: Self)
        ensures
            range@ == (IdentifierRangeModel { start: option_view(start), end: option_view(end) }),
    {
        RecordIdentifierRange { start, end }
    }

    pub fn from(start: RecordIdentifier) -> (range: Self)
        ensures
            range@ == (IdentifierRangeModel { start: Some(start@), end: None }),
    {
        RecordIdentifierRange::new(Some(start), None)
    }

    pub fn through(end: RecordIdentifier) -> (range: Self)
        ensures
            range@ == (IdentifierRangeModel { start: None, end: Some(end@) }),
    {
        RecordIdentifierRange::new(None, Some(end))
    }

    pub fn between(start: RecordIdentifier, end: RecordIdentifier) -> (range: Self)
        ensures
            range@ == (IdentifierRangeModel { start: Some(start@), end: Some(end@) }),
    {
        RecordIdentifierRange::new(Some(start), Some(end))
    }

    pub fn contains(&self, identifier: RecordIdentifier) -> (inside: bool)
        ensures
            inside == identifier_range_contains(self@, identifier@),
    {
        let after_start: bool = match self.start {
            Some(start) => start.value() <= identifier.value(),
            None => true,
        };
        let before_end: bool = match self.end {
            Some(end) => identifier.value() <= end.value(),
            None => true,
        };
        after_start && before_end
    }
}

/// Which keys a query or a subscription speaks of.
#[derive(Debug, PartialEq, Eq)]
pub enum QueryFilter {
    All,
    Key(RecordKey),
    KeyRange(KeyRange),
}

/// A query filter as plain values.
pub enum FilterModel {
    All,
    Key(KeyModel),
    KeyRange(KeyRangeModel),
}

/// A filter accepts a key.
pub open spec fn filter_accepts(filter: FilterModel, key: KeyModel) -> bool {
    match filter {
        FilterModel::All => true,
        FilterModel::Key(expected) => expected == key,
        FilterModel::KeyRange(range) => range_contains(range, key),
    }
}

impl View for QueryFilter {
    type V = FilterModel;

    open spec fn view(&self) -> FilterModel {
        match *self {
            QueryFilter::All => FilterModel::All,
            QueryFilter::Key(key) => FilterModel::Key(key@),
            QueryFilter::KeyRange(range) => FilterModel::KeyRange(range@),
        }
    }
}

impl Clone for QueryFilter {
    fn clone(&self) -> (copy: Self)
        ensures
            copy@ == self@,
    {
        match self {
            QueryFilter::All => QueryFilter::All,
            QueryFilter::Key(key) => QueryFilter::Key(key.clone()),
            QueryFilter::KeyRange(range) => QueryFilter::KeyRange(range.clone()),
        }
    }
}

impl QueryFilter {
    pub fn accepts(&self, key: &RecordKey) -> (accepted: bool)
        ensures
            accepted == filter_accepts(self@, key@),
    {
        match self {
            QueryFilter::All => true,
            QueryFilter::Key(expected) => relate_keys(expected, key) == Relation::Same,
            QueryFilter::KeyRange(range) => range.contains(key),
        }
    }
}

/// The operators of the read-plan language.
#[derive(Debug, Clone, Copy, PartialEq, Eq, PartialOrd, Ord, Structural)]
pub enum ReadOperator {
    AllRows,
    ByKey,
    ByKeyRange,
    Filter,
    Constrain,
    Project,
    Aggregate,
    Infer,
    Recurse,
}

/// A predicate that a read plan filters by.
#[derive(Debug, Clone, PartialEq, Eq)]
pub struct PredicatePlan {
    expression: String,
}

impl View for PredicatePlan {
    type V = Seq<char>;

    closed spec fn view(&self) -> Seq<char> {
        self.expression@
    }
}

impl PredicatePlan {
    pub fn new(expression: &str) -> (plan: Self)
        ensures
            plan@ == expression@,
    {
        PredicatePlan { expression: expression.to_owned() }
    }

    pub fn expression(&self) -> (text: &str)
        ensures
            text@ == self@,
    {
        self.expression.as_str()
    }
}

/// The fields that a read plan projects.
#[derive(Debug, Clone, PartialEq, Eq)]
pub struct FieldSelection {
    fields: Vec<String>,
}

impl View for FieldSelection {
    type V = Seq<String>;

    closed spec fn view(&self) -> Seq<String> {
        self.fields@
    }
}

impl FieldSelection {
    pub fn named(fields: Vec<String>) -> (plan: Self)
        ensures
            plan@ == fields@,
    {
        FieldSelection { fields }
    }

    pub fn fields(&self) -> (names: &[String])
        ensures
            names@ == self@,
    {
        self.fields.as_slice()
    }
}

/// The bindings that a read plan unifies.
#[derive(Debug, Clone, PartialEq, Eq)]
pub struct UnificationPlan {
    bindings: Vec<String>,
}

impl View for UnificationPlan {
    type V = Seq<String>;

    closed spec fn view(&self) -> Seq<String> {
        self.bindings@
    }
}

impl UnificationPlan {
    pub fn new(bindings: Vec<String>) -> (plan: Self)
        ensures
            plan@ == bindings@,
    {
        UnificationPlan { bindings }
    }

    pub fn bindings(&self) -> (names: &[String])
        ensures
            names@ == self@,
    {
        self.bindings.as_slice()
    }
}

/// The reducer that a read plan aggregates with.
#[derive(Debug, Clone, PartialEq, Eq)]
pub struct AggregatePlan {
    reducer: String,
}

impl View for AggregatePlan {
    type V = Seq<char>;

    closed spec fn view(&self) -> Seq<char> {
        self.reducer@
    }
}

impl AggregatePlan {
    pub fn new(reducer: &str) -> (plan: Self)
        ensures
            plan@ == reducer@,
    {
        AggregatePlan { reducer: reducer.to_owned() }
    }

    pub fn reducer(&self) -> (text: &str)
        ensures
            text@ == self@,
    {
        self.reducer.as_str()
    }
}

/// The rule set that a read plan infers with.
#[derive(Debug, Clone, PartialEq, Eq)]
pub struct RuleSetRef {
    name: String,
}

impl View for RuleSetRef {
    type V = Seq<char>;

    closed spec fn view(&self) -> Seq<char> {
        self.name@
    }
}

impl RuleSetRef {
    pub fn new(name: &str) -> (plan: Self)
        ensures
            plan@ == name@,
    {
        RuleSetRef { name: name.to_owned() }
    }

    pub fn name(&self) -> (text: &str)
        ensures
            text@ == self@,
    {
        self.name.as_str()
    }
}

/// The edge that a read plan recurses along.
#[derive(Debug, Clone, PartialEq, Eq)]
pub struct RecursionMode {
    edge: String,
}

impl View for RecursionMode {
    type V = Seq<char>;

    closed spec fn view(&self) -> Seq<char> {
        self.edge@
    }
}

impl RecursionMode {
    pub fn new(edge: &str) -> (plan: Self)
        ensures
            plan@ == edge@,
    {
        RecursionMode { edge: edge.to_owned() }
    }

    pub fn edge(&self) -> (text: &str)
        ensures
            text@ == self@,
    {
        self.edge.as_str()
    }
}

/// One node of a read plan.
#[allow(inconsistent_fields)]
#[derive(Debug, PartialEq, Eq)]
pub enum ReadPlanNode {
    AllRows,
    ByKey(RecordKey),
    ByKeyRange(KeyRange),
    Filter { source: Box<ReadPlanNode>, predicate: PredicatePlan },
    Constrain { unify: UnificationPlan },
    Project { source: Box<ReadPlanNode>, fields: FieldSelection },
    Aggregate { source: Box<ReadPlanNode>, reducer: AggregatePlan },
    Infer { source: Box<ReadPlanNode>, rules: RuleSetRef },
    Recurse { seed: Box<ReadPlanNode>, mode: RecursionMode },
}

/// The operator of a read-plan node.
pub open spec fn node_operator(node: ReadPlanNode) -> ReadOperator {
    match node {
        ReadPlanNode::AllRows => ReadOperator::AllRows,
        ReadPlanNode::ByKey(_) => ReadOperator::ByKey,
        ReadPlanNode::ByKeyRange(_) => ReadOperator::ByKeyRange,
        ReadPlanNode::Filter { .. } => ReadOperator::Filter,
        ReadPlanNode::Constrain { .. } => ReadOperator::Constrain,
        ReadPlanNode::Project { .. } => ReadOperator::Project,
        ReadPlanNode::Aggregate { .. } => ReadOperator::Aggregate,
        ReadPlanNode::Infer { .. } => ReadOperator::Infer,
        ReadPlanNode::Recurse { .. } => ReadOperator::Recurse,
    }
}

impl ReadPlanNode {
    pub fn operator(&self) -> (operator: ReadOperator)
        ensures
            operator == node_operator(*self),
    {
        match self {
            ReadPlanNode::AllRows => ReadOperator::AllRows,
            ReadPlanNode::ByKey(_) => ReadOperator::ByKey,
            ReadPlanNode::ByKeyRange(_) => ReadOperator::ByKeyRange,
            ReadPlanNode::Filter { .. } => ReadOperator::Filter,
            ReadPlanNode::Constrain { .. } => ReadOperator::Constrain,
            ReadPlanNode::Project { .. } => ReadOperator::Project,
            ReadPlanNode::Aggregate { .. } => ReadOperator::Aggregate,
            ReadPlanNode::Infer { .. } => ReadOperator::Infer,
            ReadPlanNode::Recurse { .. } => ReadOperator::Recurse,
        }
    }
}

/// A typed read plan over one table's records.
#[derive(Debug, PartialEq, Eq)]
pub struct ReadPlan<RecordValue> {
    node: ReadPlanNode,
    record: PhantomData<RecordValue>,
}

impl<RecordValue> View for ReadPlan<RecordValue> {
    type V = ReadPlanNode;

    closed spec fn view(&self) -> ReadPlanNode {
        self.node
    }
}

impl<RecordValue> ReadPlan<RecordValue> {
    pub fn all_rows() -> (plan: Self)
        ensures
            plan@ == (ReadPlanNode::AllRows),
    {
        ReadPlan::over(ReadPlanNode::AllRows)
    }

    pub fn by_key(key: RecordKey) -> (plan: Self)
        ensures
            plan@ == (ReadPlanNode::ByKey(key)),
    {
        ReadPlan::over(ReadPlanNode::ByKey(key))
    }

    pub fn by_key_range(range: KeyRange) -> (plan: Self)
        ensures
            plan@ == (ReadPlanNode::ByKeyRange(range)),
    {
        ReadPlan::over(ReadPlanNode::ByKeyRange(range))
    }

    pub fn filter(source: Self, predicate: PredicatePlan) -> (plan: Self)
        ensures
            plan@ == (ReadPlanNode::Filter { source: Box::new(source@), predicate }),
    {
        ReadPlan::over(ReadPlanNode::Filter { source: Box::new(source.node), predicate })
    }

    pub fn project(source: Self, fields: FieldSelection) -> (plan: Self)
        ensures
            plan@ == (ReadPlanNode::Project { source: Box::new(source@), fields }),
    {
        ReadPlan::over(ReadPlanNode::Project { source: Box::new(source.node), fields })
    }

    pub fn aggregate(source: Self, reducer: AggregatePlan) -> (plan: Self)
        ensures
            plan@ == (ReadPlanNode::Aggregate { source: Box::new(source@), reducer }),
    {
        ReadPlan::over(ReadPlanNode::Aggregate { source: Box::new(source.node), reducer })
    }

    pub fn infer(source: Self, rules: RuleSetRef) -> (plan: Self)
        ensures
            plan@ == (ReadPlanNode::Infer { source: Box::new(source@), rules }),
    {
        ReadPlan::over(ReadPlanNode::Infer { source: Box::new(source.node), rules })
    }

    pub fn recurse(seed: Self, mode: RecursionMode) -> (plan: Self)
        ensures
            plan@ == (ReadPlanNode::Recurse { seed: Box::new(seed@), mode }),
    {
        ReadPlan::over(ReadPlanNode::Recurse { seed: Box::new(seed.node), mode })
    }

    pub fn constrain(unify: UnificationPlan) -> (plan: Self)
        ensures
            plan@ == (ReadPlanNode::Constrain { unify }),
    {
        ReadPlan::over(ReadPlanNode::Constrain { unify })
    }

    pub fn operator(&self) -> (operator: ReadOperator)
        ensures
            operator == node_operator(self@),
    {
        self.node.operator()
    }

    pub fn node(&self) -> (node: &ReadPlanNode)
        ensures
            *node == self@,
    {
        &self.node
    }

    fn over(node: ReadPlanNode) -> (plan: Self)
        ensures
            plan@ == node,
    {
        ReadPlan { node, record: PhantomData }
    }
}

/// One node of a read plan over an engine-identified table.
#[derive(Debug, Clone, Copy, PartialEq, Eq, Structural)]
pub enum IdentifiedReadPlanNode {
    AllRows,
    ByIdentifier(RecordIdentifier),
    ByIdentifierRange(RecordIdentifierRange),
}

/// The operator of an identified read-plan node.
pub open spec fn identified_operator(node: IdentifiedReadPlanNode) -> ReadOperator {
    match node {
        IdentifiedReadPlanNode::AllRows => ReadOperator::AllRows,
        IdentifiedReadPlanNode::ByIdentifier(_) => ReadOperator::ByKey,
        IdentifiedReadPlanNode::ByIdentifierRange(_) => ReadOperator::ByKeyRange,
    }
}

impl IdentifiedReadPlanNode {
    pub fn operator(&self) -> (operator: ReadOperator)
        ensures
            operator == identified_operator(*self),
    {
        match self {
            IdentifiedReadPlanNode::AllRows => ReadOperator::AllRows,
            IdentifiedReadPlanNode::ByIdentifier(_) => ReadOperator::ByKey,
            IdentifiedReadPlanNode::ByIdentifierRange(_) => ReadOperator::ByKeyRange,
        }
    }
}

/// A read plan over an engine-identified table.
#[derive(Debug, Clone, Copy, PartialEq, Eq, Structural)]
pub struct IdentifiedReadPlan {
    node: IdentifiedReadPlanNode,
}

impl View for IdentifiedReadPlan {
    type V = IdentifiedReadPlanNode;

    closed spec fn view(&self) -> IdentifiedReadPlanNode {
        self.node
    }
}

impl IdentifiedReadPlan {
    pub fn all_rows() -> (plan: Self)
        ensures
            plan@ == IdentifiedReadPlanNode::AllRows,
    {
        IdentifiedReadPlan { node: IdentifiedReadPlanNode::AllRows }
    }

    pub fn by_identifier(identifier: RecordIdentifier) -> (plan: Self)
        ensures
            plan@ == IdentifiedReadPlanNode::ByIdentifier(identifier),
    {
        IdentifiedReadPlan { node: IdentifiedReadPlanNode::ByIdentifier(identifier) }
    }

    pub fn by_identifier_range(range: RecordIdentifierRange) -> (plan: Self)
        ensures
            plan@ == IdentifiedReadPlanNode::ByIdentifierRange(range),
    {
        IdentifiedReadPlan { node: IdentifiedReadPlanNode::ByIdentifierRange(range) }
    }

    pub fn operator(&self) -> (operator: ReadOperator)
        ensures
            operator == identified_operator(self@),
    {
        self.node.operator()
    }

    pub fn node(&self) -> (node: &IdentifiedReadPlanNode)
        ensures
            *node == self@,
    {
        &self.node
    }
}

/// A query over one domain-keyed table: the keys it speaks of and the
/// plan that reads them.
#[derive(Debug)]
pub struct QueryPlan<RecordValue> {
    table: TableReference<RecordValue>,
    filter: QueryFilter,
    read_plan: ReadPlan<RecordValue>,
}

/// A query plan as plain values.
pub struct PlanModel {
    pub table: Seq<char>,
    pub filter: FilterModel,
    pub node: ReadPlanNode,
}

impl<RecordValue> View for QueryPlan<RecordValue> {
    type V = PlanModel;

    closed spec fn view(&self) -> PlanModel {
        PlanModel { table: self.table@, filter: self.filter@, node: self.read_plan@ }
    }
}

impl<RecordValue> QueryPlan<RecordValue> {
    pub fn all(table: TableReference<RecordValue>) -> (plan: Self)
        ensures
            plan@.table == table@,
            plan@.filter == FilterModel::All,
            plan@.node == (ReadPlanNode::AllRows),
    {
        QueryPlan { table, filter: QueryFilter::All, read_plan: ReadPlan::all_rows() }
    }

    pub fn key(table: TableReference<RecordValue>, key: RecordKey) -> (plan: Self)
        ensures
            plan@.table == table@,
            plan@.filter == FilterModel::Key(key@),
            plan@.node == ReadPlanNode::ByKey(key),
    {
        QueryPlan { table, filter: QueryFilter::Key(key.clone()), read_plan: ReadPlan::by_key(key) }
    }

    pub fn key_range(table: TableReference<RecordValue>, range: KeyRange) -> (plan: Self)
        ensures
            plan@.table == table@,
            plan@.filter == FilterModel::KeyRange(range@),
            plan@.node == ReadPlanNode::ByKeyRange(range),
    {
        QueryPlan {
            table,
            filter: QueryFilter::KeyRange(range.clone()),
            read_plan: ReadPlan::by_key_range(range),
        }
    }

    pub fn filtered(table: TableReference<RecordValue>, predicate: PredicatePlan) -> (plan: Self)
        ensures
            plan@.table == table@,
            plan@.filter == FilterModel::All,
            plan@.node == (ReadPlanNode::Filter {
                source: Box::new(ReadPlanNode::AllRows),
                predicate,
            }),
    {
        QueryPlan {
            table,
            filter: QueryFilter::All,
            read_plan: ReadPlan::filter(ReadPlan::all_rows(), predicate),
        }
    }

    pub fn project(table: TableReference<RecordValue>, fields: FieldSelection) -> (plan: Self)
        ensures
            plan@.table == table@,
            plan@.filter == FilterModel::All,
            plan@.node == (ReadPlanNode::Project {
                source: Box::new(ReadPlanNode::AllRows),
                fields,
            }),
    {
        QueryPlan {
            table,
            filter: QueryFilter::All,
            read_plan: ReadPlan::project(ReadPlan::all_rows(), fields),
        }
    }

    pub fn aggregate(table: TableReference<RecordValue>, reducer: AggregatePlan) -> (plan: Self)
        ensures
            plan@.table == table@,
            plan@.filter == FilterModel::All,
            plan@.node == (ReadPlanNode::Aggregate {
                source: Box::new(ReadPlanNode::AllRows),
                reducer,
            }),
    {
        QueryPlan {
            table,
            filter: QueryFilter::All,
            read_plan: ReadPlan::aggregate(ReadPlan::all_rows(), reducer),
        }
    }

    pub fn infer(table: TableReference<RecordValue>, rules: RuleSetRef) -> (plan: Self)
        ensures
            plan@.table == table@,
            plan@.filter == FilterModel::All,
            plan@.node == (ReadPlanNode::Infer {
                source: Box::new(ReadPlanNode::AllRows),
                rules,
            }),
    {
        QueryPlan {
            table,
            filter: QueryFilter::All,
            read_plan: ReadPlan::infer(ReadPlan::all_rows(), rules),
        }
    }

    pub fn recurse(table: TableReference<RecordValue>, mode: RecursionMode) -> (plan: Self)
        ensures
            plan@.table == table@,
            plan@.filter == FilterModel::All,
            plan@.node == (ReadPlanNode::Recurse {
                seed: Box::new(ReadPlanNode::AllRows),
                mode,
            }),
    {
        QueryPlan {
            table,
            filter: QueryFilter::All,
            read_plan: ReadPlan::recurse(ReadPlan::all_rows(), mode),
        }
    }

    pub fn constrain(table: TableReference<RecordValue>, unify: UnificationPlan) -> (plan: Self)
        ensures
            plan@.table == table@,
            plan@.filter == FilterModel::All,
            plan@.node == (ReadPlanNode::Constrain { unify }),
    {
        QueryPlan { table, filter: QueryFilter::All, read_plan: ReadPlan::constrain(unify) }
    }

    pub fn table(&self) -> (table: &TableReference<RecordValue>)
        ensures
            table@ == self@.table,
    {
        &self.table
    }

    pub fn filter(&self) -> (filter: &QueryFilter)
        ensures
            filter@ == self@.filter,
    {
        &self.filter
    }

    pub fn read_plan(&self) -> (plan: &ReadPlan<RecordValue>)
        ensures
            plan@ == self@.node,
    {
        &self.read_plan
    }
}

/// A query over one engine-identified table.
#[derive(Debug)]
pub struct IdentifiedQueryPlan<RecordValue> {
    table: IdentifiedTableReference<RecordValue>,
    read_plan: IdentifiedReadPlan,
}

/// An identified query plan as plain values.
pub struct IdentifiedPlanModel {
    pub table: Seq<char>,
    pub node: IdentifiedReadPlanNode,
}

impl<RecordValue> View for IdentifiedQueryPlan<RecordValue> {
    type V = IdentifiedPlanModel;

    closed spec fn view(&self) -> IdentifiedPlanModel {
        IdentifiedPlanModel { table: self.table@, node: self.read_plan@ }
    }
}

impl<RecordValue> IdentifiedQueryPlan<RecordValue> {
    pub fn all(table: IdentifiedTableReference<RecordValue>) -> (plan: Self)
        ensures
            plan@ == (IdentifiedPlanModel { table: table@, node: IdentifiedReadPlanNode::AllRows }),
    {
        IdentifiedQueryPlan { table, read_plan: IdentifiedReadPlan::all_rows() }
    }

    pub fn identifier(
        table: IdentifiedTableReference<RecordValue>,
        identifier: RecordIdentifier,
    ) -> (plan: Self)
        ensures
            plan@ == (IdentifiedPlanModel {
                table: table@,
                node: IdentifiedReadPlanNode::ByIdentifier(identifier),
            }),
    {
        IdentifiedQueryPlan { table, read_plan: IdentifiedReadPlan::by_identifier(identifier) }
    }

    pub fn identifier_range(
        table: IdentifiedTableReference<RecordValue>,
        range: RecordIdentifierRange,
    ) -> (plan: Self)
        ensures
            plan@ == (IdentifiedPlanModel {
                table: table@,
                node: IdentifiedReadPlanNode::ByIdentifierRange(range),
            }),
    {
        IdentifiedQueryPlan { table, read_plan: IdentifiedReadPlan::by_identifier_range(range) }
    }

    pub fn table(&self) -> (table: &IdentifiedTableReference<RecordValue>)
        ensures
            table@ == self@.table,
    {
        &self.table
    }

    pub fn read_plan(&self) -> (plan: &IdentifiedReadPlan)
        ensures
            plan@ == self@.node,
    {
        &self.read_plan
    }
}

/// What a query read, and the committed state it read it from.
#[derive(Debug, PartialEq, Eq)]
pub struct QuerySnapshot<RecordValue> {
    operation: SemaOperation,
    table: TableName,
    database_marker: DatabaseMarker,
    records: Vec<RecordValue>,
}

/// A query snapshot as plain values.
pub struct QuerySnapshotModel<RecordValue> {
    pub operation: SemaOperation,
    pub table: Seq<char>,
    pub database_marker: MarkerModel,
    pub records: Seq<RecordValue>,
}

impl<RecordValue> View for QuerySnapshot<RecordValue> {
    type V = QuerySnapshotModel<RecordValue>;

    closed spec fn view(&self) -> QuerySnapshotModel<RecordValue> {
        QuerySnapshotModel {
            operation: self.operation,
            table: self.table@,
            database_marker: self.database_marker@,
            records: self.records@,
        }
    }
}

impl<RecordValue> QuerySnapshot<RecordValue> {
    pub fn new(
        operation: SemaOperation,
        table: TableName,
        database_marker: DatabaseMarker,
        records: Vec<RecordValue>,
    ) -> (made: Self)
        ensures
            made@ == (QuerySnapshotModel {
                operation: operation,
                table: table@,
                database_marker: database_marker@,
                records: records@,
            }),
    {
        QuerySnapshot { operation, table, database_marker, records }
    }

    pub fn operation(&self) -> (found: SemaOperation)
        ensures
            found == self@.operation,
    {
        self.operation
    }

    pub fn table(&self) -> (found: &TableName)
        ensures
            found@ == self@.table,
    {
        &self.table
    }

    pub fn database_marker(&self) -> (found: DatabaseMarker)
        ensures
            found@ == self@.database_marker,
    {
        self.database_marker
    }

    pub fn records(&self) -> (found: &[RecordValue])
        ensures
            found@ == self@.records,
    {
        self.records.as_slice()
    }

    pub fn snapshot(&self) -> (found: SnapshotIdentifier)
        ensures
            found@ == self@.database_marker.snapshot,
    {
        self.database_marker.snapshot()
    }
}

/// What a query over an identified table read, and the committed state it
/// read it from.
#[derive(Debug, PartialEq, Eq)]
pub struct IdentifiedQuerySnapshot<RecordValue> {
    operation: SemaOperation,
    table: TableName,
    database_marker: DatabaseMarker,
    records: Vec<IdentifiedRecord<RecordValue>>,
}

/// An identified query snapshot as plain values.
pub struct IdentifiedSnapshotModel<RecordValue> {
    pub operation: SemaOperation,
    pub table: Seq<char>,
    pub database_marker: MarkerModel,
    pub records: Seq<IdentifiedRecord<RecordValue>>,
}

impl<RecordValue> View for IdentifiedQuerySnapshot<RecordValue> {
    type V = IdentifiedSnapshotModel<RecordValue>;

    closed spec fn view(&self) -> IdentifiedSnapshotModel<RecordValue> {
        IdentifiedSnapshotModel {
            operation: self.operation,
            table: self.table@,
            database_marker: self.database_marker@,
            records: self.records@,
        }
    }
}

impl<RecordValue> IdentifiedQuerySnapshot<RecordValue> {
    pub fn new(
        operation: SemaOperation,
        table: TableName,
        database_marker: DatabaseMarker,
        records: Vec<IdentifiedRecord<RecordValue>>,
    ) -> (made: Self)
        ensures
            made@ == (IdentifiedSnapshotModel {
                operation: operation,
                table: table@,
                database_marker: database_marker@,
                records: records@,
            }),
    {
        IdentifiedQuerySnapshot { operation, table, database_marker, records }
    }

    pub fn operation(&self) -> (found: SemaOperation)
        ensures
            found == self@.operation,
    {
        self.operation
    }

    pub fn table(&self) -> (found: &TableName)
        ensures
            found@ == self@.table,
    {
        &self.table
    }

    pub fn database_marker(&self) -> (found: DatabaseMarker)
        ensures
            found@ == self@.database_marker,
    {
        self.database_marker
    }

    pub fn records(&self) -> (found: &[IdentifiedRecord<RecordValue>])
        ensures
            found@ == self@.records,
    {
        self.records.as_slice()
    }

    pub fn snapshot(&self) -> (found: SnapshotIdentifier)
        ensures
            found@ == self@.database_marker.snapshot,
    {
        self.database_marker.snapshot()
    }

    pub fn into_records(self) -> (records: Vec<IdentifiedRecord<RecordValue>>)
        ensures
            records@ == self@.records,
    {
        self.records
    }
}

/// What validating a query found: how many records it matched, and in
/// which committed state.
#[derive(Debug, PartialEq, Eq)]
pub struct ValidationReceipt {
    operation: SemaOperation,
    table: TableName,
    database_marker: DatabaseMarker,
    record_count: usize,
}

/// A validation receipt as plain values.
pub struct ValidationModel {
    pub operation: SemaOperation,
    pub table: Seq<char>,
    pub database_marker: MarkerModel,
    pub record_count: usize,
}

impl View for ValidationReceipt {
    type V = ValidationModel;

    closed spec fn view(&self) -> ValidationModel {
        ValidationModel {
            operation: self.operation,
            table: self.table@,
            database_marker: self.database_marker@,
            record_count: self.record_count,
        }
    }
}

impl ValidationReceipt {
    pub fn new(
        operation: SemaOperation,
        table: TableName,
        database_marker: DatabaseMarker,
        record_count: usize,
    ) -> (made: Self)
        ensures
            made@ == (ValidationModel {
                operation: operation,
                table: table@,
                database_marker: database_marker@,
                record_count: record_count,
            }),
    {
        ValidationReceipt { operation, table, database_marker, record_count }
    }

    pub fn operation(&self) -> (found: SemaOperation)
        ensures
            found == self@.operation,
    {
        self.operation
    }

    pub fn table(&self) -> (found: &TableName)
        ensures
            found@ == self@.table,
    {
        &self.table
    }

    pub fn database_marker(&self) -> (found: DatabaseMarker)
        ensures
            found@ == self@.database_marker,
    {
        self.database_marker
    }

    pub fn record_count(&self) -> (found: usize)
        ensures
            found == self@.record_count,
    {
        self.record_count
    }

    pub fn snapshot(&self) -> (found: SnapshotIdentifier)
        ensures
            found@ == self@.database_marker.snapshot,
    {
        self.database_marker.snapshot()
    }
}

} // verus!
