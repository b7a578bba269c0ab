//! Table coordinates, typed table references, and family declarations.

use std::marker::PhantomData;

use vstd::prelude::*;
use vstd::std_specs::cmp::PartialEqSpecImpl;
use vstd::std_specs::convert::FromSpecImpl;
use vstd::string::*;

use crate::error::Error;
use crate::models::{option_view, views};
use crate::order::same_text;
use crate::record::RecordIdentifier;
use crate::versioning::{FamilyIdentity, FamilyModel, FamilyName, SchemaHash};

verus! {

/// Key suffix of an identified table's next-record-identifier counter.
pub const IDENTIFIED_COUNTER_SUFFIX: &'static str = "next_record_identifier";

/// The counter key of an identified table.
pub open spec fn counter_key_text(table: Seq<char>) -> Seq<char> {
    table + ":"@ + "next_record_identifier"@
}

/// The table that a counter key belongs to, if it is one.
pub open spec fn counter_table(key: Seq<char>) -> Option<Seq<char>> {
    let suffix = ":"@ + "next_record_identifier"@;
    let at = key.len() - suffix.len();
    if at >= 0 && key.skip(at) == suffix {
        Some(key.take(at))
    } else {
        None
    }
}

/// A table's counter key leads back to the table.
pub proof fn lemma_counter_table(table: Seq<char>)
    ensures
        counter_table(counter_key_text(table)) == Some(table),
{
    let suffix = ":"@ + "next_record_identifier"@;
    let key = counter_key_text(table);
    assert(key =~= table + suffix);
    assert(key.skip(key.len() - suffix.len()) =~= suffix);
    assert(key.take(key.len() - suffix.len()) =~= table);
}

/// The table that a counter key belongs to.
pub fn table_of_counter(key: &str) -> (table: Option<String>)
    ensures
        option_view(table) == counter_table(key@),
{
    let mut suffix: String = ":".to_owned();
    suffix.append(IDENTIFIED_COUNTER_SUFFIX);
    let key_len: usize = key.unicode_len();
    let suffix_len: usize = suffix.as_str().unicode_len();
    if key_len < suffix_len {
        return None;
    }
    let at: usize = key_len - suffix_len;
    assert(key@.subrange(at as int, key_len as int) =~= key@.skip(at as int));
    assert(key@.subrange(0, at as int) =~= key@.take(at as int));
    if same_text(key.substring_char(at, key_len), suffix.as_str()) {
        Some(key.substring_char(0, at).to_owned())
    } else {
        None
    }
}

/// The storage coordinate of a table.
#[derive(Debug, Clone, Copy, Eq)]
pub struct TableName {
    value: &'static str,
}

impl View for TableName {
    type V = Seq<char>;

    closed spec fn view(&self) -> Seq<char> {
        self.value@
    }
}

impl PartialEq for TableName {
    fn eq(&self, other: &Self) -> (same: bool) {
        same_text(self.value, other.value)
    }
}

impl PartialEqSpecImpl for TableName {
    open spec fn obeys_eq_spec() -> bool {
        true
    }

    open spec fn eq_spec(&self, other: &Self) -> bool {
        self@ == other@
    }
}

impl TableName {
    pub fn new(value: &'static str) -> (name: Self)
        ensures
            name@ == value@,
    {
        TableName { value }
    }

    pub fn as_str(&self) -> (text: &'static str)
        ensures
            text@ == self@,
    {
        self.value
    }

    pub fn identified_counter_key(&self) -> (key: String)
        ensures
            key@ == counter_key_text(self@),
    {
        let mut key: String = self.value.to_owned();
        key.append(":");
        key.append(IDENTIFIED_COUNTER_SUFFIX);
        key
    }
}

impl From<TableName> for String {
    fn from(name: TableName) -> (text: String)
        ensures
            text@ == name@,
    {
        name.as_str().to_owned()
    }
}

impl FromSpecImpl<TableName> for String {
    open spec fn obeys_from_spec() -> bool {
        false
    }

    open spec fn from_spec(name: TableName) -> String {
        arbitrary()
    }
}

/// One prior generation of a domain-keyed family's stored shape: the
/// schema hash that a store's catalog may still name.
#[derive(Debug)]
pub struct EvolutionStep<RecordValue> {
    prior: SchemaHash,
    record: PhantomData<RecordValue>,
}

impl<RecordValue> View for EvolutionStep<RecordValue> {
    type V = Seq<u8>;

    closed spec fn view(&self) -> Seq<u8> {
        self.prior@
    }
}

impl<RecordValue> Clone for EvolutionStep<RecordValue> {
    fn clone(&self) -> (copy: Self)
        ensures
            copy@ == self@,
    {
        EvolutionStep { prior: self.prior, record: PhantomData }
    }
}

impl<RecordValue> EvolutionStep<RecordValue> {
    /// Declare that rows stored under `prior` can be carried forward.
    pub fn from_prior(prior: SchemaHash) -> (step: Self)
        ensures
            step@ == prior@,
    {
        EvolutionStep { prior, record: PhantomData }
    }

    pub fn prior_schema_hash(&self) -> (hash: SchemaHash)
        ensures
            hash@ == self@,
    {
        self.prior
    }
}

/// Carries the rows of one prior generation forward: the bytes that a row
/// stored under the prior schema hash has in the declared shape.
pub trait PriorCarry {
    fn carry(&self, prior: SchemaHash, key: &str, bytes: &[u8]) -> Result<Vec<u8>, Error>;
}

/// A carry answered this for the row.
pub open spec fn carries<Carry: PriorCarry>(
    carry: &Carry,
    prior: Seq<u8>,
    row: (Seq<char>, Seq<u8>),
    answer: Result<Vec<u8>, Error>,
) -> bool {
    exists|hash: SchemaHash, key: &str, bytes: &[u8]|
        {
            &&& hash@ == prior
            &&& key@ == row.0
            &&& bytes@ == row.1
            &&& #[trigger] call_ensures(Carry::carry, (carry, hash, key, bytes), answer)
        }
}

/// The carries of the prior generations that a family declares.
pub trait PriorGenerations {
    /// A generation is among them.
    spec fn names(&self, prior: Seq<u8>) -> bool;

    /// The carry of a generation answered this for the row.
    spec fn answers(
        &self,
        prior: Seq<u8>,
        row: (Seq<char>, Seq<u8>),
        answer: Result<Vec<u8>, Error>,
    ) -> bool;

    fn declares(&self, prior: SchemaHash) -> (known: bool)
        ensures
            known == self.names(prior@),
    ;

    /// Carry one row of a generation forward.
    fn carry_from(&self, prior: SchemaHash, key: &str, bytes: &[u8]) -> (answer: Result<
        Vec<u8>,
        Error,
    >)
        ensures
            self.answers(prior@, (key@, bytes@), answer),
    ;
}

/// No prior generation: a row keeps its bytes.
#[derive(Debug, Clone, Copy)]
pub struct NoPrior;

impl PriorGenerations for NoPrior {
    open spec fn names(&self, prior: Seq<u8>) -> bool {
        false
    }

    open spec fn answers(
        &self,
        prior: Seq<u8>,
        row: (Seq<char>, Seq<u8>),
        answer: Result<Vec<u8>, Error>,
    ) -> bool {
        answer matches Ok(kept) && kept@ == row.1
    }

    fn declares(&self, _prior: SchemaHash) -> (known: bool) {
        false
    }

    fn carry_from(&self, _prior: SchemaHash, _key: &str, bytes: &[u8]) -> (answer: Result<
        Vec<u8>,
        Error,
    >) {
        Ok(vstd::slice::slice_to_vec(bytes))
    }
}

/// One more prior generation, with the carry of its rows. Of two
/// declarations of one generation the earlier counts.
#[derive(Debug, Clone, Copy)]
pub struct WithPrior<Earlier, Carry> {
    pub earlier: Earlier,
    pub prior: SchemaHash,
    pub carry: Carry,
}

impl<Earlier: PriorGenerations, Carry: PriorCarry> PriorGenerations for WithPrior<Earlier, Carry> {
    open spec fn names(&self, prior: Seq<u8>) -> bool {
        self.earlier.names(prior) || self.prior@ == prior
    }

    open spec fn answers(
        &self,
        prior: Seq<u8>,
        row: (Seq<char>, Seq<u8>),
        answer: Result<Vec<u8>, Error>,
    ) -> bool {
        if self.earlier.names(prior) {
            self.earlier.answers(prior, row, answer)
        } else {
            carries(&self.carry, prior, row, answer)
        }
    }

    fn declares(&self, prior: SchemaHash) -> (known: bool) {
        self.earlier.declares(prior) || self.prior == prior
    }

    fn carry_from(&self, prior: SchemaHash, key: &str, bytes: &[u8]) -> (answer: Result<
        Vec<u8>,
        Error,
    >) {
        if self.earlier.declares(prior) {
            self.earlier.carry_from(prior, key, bytes)
        } else {
            let answer = self.carry.carry(prior, key, bytes);
            assert(call_ensures(Carry::carry, (&self.carry, prior, key, bytes), answer));
            answer
        }
    }
}

/// Declaration of a domain-keyed record family: the current table
/// coordinate, the family identity, and the prior stored generations
/// that registration may find in an existing store's catalog, with the
/// carries of their rows.
#[derive(Debug)]
pub struct TableDescriptor<RecordValue, Priors = NoPrior> {
    name: TableName,
    family: FamilyName,
    schema_hash: SchemaHash,
    evolution: Vec<EvolutionStep<RecordValue>>,
    carries: Priors,
}

/// A family declaration as plain values.
pub struct DescriptorModel {
    pub identity: FamilyModel,
    pub priors: Seq<Seq<u8>>,
}

impl<RecordValue, Priors> View for TableDescriptor<RecordValue, Priors> {
    type V = DescriptorModel;

    closed spec fn view(&self) -> DescriptorModel {
        DescriptorModel {
            identity: FamilyModel {
                family: self.family@,
                schema_hash: self.schema_hash@,
                table: self.name@,
            },
            priors: views(self.evolution@),
        }
    }
}

/// A declaration has a carry for exactly the prior generations that it
/// names.
pub open spec fn carries_named<RecordValue, Priors: PriorGenerations>(
    descriptor: TableDescriptor<RecordValue, Priors>,
) -> bool {
    forall|prior: Seq<u8>| #[trigger]
        descriptor.generations().names(prior) <==> descriptor@.priors.contains(prior)
}

impl<RecordValue> TableDescriptor<RecordValue, NoPrior> {
    pub fn new(name: TableName, family: FamilyName, schema_hash: SchemaHash) -> (descriptor: Self)
        ensures
            descriptor@ == (DescriptorModel {
                identity: FamilyModel {
                    family: family@,
                    schema_hash: schema_hash@,
                    table: name@,
                },
                priors: Seq::empty(),
            }),
            descriptor.generations() == NoPrior,
            carries_named(descriptor),
    {
        let descriptor = TableDescriptor {
            name,
            family,
            schema_hash,
            evolution: Vec::new(),
            carries: NoPrior,
        };
        assert(descriptor@.priors =~= Seq::empty());
        descriptor
    }
}

impl<RecordValue, Priors> TableDescriptor<RecordValue, Priors> {
    /// The carries of the declared prior generations.
    pub closed spec fn generations(&self) -> Priors {
        self.carries
    }

    /// Declare one prior stored generation of this family, and how its
    /// rows are carried forward.
    pub fn with_prior<Carry: PriorCarry>(self, prior: SchemaHash, carry: Carry) -> (descriptor:
        TableDescriptor<RecordValue, WithPrior<Priors, Carry>>) where Priors: PriorGenerations
        ensures
            descriptor@ == (DescriptorModel {
                identity: self@.identity,
                priors: self@.priors.push(prior@),
            }),
            descriptor.generations() == (WithPrior { earlier: self.generations(), prior, carry }),
            carries_named(self) ==> carries_named(descriptor),
    {
        let mut evolution: Vec<EvolutionStep<RecordValue>> = self.evolution;
        evolution.push(EvolutionStep::from_prior(prior));
        let descriptor = TableDescriptor {
            name: self.name,
            family: self.family,
            schema_hash: self.schema_hash,
            evolution,
            carries: WithPrior { earlier: self.carries, prior, carry },
        };
        assert(descriptor@.priors =~= self@.priors.push(prior@));
        proof {
            let before = self@.priors;
            let after = before.push(prior@);
            if carries_named(self) {
                assert forall|other: Seq<u8>| #[trigger]
                    descriptor.generations().names(other) <==> after.contains(other) by {
                    assert(self.generations().names(other) <==> before.contains(other));
                    assert(after[before.len() as int] == prior@);
                    if before.contains(other) {
                        let i = choose|i: int| 0 <= i < before.len() && before[i] == other;
                        assert(after[i] == other);
                    }
                    if after.contains(other) && other != prior@ {
                        let i = choose|i: int| 0 <= i < after.len() && after[i] == other;
                        assert(before[i] == other);
                    }
                }
            }
        }
        descriptor
    }

    /// Carry one row of a stored generation forward.
    pub fn carry_row(&self, prior: SchemaHash, key: &str, bytes: &[u8]) -> (answer: Result<
        Vec<u8>,
        Error,
    >) where Priors: PriorGenerations
        ensures
            self.generations().answers(prior@, (key@, bytes@), answer),
    {
        self.carries.carry_from(prior, key, bytes)
    }

    pub fn name(&self) -> (name: &TableName)
        ensures
            name@ == self@.identity.table,
    {
        &self.name
    }

    pub fn family(&self) -> (family: &FamilyName)
        ensures
            family@ == self@.identity.family,
    {
        &self.family
    }

    pub fn schema_hash(&self) -> (hash: SchemaHash)
        ensures
            hash@ == self@.identity.schema_hash,
    {
        self.schema_hash
    }

    pub fn family_identity(&self) -> (identity: FamilyIdentity)
        ensures
            identity@ == self@.identity,
    {
        FamilyIdentity::new(self.family.clone(), self.schema_hash, self.name)
    }

    /// The declared evolution step matching a stored catalog identity. A
    /// stored identity from another family never matches: a reused table
    /// coordinate is an incompatibility, not an evolution.
    pub fn evolution_step_for(&self, stored: &FamilyIdentity) -> (step: Option<
        &EvolutionStep<RecordValue>,
    >)
        ensures
            match step {
                Some(found) => {
                    &&& stored@.family == self@.identity.family
                    &&& self@.priors.contains(stored@.schema_hash)
                    &&& found@ == stored@.schema_hash
                },
                None => {
                    ||| stored@.family != self@.identity.family
                    ||| !self@.priors.contains(stored@.schema_hash)
                },
            },
    {
        if *stored.family() != self.family {
            return None;
        }
        let mut at: usize = 0;
        while at < self.evolution.len()
            invariant
                at <= self.evolution.len(),
                stored@.family == self@.identity.family,
                forall|i: int| 0 <= i < at ==> self@.priors[i] != stored@.schema_hash,
            decreases self.evolution.len() - at,
        {
            if self.evolution[at].prior_schema_hash() == stored.schema_hash() {
                assert(self@.priors[at as int] == stored@.schema_hash);
                return Some(&self.evolution[at]);
            }
            assert(self@.priors[at as int] != stored@.schema_hash);
            at = at + 1;
        }
        None
    }
}

/// Declaration of an engine-identified record family.
#[derive(Debug)]
pub struct IdentifiedTableDescriptor<RecordValue> {
    name: TableName,
    family: FamilyName,
    schema_hash: SchemaHash,
    record: PhantomData<RecordValue>,
}

impl<RecordValue> View for IdentifiedTableDescriptor<RecordValue> {
    type V = FamilyModel;

    closed spec fn view(&self) -> FamilyModel {
        FamilyModel { family: self.family@, schema_hash: self.schema_hash@, table: self.name@ }
    }
}

impl<RecordValue> IdentifiedTableDescriptor<RecordValue> {
    pub fn new(name: TableName, family: FamilyName, schema_hash: SchemaHash) -> (descriptor: Self)
        ensures
            descriptor@ == (FamilyModel {
                family: family@,
                schema_hash: schema_hash@,
                table: name@,
            }),
    {
        IdentifiedTableDescriptor { name, family, schema_hash, record: PhantomData }
    }

    pub fn name(&self) -> (name: &TableName)
        ensures
            name@ == self@.table,
    {
        &self.name
    }

    pub fn family(&self) -> (family: &FamilyName)
        ensures
            family@ == self@.family,
    {
        &self.family
    }

    pub fn schema_hash(&self) -> (hash: SchemaHash)
        ensures
            hash@ == self@.schema_hash,
    {
        self.schema_hash
    }

    pub fn family_identity(&self) -> (identity: FamilyIdentity)
        ensures
            identity@ == self@,
    {
        FamilyIdentity::new(self.family.clone(), self.schema_hash, self.name)
    }
}

/// A typed reference to a domain-keyed table.
#[derive(Debug)]
pub struct TableReference<RecordValue> {
    name: TableName,
    record: PhantomData<RecordValue>,
}

impl<RecordValue> View for TableReference<RecordValue> {
    type V = Seq<char>;

    closed spec fn view(&self) -> Seq<char> {
        self.name@
    }
}

impl<RecordValue> Clone for TableReference<RecordValue> {
    fn clone(&self) -> (copy: Self)
        ensures
            copy == *self,
    {
        *self
    }
}

impl<RecordValue> Copy for TableReference<RecordValue> {

}

impl<RecordValue> TableReference<RecordValue> {
    pub fn new(name: TableName) -> (reference: Self)
        ensures
            reference@ == name@,
    {
        TableReference { name, record: PhantomData }
    }

    pub fn name(&self) -> (name: &TableName)
        ensures
            name@ == self@,
    {
        &self.name
    }
}

/// A typed reference to an engine-identified table.
#[derive(Debug)]
pub struct IdentifiedTableReference<RecordValue> {
    name: TableName,
    record: PhantomData<RecordValue>,
}

impl<RecordValue> View for IdentifiedTableReference<RecordValue> {
    type V = Seq<char>;

    closed spec fn view(&self) -> Seq<char> {
        self.name@
    }
}

impl<RecordValue> Clone for IdentifiedTableReference<RecordValue> {
    fn clone(&self) -> (copy: Self)
        ensures
            copy == *self,
    {
        *self
    }
}

impl<RecordValue> Copy for IdentifiedTableReference<RecordValue> {

}

impl<RecordValue> IdentifiedTableReference<RecordValue> {
    pub fn new(name: TableName) -> (reference: Self)
        ensures
            reference@ == name@,
    {
        IdentifiedTableReference { name, record: PhantomData }
    }

    pub fn name(&self) -> (name: &TableName)
        ensures
            name@ == self@,
    {
        &self.name
    }
}

/// A record of an engine-identified table with its identifier.
#[derive(Debug, PartialEq, Eq)]
pub struct IdentifiedRecord<RecordValue> {
    identifier: RecordIdentifier,
    value: RecordValue,
}

impl<RecordValue> View for IdentifiedRecord<RecordValue> {
    type V = (u64, RecordValue);

    closed spec fn view(&self) -> (u64, RecordValue) {
        (self.identifier@, self.value)
    }
}

impl<RecordValue> IdentifiedRecord<RecordValue> {
    pub fn new(identifier: RecordIdentifier, value: RecordValue) -> (record: Self)
        ensures
            record@ == (identifier@, value),
    {
        IdentifiedRecord { identifier, value }
    }

    pub fn identifier(&self) -> (identifier: RecordIdentifier)
        ensures
            identifier@ == self@.0,
    {
        self.identifier
    }

    pub fn value(&self) -> (value: &RecordValue)
        ensures
            *value == self@.1,
    {
        &self.value
    }

    pub fn into_value(self) -> (value: RecordValue)
        ensures
            value == self@.1,
    {
        self.value
    }
}

} // verus!
