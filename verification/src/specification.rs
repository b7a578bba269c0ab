//! Declared tables: one declaration from which every request on a table is
//! built.

use vstd::prelude::*;

use crate::error::{Error, Failure};
use crate::mutation::{KeyedAssertion, KeyedAssertionModel};
use crate::query::{FilterModel, QueryPlan, ReadPlanNode};
use crate::record::{KeyModel, RecordKey};
use crate::table::{DescriptorModel, NoPrior, TableDescriptor, TableName, TableReference};
use crate::text::{hex_text, lemma_hex_injective};
use crate::versioning::{FamilyModel, FamilyName, SchemaHash};

verus! {

/// The domain key of an archived typed key, or why the key has no archive.
pub open spec fn archived_key(archive: Result<Seq<u8>, Seq<char>>) -> Result<KeyModel, Failure> {
    match archive {
        Ok(bytes) => Ok(KeyModel::Domain("rkyv:"@ + hex_text(bytes))),
        Err(message) => Err(Failure::DomainKeyArchive { message }),
    }
}

/// Two archives give the same key exactly if they are the same bytes: equal
/// typed keys meet, and others keep apart.
pub proof fn lemma_archives_keep_apart(a: Seq<u8>, b: Seq<u8>)
    ensures
        archived_key(Ok(a)) == archived_key(Ok(b)) <==> a == b,
{
    if archived_key(Ok(a)) == archived_key(Ok(b)) {
        let x = "rkyv:"@ + hex_text(a);
        let y = "rkyv:"@ + hex_text(b);
        assert(x == y);
        assert(hex_text(a) =~= x.skip("rkyv:"@.len() as int));
        assert(hex_text(b) =~= y.skip("rkyv:"@.len() as int));
        lemma_hex_injective(a, b);
    }
}

/// A typed value that can address a domain-keyed table. Its whole archive
/// becomes the key, so no caller chooses the text and two equal values
/// give the same key.
/// A verified implementor defines the spec functions; of one that does not
/// define them nothing is known.
pub trait DomainRecordKey {
    /// What archiving the value gives.
    open spec fn archived(&self) -> Result<Seq<u8>, Seq<char>> {
        arbitrary()
    }

    /// The archive of the value, or why there is none.
    fn archive(&self) -> (outcome: Result<Vec<u8>, String>)
        ensures
            match outcome {
                Ok(bytes) => self.archived() == Ok::<Seq<u8>, Seq<char>>(bytes@),
                Err(message) => self.archived() == Err::<Seq<u8>, Seq<char>>(message@),
            },
    ;

    /// The value as a domain key.
    fn to_record_key(&self) -> (outcome: Result<RecordKey, Error>)
        ensures
            match outcome {
                Ok(key) => archived_key(self.archived()) == Ok::<KeyModel, Failure>(key@),
                Err(error) => archived_key(self.archived()) == Err::<KeyModel, Failure>(error@),
            },
    {
        match self.archive() {
            Ok(bytes) => Ok(RecordKey::from_archive(bytes.as_slice())),
            Err(message) => Err(Error::DomainKeyArchive { message }),
        }
    }
}

/// The declaration of one domain-keyed table: where it stands, its family
/// and schema, what it stores and what addresses a row. The provided
/// functions are the one way from the declaration to a request.
/// A verified implementor defines the spec functions; of one that does not
/// define them nothing is known.
pub trait TableSpecification {
    /// The value stored in the table.
    type Record;

    /// The type that addresses one record.
    type Key: DomainRecordKey;

    /// Where the table stands.
    open spec fn table() -> Seq<char> {
        arbitrary()
    }

    /// The name of the family, whatever the table is called.
    open spec fn family() -> Seq<char> {
        arbitrary()
    }

    /// The content identity of the record and key shape.
    open spec fn shape() -> Seq<u8> {
        arbitrary()
    }

    fn table_name() -> (name: TableName)
        ensures
            name@ == Self::table(),
    ;

    fn family_name() -> (name: &'static str)
        ensures
            name@ == Self::family(),
    ;

    fn schema_hash() -> (hash: SchemaHash)
        ensures
            hash@ == Self::shape(),
    ;

    /// The descriptor that registers the table.
    fn descriptor() -> (descriptor: TableDescriptor<Self::Record>)
        ensures
            descriptor@ == (DescriptorModel {
                identity: FamilyModel {
                    family: Self::family(),
                    schema_hash: Self::shape(),
                    table: Self::table(),
                },
                priors: Seq::empty(),
            }),
            descriptor.generations() == NoPrior,
    {
        TableDescriptor::new(
            Self::table_name(),
            FamilyName::new(Self::family_name()),
            Self::schema_hash(),
        )
    }

    /// The table as requests name it.
    fn table_reference() -> (reference: TableReference<Self::Record>)
        ensures
            reference@ == Self::table(),
    {
        TableReference::new(Self::table_name())
    }

    /// The domain key that a typed key stands for.
    fn record_key(key: &Self::Key) -> (outcome: Result<RecordKey, Error>)
        ensures
            match outcome {
                Ok(made) => archived_key(key.archived()) == Ok::<KeyModel, Failure>(made@),
                Err(error) => archived_key(key.archived()) == Err::<KeyModel, Failure>(error@),
            },
    {
        key.to_record_key()
    }

    /// An assertion of a record under a typed key.
    fn assertion(key: &Self::Key, record: Self::Record) -> (outcome: Result<
        KeyedAssertion<Self::Record>,
        Error,
    >)
        ensures
            match outcome {
                Ok(made) => archived_key(key.archived()) is Ok && made@ == (KeyedAssertionModel {
                    table: Self::table(),
                    key: archived_key(key.archived())->Ok_0,
                    record,
                }),
                Err(error) => archived_key(key.archived()) == Err::<KeyModel, Failure>(error@),
            },
    {
        match Self::record_key(key) {
            Ok(made) => Ok(KeyedAssertion::new(Self::table_reference(), made, record)),
            Err(error) => Err(error),
        }
    }

    /// The query for the one record under a typed key.
    fn query(key: &Self::Key) -> (outcome: Result<QueryPlan<Self::Record>, Error>)
        ensures
            match outcome {
                Ok(plan) => {
                    &&& archived_key(key.archived()) is Ok
                    &&& plan@.table == Self::table()
                    &&& plan@.filter == FilterModel::Key(archived_key(key.archived())->Ok_0)
                    &&& plan@.node matches ReadPlanNode::ByKey(named)
                    &&& named@ == archived_key(key.archived())->Ok_0
                },
                Err(error) => archived_key(key.archived()) == Err::<KeyModel, Failure>(error@),
            },
    {
        match Self::record_key(key) {
            Ok(made) => Ok(QueryPlan::key(Self::table_reference(), made)),
            Err(error) => Err(error),
        }
    }
}

} // verus!
