//! The engine's registered family inventory.

use vstd::prelude::*;

use crate::error::{Error, Failure};
use crate::models::{lemma_views_push, views};
use crate::order::same_text;
use crate::table::TableName;
use crate::versioning::{FamilyIdentity, FamilyModel};

verus! {

/// One registered family: its identity bound to a table coordinate.
#[derive(Debug, PartialEq, Eq)]
pub struct TableRegistration {
    identity: FamilyIdentity,
}

impl View for TableRegistration {
    type V = FamilyModel;

    closed spec fn view(&self) -> FamilyModel {
        self.identity@
    }
}

impl Clone for TableRegistration {
    fn clone(&self) -> (copy: Self)
        ensures
            copy@ == self@,
    {
        TableRegistration { identity: self.identity.clone() }
    }
}

impl TableRegistration {
    pub fn new(identity: FamilyIdentity) -> (registration: Self)
        ensures
            registration@ == identity@,
    {
        TableRegistration { identity }
    }

    pub fn identity(&self) -> (identity: &FamilyIdentity)
        ensures
            identity@ == self@,
    {
        &self.identity
    }

    pub fn table_name(&self) -> (name: &str)
        ensures
            name@ == self@.table,
    {
        self.identity.table_name()
    }
}

/// The family registered under a table name: the first in catalog order.
pub open spec fn family_at(catalog: Seq<FamilyModel>, table: Seq<char>) -> Option<FamilyModel>
    decreases catalog.len(),
{
    if catalog.len() == 0 {
        None
    } else if catalog[0].table == table {
        Some(catalog[0])
    } else {
        family_at(catalog.drop_first(), table)
    }
}

/// The registration that carries a family version: the first in catalog
/// order.
pub open spec fn family_of(catalog: Seq<FamilyModel>, version: (Seq<char>, Seq<u8>)) -> Option<
    FamilyModel,
>
    decreases catalog.len(),
{
    if catalog.len() == 0 {
        None
    } else if catalog[0].version() == version {
        Some(catalog[0])
    } else {
        family_of(catalog.drop_first(), version)
    }
}

/// A table name is registered if some registration carries it.
pub open spec fn registered(catalog: Seq<FamilyModel>, table: Seq<char>) -> bool {
    exists|i: int| 0 <= i < catalog.len() && (#[trigger] catalog[i]).table == table
}

proof fn lemma_family_at_skips(catalog: Seq<FamilyModel>, table: Seq<char>, at: int)
    requires
        0 <= at <= catalog.len(),
        forall|i: int| 0 <= i < at ==> (#[trigger] catalog[i]).table != table,
    ensures
        family_at(catalog, table) == family_at(catalog.skip(at), table),
    decreases at,
{
    if at == 0 {
        assert(catalog.skip(0) =~= catalog);
    } else {
        let rest = catalog.drop_first();
        assert forall|i: int| 0 <= i < at - 1 implies (#[trigger] rest[i]).table != table by {
            assert(catalog[i + 1].table != table);
        }
        lemma_family_at_skips(rest, table, at - 1);
        assert(rest.skip(at - 1) =~= catalog.skip(at));
        assert(catalog[0].table != table);
    }
}

proof fn lemma_family_of_skips(
    catalog: Seq<FamilyModel>,
    version: (Seq<char>, Seq<u8>),
    at: int,
)
    requires
        0 <= at <= catalog.len(),
        forall|i: int| 0 <= i < at ==> (#[trigger] catalog[i]).version() != version,
    ensures
        family_of(catalog, version) == family_of(catalog.skip(at), version),
    decreases at,
{
    if at == 0 {
        assert(catalog.skip(0) =~= catalog);
    } else {
        let rest = catalog.drop_first();
        assert forall|i: int| 0 <= i < at - 1 implies (#[trigger] rest[i]).version() != version by {
            assert(catalog[i + 1].version() != version);
        }
        lemma_family_of_skips(rest, version, at - 1);
        assert(rest.skip(at - 1) =~= catalog.skip(at));
        assert(catalog[0].version() != version);
    }
}

/// A table is registered exactly when a family stands under it.
pub proof fn lemma_registered(catalog: Seq<FamilyModel>, table: Seq<char>)
    ensures
        registered(catalog, table) == (family_at(catalog, table) is Some),
        family_at(catalog, table) matches Some(found) ==> found.table == table
            && catalog.contains(found),
    decreases catalog.len(),
{
    if catalog.len() > 0 {
        let rest = catalog.drop_first();
        lemma_registered(rest, table);
        if registered(catalog, table) && catalog[0].table != table {
            let i = choose|i: int| 0 <= i < catalog.len() && (#[trigger] catalog[i]).table == table;
            assert(rest[i - 1].table == table);
        }
        if registered(rest, table) {
            let i = choose|i: int| 0 <= i < rest.len() && (#[trigger] rest[i]).table == table;
            assert(catalog[i + 1].table == table);
        }
        if catalog[0].table == table {
            assert(catalog.contains(catalog[0]));
        } else if family_at(rest, table) is Some {
            let found = family_at(rest, table)->0;
            let i = choose|i: int| 0 <= i < rest.len() && rest[i] == found;
            assert(catalog[i + 1] == found);
        }
    }
}

/// The catalog after a table was bound to another identity.
pub open spec fn rebound(catalog: Seq<FamilyModel>, identity: FamilyModel) -> Seq<FamilyModel> {
    Seq::new(
        catalog.len(),
        |i: int|
            if catalog[i].table == identity.table {
                identity
            } else {
                catalog[i]
            },
    )
}

/// Each registration binds one family identity to its current table
/// coordinate; the store schema hash folds over this inventory.
#[derive(Debug)]
pub struct Catalog {
    registrations: Vec<TableRegistration>,
}

impl View for Catalog {
    type V = Seq<FamilyModel>;

    closed spec fn view(&self) -> Seq<FamilyModel> {
        views(self.registrations@)
    }
}

impl Catalog {
    pub fn new(registrations: Vec<TableRegistration>) -> (catalog: Self)
        ensures
            catalog@ == views(registrations@),
    {
        Catalog { registrations }
    }

    pub fn is_registered(&self, name: &TableName) -> (found: bool)
        ensures
            found == registered(self@, name@),
    {
        proof {
            lemma_registered(self@, name@);
        }
        self.registration_for_table(name.as_str()).is_some()
    }

    /// The family identity bound to a table name, if any.
    pub fn family_identity(&self, name: &TableName) -> (identity: Option<&FamilyIdentity>)
        ensures
            match identity {
                Some(found) => family_at(self@, name@) == Some(found@),
                None => family_at(self@, name@) is None,
            },
    {
        match self.registration_for_table(name.as_str()) {
            Some(registration) => Some(registration.identity()),
            None => None,
        }
    }

    /// The registration already carrying this family version, whatever
    /// its table coordinate.
    pub fn registration_for_family(&self, identity: &FamilyIdentity) -> (registration: Option<
        &TableRegistration,
    >)
        ensures
            match registration {
                Some(found) => family_of(self@, identity@.version()) == Some(found@),
                None => family_of(self@, identity@.version()) is None,
            },
    {
        let mut at: usize = 0;
        while at < self.registrations.len()
            invariant
                at <= self.registrations.len(),
                forall|i: int| 0 <= i < at ==> (#[trigger] self@[i]).version() != identity@.version(),
            decreases self.registrations.len() - at,
        {
            let registration = &self.registrations[at];
            assert(self@[at as int] == registration@);
            if registration.identity().shares_family(identity) {
                proof {
                    lemma_family_of_skips(self@, identity@.version(), at as int);
                }
                return Some(registration);
            }
            at = at + 1;
        }
        proof {
            lemma_family_of_skips(self@, identity@.version(), at as int);
        }
        None
    }

    /// Add a registration whose table name is not taken.
    pub fn insert(&mut self, registration: TableRegistration) -> (outcome: Result<(), Error>)
        ensures
            match outcome {
                Ok(()) => {
                    &&& !registered(old(self)@, registration@.table)
                    &&& final(self)@ == old(self)@.push(registration@)
                },
                Err(error) => {
                    &&& registered(old(self)@, registration@.table)
                    &&& error@ == Failure::TableAlreadyRegistered { table: registration@.table }
                    &&& final(self)@ == old(self)@
                },
            },
    {
        proof {
            lemma_registered(self@, registration@.table);
        }
        if self.registration_for_table(registration.table_name()).is_some() {
            return Err(
                Error::TableAlreadyRegistered { table: registration.table_name().to_owned() },
            );
        }
        proof {
            lemma_views_push(self.registrations@, registration);
        }
        self.registrations.push(registration);
        Ok(())
    }

    /// Bind a table to another identity.
    pub fn rebind(&mut self, registration: TableRegistration)
        ensures
            final(self)@ == rebound(old(self)@, registration@),
    {
        let ghost before = self@;
        let mut at: usize = 0;
        while at < self.registrations.len()
            invariant
                at <= self.registrations.len(),
                self@.len() == before.len(),
                self@.len() == self.registrations@.len(),
                forall|i: int|
                    0 <= i < at ==> #[trigger] self@[i] == rebound(before, registration@)[i],
                forall|i: int| at <= i < self@.len() ==> #[trigger] self@[i] == before[i],
            decreases self.registrations.len() - at,
        {
            assert(self@[at as int] == before[at as int]);
            assert(self@[at as int] == self.registrations@[at as int]@);
            let ghost standing = self@;
            if same_text(self.registrations[at].table_name(), registration.table_name()) {
                self.registrations.set(at, registration.clone());
                assert(self@ =~= standing.update(at as int, registration@));
            }
            at = at + 1;
        }
        assert(self@ =~= rebound(before, registration@));
    }

    pub fn registrations(&self) -> (registrations: &[TableRegistration])
        ensures
            views(registrations@) == self@,
    {
        self.registrations.as_slice()
    }

    pub fn registration_for_table(&self, table_name: &str) -> (registration: Option<
        &TableRegistration,
    >)
        ensures
            match registration {
                Some(found) => family_at(self@, table_name@) == Some(found@),
                None => family_at(self@, table_name@) is None,
            },
    {
        let mut at: usize = 0;
        while at < self.registrations.len()
            invariant
                at <= self.registrations.len(),
                forall|i: int| 0 <= i < at ==> (#[trigger] self@[i]).table != table_name@,
            decreases self.registrations.len() - at,
        {
            let registration = &self.registrations[at];
            assert(self@[at as int] == registration@);
            if same_text(registration.table_name(), table_name) {
                proof {
                    lemma_family_at_skips(self@, table_name@, at as int);
                }
                return Some(registration);
            }
            at = at + 1;
        }
        proof {
            lemma_family_at_skips(self@, table_name@, at as int);
        }
        None
    }
}

} // verus!
