//! A keyed table whose rows stay in key order: the in-memory shape of
//! one storage table.

use vstd::prelude::*;

use crate::models::Duplicate;
use crate::order::{
    lemma_text_irreflexive, lemma_text_total, lemma_text_transitive, relate_numbers, relate_text,
    text_precedes, Relation,
};

verus! {

/// A key type with a total order on its models.
pub trait TableKey: View + Sized {
    /// `a` comes before `b`.
    spec fn precedes(a: Self::V, b: Self::V) -> bool;

    proof fn lemma_irreflexive(a: Self::V)
        ensures
            !Self::precedes(a, a),
    ;

    proof fn lemma_transitive(a: Self::V, b: Self::V, c: Self::V)
        requires
            Self::precedes(a, b),
            Self::precedes(b, c),
        ensures
            Self::precedes(a, c),
    ;

    proof fn lemma_total(a: Self::V, b: Self::V)
        ensures
            Self::precedes(a, b) || a == b || Self::precedes(b, a),
    ;

    fn relate(&self, other: &Self) -> (relation: Relation)
        ensures
            relation == Relation::Before <==> Self::precedes(self@, other@),
            relation == Relation::Same <==> self@ == other@,
            relation == Relation::After <==> Self::precedes(other@, self@),
    ;
}

/// Rows whose keys rise strictly.
pub open spec fn rising<K: TableKey, X>(rows: Seq<(K::V, X)>) -> bool {
    forall|i: int, j: int|
        0 <= i < j < rows.len() ==> K::precedes(#[trigger] rows[i].0, #[trigger] rows[j].0)
}

/// Row `at` carries `key`.
pub open spec fn keyed_at<A, X>(rows: Seq<(A, X)>, key: A, at: int) -> bool {
    0 <= at < rows.len() && rows[at].0 == key
}

/// Some row carries `key`.
pub open spec fn has_key<A, X>(rows: Seq<(A, X)>, key: A) -> bool {
    exists|at: int| keyed_at(rows, key, at)
}

/// The finite map that a sequence of keyed rows represents.
pub open spec fn map_of<A, X>(rows: Seq<(A, X)>) -> Map<A, X> {
    Map::new(
        |key: A| has_key(rows, key),
        |key: A| rows[choose|at: int| keyed_at(rows, key, at)].1,
    )
}

/// The rows of a map in key order.
pub open spec fn listing_of<K: TableKey, X>(map: Map<K::V, X>) -> Seq<(K::V, X)> {
    choose|rows: Seq<(K::V, X)>| rising::<K, X>(rows) && map_of(rows) == map
}

/// In rising rows a key stands at one position.
pub proof fn lemma_position<K: TableKey, X>(rows: Seq<(K::V, X)>, at: int)
    requires
        rising::<K, X>(rows),
        0 <= at < rows.len(),
    ensures
        map_of(rows).dom().contains(rows[at].0),
        map_of(rows)[rows[at].0] == rows[at].1,
{
    let key = rows[at].0;
    assert(keyed_at(rows, key, at));
    let other = choose|i: int| keyed_at(rows, key, i);
    K::lemma_irreflexive(key);
    if other < at {
        assert(K::precedes(rows[other].0, rows[at].0));
    } else if at < other {
        assert(K::precedes(rows[at].0, rows[other].0));
    }
}

/// Rising rows are determined by the map they represent.
pub proof fn lemma_rising_unique<K: TableKey, X>(a: Seq<(K::V, X)>, b: Seq<(K::V, X)>)
    requires
        rising::<K, X>(a),
        rising::<K, X>(b),
        map_of(a) == map_of(b),
    ensures
        a == b,
    decreases a.len(),
{
    if a.len() == 0 {
        if b.len() > 0 {
            lemma_position::<K, X>(b, 0);
            assert(has_key(a, b[0].0));
        }
        assert(a =~= b);
    } else {
        lemma_position::<K, X>(a, 0);
        assert(has_key(b, a[0].0));
        lemma_position::<K, X>(b, 0);
        assert(has_key(a, b[0].0));
        let i = choose|i: int| keyed_at(b, a[0].0, i);
        let j = choose|j: int| keyed_at(a, b[0].0, j);
        K::lemma_irreflexive(a[0].0);
        if i > 0 {
            assert(K::precedes(b[0].0, b[i].0));
            if j > 0 {
                assert(K::precedes(a[0].0, a[j].0));
                K::lemma_transitive(a[0].0, b[0].0, a[0].0);
            }
        }
        assert(a[0].0 == b[0].0);
        let ra = a.drop_first();
        let rb = b.drop_first();
        assert(rising::<K, X>(ra)) by {
            assert forall|p: int, q: int| 0 <= p < q < ra.len() implies K::precedes(
                #[trigger] ra[p].0,
                #[trigger] ra[q].0,
            ) by {
                assert(K::precedes(a[p + 1].0, a[q + 1].0));
            }
        }
        assert(rising::<K, X>(rb)) by {
            assert forall|p: int, q: int| 0 <= p < q < rb.len() implies K::precedes(
                #[trigger] rb[p].0,
                #[trigger] rb[q].0,
            ) by {
                assert(K::precedes(b[p + 1].0, b[q + 1].0));
            }
        }
        lemma_rest_map::<K, X>(a);
        lemma_rest_map::<K, X>(b);
        lemma_rising_unique::<K, X>(ra, rb);
        assert(a =~= seq![a[0]] + ra);
        assert(b =~= seq![b[0]] + rb);
    }
}

/// Dropping the first row removes its key from the map.
proof fn lemma_rest_map<K: TableKey, X>(rows: Seq<(K::V, X)>)
    requires
        rising::<K, X>(rows),
        rows.len() > 0,
        rising::<K, X>(rows.drop_first()),
    ensures
        map_of(rows.drop_first()) == map_of(rows).remove(rows[0].0),
{
    let rest = rows.drop_first();
    let left = map_of(rest);
    let right = map_of(rows).remove(rows[0].0);
    assert forall|key: K::V| left.dom().contains(key) == right.dom().contains(key) by {
        if has_key(rest, key) {
            let at = choose|at: int| keyed_at(rest, key, at);
            assert(keyed_at(rows, key, at + 1));
            assert(K::precedes(rows[0].0, rows[at + 1].0));
            K::lemma_irreflexive(key);
        }
        if has_key(rows, key) && key != rows[0].0 {
            let at = choose|at: int| keyed_at(rows, key, at);
            assert(keyed_at(rest, key, at - 1));
        }
    }
    assert forall|key: K::V| left.dom().contains(key) implies left[key] == right[key] by {
        let at = choose|at: int| keyed_at(rest, key, at);
        lemma_position::<K, X>(rest, at);
        lemma_position::<K, X>(rows, at + 1);
    }
    assert(left =~= right);
}

/// The ordered listing of a map that rising rows represent is those rows.
pub proof fn lemma_listing_of<K: TableKey, X>(rows: Seq<(K::V, X)>)
    requires
        rising::<K, X>(rows),
    ensures
        listing_of::<K, X>(map_of(rows)) == rows,
{
    let found = listing_of::<K, X>(map_of(rows));
    assert(rising::<K, X>(rows) && map_of(rows) == map_of(rows));
    lemma_rising_unique::<K, X>(found, rows);
}

/// Rows listed one further represent the map with one row more.
pub proof fn lemma_map_take<K: TableKey, X>(rows: Seq<(K::V, X)>, at: int)
    requires
        rising::<K, X>(rows),
        0 <= at < rows.len(),
    ensures
        map_of(rows.take(at + 1)) == map_of(rows.take(at)).insert(rows[at].0, rows[at].1),
{
    let less = rows.take(at);
    let more = rows.take(at + 1);
    assert(rising::<K, X>(less)) by {
        assert forall|i: int, j: int| 0 <= i < j < less.len() implies K::precedes(
            #[trigger] less[i].0,
            #[trigger] less[j].0,
        ) by {
            assert(K::precedes(rows[i].0, rows[j].0));
        }
    }
    assert(more =~= less.insert(at, rows[at]));
    assert forall|i: int| 0 <= i < at implies K::precedes(#[trigger] less[i].0, rows[at].0) by {
        assert(K::precedes(rows[i].0, rows[at].0));
    }
    lemma_inserted::<K, X>(less, at, rows[at]);
}

/// A keyed table, its rows in key order and its keys distinct.
#[derive(Debug, PartialEq, Eq)]
pub struct OrderedTable<K: TableKey, W: View> {
    rows: Vec<(K, W)>,
}

impl<K: TableKey, W: View> View for OrderedTable<K, W> {
    type V = Map<K::V, W::V>;

    closed spec fn view(&self) -> Map<K::V, W::V> {
        map_of(self.listing())
    }
}

impl<K: TableKey, W: View> OrderedTable<K, W> {
    /// The rows in key order.
    pub closed spec fn listing(self) -> Seq<(K::V, W::V)> {
        Seq::new(self.rows@.len(), |i: int| (self.rows@[i].0@, self.rows@[i].1@))
    }

    #[verifier::type_invariant]
    pub closed spec fn in_order(self) -> bool {
        rising::<K, W::V>(self.listing())
    }

    /// A table's rows rise and represent its map.
    pub proof fn lemma_in_order(self)
        requires
            self.in_order(),
        ensures
            rising::<K, W::V>(self.listing()),
            map_of(self.listing()) == self@,
            listing_of::<K, W::V>(self@) == self.listing(),
    {
        lemma_listing_of::<K, W::V>(self.listing());
    }

    pub fn new() -> (table: Self)
        ensures
            table@ == Map::<K::V, W::V>::empty(),
            table.listing() == Seq::<(K::V, W::V)>::empty(),
    {
        let table = OrderedTable { rows: Vec::new() };
        assert(table.listing() =~= Seq::empty());
        assert(table@ =~= Map::empty());
        table
    }

    pub fn len(&self) -> (len: usize)
        ensures
            len == self.listing().len(),
            rising::<K, W::V>(self.listing()),
            map_of(self.listing()) == self@,
            listing_of::<K, W::V>(self@) == self.listing(),
    {
        proof {
            use_type_invariant(self);
            self.lemma_in_order();
        }
        self.rows.len()
    }

    pub fn is_empty(&self) -> (empty: bool)
        ensures
            empty == (self.listing().len() == 0),
            empty == (self@ == Map::<K::V, W::V>::empty()),
    {
        proof {
            use_type_invariant(self);
            if self.rows@.len() == 0 {
                assert(self@ =~= Map::empty());
            } else {
                lemma_position::<K, W::V>(self.listing(), 0);
            }
        }
        self.rows.len() == 0
    }

    /// A table with the same rows.
    pub fn duplicate(&self) -> (copy: Self) where K: Duplicate, W: Duplicate
        ensures
            copy@ == self@,
    {
        let mut copy: OrderedTable<K, W> = OrderedTable::new();
        let count: usize = self.len();
        let ghost rows = self.listing();
        let mut at: usize = 0;
        assert(rows.take(0) =~= Seq::empty());
        assert(map_of(rows.take(0)) =~= Map::empty());
        while at < count
            invariant
                at <= count,
                count == rows.len(),
                rows == self.listing(),
                rising::<K, W::V>(rows),
                copy@ == map_of(rows.take(at as int)),
            decreases count - at,
        {
            proof {
                lemma_map_take::<K, W::V>(rows, at as int);
            }
            let key: K = self.key_at(at).duplicate();
            let value: W = self.value_at(at).duplicate();
            copy.insert(key, value);
            at = at + 1;
        }
        assert(rows.take(at as int) =~= rows);
        copy
    }

    pub fn key_at(&self, at: usize) -> (key: &K)
        requires
            at < self.listing().len(),
        ensures
            key@ == self.listing()[at as int].0,
    {
        &self.rows[at].0
    }

    pub fn value_at(&self, at: usize) -> (value: &W)
        requires
            at < self.listing().len(),
        ensures
            value@ == self.listing()[at as int].1,
    {
        &self.rows[at].1
    }

    /// The first position whose key does not come before `key`.
    fn lower_bound(&self, key: &K) -> (at: usize)
        ensures
            at <= self.listing().len(),
            forall|i: int| 0 <= i < at ==> K::precedes(#[trigger] self.listing()[i].0, key@),
            forall|i: int|
                at <= i < self.listing().len() ==> !K::precedes(#[trigger] self.listing()[i].0, key@),
    {
        let mut low: usize = 0;
        let mut high: usize = self.rows.len();
        proof {
            use_type_invariant(self);
        }
        while low < high
            invariant
                low <= high <= self.rows@.len(),
                rising::<K, W::V>(self.listing()),
                forall|i: int| 0 <= i < low ==> K::precedes(#[trigger] self.listing()[i].0, key@),
                forall|i: int|
                    high <= i < self.rows@.len() ==> !K::precedes(
                        #[trigger] self.listing()[i].0,
                        key@,
                    ),
            decreases high - low,
        {
            let middle: usize = low + (high - low) / 2;
            let relation = self.rows[middle].0.relate(key);
            assert(self.listing()[middle as int].0 == self.rows@[middle as int].0@);
            if relation == Relation::Before {
                assert forall|i: int| 0 <= i < middle + 1 implies K::precedes(
                    #[trigger] self.listing()[i].0,
                    key@,
                ) by {
                    if i < middle {
                        assert(K::precedes(self.listing()[i].0, self.listing()[middle as int].0));
                        K::lemma_transitive(
                            self.listing()[i].0,
                            self.listing()[middle as int].0,
                            key@,
                        );
                    }
                }
                low = middle + 1;
            } else {
                assert forall|i: int| middle <= i < self.rows@.len() implies !K::precedes(
                    #[trigger] self.listing()[i].0,
                    key@,
                ) by {
                    if i > middle && K::precedes(self.listing()[i].0, key@) {
                        assert(K::precedes(self.listing()[middle as int].0, self.listing()[i].0));
                        K::lemma_transitive(
                            self.listing()[middle as int].0,
                            self.listing()[i].0,
                            key@,
                        );
                    }
                }
                high = middle;
            }
        }
        low
    }

    pub fn get(&self, key: &K) -> (value: Option<&W>)
        ensures
            match value {
                Some(found) => self@.dom().contains(key@) && found@ == self@[key@],
                None => !self@.dom().contains(key@),
            },
    {
        let at: usize = self.lower_bound(key);
        proof {
            use_type_invariant(self);
            if at < self.listing().len() {
                lemma_position::<K, W::V>(self.listing(), at as int);
            }
        }
        if at < self.rows.len() && self.rows[at].0.relate(key) == Relation::Same {
            Some(&self.rows[at].1)
        } else {
            proof {
                if has_key(self.listing(), key@) {
                    let i = choose|i: int| keyed_at(self.listing(), key@, i);
                    K::lemma_irreflexive(key@);
                    if at < i {
                        K::lemma_total(self.listing()[at as int].0, key@);
                        assert(K::precedes(
                            self.listing()[at as int].0,
                            self.listing()[i].0,
                        ));
                    }
                }
            }
            None
        }
    }

    pub fn contains_key(&self, key: &K) -> (found: bool)
        ensures
            found == self@.dom().contains(key@),
    {
        self.get(key).is_some()
    }

    /// Put `value` under `key`, replacing what stood there.
    pub fn insert(&mut self, key: K, value: W)
        ensures
            final(self)@ == old(self)@.insert(key@, value@),
    {
        let at: usize = self.lower_bound(&key);
        proof {
            use_type_invariant(&*self);
        }
        let ghost before = self.listing();
        let ghost place = (key@, value@);
        let present: bool = at < self.rows.len() && self.rows[at].0.relate(&key) == Relation::Same;
        let mut rows: Vec<(K, W)> = Vec::new();
        let ghost held = self.rows@;
        std::mem::swap(&mut rows, &mut self.rows);
        let ghost after: Seq<(K::V, W::V)>;
        if present {
            proof {
                after = before.update(at as int, place);
                lemma_replaced::<K, W::V>(before, at as int, place);
            }
            rows.set(at, (key, value));
        } else {
            proof {
                after = before.insert(at as int, place);
                if at < before.len() {
                    K::lemma_total(before[at as int].0, place.0);
                }
                lemma_inserted::<K, W::V>(before, at as int, place);
            }
            rows.insert(at, (key, value));
        }
        assert(Seq::new(rows@.len(), |i: int| (rows@[i].0@, rows@[i].1@)) =~= after);
        self.rows = rows;
        assert(self.listing() =~= after);
    }

    /// Remove `key` and its row, if there is one.
    pub fn remove(&mut self, key: &K) -> (removed: bool)
        ensures
            removed == old(self)@.dom().contains(key@),
            final(self)@ == old(self)@.remove(key@),
    {
        if !self.contains_key(key) {
            assert(self@ =~= self@.remove(key@));
            return false;
        }
        let at: usize = self.lower_bound(key);
        proof {
            use_type_invariant(&*self);
            let i = choose|i: int| keyed_at(self.listing(), key@, i);
            K::lemma_irreflexive(key@);
            if at < i {
                K::lemma_total(self.listing()[at as int].0, key@);
                assert(K::precedes(self.listing()[at as int].0, self.listing()[i].0));
            }
            lemma_removed::<K, W::V>(self.listing(), at as int);
        }
        let ghost before = self.listing();
        let mut rows: Vec<(K, W)> = Vec::new();
        std::mem::swap(&mut rows, &mut self.rows);
        rows.remove(at);
        assert(Seq::new(rows@.len(), |i: int| (rows@[i].0@, rows@[i].1@)) =~= before.remove(
            at as int,
        ));
        self.rows = rows;
        assert(self.listing() =~= before.remove(at as int));
        true
    }
}

proof fn lemma_replaced<K: TableKey, X>(rows: Seq<(K::V, X)>, at: int, row: (K::V, X))
    requires
        rising::<K, X>(rows),
        0 <= at < rows.len(),
        rows[at].0 == row.0,
    ensures
        rising::<K, X>(rows.update(at, row)),
        map_of(rows.update(at, row)) == map_of(rows).insert(row.0, row.1),
{
    let after = rows.update(at, row);
    assert forall|i: int, j: int| 0 <= i < j < after.len() implies K::precedes(
        #[trigger] after[i].0,
        #[trigger] after[j].0,
    ) by {
        assert(K::precedes(rows[i].0, rows[j].0));
    }
    let left = map_of(after);
    let right = map_of(rows).insert(row.0, row.1);
    assert forall|key: K::V| left.dom().contains(key) == right.dom().contains(key) by {
        if has_key(after, key) {
            let i = choose|i: int| keyed_at(after, key, i);
            assert(keyed_at(rows, key, i));
        }
        if has_key(rows, key) {
            let i = choose|i: int| keyed_at(rows, key, i);
            assert(keyed_at(after, key, i));
        }
        assert(keyed_at(after, row.0, at));
    }
    assert forall|key: K::V| left.dom().contains(key) implies left[key] == right[key] by {
        let i = choose|i: int| keyed_at(after, key, i);
        lemma_position::<K, X>(after, i);
        lemma_position::<K, X>(rows, i);
        if key == row.0 {
            lemma_position::<K, X>(after, at);
        }
    }
    assert(left =~= right);
}

proof fn lemma_inserted<K: TableKey, X>(rows: Seq<(K::V, X)>, at: int, row: (K::V, X))
    requires
        rising::<K, X>(rows),
        0 <= at <= rows.len(),
        forall|i: int| 0 <= i < at ==> K::precedes(#[trigger] rows[i].0, row.0),
        at < rows.len() ==> K::precedes(row.0, rows[at].0),
    ensures
        rising::<K, X>(rows.insert(at, row)),
        map_of(rows.insert(at, row)) == map_of(rows).insert(row.0, row.1),
{
    let after = rows.insert(at, row);
    assert forall|i: int| at <= i < rows.len() implies K::precedes(row.0, #[trigger] rows[i].0) by {
        if i > at {
            assert(K::precedes(rows[at].0, rows[i].0));
            K::lemma_transitive(row.0, rows[at].0, rows[i].0);
        }
    }
    assert forall|i: int, j: int| 0 <= i < j < after.len() implies K::precedes(
        #[trigger] after[i].0,
        #[trigger] after[j].0,
    ) by {
        let p = if i < at { i } else { i - 1 };
        let q = if j < at { j } else { j - 1 };
        if i != at && j != at {
            assert(K::precedes(rows[p].0, rows[q].0));
        } else if i == at {
            assert(after[j] == rows[q]);
        } else {
            assert(after[i] == rows[p]);
        }
    }
    let left = map_of(after);
    let right = map_of(rows).insert(row.0, row.1);
    assert forall|key: K::V| left.dom().contains(key) == right.dom().contains(key) by {
        if has_key(after, key) && key != row.0 {
            let i = choose|i: int| keyed_at(after, key, i);
            assert(keyed_at(rows, key, if i < at { i } else { i - 1 }));
        }
        if has_key(rows, key) {
            let i = choose|i: int| keyed_at(rows, key, i);
            assert(keyed_at(after, key, if i < at { i } else { i + 1 }));
        }
        assert(keyed_at(after, row.0, at));
    }
    assert forall|key: K::V| left.dom().contains(key) implies left[key] == right[key] by {
        let i = choose|i: int| keyed_at(after, key, i);
        lemma_position::<K, X>(after, i);
        lemma_position::<K, X>(after, at);
        if key != row.0 {
            let p = if i < at { i } else { i - 1 };
            assert(after[i] == rows[p]);
            lemma_position::<K, X>(rows, p);
        }
    }
    assert(left =~= right);
}

proof fn lemma_removed<K: TableKey, X>(rows: Seq<(K::V, X)>, at: int)
    requires
        rising::<K, X>(rows),
        0 <= at < rows.len(),
    ensures
        rising::<K, X>(rows.remove(at)),
        map_of(rows.remove(at)) == map_of(rows).remove(rows[at].0),
{
    let after = rows.remove(at);
    let gone = rows[at].0;
    assert forall|i: int, j: int| 0 <= i < j < after.len() implies K::precedes(
        #[trigger] after[i].0,
        #[trigger] after[j].0,
    ) by {
        let p = if i < at { i } else { i + 1 };
        let q = if j < at { j } else { j + 1 };
        assert(K::precedes(rows[p].0, rows[q].0));
    }
    let left = map_of(after);
    let right = map_of(rows).remove(gone);
    assert forall|key: K::V| left.dom().contains(key) == right.dom().contains(key) by {
        if has_key(after, key) {
            let i = choose|i: int| keyed_at(after, key, i);
            let p = if i < at { i } else { i + 1 };
            assert(keyed_at(rows, key, p));
            K::lemma_irreflexive(key);
            if p < at {
                assert(K::precedes(rows[p].0, rows[at].0));
            } else {
                assert(K::precedes(rows[at].0, rows[p].0));
            }
        }
        if has_key(rows, key) && key != gone {
            let i = choose|i: int| keyed_at(rows, key, i);
            assert(keyed_at(after, key, if i < at { i } else { i - 1 }));
        }
    }
    assert forall|key: K::V| left.dom().contains(key) implies left[key] == right[key] by {
        let i = choose|i: int| keyed_at(after, key, i);
        lemma_position::<K, X>(after, i);
        lemma_position::<K, X>(rows, if i < at { i } else { i + 1 });
    }
    assert(left =~= right);
}

impl TableKey for u64 {
    open spec fn precedes(a: u64, b: u64) -> bool {
        a < b
    }

    proof fn lemma_irreflexive(a: u64) {
    }

    proof fn lemma_transitive(a: u64, b: u64, c: u64) {
    }

    proof fn lemma_total(a: u64, b: u64) {
    }

    fn relate(&self, other: &u64) -> (relation: Relation) {
        relate_numbers(*self, *other)
    }
}

impl TableKey for String {
    open spec fn precedes(a: Seq<char>, b: Seq<char>) -> bool {
        text_precedes(a, b)
    }

    proof fn lemma_irreflexive(a: Seq<char>) {
        lemma_text_irreflexive(a);
    }

    proof fn lemma_transitive(a: Seq<char>, b: Seq<char>, c: Seq<char>) {
        lemma_text_transitive(a, b, c);
    }

    proof fn lemma_total(a: Seq<char>, b: Seq<char>) {
        lemma_text_total(a, b);
    }

    fn relate(&self, other: &String) -> (relation: Relation) {
        relate_text(self.as_str(), other.as_str())
    }
}

/// A map that rising rows represent.
pub open spec fn listable<K: TableKey, X>(map: Map<K::V, X>) -> bool {
    exists|rows: Seq<(K::V, X)>| #[trigger] rising::<K, X>(rows) && map_of(rows) == map
}

/// The rows of a listable map rise and represent it.
pub proof fn lemma_listed<K: TableKey, X>(map: Map<K::V, X>)
    requires
        listable::<K, X>(map),
    ensures
        rising::<K, X>(listing_of::<K, X>(map)),
        map_of(listing_of::<K, X>(map)) == map,
{
}

/// Nothing can be listed.
pub proof fn lemma_listable_empty<K: TableKey, X>()
    ensures
        listable::<K, X>(Map::empty()),
{
    let rows = Seq::<(K::V, X)>::empty();
    assert(rising::<K, X>(rows));
    assert(map_of(rows) =~= Map::empty());
}

/// Where a key belongs among rising rows.
proof fn lemma_place<K: TableKey, X>(rows: Seq<(K::V, X)>, key: K::V) -> (at: int)
    requires
        rising::<K, X>(rows),
    ensures
        0 <= at <= rows.len(),
        forall|i: int| 0 <= i < at ==> K::precedes(#[trigger] rows[i].0, key),
        forall|i: int| at <= i < rows.len() ==> !K::precedes(#[trigger] rows[i].0, key),
    decreases rows.len(),
{
    if rows.len() == 0 {
        0
    } else {
        let less = rows.drop_last();
        assert forall|i: int, j: int| 0 <= i < j < less.len() implies K::precedes(
            #[trigger] less[i].0,
            #[trigger] less[j].0,
        ) by {
            assert(K::precedes(rows[i].0, rows[j].0));
        }
        let at = lemma_place::<K, X>(less, key);
        let last = rows.len() - 1;
        assert forall|i: int| 0 <= i < at implies K::precedes(#[trigger] rows[i].0, key) by {
            assert(less[i] == rows[i]);
        }
        assert forall|i: int| at <= i < last implies !K::precedes(#[trigger] rows[i].0, key) by {
            assert(less[i] == rows[i]);
        }
        if at < last {
            assert(K::precedes(rows[at].0, rows[last].0));
            if K::precedes(rows[last].0, key) {
                K::lemma_transitive(rows[at].0, rows[last].0, key);
            }
            at
        } else if K::precedes(rows[last].0, key) {
            last + 1
        } else {
            last
        }
    }
}

/// A listable map stays listable with one more row.
pub proof fn lemma_listable_insert<K: TableKey, X>(map: Map<K::V, X>, key: K::V, value: X)
    requires
        listable::<K, X>(map),
    ensures
        listable::<K, X>(map.insert(key, value)),
{
    let rows = choose|rows: Seq<(K::V, X)>| #[trigger]
        rising::<K, X>(rows) && map_of(rows) == map;
    let at = lemma_place::<K, X>(rows, key);
    if at < rows.len() && rows[at].0 == key {
        lemma_replaced::<K, X>(rows, at, (key, value));
        assert(rising::<K, X>(rows.update(at, (key, value))));
    } else {
        if at < rows.len() {
            K::lemma_total(rows[at].0, key);
        }
        lemma_inserted::<K, X>(rows, at, (key, value));
        assert(rising::<K, X>(rows.insert(at, (key, value))));
    }
}

} // verus!
