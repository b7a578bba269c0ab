//! The rows of a table in key order, as plain sequences.

use vstd::prelude::*;

use crate::models::{lemma_views_push, views, Duplicate};
use crate::order::text_precedes;
use crate::ordered_table::{
    has_key, keyed_at, lemma_position, lemma_rising_unique, map_of, rising, OrderedTable,
};

verus! {

/// Rows under strictly rising numbers.
pub open spec fn number_rising<X>(rows: Seq<(u64, X)>) -> bool {
    forall|i: int, j: int|
        0 <= i < j < rows.len() ==> (#[trigger] rows[i]).0 < (#[trigger] rows[j]).0
}

/// The rows of a map by rising number.
pub open spec fn numbered<X>(map: Map<u64, X>) -> Seq<(u64, X)> {
    choose|rows: Seq<(u64, X)>| number_rising(rows) && map_of(rows) == map
}

/// Rows under texts that rise by their UTF-8 bytes.
pub open spec fn text_rising<X>(rows: Seq<(Seq<char>, X)>) -> bool {
    forall|i: int, j: int|
        0 <= i < j < rows.len() ==> text_precedes(#[trigger] rows[i].0, #[trigger] rows[j].0)
}

/// The rows of a map by rising text.
pub open spec fn lettered<X>(map: Map<Seq<char>, X>) -> Seq<(Seq<char>, X)> {
    choose|rows: Seq<(Seq<char>, X)>| text_rising(rows) && map_of(rows) == map
}

/// A map's listing by number rises and holds every row of it, and no other.
pub open spec fn number_listed<X>(map: Map<u64, X>) -> bool {
    number_rising(numbered(map)) && map_of(numbered(map)) == map
}

/// A map's listing by text rises and holds every row of it, and no other.
pub open spec fn text_listed<X>(map: Map<Seq<char>, X>) -> bool {
    text_rising(lettered(map)) && map_of(lettered(map)) == map
}

/// What the rows hold.
pub open spec fn row_values<A, X>(rows: Seq<(A, X)>) -> Seq<X> {
    Seq::new(rows.len(), |i: int| rows[i].1)
}

/// What a numbered table holds, by rising number.
pub open spec fn log_values<X>(map: Map<u64, X>) -> Seq<X> {
    row_values(numbered(map))
}

/// The part of a numbered table from `start` on.
pub open spec fn from_number<X>(map: Map<u64, X>, start: int) -> Map<u64, X> {
    Map::new(|key: u64| map.dom().contains(key) && start <= key, |key: u64| map[key])
}

/// Rows that rise are the listing of the map they represent.
pub proof fn lemma_numbered<X>(rows: Seq<(u64, X)>)
    requires
        number_rising(rows),
    ensures
        numbered(map_of(rows)) == rows,
{
    let found = numbered(map_of(rows));
    assert(number_rising(rows) && map_of(rows) == map_of(rows));
    lemma_number_rising(found);
    lemma_number_rising(rows);
    lemma_rising_unique::<u64, X>(found, rows);
}

/// The order of numbered rows is the order they are stored in.
pub proof fn lemma_number_rising<X>(rows: Seq<(u64, X)>)
    ensures
        number_rising(rows) <==> rising::<u64, X>(rows),
{
    if number_rising(rows) {
        assert forall|i: int, j: int| 0 <= i < j < rows.len() implies <u64 as
            crate::ordered_table::TableKey>::precedes(#[trigger] rows[i].0, #[trigger] rows[j].0) by {
            assert(rows[i].0 < rows[j].0);
        }
    }
    if rising::<u64, X>(rows) {
        assert forall|i: int, j: int| 0 <= i < j < rows.len() implies (#[trigger] rows[i]).0 < (
        #[trigger] rows[j]).0 by {
            assert(<u64 as crate::ordered_table::TableKey>::precedes(rows[i].0, rows[j].0));
        }
    }
}

/// Rows that rise are the listing of the map they represent.
pub proof fn lemma_lettered<X>(rows: Seq<(Seq<char>, X)>)
    requires
        rising::<String, X>(rows),
    ensures
        text_rising(rows),
        lettered(map_of(rows)) == rows,
{
    assert forall|i: int, j: int| 0 <= i < j < rows.len() implies text_precedes(
        #[trigger] rows[i].0,
        #[trigger] rows[j].0,
    ) by {
        assert(<String as crate::ordered_table::TableKey>::precedes(rows[i].0, rows[j].0));
    }
    let found = lettered(map_of(rows));
    assert(text_rising(rows) && map_of(rows) == map_of(rows));
    assert forall|i: int, j: int| 0 <= i < j < found.len() implies <String as
        crate::ordered_table::TableKey>::precedes(#[trigger] found[i].0, #[trigger] found[j].0) by {
        assert(text_precedes(found[i].0, found[j].0));
    }
    lemma_rising_unique::<String, X>(found, rows);
}

/// The tail of rising rows from the first key at or past `start`
/// represents the part of the map from `start` on.
pub proof fn lemma_tail<X>(rows: Seq<(u64, X)>, at: int, start: int)
    requires
        number_rising(rows),
        0 <= at <= rows.len(),
        forall|i: int| 0 <= i < at ==> (#[trigger] rows[i]).0 < start,
        at < rows.len() ==> start <= rows[at].0,
    ensures
        number_rising(rows.skip(at)),
        map_of(rows.skip(at)) == from_number(map_of(rows), start),
        numbered(from_number(map_of(rows), start)) == rows.skip(at),
{
    let tail = rows.skip(at);
    assert(number_rising(tail)) by {
        assert forall|i: int, j: int| 0 <= i < j < tail.len() implies (#[trigger] tail[i]).0 < (
        #[trigger] tail[j]).0 by {
            assert(rows[i + at].0 < rows[j + at].0);
        }
    }
    let left = map_of(tail);
    let right = from_number(map_of(rows), start);
    lemma_number_rising(rows);
    lemma_number_rising(tail);
    assert forall|key: u64| left.dom().contains(key) == right.dom().contains(key) by {
        if has_key(tail, key) {
            let i = choose|i: int| keyed_at(tail, key, i);
            assert(keyed_at(rows, key, i + at));
            if i > 0 {
                assert(rows[at].0 < rows[i + at].0);
            }
        }
        if has_key(rows, key) && start <= key {
            let i = choose|i: int| keyed_at(rows, key, i);
            if i < at {
                assert(rows[i].0 < start);
            }
            assert(keyed_at(tail, key, i - at));
        }
    }
    assert forall|key: u64| left.dom().contains(key) implies left[key] == right[key] by {
        let i = choose|i: int| keyed_at(tail, key, i);
        lemma_position::<u64, X>(tail, i);
        lemma_position::<u64, X>(rows, i + at);
    }
    assert(left =~= right);
    lemma_numbered(tail);
}

/// The first of rising rows at or past a number.
pub proof fn lemma_first_at<X>(rows: Seq<(u64, X)>, start: int) -> (at: int)
    requires
        number_rising(rows),
    ensures
        0 <= at <= rows.len(),
        forall|i: int| 0 <= i < at ==> (#[trigger] rows[i]).0 < start,
        at < rows.len() ==> start <= rows[at].0,
    decreases rows.len(),
{
    if rows.len() == 0 {
        0
    } else {
        let less = rows.drop_last();
        let at = lemma_first_at(less, start);
        assert forall|i: int| 0 <= i < at implies (#[trigger] rows[i]).0 < start by {
            assert(less[i] == rows[i]);
        }
        if at < less.len() {
            assert(less[at] == rows[at]);
            at
        } else if rows.last().0 < start {
            rows.len() as int
        } else {
            at
        }
    }
}

/// A row under a number past all others comes last.
pub proof fn lemma_numbered_push<X>(rows: Seq<(u64, X)>, key: u64, value: X)
    requires
        number_rising(rows),
        forall|i: int| 0 <= i < rows.len() ==> (#[trigger] rows[i]).0 < key,
    ensures
        number_rising(rows.push((key, value))),
        map_of(rows.push((key, value))) == map_of(rows).insert(key, value),
        numbered(map_of(rows).insert(key, value)) == rows.push((key, value)),
{
    let more = rows.push((key, value));
    assert(number_rising(more));
    lemma_number_rising(more);
    crate::ordered_table::lemma_map_take::<u64, X>(more, rows.len() as int);
    assert(more.take(rows.len() as int) =~= rows);
    assert(more.take(rows.len() as int + 1) =~= more);
    lemma_numbered(more);
}

/// Everything a numbered table holds, by rising number.
pub fn values<W: Duplicate>(table: &OrderedTable<u64, W>) -> (found: Vec<W>)
    ensures
        views(found@) == log_values(table@),
        number_listed(table@),
{
    let found: Vec<W> = values_from(table, 0);
    assert(from_number(table@, 0) =~= table@);
    found
}

/// What a numbered table holds from `start` on, by rising number.
pub fn values_from<W: Duplicate>(table: &OrderedTable<u64, W>, start: u64) -> (found: Vec<W>)
    ensures
        views(found@) == log_values(from_number(table@, start as int)),
        number_listed(from_number(table@, start as int)),
{
    let count: usize = table.len();
    let ghost rows = table.listing();
    proof {
        lemma_number_rising(rows);
    }
    let mut first: usize = 0;
    while first < count && *table.key_at(first) < start
        invariant
            first <= count,
            count == rows.len(),
            rows == table.listing(),
            forall|i: int| 0 <= i < first ==> (#[trigger] rows[i]).0 < start,
        decreases count - first,
    {
        first = first + 1;
    }
    proof {
        lemma_tail(rows, first as int, start as int);
    }
    let ghost tail = rows.skip(first as int);
    let mut found: Vec<W> = Vec::new();
    let mut at: usize = first;
    assert(views(found@) =~= row_values(tail).take(0));
    while at < count
        invariant
            first <= at <= count,
            count == rows.len(),
            rows == table.listing(),
            tail == rows.skip(first as int),
            views(found@) == row_values(tail).take(at - first),
        decreases count - at,
    {
        let value: W = table.value_at(at).duplicate();
        proof {
            lemma_views_push(found@, value);
            assert(row_values(tail)[at - first] == value@);
            assert(row_values(tail).take(at - first + 1) =~= row_values(tail).take(
                at - first,
            ).push(value@));
        }
        found.push(value);
        at = at + 1;
    }
    assert(row_values(tail).take(at - first) =~= row_values(tail));
    found
}

/// What a numbered table holds past `after`, by rising number.
pub fn values_after<W: Duplicate>(table: &OrderedTable<u64, W>, after: u64) -> (found: Vec<W>)
    ensures
        views(found@) == log_values(from_number(table@, after + 1)),
        number_listed(from_number(table@, after + 1)),
{
    if after == u64::MAX {
        let found: Vec<W> = Vec::new();
        proof {
            let none = from_number(table@, after + 1);
            let rows = Seq::<(u64, W::V)>::empty();
            assert(none =~= Map::empty());
            assert(map_of(rows) =~= none);
            lemma_numbered(rows);
            assert(views(found@) =~= log_values(none));
        }
        found
    } else {
        values_from(table, after + 1)
    }
}

} // verus!
