//! Sums over the values of finite maps and over rows.

use vstd::prelude::*;

use crate::dict::{distinct_keys, lemma_rows_map, rows_map};

verus! {

/// The sum of the sizes of a finite map's values.
pub open spec fn map_sum<W>(m: Map<Seq<char>, W>, size: spec_fn(W) -> nat) -> nat
    decreases m.dom().len(),
    when m.dom().finite()
{
    if m.dom().len() == 0 {
        0
    } else {
        let key = m.dom().choose();
        size(m[key]) + map_sum(m.remove(key), size)
    }
}

/// The sum of the sizes of the rows' values.
pub open spec fn rows_sum<W>(rows: Seq<(Seq<char>, W)>, size: spec_fn(W) -> nat) -> nat
    decreases rows.len(),
{
    if rows.len() == 0 {
        0
    } else {
        rows_sum(rows.drop_last(), size) + size(rows.last().1)
    }
}

/// Any one value can be set aside from a sum.
pub proof fn lemma_map_sum_remove<W>(m: Map<Seq<char>, W>, size: spec_fn(W) -> nat, key: Seq<char>)
    requires
        m.dom().finite(),
        m.contains_key(key),
    ensures
        map_sum(m, size) == size(m[key]) + map_sum(m.remove(key), size),
    decreases m.dom().len(),
{
    let first = m.dom().choose();
    assert(m.dom().contains(first));
    if first != key {
        assert(m.remove(first).dom() == m.dom().remove(first));
        assert(m.remove(key).dom() == m.dom().remove(key));
        lemma_map_sum_remove(m.remove(first), size, key);
        lemma_map_sum_remove(m.remove(key), size, first);
        assert(m.remove(first).remove(key) == m.remove(key).remove(first));
    }
}

/// A value under a new key adds its size to the sum.
pub proof fn lemma_map_sum_insert<W>(
    m: Map<Seq<char>, W>,
    size: spec_fn(W) -> nat,
    key: Seq<char>,
    value: W,
)
    requires
        m.dom().finite(),
    ensures
        m.insert(key, value).dom().finite(),
        map_sum(m.insert(key, value), size) == map_sum(m.remove(key), size) + size(value),
        !m.contains_key(key) ==> map_sum(m.insert(key, value), size) == map_sum(m, size) + size(
            value,
        ),
{
    lemma_map_sum_remove(m.insert(key, value), size, key);
    assert(m.insert(key, value).remove(key) == m.remove(key));
    if !m.contains_key(key) {
        assert(m.remove(key) == m);
    }
}

/// The sum over rows is the sum over the map that they denote.
pub proof fn lemma_rows_sum<W>(rows: Seq<(Seq<char>, W)>, size: spec_fn(W) -> nat)
    requires
        distinct_keys(rows),
    ensures
        rows_map(rows).dom().finite(),
        rows_sum(rows, size) == map_sum(rows_map(rows), size),
    decreases rows.len(),
{
    lemma_rows_map(rows);
    if rows.len() > 0 {
        let rest = rows.drop_last();
        lemma_rows_sum(rest, size);
        lemma_rows_map(rest);
        let key = rows.last().0;
        if rows_map(rest).contains_key(key) {
            let i = choose|i: int| 0 <= i < rest.len() && (#[trigger] rest[i]).0 == key;
            assert(rows[i].0 == rows[rows.len() - 1].0);
        }
        lemma_map_sum_insert(rows_map(rest), size, key, rows.last().1);
    }
}

/// A sum over the first rows is no larger than one over more of them.
pub proof fn lemma_rows_sum_monotone<W>(
    rows: Seq<(Seq<char>, W)>,
    size: spec_fn(W) -> nat,
    i: int,
    j: int,
)
    requires
        0 <= i <= j <= rows.len(),
    ensures
        rows_sum(rows.take(i), size) <= rows_sum(rows.take(j), size),
    decreases j - i,
{
    if i < j {
        lemma_rows_sum_monotone(rows, size, i, j - 1);
        assert(rows.take(j).drop_last() == rows.take(j - 1));
    }
}

} // verus!
