//! A dictionary from texts to values that keeps its rows in the order of their first insertion.

use vstd::prelude::*;

use crate::text::same_text;

verus! {

/// The map that a sequence of rows denotes, a later row standing over an earlier one.
pub open spec fn rows_map<W>(rows: Seq<(Seq<char>, W)>) -> Map<Seq<char>, W>
    decreases rows.len(),
{
    if rows.len() == 0 {
        Map::empty()
    } else {
        rows_map(rows.drop_last()).insert(rows.last().0, rows.last().1)
    }
}

/// Whether no two rows have the same key.
pub open spec fn distinct_keys<W>(rows: Seq<(Seq<char>, W)>) -> bool {
    forall|i: int, j: int|
        0 <= i < j < rows.len() ==> (#[trigger] rows[i]).0 != (#[trigger] rows[j]).0
}

/// The keys of the map are those of the rows, each with its own row's value.
pub proof fn lemma_rows_map<W>(rows: Seq<(Seq<char>, W)>)
    requires
        distinct_keys(rows),
    ensures
        rows_map(rows).dom().finite(),
        forall|i: int|
            0 <= i < rows.len() ==> rows_map(rows).contains_key((#[trigger] rows[i]).0)
                && rows_map(rows)[rows[i].0] == rows[i].1,
        forall|key: Seq<char>| #[trigger]
            rows_map(rows).contains_key(key) ==> exists|i: int|
                0 <= i < rows.len() && (#[trigger] rows[i]).0 == key,
    decreases rows.len(),
{
    if rows.len() > 0 {
        let rest = rows.drop_last();
        lemma_rows_map(rest);
        assert forall|i: int| 0 <= i < rows.len() implies rows_map(rows).contains_key(
            (#[trigger] rows[i]).0,
        ) && rows_map(rows)[rows[i].0] == rows[i].1 by {
            if i < rows.len() - 1 {
                assert(rest[i] == rows[i]);
                assert(rows[i].0 != rows[rows.len() - 1].0);
            }
        }
        assert forall|key: Seq<char>| #[trigger] rows_map(rows).contains_key(key) implies exists|
            i: int,
        |
            0 <= i < rows.len() && (#[trigger] rows[i]).0 == key by {
            if key == rows.last().0 {
                assert(rows[rows.len() - 1].0 == key);
            } else {
                assert(rows_map(rest).contains_key(key));
                let i = choose|i: int| 0 <= i < rest.len() && (#[trigger] rest[i]).0 == key;
                assert(rows[i].0 == key);
            }
        }
    }
}

/// Giving a row another value gives its key another value in the map.
pub proof fn lemma_rows_update<W>(rows: Seq<(Seq<char>, W)>, i: int, value: W)
    requires
        distinct_keys(rows),
        0 <= i < rows.len(),
    ensures
        distinct_keys(rows.update(i, (rows[i].0, value))),
        rows_map(rows.update(i, (rows[i].0, value))) == rows_map(rows).insert(rows[i].0, value),
{
    let after = rows.update(i, (rows[i].0, value));
    lemma_rows_map(rows);
    lemma_rows_map(after);
    assert forall|k: Seq<char>| #[trigger]
        rows_map(after).contains_key(k) <==> rows_map(rows).contains_key(k) by {
        if rows_map(after).contains_key(k) {
            let j = choose|j: int| 0 <= j < after.len() && (#[trigger] after[j]).0 == k;
            assert(rows[j].0 == k);
        }
        if rows_map(rows).contains_key(k) {
            let j = choose|j: int| 0 <= j < rows.len() && (#[trigger] rows[j]).0 == k;
            assert(after[j].0 == k);
        }
    }
    assert forall|k: Seq<char>| #[trigger] rows_map(after).contains_key(k) implies rows_map(
        after,
    )[k] == rows_map(rows).insert(rows[i].0, value)[k] by {
        let j = choose|j: int| 0 <= j < after.len() && (#[trigger] after[j]).0 == k;
        assert(rows[j].0 == k);
        if j != i {
            assert(rows[j].0 != rows[i].0);
        }
    }
    assert(rows_map(after) == rows_map(rows).insert(rows[i].0, value));
}

/// A dictionary from texts to values.
#[derive(Debug)]
pub struct Dict<V: DeepView> {
    entries: Vec<(String, V)>,
}

impl<V: DeepView> Dict<V> {
    /// The rows, in the order in which their keys first came in.
    pub closed spec fn rows(self) -> Seq<(Seq<char>, V::V)> {
        self.entries@.map_values(|row: (String, V)| (row.0@, row.1.deep_view()))
    }

    #[verifier::type_invariant]
    spec fn keys_are_distinct(self) -> bool {
        distinct_keys(self.rows())
    }
}

impl<V: DeepView> View for Dict<V> {
    type V = Map<Seq<char>, V::V>;

    open spec fn view(&self) -> Map<Seq<char>, V::V> {
        rows_map(self.rows())
    }
}

impl<V: DeepView> DeepView for Dict<V> {
    type V = Map<Seq<char>, V::V>;

    open spec fn deep_view(&self) -> Map<Seq<char>, V::V> {
        self@
    }
}

impl<V: DeepView> Dict<V> {
    /// An empty dictionary.
    pub fn new() -> (dict: Self)
        ensures
            dict.rows() == Seq::<(Seq<char>, V::V)>::empty(),
            dict@ == Map::<Seq<char>, V::V>::empty(),
    {
        let dict = Dict { entries: Vec::new() };
        assert(dict.rows() == Seq::<(Seq<char>, V::V)>::empty());
        dict
    }

    /// The number of rows.
    pub fn len(&self) -> (n: usize)
        ensures
            n == self.rows().len(),
            distinct_keys(self.rows()),
    {
        proof {
            use_type_invariant(self);
        }
        self.entries.len()
    }

    /// The key of the row at an index.
    pub fn key_at(&self, i: usize) -> (key: &String)
        requires
            i < self.rows().len(),
        ensures
            key@ == self.rows()[i as int].0,
    {
        &self.entries[i].0
    }

    /// The value of the row at an index.
    pub fn value_at(&self, i: usize) -> (value: &V)
        requires
            i < self.rows().len(),
        ensures
            value.deep_view() == self.rows()[i as int].1,
    {
        &self.entries[i].1
    }

    /// The index of the row with the given key.
    pub fn position(&self, key: &str) -> (at: Option<usize>)
        ensures
            at is Some <==> self@.contains_key(key@),
            at matches Some(i) ==> i < self.rows().len() && self.rows()[i as int].0 == key@
                && self@[key@] == self.rows()[i as int].1,
    {
        proof {
            use_type_invariant(self);
            lemma_rows_map(self.rows());
        }
        let mut i: usize = 0;
        while i < self.entries.len()
            invariant
                i <= self.entries@.len(),
                distinct_keys(self.rows()),
                forall|j: int| 0 <= j < i ==> (#[trigger] self.rows()[j]).0 != key@,
            decreases self.entries@.len() - i,
        {
            assert(self.rows()[i as int].0 == self.entries@[i as int].0@);
            if same_text(self.entries[i].0.as_str(), key) {
                proof {
                    lemma_rows_map(self.rows());
                }
                return Some(i);
            }
            i = i + 1;
        }
        proof {
            lemma_rows_map(self.rows());
        }
        None
    }

    /// The value under a key.
    pub fn get(&self, key: &str) -> (value: Option<&V>)
        ensures
            value is Some <==> self@.contains_key(key@),
            value matches Some(v) ==> v.deep_view() == self@[key@],
    {
        match self.position(key) {
            Some(i) => Some(self.value_at(i)),
            None => None,
        }
    }

    /// Whether there is a value under a key.
    pub fn contains_key(&self, key: &str) -> (found: bool)
        ensures
            found == self@.contains_key(key@),
    {
        self.position(key).is_some()
    }

    /// Puts a value under a key. A key that is already there keeps its row.
    pub fn insert(&mut self, key: String, value: V)
        ensures
            final(self)@ == old(self)@.insert(key@, value.deep_view()),
            old(self)@.contains_key(key@) ==> exists|i: int|
                0 <= i < old(self).rows().len() && (#[trigger] old(self).rows()[i]).0 == key@
                    && final(self).rows() == old(self).rows().update(
                    i,
                    (key@, value.deep_view()),
                ),
            !old(self)@.contains_key(key@) ==> final(self).rows() == old(self).rows().push(
                (key@, value.deep_view()),
            ),
    {
        let at = self.position(key.as_str());
        let mut entries: Vec<(String, V)> = Vec::new();
        proof {
            use_type_invariant(&*self);
        }
        let ghost before = self.rows();
        let ghost row = (key@, value.deep_view());
        std::mem::swap(&mut entries, &mut self.entries);
        match at {
            Some(i) => {
                entries[i] = (key, value);
                let ghost after = entries@.map_values(
                    |row: (String, V)| (row.0@, row.1.deep_view()),
                );
                proof {
                    assert(after == before.update(i as int, row));
                    lemma_rows_update(before, i as int, row.1);
                }
            },
            None => {
                entries.push((key, value));
                let ghost after = entries@.map_values(
                    |row: (String, V)| (row.0@, row.1.deep_view()),
                );
                proof {
                    assert(after == before.push(row));
                    assert(after.drop_last() == before);
                    lemma_rows_map(before);
                }
            },
        }
        self.entries = entries;
    }

    /// Takes the value out from under a key, leaving another one in its place.
    pub fn exchange(&mut self, key: &str, filler: V) -> (value: Option<V>)
        ensures
            value is Some <==> old(self)@.contains_key(key@),
            value matches Some(v) ==> v.deep_view() == old(self)@[key@] && final(self)@
                == old(self)@.insert(key@, filler.deep_view()),
            value is None ==> final(self)@ == old(self)@,
            value is Some ==> exists|i: int|
                0 <= i < old(self).rows().len() && (#[trigger] old(self).rows()[i]).0 == key@
                    && final(self).rows() == old(self).rows().update(
                    i,
                    (key@, filler.deep_view()),
                ),
            value is None ==> final(self).rows() == old(self).rows(),
    {
        let at = self.position(key);
        proof {
            use_type_invariant(&*self);
        }
        let ghost before = self.rows();
        match at {
            Some(i) => {
                let mut entries: Vec<(String, V)> = Vec::new();
                std::mem::swap(&mut entries, &mut self.entries);
                let mut value = filler;
                std::mem::swap(&mut value, &mut entries[i].1);
                proof {
                    let after = entries@.map_values(
                        |row: (String, V)| (row.0@, row.1.deep_view()),
                    );
                    assert(after == before.update(
                        i as int,
                        (before[i as int].0, filler.deep_view()),
                    ));
                    lemma_rows_update(before, i as int, filler.deep_view());
                }
                self.entries = entries;
                assert(before[i as int].0 == key@);
                Some(value)
            },
            None => None,
        }
    }
}

/// Whether every clone of a value holds what the value does.
pub open spec fn clones_hold_the_same<V: DeepView + Clone>() -> bool {
    forall|a: V, b: V| #[trigger] cloned(a, b) ==> a.deep_view() == b.deep_view()
}

impl<V: DeepView + Clone> Clone for Dict<V> {
    fn clone(&self) -> (copy: Self)
        ensures
            clones_hold_the_same::<V>() ==> copy.rows() == self.rows(),
    {
        proof {
            use_type_invariant(self);
        }
        let ghost all = self.rows();
        let mut entries: Vec<(String, V)> = Vec::new();
        let mut i: usize = 0;
        while i < self.entries.len()
            invariant
                i <= self.entries@.len(),
                i == entries@.len(),
                forall|j: int|
                    0 <= j < i ==> (#[trigger] entries@[j]).0@ == self.entries@[j].0@ && cloned(
                        self.entries@[j].1,
                        entries@[j].1,
                    ),
            decreases self.entries@.len() - i,
        {
            let row = &self.entries[i];
            let value = row.1.clone();
            entries.push((row.0.clone(), value));
            i = i + 1;
        }
        proof {
            let rows = entries@.map_values(|row: (String, V)| (row.0@, row.1.deep_view()));
            assert forall|j: int, k: int| 0 <= j < k < rows.len() implies (#[trigger] rows[j]).0
                != (#[trigger] rows[k]).0 by {
                assert(rows[j].0 == all[j].0 && rows[k].0 == all[k].0);
            }
            if clones_hold_the_same::<V>() {
                assert forall|j: int| 0 <= j < rows.len() implies rows[j] == all[j] by {
                    assert(cloned(self.entries@[j].1, entries@[j].1));
                }
                assert(rows == all);
            }
        }
        Dict { entries }
    }
}

/// Clones of a dictionary hold the same where those of its values do.
pub proof fn lemma_dict_clones<V: DeepView + Clone>()
    requires
        clones_hold_the_same::<V>(),
    ensures
        clones_hold_the_same::<Dict<V>>(),
{
    assert forall|a: Dict<V>, b: Dict<V>| #[trigger] cloned(a, b) implies a.deep_view()
        == b.deep_view() by {}
}

/// Clones of a list hold the same where those of its items do.
pub proof fn lemma_list_clones<V: DeepView + Clone>()
    requires
        clones_hold_the_same::<V>(),
    ensures
        clones_hold_the_same::<Vec<V>>(),
{
    assert forall|a: Vec<V>, b: Vec<V>| #[trigger] cloned(a, b) implies a.deep_view()
        == b.deep_view() by {
        assert forall|i: int| 0 <= i < a@.len() implies a.deep_view()[i] == b.deep_view()[i] by {
            assert(cloned(a@[i], b@[i]));
        }
        assert(a.deep_view() =~= b.deep_view());
    }
}

} // verus!
