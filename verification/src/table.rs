//! A table from keys to values that keeps its keys in ascending order.
//!
//! Each worker owns one table of running statistics, one entry per key that
//! it has seen. The merge of the workers' tables is a table of the same kind.

use vstd::prelude::*;
use crate::order::{
    ascending, compare_keys, key_lt, lemma_ascending_index_of, lemma_ascending_no_duplicates,
    lemma_ascending_unique, lemma_key_lt_irreflexive, lemma_key_lt_total,
    lemma_key_lt_transitive, KeyOrder,
};

verus! {

/// A mapping from keys to values of type `T`, held in ascending key order.
pub struct KeyedTable<T> {
    keys: Vec<String>,
    values: Vec<T>,
}

impl<T> View for KeyedTable<T> {
    type V = Map<Seq<char>, T>;

    /// The mapping that the table holds.
    open spec fn view(&self) -> Map<Seq<char>, T> {
        Map::new(
            |k: Seq<char>| self.keys().contains(k),
            |k: Seq<char>| self.values()[self.keys().index_of(k)],
        )
    }
}

impl<T> KeyedTable<T> {
    /// The keys of the table, in the order in which it holds them.
    pub closed spec fn keys(&self) -> Seq<Seq<char>> {
        self.keys@.map_values(|k: String| k@)
    }

    /// The values of the table, each at the position of its key.
    pub closed spec fn values(&self) -> Seq<T> {
        self.values@
    }

    /// The invariant of the table: one value per key, keys strictly ascending.
    pub closed spec fn wf(&self) -> bool {
        &&& self.keys@.len() == self.values@.len()
        &&& ascending(self.keys())
    }

    /// What the invariant means for the model: the keys ascend, so none
    /// occurs twice, and the mapping takes each key to the value at its
    /// position.
    pub proof fn lemma_wf(&self)
        requires
            self.wf(),
        ensures
            self.keys().len() == self.values().len(),
            ascending(self.keys()),
            self@.dom() == self.keys().to_set(),
            self@.dom().finite(),
            forall|i: int|
                0 <= i < self.keys().len() ==> self@[#[trigger] self.keys()[i]]
                    == self.values()[i],
    {
        let keys = self.keys();
        assert(self@.dom() =~= keys.to_set());
        vstd::seq_lib::seq_to_set_is_finite(keys);
        assert forall|i: int| 0 <= i < keys.len() implies self@[#[trigger] keys[i]]
            == self.values()[i] by {
            lemma_ascending_index_of(keys, i);
        }
    }

    /// The order in which a table holds its keys is determined by the set of
    /// the keys: two tables with the same keys hold them in the same order,
    /// whatever their values and however they were filled.
    pub proof fn lemma_keys_determined<U>(&self, other: &KeyedTable<U>)
        requires
            self.wf(),
            other.wf(),
            self@.dom() == other@.dom(),
        ensures
            self.keys() == other.keys(),
    {
        self.lemma_wf();
        other.lemma_wf();
        lemma_ascending_unique(self.keys(), other.keys());
    }

    /// An empty table.
    pub fn new() -> (table: Self)
        ensures
            table.wf(),
            table.keys() == Seq::<Seq<char>>::empty(),
            table@ == Map::<Seq<char>, T>::empty(),
    {
        let table = KeyedTable { keys: Vec::new(), values: Vec::new() };
        assert(table.keys() =~= Seq::<Seq<char>>::empty());
        assert(table@ =~= Map::<Seq<char>, T>::empty());
        table
    }

    /// Number of keys in the table.
    pub fn len(&self) -> (n: usize)
        requires
            self.wf(),
        ensures
            n == self.keys().len(),
            n == self@.dom().len(),
    {
        proof {
            self.lemma_wf();
            lemma_ascending_no_duplicates(self.keys());
            self.keys().unique_seq_to_set();
        }
        self.keys.len()
    }

    /// The key at position `i` of the ascending order.
    pub fn key_at(&self, i: usize) -> (key: &str)
        requires
            self.wf(),
            i < self.keys().len(),
        ensures
            key@ == self.keys()[i as int],
    {
        self.keys[i].as_str()
    }

    /// The value of the key at position `i` of the ascending order.
    pub fn value_at(&self, i: usize) -> (value: &T)
        requires
            self.wf(),
            i < self.keys().len(),
        ensures
            *value == self.values()[i as int],
            *value == self@[self.keys()[i as int]],
    {
        proof {
            self.lemma_wf();
        }
        &self.values[i]
    }

    /// Finds `key`, or the position at which it would be inserted.
    fn locate(&self, key: &str) -> (r: (bool, usize))
        requires
            self.wf(),
        ensures
            r.1 <= self.keys().len(),
            forall|i: int| 0 <= i < r.1 ==> key_lt(#[trigger] self.keys()[i], key@),
            r.0 ==> r.1 < self.keys().len() && self.keys()[r.1 as int] == key@,
            !r.0 ==> forall|i: int|
                r.1 <= i < self.keys().len() ==> key_lt(key@, #[trigger] self.keys()[i]),
    {
        let mut lo: usize = 0;
        let mut hi: usize = self.keys.len();
        while lo < hi
            invariant
                self.wf(),
                lo <= hi <= self.keys().len(),
                self.keys().len() == self.keys@.len(),
                forall|i: int| 0 <= i < lo ==> key_lt(#[trigger] self.keys()[i], key@),
                forall|i: int|
                    hi <= i < self.keys().len() ==> key_lt(key@, #[trigger] self.keys()[i]),
            decreases hi - lo,
        {
            let mid: usize = lo + (hi - lo) / 2;
            let ghost at = self.keys()[mid as int];
            match compare_keys(self.keys[mid].as_str(), key) {
                KeyOrder::Same => {
                    assert forall|i: int| 0 <= i < mid implies key_lt(
                        #[trigger] self.keys()[i],
                        key@,
                    ) by {
                        assert(key_lt(self.keys()[i], self.keys()[mid as int]));
                    }
                    return (true, mid);
                },
                KeyOrder::Before => {
                    assert forall|i: int| 0 <= i < mid + 1 implies key_lt(
                        #[trigger] self.keys()[i],
                        key@,
                    ) by {
                        if i < mid {
                            assert(key_lt(self.keys()[i], self.keys()[mid as int]));
                            lemma_key_lt_transitive(self.keys()[i], at, key@);
                        }
                    }
                    lo = mid + 1;
                },
                KeyOrder::After => {
                    assert(key_lt(key@, at)) by {
                        if !key_lt(key@, at) {
                            lemma_key_lt_total(at, key@);
                        }
                    }
                    assert forall|i: int| mid <= i < self.keys().len() implies key_lt(
                        key@,
                        #[trigger] self.keys()[i],
                    ) by {
                        if mid < i {
                            assert(key_lt(self.keys()[mid as int], self.keys()[i]));
                            lemma_key_lt_transitive(key@, at, self.keys()[i]);
                        }
                    }
                    hi = mid;
                },
            }
        }
        (false, lo)
    }

    /// The value that the table holds for `key`, if any.
    pub fn get(&self, key: &str) -> (value: Option<&T>)
        requires
            self.wf(),
        ensures
            match value {
                Some(v) => self@.contains_key(key@) && *v == self@[key@],
                None => !self@.contains_key(key@),
            },
    {
        let (found, at) = self.locate(key);
        proof {
            self.lemma_wf();
            if !found {
                lemma_absent(self.keys(), key@, at as int);
            }
        }
        if found {
            Some(&self.values[at])
        } else {
            None
        }
    }

    /// The value that the table holds for `key`, if any, for the caller to
    /// change in place.
    pub fn get_mut(&mut self, key: &str) -> (value: Option<&mut T>)
        requires
            old(self).wf(),
        ensures
            final(self).wf(),
            match value {
                Some(v) => {
                    &&& old(self)@.contains_key(key@)
                    &&& *v == old(self)@[key@]
                    &&& final(self)@ == old(self)@.insert(key@, *final(v))
                },
                None => !old(self)@.contains_key(key@) && final(self)@ == old(self)@,
            },
    {
        let (found, at) = self.locate(key);
        let ghost before = *self;
        proof {
            before.lemma_wf();
            if !found {
                lemma_absent(self.keys(), key@, at as int);
            }
        }
        if found {
            assert forall|after: KeyedTable<T>, v: T|
                after.keys() == before.keys() && #[trigger] after.values()
                    == #[trigger] before.values().update(at as int, v) implies after.wf()
                && after@ == before@.insert(key@, v) by {
                lemma_update(before, after, at as int, v);
            }
            Some(&mut self.values[at])
        } else {
            None
        }
    }

    /// Sets the value of `key`, which enters the table if it is not in it yet.
    pub fn insert(&mut self, key: String, value: T)
        requires
            old(self).wf(),
        ensures
            final(self).wf(),
            final(self)@ == old(self)@.insert(key@, value),
    {
        let (found, at) = self.locate(key.as_str());
        let ghost before = *self;
        proof {
            before.lemma_wf();
        }
        if found {
            self.values.set(at, value);
            proof {
                assert(self.keys() == before.keys());
                self.lemma_wf();
                assert(self@ =~= before@.insert(key@, value)) by {
                    assert forall|k: Seq<char>| self@.contains_key(k) implies #[trigger] self@[k]
                        == before@.insert(key@, value)[k] by {
                        let i = choose|i: int| 0 <= i < self.keys().len() && self.keys()[i] == k;
                        assert(self@[self.keys()[i]] == self.values()[i]);
                        assert(before@[before.keys()[i]] == before.values()[i]);
                        if i == at {
                        } else {
                            if k == key@ {
                                lemma_ascending_index_of(self.keys(), i);
                                lemma_ascending_index_of(self.keys(), at as int);
                            }
                        }
                    }
                }
            }
        } else {
            self.keys.insert(at, key);
            self.values.insert(at, value);
            proof {
                assert(self.keys() =~= before.keys().insert(at as int, key@));
                lemma_ascending_insert(before.keys(), key@, at as int);
                self.lemma_wf();
                lemma_absent(before.keys(), key@, at as int);
                assert(self@ =~= before@.insert(key@, value)) by {
                    assert forall|k: Seq<char>| self@.contains_key(k) implies before@.insert(
                        key@,
                        value,
                    ).contains_key(k) && #[trigger] self@[k] == before@.insert(key@, value)[k] by {
                        let i = choose|i: int| 0 <= i < self.keys().len() && self.keys()[i] == k;
                        assert(self@[self.keys()[i]] == self.values()[i]);
                        if i < at {
                            assert(before.keys()[i] == k);
                            assert(before@[before.keys()[i]] == before.values()[i]);
                        } else if i > at {
                            assert(before.keys()[i - 1] == k);
                            assert(before@[before.keys()[i - 1]] == before.values()[i - 1]);
                        }
                    }
                    assert forall|k: Seq<char>|
                        before@.insert(key@, value).contains_key(k) implies self@.contains_key(
                        k,
                    ) by {
                        if k == key@ {
                            assert(self.keys()[at as int] == k);
                        } else {
                            let i = choose|i: int|
                                0 <= i < before.keys().len() && before.keys()[i] == k;
                            if i < at {
                                assert(self.keys()[i] == k);
                            } else {
                                assert(self.keys()[i + 1] == k);
                            }
                        }
                    }
                }
            }
        }
    }
}

/// Changing the value at one position changes the mapping at that key only.
proof fn lemma_update<T>(before: KeyedTable<T>, after: KeyedTable<T>, at: int, value: T)
    requires
        before.wf(),
        0 <= at < before.keys().len(),
        after.keys() == before.keys(),
        after.values() == before.values().update(at, value),
    ensures
        after.wf(),
        after@ == before@.insert(before.keys()[at], value),
{
    before.lemma_wf();
    assert(after.wf());
    after.lemma_wf();
    let key = before.keys()[at];
    assert(after@ =~= before@.insert(key, value)) by {
        assert forall|k: Seq<char>| after@.contains_key(k) implies #[trigger] after@[k]
            == before@.insert(key, value)[k] by {
            let i = choose|i: int| 0 <= i < after.keys().len() && after.keys()[i] == k;
            assert(after@[after.keys()[i]] == after.values()[i]);
            assert(before@[before.keys()[i]] == before.values()[i]);
            if i != at && k == key {
                lemma_ascending_index_of(after.keys(), i);
                lemma_ascending_index_of(after.keys(), at);
            }
        }
    }
}

/// A key that falls between two neighbours of an ascending sequence is not in
/// the sequence.
proof fn lemma_absent(keys: Seq<Seq<char>>, key: Seq<char>, at: int)
    requires
        ascending(keys),
        0 <= at <= keys.len(),
        forall|i: int| 0 <= i < at ==> key_lt(#[trigger] keys[i], key),
        forall|i: int| at <= i < keys.len() ==> key_lt(key, #[trigger] keys[i]),
    ensures
        !keys.contains(key),
{
    lemma_key_lt_irreflexive(key);
    if keys.contains(key) {
        let i = choose|i: int| 0 <= i < keys.len() && keys[i] == key;
        if i < at {
            assert(key_lt(keys[i], key));
        } else {
            assert(key_lt(key, keys[i]));
        }
    }
}

/// Inserting a key between its neighbours keeps the sequence ascending.
proof fn lemma_ascending_insert(keys: Seq<Seq<char>>, key: Seq<char>, at: int)
    requires
        ascending(keys),
        0 <= at <= keys.len(),
        forall|i: int| 0 <= i < at ==> key_lt(#[trigger] keys[i], key),
        forall|i: int| at <= i < keys.len() ==> key_lt(key, #[trigger] keys[i]),
    ensures
        ascending(keys.insert(at, key)),
{
    let grown = keys.insert(at, key);
    assert forall|i: int, j: int| 0 <= i < j < grown.len() implies key_lt(
        #[trigger] grown[i],
        #[trigger] grown[j],
    ) by {
        if j < at {
            assert(key_lt(keys[i], keys[j]));
        } else if j == at {
            assert(key_lt(keys[i], key));
        } else if i < at {
            assert(key_lt(keys[i], keys[j - 1]));
        } else if i == at {
            assert(key_lt(key, keys[j - 1]));
        } else {
            assert(key_lt(keys[i - 1], keys[j - 1]));
        }
    }
}

} // verus!
