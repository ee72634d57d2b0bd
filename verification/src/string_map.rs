//! A map from strings to values that lists its entries in ascending order of
//! the keys.

use vstd::prelude::*;
use crate::string_set::{lex_lt, lex_less, lemma_lex_total, lemma_lex_irreflexive};
use crate::text::{chars_of, str_eq, views};

verus! {

/// The order of strings is transitive.
pub proof fn lemma_lex_trans(a: Seq<char>, b: Seq<char>, c: Seq<char>)
    requires
        lex_lt(a, b),
        lex_lt(b, c),
    ensures
        lex_lt(a, c),
    decreases a.len(),
{
    if a.len() > 0 && b.len() > 0 && c.len() > 0 && a[0] == b[0] && b[0] == c[0] {
        lemma_lex_trans(a.drop_first(), b.drop_first(), c.drop_first());
    }
}

/// Every string of the list comes before all that follow it.
pub open spec fn sorted(keys: Seq<Seq<char>>) -> bool {
    forall|i: int, j: int| 0 <= i < j < keys.len() ==> lex_lt(#[trigger] keys[i], #[trigger] keys[j])
}

/// The map that lists `keys[i]` with `values[i]`.
pub open spec fn map_of<V>(keys: Seq<Seq<char>>, values: Seq<V>) -> Map<Seq<char>, V> {
    Map::new(|k: Seq<char>| keys.contains(k), |k: Seq<char>| values[keys.index_of(k)])
}

/// In a sorted list every string stands at one index only.
pub proof fn lemma_sorted_index(keys: Seq<Seq<char>>, i: int)
    requires
        sorted(keys),
        0 <= i < keys.len(),
    ensures
        keys.contains(keys[i]),
        keys.index_of(keys[i]) == i,
{
    let j = keys.index_of(keys[i]);
    assert(keys[j] == keys[i] && 0 <= j < keys.len());
    lemma_lex_irreflexive(keys[i]);
    if j < i {
        assert(lex_lt(keys[j], keys[i]));
    } else if i < j {
        assert(lex_lt(keys[i], keys[j]));
    }
}

/// The map after a new key has been put in at its place.
pub proof fn lemma_map_insert<V>(keys: Seq<Seq<char>>, values: Seq<V>, i: int, key: Seq<char>, value: V)
    requires
        sorted(keys),
        sorted(keys.insert(i, key)),
        keys.len() == values.len(),
        0 <= i <= keys.len(),
        !keys.contains(key),
    ensures
        map_of(keys.insert(i, key), values.insert(i, value)) == map_of(keys, values).insert(key, value),
{
    let keys2 = keys.insert(i, key);
    let values2 = values.insert(i, value);
    let m = map_of(keys, values).insert(key, value);
    let m2 = map_of(keys2, values2);
    assert forall|k: Seq<char>| m2.contains_key(k) <==> m.contains_key(k) by {
        if keys2.contains(k) {
            let j = choose|j: int| 0 <= j < keys2.len() && keys2[j] == k;
            if j < i {
                assert(keys[j] == k);
            } else if j > i {
                assert(keys[j - 1] == k);
            }
        }
        if keys.contains(k) {
            let j = choose|j: int| 0 <= j < keys.len() && keys[j] == k;
            if j < i {
                assert(keys2[j] == k);
            } else {
                assert(keys2[j + 1] == k);
            }
        }
        if k == key {
            assert(keys2[i] == k);
        }
    }
    assert forall|k: Seq<char>| m2.contains_key(k) implies m2[k] == m[k] by {
        let j = keys2.index_of(k);
        assert(0 <= j < keys2.len() && keys2[j] == k);
        lemma_sorted_index(keys2, j);
        if j == i {
        } else if j < i {
            assert(keys[j] == k);
            lemma_sorted_index(keys, j);
        } else {
            assert(keys[j - 1] == k);
            lemma_sorted_index(keys, j - 1);
        }
    }
    assert(m2 =~= m);
}

/// The map after the value at index `i` has been replaced.
pub proof fn lemma_map_update<V>(keys: Seq<Seq<char>>, values: Seq<V>, i: int, value: V)
    requires
        sorted(keys),
        keys.len() == values.len(),
        0 <= i < keys.len(),
    ensures
        map_of(keys, values.update(i, value)) == map_of(keys, values).insert(keys[i], value),
        map_of(keys, values).contains_key(keys[i]),
        map_of(keys, values)[keys[i]] == values[i],
{
    let m = map_of(keys, values).insert(keys[i], value);
    let m2 = map_of(keys, values.update(i, value));
    lemma_sorted_index(keys, i);
    assert forall|k: Seq<char>| m2.contains_key(k) implies m2[k] == m[k] by {
        let j = keys.index_of(k);
        assert(0 <= j < keys.len() && keys[j] == k);
        lemma_sorted_index(keys, j);
    }
    assert(m2 =~= m);
}

/// A map from strings to values, kept in ascending order of the keys.
#[derive(Debug)]
pub struct StringMap<V> {
    keys: Vec<String>,
    values: Vec<V>,
}

impl<V> StringMap<V> {
    /// The keys, in ascending order.
    pub closed spec fn keys(&self) -> Seq<Seq<char>> {
        views(self.keys@)
    }

    /// The values, in the order of their keys.
    pub closed spec fn values(&self) -> Seq<V> {
        self.values@
    }

    /// The map as a value.
    pub open spec fn map(&self) -> Map<Seq<char>, V> {
        map_of(self.keys(), self.values())
    }

    /// Every key has a value, and the keys are in ascending order.
    pub open spec fn wf(&self) -> bool {
        self.keys().len() == self.values().len() && sorted(self.keys())
    }

    /// The empty map.
    pub fn new() -> (out: StringMap<V>)
        ensures
            out.wf(),
            out.keys() == Seq::<Seq<char>>::empty(),
            out.values() == Seq::<V>::empty(),
    {
        let out = StringMap { keys: Vec::new(), values: Vec::new() };
        assert(out.keys() =~= Seq::<Seq<char>>::empty());
        out
    }

    /// The number of entries.
    pub fn len(&self) -> (n: usize)
        requires
            self.wf(),
        ensures
            n == self.keys().len(),
    {
        self.keys.len()
    }

    /// The `i`th key in ascending order.
    pub fn key(&self, i: usize) -> (key: &String)
        requires
            i < self.keys().len(),
        ensures
            key@ == self.keys()[i as int],
    {
        &self.keys[i]
    }

    /// The value of the `i`th key.
    pub fn value(&self, i: usize) -> (value: &V)
        requires
            i < self.values().len(),
        ensures
            *value == self.values()[i as int],
    {
        &self.values[i]
    }

    /// The value of the `i`th key, to be changed.
    pub fn value_mut(&mut self, i: usize) -> (value: &mut V)
        requires
            i < old(self).values().len(),
        ensures
            *value == old(self).values()[i as int],
            final(self).values() == old(self).values().update(i as int, *final(value)),
            final(self).keys() == old(self).keys(),
    {
        &mut self.values[i]
    }

    /// Where `key` stands, if it is in the map.
    pub fn position(&self, key: &str) -> (at: Option<usize>)
        requires
            self.wf(),
        ensures
            match at {
                Some(i) => i < self.keys().len() && self.keys()[i as int] == key@,
                None => !self.keys().contains(key@),
            },
    {
        let mut i: usize = 0;
        while i < self.keys.len()
            invariant
                i <= self.keys@.len(),
                forall|j: int| 0 <= j < i ==> self.keys()[j] != key@,
            decreases self.keys.len() - i,
        {
            if str_eq(self.keys[i].as_str(), key) {
                assert(self.keys()[i as int] == self.keys@[i as int]@);
                return Some(i);
            }
            assert(self.keys()[i as int] == self.keys@[i as int]@);
            i += 1;
        }
        None
    }

    /// Where `key` stands, after it has been put into the map with the
    /// value `default` if it was not there.
    pub fn ensure(&mut self, key: String, default: V) -> (i: usize)
        requires
            old(self).wf(),
        ensures
            final(self).wf(),
            i < final(self).keys().len(),
            i <= old(self).keys().len(),
            final(self).keys()[i as int] == key@,
            old(self).keys().contains(key@) ==> final(self).keys() == old(self).keys() && final(self).values()
                == old(self).values(),
            !old(self).keys().contains(key@) ==> final(self).keys() == old(self).keys().insert(i as int, key@)
                && final(self).values() == old(self).values().insert(i as int, default),
            final(self).map() == if old(self).keys().contains(key@) {
                old(self).map()
            } else {
                old(self).map().insert(key@, default)
            },
    {
        let ghost keys = self.keys();
        let kc = chars_of(key.as_str());
        let mut i: usize = 0;
        while i < self.keys.len() && lex_less(&chars_of(self.keys[i].as_str()), &kc)
            invariant
                i <= self.keys@.len(),
                kc@ == key@,
                keys == self.keys(),
                forall|j: int| 0 <= j < i ==> lex_lt(#[trigger] keys[j], key@),
            decreases self.keys.len() - i,
        {
            assert(keys[i as int] == self.keys@[i as int]@);
            i += 1;
        }
        if i < self.keys.len() && str_eq(self.keys[i].as_str(), key.as_str()) {
            assert(keys[i as int] == key@);
            return i;
        }
        proof {
            if i < keys.len() {
                assert(keys[i as int] == self.keys@[i as int]@);
                lemma_lex_total(key@, keys[i as int]);
            }
            assert forall|j: int| i <= j < keys.len() implies lex_lt(key@, #[trigger] keys[j]) by {
                if j > i {
                    assert(lex_lt(keys[i as int], keys[j]));
                    lemma_lex_trans(key@, keys[i as int], keys[j]);
                }
            }
            if keys.contains(key@) {
                let j = choose|j: int| 0 <= j < keys.len() && keys[j] == key@;
                lemma_lex_irreflexive(key@);
            }
        }
        self.keys.insert(i, key);
        self.values.insert(i, default);
        proof {
            assert(self.keys() =~= keys.insert(i as int, key@));
            let keys2 = self.keys();
            assert forall|a: int, b: int| 0 <= a < b < keys2.len() implies lex_lt(
                #[trigger] keys2[a],
                #[trigger] keys2[b],
            ) by {
                if a < i && b < i {
                    assert(lex_lt(keys[a], keys[b]));
                } else if a < i && b == i {
                } else if a < i {
                    assert(lex_lt(keys[a], keys[b - 1]));
                } else if a == i {
                    assert(lex_lt(key@, keys[b - 1]));
                } else {
                    assert(lex_lt(keys[a - 1], keys[b - 1]));
                }
            }
            lemma_map_insert(keys, old(self).values(), i as int, key@, default);
        }
        i
    }
}

} // verus!
