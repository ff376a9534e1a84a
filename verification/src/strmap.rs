//! A small map keyed by text that remembers the order in which its keys came.

use crate::text::str_eq;
use vstd::prelude::*;

verus! {

/// A map from text to `V`. Keys are kept in the order of their first insertion.
pub struct StrMap<V> {
    keys: Vec<String>,
    values: Vec<V>,
}

/// The text of each string of a run.
pub open spec fn texts_of(strings: Seq<String>) -> Seq<Seq<char>> {
    Seq::new(strings.len(), |i: int| strings[i]@)
}

impl<V> View for StrMap<V> {
    type V = Map<Seq<char>, V>;

    /// The map from each key to its value.
    open spec fn view(&self) -> Map<Seq<char>, V> {
        Map::new(
            |key: Seq<char>| self.spec_keys().contains(key),
            |key: Seq<char>| self.spec_values()[self.spec_keys().index_of(key)],
        )
    }
}

impl<V> StrMap<V> {
    /// The keys, in the order of their first insertion.
    pub closed spec fn spec_keys(self) -> Seq<Seq<char>> {
        texts_of(self.keys@)
    }

    /// The values, each at the position of its key.
    pub closed spec fn spec_values(self) -> Seq<V> {
        self.values@
    }

    /// Keys and values stand side by side, and no key occurs twice.
    pub open spec fn wf(self) -> bool {
        &&& self.spec_keys().len() == self.spec_values().len()
        &&& self.spec_keys().no_duplicates()
    }

    /// The key at position `i` leads to the value at position `i`.
    pub proof fn lemma_at(self, i: int)
        requires
            self.wf(),
            0 <= i < self.spec_keys().len(),
        ensures
            self@.contains_key(self.spec_keys()[i]),
            self@[self.spec_keys()[i]] == self.spec_values()[i],
            self.spec_keys().index_of(self.spec_keys()[i]) == i,
    {
        let key = self.spec_keys()[i];
        let j = self.spec_keys().index_of(key);
        assert(self.spec_keys()[j] == key);
    }

    /// An empty map.
    pub fn new() -> (map: Self)
        ensures
            map.wf(),
            map.spec_keys() == Seq::<Seq<char>>::empty(),
            map.spec_values() == Seq::<V>::empty(),
            map@ == Map::<Seq<char>, V>::empty(),
    {
        let map = StrMap { keys: Vec::new(), values: Vec::new() };
        proof {
            assert(map.spec_keys() =~= Seq::<Seq<char>>::empty());
            assert(map@ =~= Map::<Seq<char>, V>::empty());
        }
        map
    }

    /// Number of keys.
    pub fn len(&self) -> (n: usize)
        ensures
            n == self.spec_keys().len(),
    {
        self.keys.len()
    }

    /// The keys, in the order of their first insertion.
    pub fn keys(&self) -> (keys: &Vec<String>)
        ensures
            texts_of(keys@) == self.spec_keys(),
    {
        &self.keys
    }

    /// The key at position `i`.
    pub fn key_at(&self, i: usize) -> (key: &String)
        requires
            i < self.spec_keys().len(),
        ensures
            key@ == self.spec_keys()[i as int],
    {
        &self.keys[i]
    }

    /// The value at position `i`.
    pub fn value_at(&self, i: usize) -> (value: &V)
        requires
            self.wf(),
            i < self.spec_keys().len(),
        ensures
            *value == self.spec_values()[i as int],
    {
        &self.values[i]
    }

    /// Where `key` stands among the keys, if it is one of them.
    pub fn position(&self, key: &str) -> (found: Option<usize>)
        ensures
            match found {
                Some(i) => i < self.spec_keys().len() && self.spec_keys()[i as int] == key@,
                None => !self.spec_keys().contains(key@),
            },
    {
        let mut i: usize = 0;
        while i < self.keys.len()
            invariant
                i <= self.keys@.len(),
                forall|j: int| 0 <= j < i ==> self.keys@[j]@ != key@,
            decreases self.keys@.len() - i,
        {
            if str_eq(self.keys[i].as_str(), key) {
                return Some(i);
            }
            i = i + 1;
        }
        proof {
            assert forall|j: int| 0 <= j < self.spec_keys().len() implies self.spec_keys()[j]
                != key@ by {
                assert(self.spec_keys()[j] == self.keys@[j]@);
            }
        }
        None
    }

    /// Whether `key` is a key of the map.
    pub fn contains_key(&self, key: &str) -> (found: bool)
        ensures
            found == self@.contains_key(key@),
    {
        self.position(key).is_some()
    }

    /// The value of `key`, if it is a key of the map.
    pub fn get(&self, key: &str) -> (value: Option<&V>)
        requires
            self.wf(),
        ensures
            match value {
                Some(v) => self@.contains_key(key@) && *v == self@[key@],
                None => !self@.contains_key(key@),
            },
    {
        match self.position(key) {
            Some(i) => {
                proof {
                    self.lemma_at(i as int);
                }
                Some(&self.values[i])
            },
            None => None,
        }
    }

    /// Gives `key` the value `value`. A key that is new comes last among the
    /// keys; one that was there keeps its place.
    pub fn insert(&mut self, key: String, value: V)
        requires
            old(self).wf(),
        ensures
            final(self).wf(),
            final(self)@ == old(self)@.insert(key@, value),
            old(self)@.contains_key(key@) ==> final(self).spec_keys() == old(self).spec_keys(),
            !old(self)@.contains_key(key@) ==> final(self).spec_keys() == old(self).spec_keys().push(
                key@,
            ),
    {
        let ghost before = *self;
        match self.position(key.as_str()) {
            Some(i) => {
                self.values.set(i, value);
                proof {
                    assert(self.spec_keys() == before.spec_keys());
                    assert forall|k: Seq<char>| self@.contains_key(k) implies #[trigger] self@[k]
                        == before@.insert(key@, value)[k] by {
                        let j = self.spec_keys().index_of(k);
                        assert(self.spec_keys()[j] == k);
                        if k == key@ {
                            before.lemma_at(i as int);
                        }
                    }
                    assert(self@ =~= before@.insert(key@, value));
                }
            },
            None => {
                self.keys.push(key);
                self.values.push(value);
                proof {
                    assert(self.spec_keys() =~= before.spec_keys().push(key@));
                    let n = before.spec_keys().len() as int;
                    assert forall|a: int, b: int|
                        0 <= a < self.spec_keys().len() && 0 <= b < self.spec_keys().len() && a
                            != b implies self.spec_keys()[a] != self.spec_keys()[b] by {
                        if a < n && b < n {
                            assert(before.spec_keys()[a] != before.spec_keys()[b]);
                        } else if a < n {
                            assert(before.spec_keys().contains(before.spec_keys()[a]));
                        } else {
                            assert(before.spec_keys().contains(before.spec_keys()[b]));
                        }
                    }
                    assert(self.wf());
                    let target = before@.insert(key@, value);
                    assert forall|k: Seq<char>| #[trigger]
                        target.dom().contains(k) implies self@.dom().contains(k) by {
                        if k == key@ {
                            assert(self.spec_keys()[n] == k);
                        } else {
                            let j = before.spec_keys().index_of(k);
                            assert(before.spec_keys()[j] == k);
                            assert(self.spec_keys()[j] == k);
                        }
                    }
                    assert forall|k: Seq<char>| #[trigger]
                        self@.dom().contains(k) implies self@[k] == target[k] by {
                        let j = self.spec_keys().index_of(k);
                        assert(self.spec_keys()[j] == k);
                        self.lemma_at(j);
                        if j < n {
                            assert(before.spec_keys()[j] == k);
                            before.lemma_at(j);
                        }
                    }
                    assert forall|k: Seq<char>| #[trigger]
                        self@.dom().contains(k) implies target.dom().contains(k) by {
                        let j = self.spec_keys().index_of(k);
                        assert(self.spec_keys()[j] == k);
                        if j < n {
                            assert(before.spec_keys()[j] == k);
                        }
                    }
                    assert(self@ =~= before@.insert(key@, value));
                }
            },
        }
    }
}

impl StrMap<Vec<String>> {
    /// Adds `item` to the list of `key`, which starts empty where `key` is new.
    pub fn push_to(&mut self, key: String, item: String)
        requires
            old(self).wf(),
        ensures
            final(self).wf(),
            old(self)@.contains_key(key@) ==> final(self).spec_keys() == old(self).spec_keys(),
            !old(self)@.contains_key(key@) ==> final(self).spec_keys() == old(self).spec_keys().push(
                key@,
            ),
            final(self)@.dom() == old(self)@.dom().insert(key@),
            forall|k: Seq<char>|
                old(self)@.contains_key(k) && k != key@ ==> #[trigger] final(self)@[k] == old(
                    self,
                )@[k],
            final(self)@[key@]@ == (if old(self)@.contains_key(key@) {
                old(self)@[key@]@
            } else {
                Seq::empty()
            }).push(item),
    {
        let ghost before = *self;
        match self.position(key.as_str()) {
            Some(i) => {
                proof {
                    before.lemma_at(i as int);
                }
                self.values[i].push(item);
                proof {
                    assert(self.spec_keys() == before.spec_keys());
                    self.lemma_at(i as int);
                    assert(self@.dom() =~= before@.dom().insert(key@));
                    assert forall|k: Seq<char>|
                        before@.contains_key(k) && k != key@ implies #[trigger] self@[k]
                        == before@[k] by {
                        let j = before.spec_keys().index_of(k);
                        assert(before.spec_keys()[j] == k);
                    }
                }
            },
            None => {
                let mut items: Vec<String> = Vec::new();
                items.push(item);
                self.insert(key, items);
                proof {
                    assert(self@.dom() =~= before@.dom().insert(key@));
                    assert(self@[key@]@ =~= Seq::<String>::empty().push(item));
                }
            },
        }
    }
}

} // verus!
