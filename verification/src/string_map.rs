//! A map from strings to values that remembers the order of insertion.
//!
//! The map is a vector of entries whose keys are pairwise different. Keys are
//! compared by their characters, so the model speaks of `Seq<char>`.

use vstd::prelude::*;

verus! {

/// One key with its value.
pub struct Entry<V> {
    pub key: String,
    pub value: V,
}

/// An insertion-ordered map keyed by strings.
pub struct StringMap<V> {
    entries: Vec<Entry<V>>,
}

impl<V> StringMap<V> {
    /// The keys, in order of insertion.
    pub closed spec fn keys(&self) -> Seq<Seq<char>> {
        Seq::new(self.entries@.len(), |i: int| self.entries@[i].key@)
    }

    /// The values, each at the position of its key.
    pub closed spec fn values(&self) -> Seq<V> {
        Seq::new(self.entries@.len(), |i: int| self.entries@[i].value)
    }

    /// No key is held twice.
    pub open spec fn wf(&self) -> bool {
        &&& self.keys().no_duplicates()
        &&& self.values().len() == self.keys().len()
    }

    /// Whether `key` is held.
    pub open spec fn contains_key(&self, key: Seq<char>) -> bool {
        self.keys().contains(key)
    }

    /// The position of `key` among the keys; arbitrary when it is not held.
    pub open spec fn position(&self, key: Seq<char>) -> int {
        self.keys().index_of(key)
    }

    /// The map from each held key to its value.
    pub open spec fn view(&self) -> Map<Seq<char>, V> {
        Map::new(
            |key: Seq<char>| self.keys().contains(key),
            |key: Seq<char>| self.values()[self.keys().index_of(key)],
        )
    }

    /// A held key is found at its own position, and its value is there too.
    pub proof fn lemma_position(&self, i: int)
        requires
            self.wf(),
            0 <= i < self.keys().len(),
        ensures
            self.contains_key(self.keys()[i]),
            self.position(self.keys()[i]) == i,
            self@[self.keys()[i]] == self.values()[i],
    {
        let key = self.keys()[i];
        assert(self.keys()[i] == key);
        let j = self.keys().index_of(key);
        assert(0 <= j < self.keys().len() && self.keys()[j] == key);
    }

    /// The position of a held key is in range and holds that key.
    pub proof fn lemma_held(&self, key: Seq<char>)
        requires
            self.contains_key(key),
        ensures
            0 <= self.position(key) < self.keys().len(),
            self.keys()[self.position(key)] == key,
    {
    }

    /// Changing the value at one position changes the map at that key only.
    pub proof fn lemma_update(&self, after: &Self, i: int, value: V)
        requires
            self.wf(),
            0 <= i < self.keys().len(),
            after.keys() == self.keys(),
            after.values() == self.values().update(i, value),
        ensures
            after.wf(),
            after@ == self@.insert(self.keys()[i], value),
    {
        self.lemma_position(i);
        assert forall|k: Seq<char>| after.keys().contains(k) implies #[trigger] after@[k]
            == self@.insert(self.keys()[i], value)[k] by {
            let j = self.keys().index_of(k);
            if j == i {
                assert(k == self.keys()[i]);
            }
        }
        assert(after@ =~= self@.insert(self.keys()[i], value));
    }

    /// The map has as many keys as the map is long.
    pub proof fn lemma_len(&self)
        requires
            self.wf(),
        ensures
            self@.dom().finite(),
            self@.dom().len() == self.keys().len(),
    {
        broadcast use vstd::seq_lib::group_seq_properties;

        assert(self@.dom() =~= self.keys().to_set());
        self.keys().unique_seq_to_set();
    }

    /// An empty map.
    pub fn new() -> (map: Self)
        ensures
            map.wf(),
            map.keys() == Seq::<Seq<char>>::empty(),
            map.values() == Seq::<V>::empty(),
            map@ == Map::<Seq<char>, V>::empty(),
    {
        let map = StringMap { entries: Vec::new() };
        assert(map.keys() =~= Seq::<Seq<char>>::empty());
        assert(map.values() =~= Seq::<V>::empty());
        assert(map@ =~= Map::<Seq<char>, V>::empty());
        map
    }

    /// The number of keys.
    pub fn len(&self) -> (n: usize)
        ensures
            n == self.keys().len(),
            n == self.values().len(),
    {
        self.entries.len()
    }

    /// The key at position `i`.
    pub fn key_at(&self, i: usize) -> (key: &String)
        requires
            i < self.keys().len(),
        ensures
            key@ == self.keys()[i as int],
    {
        &self.entries[i].key
    }

    /// The value at position `i`.
    pub fn value_at(&self, i: usize) -> (value: &V)
        requires
            i < self.keys().len(),
        ensures
            *value == self.values()[i as int],
    {
        &self.entries[i].value
    }

    /// The value at position `i`, to be changed in place. The keys stay as
    /// they are.
    pub fn value_at_mut(&mut self, i: usize) -> (value: &mut V)
        requires
            i < old(self).keys().len(),
        ensures
            *value == old(self).values()[i as int],
            final(self).keys() == old(self).keys(),
            final(self).values() == old(self).values().update(i as int, *final(value)),
    {
        &mut self.entries[i].value
    }

    /// Where `key` is held, if it is.
    pub fn find(&self, key: &String) -> (found: Option<usize>)
        ensures
            match found {
                Some(i) => i < self.keys().len() && self.keys()[i as int] == key@,
                None => !self.contains_key(key@),
            },
    {
        let mut i: usize = 0;
        while i < self.entries.len()
            invariant
                i <= self.entries.len(),
                forall|k: int| 0 <= k < i ==> self.keys()[k] != key@,
            decreases self.entries.len() - i,
        {
            if self.entries[i].key == *key {
                return Some(i);
            }
            i += 1;
        }
        None
    }

    /// The value held for `key`, if any.
    pub fn get(&self, key: &String) -> (value: Option<&V>)
        requires
            self.wf(),
        ensures
            match value {
                Some(v) => self.contains_key(key@) && *v == self@[key@],
                None => !self.contains_key(key@),
            },
    {
        match self.find(key) {
            Some(i) => {
                proof {
                    self.lemma_position(i as int);
                }
                Some(&self.entries[i].value)
            },
            None => None,
        }
    }

    /// Sets the value for `key`. A key already held keeps its position; a new
    /// key goes to the end. Returns the value that was replaced, if any.
    pub fn insert(&mut self, key: String, value: V) -> (replaced: Option<V>)
        requires
            old(self).wf(),
        ensures
            final(self).wf(),
            final(self)@ == old(self)@.insert(key@, value),
            old(self).contains_key(key@) ==> {
                &&& replaced == Some(old(self)@[key@])
                &&& final(self).keys() == old(self).keys()
                &&& final(self).values() == old(self).values().update(
                    old(self).position(key@),
                    value,
                )
            },
            !old(self).contains_key(key@) ==> {
                &&& replaced is None
                &&& final(self).keys() == old(self).keys().push(key@)
                &&& final(self).values() == old(self).values().push(value)
            },
    {
        let ghost before = *self;
        match self.find(&key) {
            Some(i) => {
                proof {
                    self.lemma_position(i as int);
                }
                let mut value = value;
                let ghost given = value;
                std::mem::swap(&mut self.entries[i].value, &mut value);
                proof {
                    assert(self.keys() =~= before.keys());
                    assert(self.values() =~= before.values().update(i as int, given));
                    assert(self@ =~= before@.insert(key@, given)) by {
                        assert forall|k: Seq<char>| self.keys().contains(k) implies (
                        #[trigger] self@[k]) == before@.insert(key@, given)[k] by {
                            let j = self.keys().index_of(k);
                            if k == key@ {
                                assert(self.keys()[i as int] == k);
                            }
                        }
                    }
                }
                Some(value)
            },
            None => {
                self.entries.push(Entry { key, value });
                proof {
                    let n = before.keys().len() as int;
                    assert(self.keys() =~= before.keys().push(key@));
                    assert(self.values() =~= before.values().push(value));
                    assert(self.keys()[n] == key@);
                    assert forall|k: Seq<char>| self.keys().contains(k) <==> (k == key@
                        || before.keys().contains(k)) by {
                        if before.keys().contains(k) {
                            let j = before.keys().index_of(k);
                            assert(self.keys()[j] == k);
                        }
                    }
                    assert forall|k: Seq<char>| self.keys().contains(k) implies #[trigger] self@[k]
                        == before@.insert(key@, value)[k] by {
                        let j = self.keys().index_of(k);
                        if k != key@ {
                            let b = before.keys().index_of(k);
                            assert(self.keys()[b] == k);
                        }
                    }
                    assert(self@ =~= before@.insert(key@, value));
                }
                None
            },
        }
    }

    /// Takes `key` and its value out. The keys behind it move up by one.
    pub fn remove(&mut self, key: &String) -> (removed: Option<V>)
        requires
            old(self).wf(),
        ensures
            final(self).wf(),
            final(self)@ == old(self)@.remove(key@),
            old(self).contains_key(key@) ==> {
                &&& removed == Some(old(self)@[key@])
                &&& final(self).keys() == old(self).keys().remove(old(self).position(key@))
                &&& final(self).values() == old(self).values().remove(old(self).position(key@))
            },
            !old(self).contains_key(key@) ==> {
                &&& removed is None
                &&& final(self).keys() == old(self).keys()
                &&& final(self).values() == old(self).values()
            },
    {
        let ghost before = *self;
        match self.find(key) {
            Some(i) => {
                proof {
                    self.lemma_position(i as int);
                }
                let entry = self.entries.remove(i);
                proof {
                    assert(self.keys() =~= before.keys().remove(i as int));
                    assert(self.values() =~= before.values().remove(i as int));
                    assert forall|a: int| 0 <= a < self.keys().len() implies (
                    #[trigger] self.keys()[a]) == before.keys()[if a < i { a } else { a + 1 }] by {}
                    assert forall|k: Seq<char>| self.keys().contains(k) <==> (k != key@
                        && before.keys().contains(k)) by {
                        if k != key@ && before.keys().contains(k) {
                            let b = before.keys().index_of(k);
                            if b < i {
                                assert(self.keys()[b] == k);
                            } else {
                                assert(self.keys()[b - 1] == k);
                            }
                        }
                        if self.keys().contains(k) {
                            let a = self.keys().index_of(k);
                            assert(before.keys()[if a < i { a } else { a + 1 }] == k);
                        }
                    }
                    assert forall|k: Seq<char>| self.keys().contains(k) implies #[trigger] self@[k]
                        == before@.remove(key@)[k] by {
                        let a = self.keys().index_of(k);
                        let b = before.keys().index_of(k);
                        assert(before.keys()[if a < i { a } else { a + 1 }] == k);
                    }
                    assert(self@ =~= before@.remove(key@));
                }
                Some(entry.value)
            },
            None => {
                assert(self@ =~= before@.remove(key@));
                None
            },
        }
    }
}

} // verus!
