//! An insertion-ordered map from strings to values.
//!
//! The map is an association list: lookups are linear, but every operation has
//! an exact contract over two sequences, the keys and the values, and over
//! the mathematical map that they define.
use crate::text::str_eq;
use vstd::prelude::*;

verus! {

/// One key with its value.
#[derive(Clone, Debug)]
pub struct Entry<V> {
    key: String,
    value: V,
}

impl<V> Entry<V> {
    /// The characters of the key.
    pub closed spec fn key(&self) -> Seq<char> {
        self.key@
    }

    /// The value.
    pub closed spec fn value(&self) -> V {
        self.value
    }

    /// Takes the entry apart.
    pub fn into_pair(self) -> (pair: (String, V))
        ensures
            pair.0@ == self.key(),
            pair.1 == self.value(),
    {
        (self.key, self.value)
    }
}

/// A map from strings to `V` that remembers the order of insertion.
#[derive(Clone, Debug)]
pub struct StringMap<V> {
    entries: Vec<Entry<V>>,
}

impl<V> StringMap<V> {
    /// The keys, oldest first.
    pub closed spec fn keys(&self) -> Seq<Seq<char>> {
        Seq::new(self.entries@.len(), |i: int| self.entries@[i].key@)
    }

    /// The values, in the order of their keys.
    pub closed spec fn values(&self) -> Seq<V> {
        Seq::new(self.entries@.len(), |i: int| self.entries@[i].value)
    }

    /// No key occurs twice, and every key has a value.
    pub open spec fn wf(&self) -> bool {
        &&& self.keys().no_duplicates()
        &&& self.keys().len() == self.values().len()
    }

    /// The map as a mathematical map.
    pub open spec fn view(&self) -> Map<Seq<char>, V> {
        Map::new(
            |k: Seq<char>| self.keys().contains(k),
            |k: Seq<char>| self.values()[self.keys().index_of(k)],
        )
    }

    /// In a well-formed map the value of the `i`-th key is the `i`-th value.
    pub proof fn lemma_view_at(&self, i: int)
        requires
            self.wf(),
            0 <= i < self.keys().len(),
        ensures
            self@.contains_key(self.keys()[i]),
            self@[self.keys()[i]] == self.values()[i],
    {
        let k = self.keys()[i];
        assert(self.keys().contains(k));
        let j = self.keys().index_of(k);
        assert(self.keys()[j] == k);
    }

    /// The domain of the map is the set of its keys, and it has as many
    /// elements as there are keys.
    pub proof fn lemma_view_dom(&self)
        requires
            self.wf(),
        ensures
            self@.dom() =~= self.keys().to_set(),
            self@.dom().finite(),
            self@.dom().len() == self.keys().len(),
    {
        assert(self@.dom() =~= self.keys().to_set());
        self.keys().unique_seq_to_set();
        vstd::seq_lib::seq_to_set_is_finite(self.keys());
    }

    pub fn new() -> (m: Self)
        ensures
            m.wf(),
            m.keys() == Seq::<Seq<char>>::empty(),
            m.values() == Seq::<V>::empty(),
            m@ == Map::<Seq<char>, V>::empty(),
    {
        let m = StringMap { entries: Vec::new() };
        assert(m.keys() =~= Seq::<Seq<char>>::empty());
        assert(m.values() =~= Seq::<V>::empty());
        assert(m@ =~= Map::<Seq<char>, V>::empty());
        m
    }

    pub fn len(&self) -> (n: usize)
        ensures
            n == self.keys().len(),
            n == self.values().len(),
    {
        self.entries.len()
    }

    pub fn is_empty(&self) -> (b: bool)
        ensures
            b == (self.keys().len() == 0),
    {
        self.entries.len() == 0
    }

    /// The place of `key` among the keys.
    pub fn position(&self, key: &str) -> (r: Option<usize>)
        ensures
            match r {
                Some(i) => i < self.keys().len() && self.keys()[i as int] == key@,
                None => !self.keys().contains(key@),
            },
    {
        let mut i: usize = 0;
        while i < self.entries.len()
            invariant
                i <= self.entries.len(),
                forall|j: int| 0 <= j < i ==> self.keys()[j] != key@,
            decreases self.entries.len() - i,
        {
            if str_eq(self.entries[i].key.as_str(), key) {
                return Some(i);
            }
            i = i + 1;
        }
        None
    }

    pub fn contains_key(&self, key: &str) -> (b: bool)
        ensures
            b == self.keys().contains(key@),
            b == self@.contains_key(key@),
    {
        self.position(key).is_some()
    }

    pub fn get(&self, key: &str) -> (r: Option<&V>)
        requires
            self.wf(),
        ensures
            match r {
                Some(v) => self@.contains_key(key@) && *v == self@[key@],
                None => !self@.contains_key(key@),
            },
    {
        match self.position(key) {
            Some(i) => {
                proof {
                    self.lemma_view_at(i as int);
                }
                Some(&self.entries[i].value)
            },
            None => None,
        }
    }

    /// The `i`-th key.
    pub fn key_at(&self, i: usize) -> (k: &String)
        requires
            i < self.keys().len(),
        ensures
            k@ == self.keys()[i as int],
    {
        &self.entries[i].key
    }

    /// The `i`-th value.
    pub fn value_at(&self, i: usize) -> (v: &V)
        requires
            i < self.keys().len(),
        ensures
            *v == self.values()[i as int],
    {
        &self.entries[i].value
    }

    /// Puts `value` in the place of the `i`-th value and returns the old one.
    pub fn replace_at(&mut self, i: usize, value: V) -> (previous: V)
        requires
            old(self).wf(),
            i < old(self).keys().len(),
        ensures
            final(self).wf(),
            final(self).keys() == old(self).keys(),
            final(self).values() == old(self).values().update(i as int, value),
            final(self)@ == old(self)@.insert(old(self).keys()[i as int], value),
            previous == old(self).values()[i as int],
    {
        let mut value = value;
        std::mem::swap(&mut self.entries[i].value, &mut value);
        proof {
            let key = old(self).keys()[i as int];
            let given = self.entries@[i as int].value;
            assert(self.keys() =~= old(self).keys());
            assert(self.values() =~= old(self).values().update(i as int, given));
            assert forall|k: Seq<char>| self@.contains_key(k) implies #[trigger] self@[k] == old(
                self,
            )@.insert(key, given)[k] by {
                let j = self.keys().index_of(k);
                assert(self.keys()[j] == k);
            }
            assert(self@ =~= old(self)@.insert(key, given));
        }
        value
    }

    /// Appends a key that the map does not hold yet, with its value.
    pub fn push_new(&mut self, key: String, value: V)
        requires
            old(self).wf(),
            !old(self).keys().contains(key@),
        ensures
            final(self).wf(),
            final(self).keys() == old(self).keys().push(key@),
            final(self).values() == old(self).values().push(value),
            final(self)@ == old(self)@.insert(key@, value),
    {
        let ghost shown = key@;
        self.entries.push(Entry { key, value });
        proof {
            assert(self.keys() =~= old(self).keys().push(shown));
            assert(self.values() =~= old(self).values().push(value));
            assert forall|k: Seq<char>| self.keys().contains(k) <==> (old(self).keys().contains(k)
                || k == shown) by {
                if old(self).keys().contains(k) {
                    let j = old(self).keys().index_of(k);
                    assert(self.keys()[j] == k);
                }
                if k == shown {
                    assert(self.keys()[self.keys().len() - 1] == k);
                }
            }
            assert forall|k: Seq<char>| self@.contains_key(k) implies #[trigger] self@[k] == old(
                self,
            )@.insert(shown, value)[k] by {
                let j = self.keys().index_of(k);
                assert(self.keys()[j] == k);
                if k != shown {
                    let j0 = old(self).keys().index_of(k);
                    assert(old(self).keys()[j0] == k);
                    assert(self.keys()[j0] == k);
                }
            }
            assert(self@ =~= old(self)@.insert(shown, value));
        }
    }

    /// Copies of the keys, in order.
    pub fn key_list(&self) -> (keys: Vec<String>)
        ensures
            crate::text::views(keys@) == self.keys(),
    {
        let mut keys: Vec<String> = Vec::new();
        let mut i: usize = 0;
        while i < self.entries.len()
            invariant
                i <= self.entries@.len(),
                keys@.len() == i,
                forall|j: int| 0 <= j < i ==> (#[trigger] keys@[j])@ == self.keys()[j],
            decreases self.entries@.len() - i,
        {
            keys.push(self.entries[i].key.clone());
            i = i + 1;
        }
        assert(crate::text::views(keys@) =~= self.keys());
        keys
    }

    /// Takes the map apart into its entries, in order.
    pub fn into_entries(self) -> (entries: Vec<Entry<V>>)
        ensures
            entries@.len() == self.keys().len(),
            forall|i: int| 0 <= i < entries@.len() ==> (#[trigger] entries@[i]).key() == self.keys()[i],
            forall|i: int|
                0 <= i < entries@.len() ==> (#[trigger] entries@[i]).value() == self.values()[i],
    {
        self.entries
    }

    /// Sets the value of `key`. A new key goes to the end; an old key keeps
    /// its place, and its previous value is returned.
    pub fn insert(&mut self, key: String, value: V) -> (previous: Option<V>)
        requires
            old(self).wf(),
        ensures
            final(self).wf(),
            final(self)@ == old(self)@.insert(key@, value),
            match previous {
                Some(v) => {
                    &&& old(self).keys().contains(key@)
                    &&& v == old(self)@[key@]
                    &&& final(self).keys() == old(self).keys()
                    &&& final(self).values() == old(self).values().update(
                        old(self).keys().index_of(key@),
                        value,
                    )
                },
                None => {
                    &&& !old(self).keys().contains(key@)
                    &&& final(self).keys() == old(self).keys().push(key@)
                    &&& final(self).values() == old(self).values().push(value)
                },
            },
    {
        match self.position(key.as_str()) {
            Some(i) => {
                proof {
                    old(self).lemma_view_at(i as int);
                }
                let previous = self.replace_at(i, value);
                proof {
                    assert forall|k: Seq<char>| self@.contains_key(k) implies #[trigger] self@[k]
                        == old(self)@.insert(key@, value)[k] by {
                        let j = self.keys().index_of(k);
                        assert(self.keys()[j] == k);
                    }
                    assert(self@ =~= old(self)@.insert(key@, value));
                }
                Some(previous)
            },
            None => {
                self.push_new(key, value);
                None
            },
        }
    }

    /// Takes `key` and its value out. The keys that stay keep their order.
    pub fn remove(&mut self, key: &str) -> (previous: Option<V>)
        requires
            old(self).wf(),
        ensures
            final(self).wf(),
            final(self)@ == old(self)@.remove(key@),
            match previous {
                Some(v) => {
                    &&& old(self).keys().contains(key@)
                    &&& v == old(self)@[key@]
                    &&& final(self).keys() == old(self).keys().remove(
                        old(self).keys().index_of(key@),
                    )
                    &&& final(self).values() == old(self).values().remove(
                        old(self).keys().index_of(key@),
                    )
                },
                None => {
                    &&& !old(self).keys().contains(key@)
                    &&& final(self).keys() == old(self).keys()
                    &&& final(self).values() == old(self).values()
                },
            },
    {
        match self.position(key) {
            Some(i) => {
                proof {
                    old(self).lemma_view_at(i as int);
                }
                let entry = self.entries.remove(i);
                proof {
                    let at = i as int;
                    assert(self.keys() =~= old(self).keys().remove(at));
                    assert(self.values() =~= old(self).values().remove(at));
                    assert forall|k: Seq<char>| self.keys().contains(k) <==> (old(
                        self,
                    ).keys().contains(k) && k != key@) by {
                        if self.keys().contains(k) {
                            let j = self.keys().index_of(k);
                            assert(self.keys()[j] == k);
                            if j < at {
                                assert(old(self).keys()[j] == k);
                            } else {
                                assert(old(self).keys()[j + 1] == k);
                            }
                        }
                        if old(self).keys().contains(k) && k != key@ {
                            let j = old(self).keys().index_of(k);
                            assert(old(self).keys()[j] == k);
                            if j < at {
                                assert(self.keys()[j] == k);
                            } else {
                                assert(self.keys()[j - 1] == k);
                            }
                        }
                    }
                    assert forall|k: Seq<char>| self@.contains_key(k) implies #[trigger] self@[k]
                        == old(self)@.remove(key@)[k] by {
                        let j = self.keys().index_of(k);
                        assert(self.keys()[j] == k);
                        let j0 = old(self).keys().index_of(k);
                        assert(old(self).keys()[j0] == k);
                        if j < at {
                            assert(old(self).keys()[j] == k);
                        } else {
                            assert(old(self).keys()[j + 1] == k);
                        }
                    }
                    assert(self@ =~= old(self)@.remove(key@));
                }
                Some(entry.value)
            },
            None => {
                assert(self@ =~= old(self)@.remove(key@));
                None
            },
        }
    }

    pub fn clear(&mut self)
        ensures
            final(self).wf(),
            final(self).keys() == Seq::<Seq<char>>::empty(),
            final(self).values() == Seq::<V>::empty(),
            final(self)@ == Map::<Seq<char>, V>::empty(),
    {
        self.entries.clear();
        assert(self.keys() =~= Seq::<Seq<char>>::empty());
        assert(self.values() =~= Seq::<V>::empty());
        assert(self@ =~= Map::<Seq<char>, V>::empty());
    }
}

} // verus!
