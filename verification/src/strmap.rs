//! A map from names to values that keeps the order in which names came.

use vstd::prelude::*;

verus! {

/// An ordered map keyed by text. A name occurs at most once; a new name goes
/// to the end, and a value put under a known name takes the old value's place.
#[derive(Debug)]
pub struct StrMap<V> {
    entries: Vec<(String, V)>,
}

impl<V> StrMap<V> {
    /// The names, in order.
    pub closed spec fn keys(&self) -> Seq<Seq<char>> {
        Seq::new(self.entries@.len(), |i: int| self.entries@[i].0@)
    }

    /// The values, in the order of their names.
    pub closed spec fn values(&self) -> Seq<V> {
        Seq::new(self.entries@.len(), |i: int| self.entries@[i].1)
    }

    /// No name occurs twice.
    pub open spec fn wf(&self) -> bool {
        &&& self.keys().no_duplicates()
        &&& self.keys().len() == self.values().len()
    }

    /// Whether the map holds `key`.
    pub open spec fn has(&self, key: Seq<char>) -> bool {
        self.keys().contains(key)
    }

    /// The position of `key`, which the map holds.
    pub open spec fn position_of(&self, key: Seq<char>) -> int {
        choose|i: int| 0 <= i < self.keys().len() && self.keys()[i] == key
    }

    /// The value under `key`, which the map holds.
    pub open spec fn at(&self, key: Seq<char>) -> V {
        self.values()[self.position_of(key)]
    }

    /// The names with their values.
    pub open spec fn model(&self) -> Map<Seq<char>, V> {
        Map::new(|k: Seq<char>| self.has(k), |k: Seq<char>| self.at(k))
    }

    /// The value under the name at position `i` is the value at position `i`.
    pub proof fn lemma_at_position(&self, i: int)
        requires
            self.wf(),
            0 <= i < self.keys().len(),
        ensures
            self.has(self.keys()[i]),
            self.position_of(self.keys()[i]) == i,
            self.at(self.keys()[i]) == self.values()[i],
    {
        let k = self.keys()[i];
        let j = self.position_of(k);
        assert(0 <= j < self.keys().len() && self.keys()[j] == k);
    }

    pub proof fn lemma_len(&self)
        ensures
            self.keys().len() == self.values().len(),
    {
    }

    /// A map without names.
    pub fn new() -> (r: Self)
        ensures
            r.wf(),
            r.keys() =~= Seq::empty(),
            r.values() =~= Seq::empty(),
    {
        StrMap { entries: Vec::new() }
    }

    /// The number of names.
    pub fn len(&self) -> (r: usize)
        ensures
            r == self.keys().len(),
            r == self.values().len(),
    {
        self.entries.len()
    }

    pub fn is_empty(&self) -> (r: bool)
        ensures
            r == (self.keys().len() == 0),
    {
        self.entries.len() == 0
    }

    /// The name at position `i`.
    pub fn key_at(&self, i: usize) -> (r: &String)
        requires
            i < self.keys().len(),
        ensures
            r@ == self.keys()[i as int],
    {
        &self.entries[i].0
    }

    /// The value at position `i`.
    pub fn value_at(&self, i: usize) -> (r: &V)
        requires
            i < self.values().len(),
        ensures
            *r == self.values()[i as int],
    {
        &self.entries[i].1
    }

    /// The position of `key`, if the map holds it.
    pub fn find(&self, key: &str) -> (r: Option<usize>)
        ensures
            match r {
                Some(i) => i < self.keys().len() && self.keys()[i as int] == key@ && self.has(key@),
                None => !self.has(key@),
            },
            self.wf() && r is Some ==> r->0 == self.position_of(key@),
    {
        let mut i: usize = 0;
        while i < self.entries.len()
            invariant
                i <= self.entries.len(),
                forall|j: int| 0 <= j < i ==> self.keys()[j] != key@,
            decreases self.entries.len() - i,
        {
            if crate::text::text_eq(self.entries[i].0.as_str(), key) {
                proof {
                    assert(self.keys()[i as int] == key@);
                    if self.wf() {
                        self.lemma_at_position(i as int);
                    }
                }
                return Some(i);
            }
            i += 1;
        }
        None
    }

    /// Whether the map holds `key`.
    pub fn contains_key(&self, key: &str) -> (r: bool)
        ensures
            r == self.has(key@),
    {
        self.find(key).is_some()
    }

    /// The value under `key`, if the map holds it.
    pub fn get(&self, key: &str) -> (r: Option<&V>)
        ensures
            match r {
                Some(v) => self.has(key@) && (self.wf() ==> *v == self.at(key@)),
                None => !self.has(key@),
            },
    {
        match self.find(key) {
            Some(i) => {
                proof {
                    if self.wf() {
                        self.lemma_at_position(i as int);
                    }
                }
                Some(&self.entries[i].1)
            },
            None => None,
        }
    }

    /// Puts `value` under `key`. A known name keeps its position and gives
    /// up its old value, which is returned; a new name goes to the end.
    pub fn insert(&mut self, key: String, value: V) -> (r: Option<V>)
        requires
            old(self).wf(),
        ensures
            final(self).wf(),
            match r {
                Some(v) => {
                    &&& old(self).has(key@)
                    &&& v == old(self).at(key@)
                    &&& final(self).keys() == old(self).keys()
                    &&& final(self).values() == old(self).values().update(
                        old(self).position_of(key@),
                        value,
                    )
                },
                None => {
                    &&& !old(self).has(key@)
                    &&& final(self).keys() == old(self).keys().push(key@)
                    &&& final(self).values() == old(self).values().push(value)
                },
            },
            final(self).has(key@),
            final(self).at(key@) == value,
            forall|k: Seq<char>| k != key@ ==> (final(self).has(k) <==> old(self).has(k)),
            forall|k: Seq<char>| k != key@ && old(self).has(k) ==> final(self).at(k) == old(self).at(k),
            final(self).model() == old(self).model().insert(key@, value),
    {
        let ghost key_view = key@;
        let r = self.insert_entry(key, value);
        proof {
            assert(self.model() =~= old(self).model().insert(key_view, value));
        }
        r
    }

    fn insert_entry(&mut self, key: String, value: V) -> (r: Option<V>)
        requires
            old(self).wf(),
        ensures
            final(self).wf(),
            match r {
                Some(v) => {
                    &&& old(self).has(key@)
                    &&& v == old(self).at(key@)
                    &&& final(self).keys() == old(self).keys()
                    &&& final(self).values() == old(self).values().update(
                        old(self).position_of(key@),
                        value,
                    )
                },
                None => {
                    &&& !old(self).has(key@)
                    &&& final(self).keys() == old(self).keys().push(key@)
                    &&& final(self).values() == old(self).values().push(value)
                },
            },
            final(self).has(key@),
            final(self).at(key@) == value,
            forall|k: Seq<char>| k != key@ ==> (final(self).has(k) <==> old(self).has(k)),
            forall|k: Seq<char>| k != key@ && old(self).has(k) ==> final(self).at(k) == old(self).at(k),
    {
        match self.find(key.as_str()) {
            Some(i) => {
                let ghost keys0 = self.keys();
                let mut entry = (key, value);
                let slot = &mut self.entries[i];
                std::mem::swap(slot, &mut entry);
                proof {
                    assert(self.keys() =~= keys0);
                    assert(self.values() =~= old(self).values().update(i as int, value));
                    old(self).lemma_at_position(i as int);
                    self.lemma_at_position(i as int);
                    assert forall|k: Seq<char>| k != key@ && old(self).has(k)
                        implies self.at(k) == old(self).at(k) by {
                        let j = old(self).position_of(k);
                        old(self).lemma_at_position(j);
                        self.lemma_at_position(j);
                    }
                }
                Some(entry.1)
            },
            None => {
                let ghost keys0 = self.keys();
                self.entries.push((key, value));
                proof {
                    assert(self.keys() =~= keys0.push(key@));
                    assert(self.values() =~= old(self).values().push(value));
                    let n = keys0.len() as int;
                    assert(self.keys()[n] == key@);
                    self.lemma_at_position(n);
                    assert forall|k: Seq<char>| k != key@ implies (self.has(k) <==> old(self).has(k)) by {
                        if self.has(k) {
                            let j = choose|j: int| 0 <= j < self.keys().len() && self.keys()[j] == k;
                            assert(keys0[j] == k);
                        }
                        if old(self).has(k) {
                            let j = choose|j: int| 0 <= j < keys0.len() && keys0[j] == k;
                            assert(self.keys()[j] == k);
                        }
                    }
                    assert forall|k: Seq<char>| k != key@ && old(self).has(k)
                        implies self.at(k) == old(self).at(k) by {
                        let j = old(self).position_of(k);
                        old(self).lemma_at_position(j);
                        assert(self.keys()[j] == k);
                        self.lemma_at_position(j);
                    }
                }
                None
            },
        }
    }
}

} // verus!
