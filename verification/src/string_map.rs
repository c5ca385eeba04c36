//! A map from strings to values, which remembers the order in which its keys came.
use vstd::prelude::*;

use crate::text;

verus! {

/// A map from strings. No key occurs twice.
pub struct StringMap<V> {
    entries: Vec<(String, V)>,
}

impl<V> View for StringMap<V> {
    type V = Map<Seq<char>, V>;

    closed spec fn view(&self) -> Map<Seq<char>, V> {
        Map::new(
            |k: Seq<char>| self.keys().contains(k),
            |k: Seq<char>| self.entries@[self.keys().index_of(k)].1,
        )
    }
}

impl<V> StringMap<V> {
    /// The keys, in the order in which they came.
    pub closed spec fn keys(&self) -> Seq<Seq<char>> {
        self.entries@.map_values(|e: (String, V)| e.0@)
    }

    /// No key occurs twice.
    pub closed spec fn wf(&self) -> bool {
        self.keys().no_duplicates()
    }

    /// The keys are those that the map holds, each of them once.
    pub proof fn lemma_keys(&self)
        requires
            self.wf(),
        ensures
            self.keys().no_duplicates(),
            forall|k: Seq<char>| self.keys().contains(k) <==> self@.contains_key(k),
            forall|i: int|
                0 <= i < self.keys().len() ==> self@.contains_key(#[trigger] self.keys()[i]),
    {
    }

    proof fn lemma_at(&self, i: int)
        requires
            self.wf(),
            0 <= i < self.entries@.len(),
        ensures
            self@.contains_key(self.entries@[i].0@),
            self@[self.entries@[i].0@] == self.entries@[i].1,
    {
        let k = self.entries@[i].0@;
        assert(self.keys()[i] == k);
        assert(self.keys().contains(k));
        let j = self.keys().index_of(k);
        assert(0 <= j < self.keys().len() && self.keys()[j] == k);
    }

    /// A map without entries.
    pub fn new() -> (m: Self)
        ensures
            m.wf(),
            m@ == Map::<Seq<char>, V>::empty(),
            m.keys() == Seq::<Seq<char>>::empty(),
    {
        let m = StringMap { entries: Vec::new() };
        assert(m.keys() =~= Seq::empty());
        assert(m@ =~= Map::empty());
        m
    }

    /// The number of entries.
    pub fn len(&self) -> (n: usize)
        ensures
            n == self.keys().len(),
    {
        self.entries.len()
    }

    /// The key that came at position `i`.
    pub fn key_at(&self, i: usize) -> (k: &String)
        requires
            i < self.keys().len(),
        ensures
            k@ == self.keys()[i as int],
    {
        &self.entries[i].0
    }

    /// The value of the key that came at position `i`.
    pub fn value_at(&self, i: usize) -> (v: &V)
        requires
            self.wf(),
            i < self.keys().len(),
        ensures
            *v == self@[self.keys()[i as int]],
    {
        proof {
            self.lemma_at(i as int);
        }
        &self.entries[i].1
    }

    fn position(&self, key: &str) -> (found: Option<usize>)
        ensures
            match found {
                Some(i) => i < self.entries@.len() && self.entries@[i as int].0@ == key@,
                None => !self.keys().contains(key@),
            },
    {
        let mut i: usize = 0;
        while i < self.entries.len()
            invariant
                i <= self.entries.len(),
                forall|j: int| 0 <= j < i ==> self.entries@[j].0@ != key@,
            decreases self.entries.len() - i,
        {
            if text::same_text(self.entries[i].0.as_str(), key) {
                return Some(i);
            }
            i += 1;
        }
        None
    }

    /// The value of a key.
    pub fn get(&self, key: &str) -> (v: Option<&V>)
        requires
            self.wf(),
        ensures
            match v {
                Some(v) => self@.contains_key(key@) && *v == self@[key@],
                None => !self@.contains_key(key@),
            },
    {
        match self.position(key) {
            Some(i) => {
                proof {
                    self.lemma_at(i as int);
                }
                Some(&self.entries[i].1)
            },
            None => None,
        }
    }

    /// Sets the value of a key.
    pub fn insert(&mut self, key: &str, value: V)
        requires
            old(self).wf(),
        ensures
            final(self).wf(),
            final(self)@ == old(self)@.insert(key@, value),
    {
        let ghost before = *self;
        match self.position(key) {
            Some(i) => {
                self.entries.set(i, (key.to_owned(), value));
                assert(self.keys() =~= before.keys());
                assert(self@ =~= before@.insert(key@, value)) by {
                    before.lemma_at(i as int);
                    self.lemma_at(i as int);
                    assert forall|k: Seq<char>| self@.contains_key(k) && k != key@ implies self@[k]
                        == before@[k] by {
                        let j = self.keys().index_of(k);
                        assert(self.keys()[j] == k);
                        assert(j != i);
                    }
                }
            },
            None => {
                self.entries.push((key.to_owned(), value));
                assert(self.keys() =~= before.keys().push(key@));
                assert(self.wf());
                assert(self@ =~= before@.insert(key@, value)) by {
                    self.lemma_at(before.entries@.len() as int);
                    assert forall|k: Seq<char>| k != key@ implies self@.contains_key(k)
                        == before@.contains_key(k) by {
                        if before@.contains_key(k) {
                            let j = before.keys().index_of(k);
                            assert(self.keys()[j] == k);
                        }
                        if self@.contains_key(k) {
                            let j = self.keys().index_of(k);
                            assert(before.keys()[j] == k);
                        }
                    }
                    assert forall|k: Seq<char>| before@.contains_key(k) implies self@[k]
                        == before@[k] by {
                        let j = before.keys().index_of(k);
                        assert(before.keys()[j] == k);
                        self.lemma_at(j);
                    }
                }
            },
        }
    }

    /// Takes a key out.
    pub fn remove(&mut self, key: &str) -> (taken: Option<V>)
        requires
            old(self).wf(),
        ensures
            final(self).wf(),
            final(self)@ == old(self)@.remove(key@),
            match taken {
                Some(v) => old(self)@.contains_key(key@) && v == old(self)@[key@],
                None => !old(self)@.contains_key(key@),
            },
    {
        let ghost before = *self;
        match self.position(key) {
            Some(i) => {
                proof {
                    before.lemma_at(i as int);
                }
                let (_, value) = self.entries.remove(i);
                assert(self.keys() =~= before.keys().remove(i as int));
                assert(self@ =~= before@.remove(key@)) by {
                    assert forall|k: Seq<char>| self@.contains_key(k) implies k != key@
                        && before@.contains_key(k) && self@[k] == before@[k] by {
                        let j = self.keys().index_of(k);
                        assert(self.keys()[j] == k);
                        let orig = if j < i { j } else { j + 1 };
                        assert(before.keys()[orig] == k);
                        assert(before.keys()[i as int] == key@);
                        before.lemma_at(orig);
                        self.lemma_at(j);
                    }
                    assert forall|k: Seq<char>| k != key@ && before@.contains_key(k) implies self@.contains_key(k) by {
                        let j = before.keys().index_of(k);
                        assert(before.keys()[j] == k);
                        let now = if j < i { j } else { j - 1 };
                        assert(self.keys()[now] == k);
                    }
                }
                Some(value)
            },
            None => {
                assert(self@ =~= before@.remove(key@));
                None
            },
        }
    }
}

} // verus!
