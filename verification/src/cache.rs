//! The operations of the cache.

use crate::model::{lemma_place, lemma_place_is, place, without, CacheView};
use crate::structs::{entry_views, Cache};
use crate::persistence::{load, save};
use crate::traits::{CacheTrait, Key, Text, Value};
use std::collections::VecDeque;
use vstd::prelude::*;

verus! {

impl<K: Key, V: Value> Cache<K, V> {
    /// An empty cache that holds at most `capacity` entries.
    pub fn new(capacity: usize) -> (c: Self)
        ensures
            c@ == CacheView::<K::V, V::V>::empty(capacity as nat),
            c@.wf(),
    {
        let c = Cache { capacity, entries: VecDeque::new() };
        assert(c@.entries =~= Seq::empty());
        c
    }

    /// The greatest number of entries that the cache holds.
    pub fn capacity(&self) -> (n: usize)
        ensures
            n == self@.limit,
    {
        self.capacity
    }

    /// The number of entries held.
    pub fn len(&self) -> (n: usize)
        ensures
            n == self@.entries.len(),
    {
        self.entries.len()
    }

    /// The index of the entry for `key`, or the number of entries where there
    /// is none.
    pub(crate) fn position(&self, key: &K) -> (i: usize)
        ensures
            i == place(self@.entries, key@),
            i <= self.entries@.len(),
    {
        let n = self.entries.len();
        let mut i: usize = 0;
        while i < n
            invariant
                n == self.entries@.len(),
                i <= n,
                forall|j: int| 0 <= j < i ==> (#[trigger] self@.entries[j]).0 != key@,
            decreases n - i,
        {
            if self.entries[i].0.same(key) {
                proof {
                    lemma_place_is(self@.entries, key@, i as int);
                }
                return i;
            }
            i += 1;
        }
        proof {
            lemma_place(self@.entries, key@);
        }
        i
    }

    /// Makes the entry for `key` the most recently used; where there is no
    /// such entry, nothing changes.
    pub fn move_to_back(&mut self, key: &K)
        requires
            old(self)@.wf(),
        ensures
            final(self)@.wf(),
            final(self)@ == old(self)@.touch(key@),
    {
        let i = self.position(key);
        if i < self.entries.len() {
            proof {
                lemma_place(self@.entries, key@);
            }
            let ghost before = self.entries@;
            if let Some(e) = self.entries.remove(i) {
                assert(entry_views(before.remove(i as int)) =~= entry_views(before).remove(
                    i as int,
                ));
                self.entries.push_back(e);
                assert(entry_views(before.remove(i as int).push(e)) =~= entry_views(
                    before,
                ).remove(i as int).push((e.0@, e.1@)));
            }
        }
    }
}

impl<K: Key + Text, V: Value + Text> CacheTrait<K, V> for Cache<K, V> {
    fn get(&mut self, key: &K) -> (r: Option<V>) {
        let i = self.position(key);
        if i < self.entries.len() {
            let value = self.entries[i].1.duplicate();
            self.move_to_back(key);
            Some(value)
        } else {
            None
        }
    }

    fn put(&mut self, key: K, value: V) -> (r: Option<V>) {
        let i = self.position(&key);
        let ghost before = self.entries@;
        let ghost k = key@;
        let ghost v = value@;
        proof {
            lemma_place(self@.entries, k);
        }
        let prior = match self.entries.remove(i) {
            Some(e) => Some(e.1),
            None => None,
        };
        let ghost rest = self.entries@;
        assert(entry_views(rest) =~= without(entry_views(before), k));
        self.entries.push_back((key, value));
        assert(entry_views(rest.push((key, value))) =~= entry_views(rest).push((k, v)));
        if self.entries.len() > self.capacity {
            let ghost full = self.entries@;
            self.entries.pop_front();
            assert(entry_views(full.subrange(1, full.len() as int)) =~= entry_views(
                full,
            ).drop_first());
        }
        prior
    }

    fn save_as_strings(&self) -> (lines: Vec<String>) {
        save(self)
    }

    fn load_from_strings(&mut self, lines: &Vec<String>) {
        load(lines, self)
    }
}

} // verus!
