//! The traits that the cache asks of its keys and values, and the trait that
//! says what a cache is.

use crate::model::CacheView;
use crate::persistence::{entries_of, lines_of};
use vstd::prelude::*;

verus! {

/// A key: two keys are the same key exactly where their views are equal.
pub trait Key: View + Sized {
    /// Whether `self` and `other` are the same key.
    fn same(&self, other: &Self) -> (r: bool)
        ensures
            r == (self@ == other@),
    ;
}

/// A value: it can be copied out of the cache.
pub trait Value: View + Sized {
    /// A copy of `self`.
    fn duplicate(&self) -> (r: Self)
        ensures
            r@ == self@,
    ;
}

/// A type with a canonical text form that can be read back.
pub trait Text: View + Sized {
    /// The canonical text of a value.
    spec fn text_of(v: Self::V) -> Seq<char>;

    /// The value that a text stands for, if it stands for one.
    spec fn parse_of(s: Seq<char>) -> Option<Self::V>;

    /// The canonical text of a value reads back as that value.
    proof fn lemma_text_reads_back(v: Self::V)
        ensures
            Self::parse_of(Self::text_of(v)) == Some(v),
    ;

    /// Writes `self` as text.
    fn to_text(&self) -> (s: String)
        ensures
            s@ == Self::text_of(self@),
    ;

    /// Reads a value from text; `None` where the text stands for none.
    fn from_text(s: &str) -> (r: Option<Self>)
        ensures
            match r {
                Some(x) => Self::parse_of(s@) == Some(x@),
                None => Self::parse_of(s@) is None,
            },
    ;
}

/// A cache of bounded size that forgets the least recently used entry first.
pub trait CacheTrait<K: Key + Text, V: Value + Text>: View<V = CacheView<K::V, V::V>> {
    /// Looks `key` up. A present key yields a copy of its value and becomes
    /// the most recently used; an absent key yields `None` and changes nothing.
    fn get(&mut self, key: &K) -> (r: Option<V>)
        requires
            old(self)@.wf(),
        ensures
            final(self)@.wf(),
            final(self)@ == old(self)@.touch(key@),
            match old(self)@.get(key@) {
                Some(v) => r is Some && r.unwrap()@ == v,
                None => r is None,
            },
    ;

    /// Binds `key` to `value` and makes it the most recently used. Returns the
    /// value that `key` had before, if any. Where the cache then holds more
    /// than its capacity, the least recently used entry leaves.
    fn put(&mut self, key: K, value: V) -> (r: Option<V>)
        requires
            old(self)@.wf(),
        ensures
            final(self)@.wf(),
            final(self)@ == old(self)@.put(key@, value@),
            match old(self)@.get(key@) {
                Some(v) => r is Some && r.unwrap()@ == v,
                None => r is None,
            },
    ;

    /// The entries as lines of text, the least recently used first.
    fn save_as_strings(&self) -> (lines: Vec<String>)
        ensures
            lines.deep_view() == lines_of::<K, V>(self@.entries),
    ;

    /// Puts into the cache, in their order, the entries that `lines` stand
    /// for; a line that stands for none is passed over.
    fn load_from_strings(&mut self, lines: &Vec<String>)
        requires
            old(self)@.wf(),
        ensures
            final(self)@.wf(),
            final(self)@ == old(self)@.put_all(entries_of::<K, V>(lines.deep_view())),
    ;
}

} // verus!
