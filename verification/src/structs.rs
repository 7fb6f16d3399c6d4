//! The cache itself.

use crate::model::CacheView;
use std::collections::VecDeque;
use vstd::prelude::*;

verus! {

/// A key-value cache of fixed capacity with least-recently-used eviction.
///
/// The entries are kept in one queue in the order of their last use, the
/// least recently used at the front, so the order of recency and the mapping
/// cannot disagree. A lookup walks the queue and compares keys by their
/// views.
pub struct Cache<K: View, V: View> {
    /// The greatest number of entries held.
    pub(crate) capacity: usize,
    /// The entries, from the least to the most recently used.
    pub(crate) entries: VecDeque<(K, V)>,
}

/// The entries by their views.
pub open spec fn entry_views<K: View, V: View>(s: Seq<(K, V)>) -> Seq<(K::V, V::V)> {
    s.map_values(|e: (K, V)| (e.0@, e.1@))
}

impl<K: View, V: View> View for Cache<K, V> {
    type V = CacheView<K::V, V::V>;

    open(crate) spec fn view(&self) -> CacheView<K::V, V::V> {
        CacheView { limit: self.capacity as nat, entries: entry_views(self.entries@) }
    }
}

} // verus!
