//! The mathematical model of the cache: a capacity and a sequence of entries
//! ordered by recency, the least recently used entry first.

use vstd::prelude::*;

verus! {

/// What a cache is, seen from outside: its capacity and its entries, from the
/// least recently used (index 0) to the most recently used (last index).
pub ghost struct CacheView<A, B> {
    pub limit: nat,
    pub entries: Seq<(A, B)>,
}

/// No key occurs twice in `s`.
pub open spec fn distinct_keys<A, B>(s: Seq<(A, B)>) -> bool {
    forall|i: int, j: int| 0 <= i < j < s.len() ==> (#[trigger] s[i]).0 != (#[trigger] s[j]).0
}

/// Some entry of `s` has the key `k`.
pub open spec fn has_key<A, B>(s: Seq<(A, B)>, k: A) -> bool {
    exists|i: int| 0 <= i < s.len() && (#[trigger] s[i]).0 == k
}

/// `i` is the first index of `s` whose entry has the key `k`.
pub open spec fn first_at<A, B>(s: Seq<(A, B)>, k: A, i: int) -> bool {
    &&& 0 <= i < s.len()
    &&& s[i].0 == k
    &&& forall|j: int| 0 <= j < i ==> (#[trigger] s[j]).0 != k
}

/// The first index of `s` whose entry has the key `k`, or the length of `s`
/// where no entry has it.
pub open spec fn place<A, B>(s: Seq<(A, B)>, k: A) -> int {
    if exists|i: int| first_at(s, k, i) {
        choose|i: int| first_at(s, k, i)
    } else {
        s.len() as int
    }
}

/// The value stored under `k`, if any.
pub open spec fn lookup<A, B>(s: Seq<(A, B)>, k: A) -> Option<B> {
    if place(s, k) < s.len() {
        Some(s[place(s, k)].1)
    } else {
        None
    }
}

/// `s` without its entry for `k`; `s` itself where it has none.
pub open spec fn without<A, B>(s: Seq<(A, B)>, k: A) -> Seq<(A, B)> {
    if place(s, k) < s.len() {
        s.remove(place(s, k))
    } else {
        s
    }
}

/// `s` after a read of `k`: the entry for `k`, if there is one, becomes the
/// most recently used; otherwise nothing changes.
pub open spec fn touched<A, B>(s: Seq<(A, B)>, k: A) -> Seq<(A, B)> {
    match lookup(s, k) {
        Some(v) => without(s, k).push((k, v)),
        None => s,
    }
}

/// `s` after `k` was bound to `v` with no bound on the size: the entry becomes
/// the most recently used and replaces an earlier one for `k`.
pub open spec fn renewed<A, B>(s: Seq<(A, B)>, k: A, v: B) -> Seq<(A, B)> {
    without(s, k).push((k, v))
}

/// The last `n` entries of `s`, or all of `s` where it has fewer.
pub open spec fn newest<A, B>(s: Seq<(A, B)>, n: nat) -> Seq<(A, B)> {
    if s.len() <= n {
        s
    } else {
        s.subrange(s.len() - n, s.len() as int)
    }
}

/// `s` after `k` was bound to `v` in a cache of capacity `limit`: as
/// [`renewed`], and where that exceeds the capacity the least recently used
/// entry leaves.
pub open spec fn stored<A, B>(s: Seq<(A, B)>, k: A, v: B, limit: nat) -> Seq<(A, B)> {
    let t = renewed(s, k, v);
    if t.len() > limit {
        t.drop_first()
    } else {
        t
    }
}

/// The entries after the bindings `ops` were stored one after another, the
/// first of `ops` first, starting from `s`.
pub open spec fn replay<A, B>(s: Seq<(A, B)>, ops: Seq<(A, B)>, limit: nat) -> Seq<(A, B)>
    decreases ops.len(),
{
    if ops.len() == 0 {
        s
    } else {
        let e = ops.last();
        stored(replay(s, ops.drop_last(), limit), e.0, e.1, limit)
    }
}

/// The bindings `ops` with every binding dropped that a later one of the same
/// key overrides, each key standing where it was bound last.
pub open spec fn latest<A, B>(ops: Seq<(A, B)>) -> Seq<(A, B)>
    decreases ops.len(),
{
    if ops.len() == 0 {
        Seq::empty()
    } else {
        let e = ops.last();
        renewed(latest(ops.drop_last()), e.0, e.1)
    }
}

impl<A, B> CacheView<A, B> {
    /// The entries fit the capacity and no key occurs twice.
    pub open spec fn wf(self) -> bool {
        &&& self.entries.len() <= self.limit
        &&& distinct_keys(self.entries)
    }

    /// The keys, from the least to the most recently used.
    pub open spec fn recency(self) -> Seq<A> {
        self.entries.map_values(|e: (A, B)| e.0)
    }

    /// The mapping from keys to values.
    pub open spec fn index(self) -> Map<A, B> {
        Map::new(|k: A| has_key(self.entries, k), |k: A| lookup(self.entries, k).unwrap())
    }

    /// The value that a read of `k` returns.
    pub open spec fn get(self, k: A) -> Option<B> {
        lookup(self.entries, k)
    }

    /// The cache after a read of `k`.
    pub open spec fn touch(self, k: A) -> Self {
        CacheView { limit: self.limit, entries: touched(self.entries, k) }
    }

    /// The cache after `k` was bound to `v`.
    pub open spec fn put(self, k: A, v: B) -> Self {
        CacheView { limit: self.limit, entries: stored(self.entries, k, v, self.limit) }
    }

    /// The key whose entry leaves when `k` is put: the least recently used of
    /// the others where the cache is full and does not hold `k`, and none
    /// where there is room. A cache of capacity zero lets `k` itself go.
    pub open spec fn victim(self, k: A) -> Option<A> {
        let w = without(self.entries, k);
        if w.len() + 1 > self.limit {
            if w.len() > 0 {
                Some(w[0].0)
            } else {
                Some(k)
            }
        } else {
            None
        }
    }

    /// The cache after each binding of `ops` was put in turn.
    pub open spec fn put_all(self, ops: Seq<(A, B)>) -> Self {
        CacheView { limit: self.limit, entries: replay(self.entries, ops, self.limit) }
    }

    /// The empty cache of capacity `limit`.
    pub open spec fn empty(limit: nat) -> Self {
        CacheView { limit, entries: Seq::empty() }
    }
}

/// Where `i` is the first index with key `k`, `place` is `i`.
pub proof fn lemma_place_is<A, B>(s: Seq<(A, B)>, k: A, i: int)
    requires
        first_at(s, k, i),
    ensures
        place(s, k) == i,
{
    let j = choose|j: int| first_at(s, k, j);
    assert(first_at(s, k, j));
    assert(j == i) by {
        if j < i {
            assert(s[j].0 != k);
        } else if i < j {
            assert(s[i].0 != k);
        }
    }
}

/// `place` is the length exactly where no entry has the key, and otherwise
/// the first index that has it.
pub proof fn lemma_place<A, B>(s: Seq<(A, B)>, k: A)
    ensures
        0 <= place(s, k) <= s.len(),
        place(s, k) < s.len() ==> first_at(s, k, place(s, k)),
        place(s, k) == s.len() <==> !has_key(s, k),
{
    if exists|i: int| first_at(s, k, i) {
        let i = choose|i: int| first_at(s, k, i);
        assert(s[i].0 == k);
    } else {
        if has_key(s, k) {
            let w = choose|i: int| 0 <= i < s.len() && (#[trigger] s[i]).0 == k;
            lemma_first_exists(s, k, w);
        }
    }
}

/// Where some index up to `w` has the key, a first one exists.
proof fn lemma_first_exists<A, B>(s: Seq<(A, B)>, k: A, w: int)
    requires
        0 <= w < s.len(),
        s[w].0 == k,
    ensures
        exists|i: int| first_at(s, k, i),
    decreases w,
{
    if exists|j: int| 0 <= j < w && (#[trigger] s[j]).0 == k {
        let j = choose|j: int| 0 <= j < w && (#[trigger] s[j]).0 == k;
        lemma_first_exists(s, k, j);
    } else {
        assert(first_at(s, k, w));
    }
}

} // verus!
