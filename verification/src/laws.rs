//! What holds of the cache over whole runs: proved from the model.

use crate::model::{
    distinct_keys, first_at, has_key, latest, lemma_place, lemma_place_is, lookup, newest, place,
    renewed, replay, stored, touched, without, CacheView,
};
use crate::persistence::{
    cut_at, entries_of, entry_of, lemma_split_at, line_of, lines_of, plain_entry,
};
use crate::traits::Text;
use vstd::prelude::*;

verus! {

/// Taking the entry for `k` out of entries with distinct keys leaves distinct
/// keys, none of them `k`, and every other entry where it was in the order.
pub proof fn lemma_without<A, B>(s: Seq<(A, B)>, k: A)
    requires
        distinct_keys(s),
    ensures
        distinct_keys(without(s, k)),
        !has_key(without(s, k), k),
        without(s, k).len() == if has_key(s, k) {
            s.len() - 1
        } else {
            s.len() as int
        },
        forall|q: A| q != k ==> lookup(without(s, k), q) == lookup(s, q),
{
    lemma_place(s, k);
    let p = place(s, k);
    let w = without(s, k);
    if p < s.len() {
        assert forall|i: int| 0 <= i < w.len() implies (#[trigger] w[i]).0 != k by {
            if i < p {
                assert(w[i] == s[i]);
            } else {
                assert(w[i] == s[i + 1]);
            }
        }
    }
    assert forall|q: A| q != k implies lookup(w, q) == lookup(s, q) by {
        lemma_place(s, q);
        lemma_place(w, q);
        let a = place(s, q);
        if p < s.len() {
            if a < s.len() {
                let b = if a < p {
                    a
                } else {
                    a - 1
                };
                assert(first_at(w, q, b)) by {
                    assert forall|j: int| 0 <= j < b implies (#[trigger] w[j]).0 != q by {
                        if j < p {
                            assert(w[j] == s[j]);
                        } else {
                            assert(w[j] == s[j + 1]);
                        }
                    }
                }
                lemma_place_is(w, q, b);
            } else {
                if place(w, q) < w.len() {
                    let b = place(w, q);
                    let a2 = if b < p {
                        b
                    } else {
                        b + 1
                    };
                    assert(s[a2].0 == q);
                }
            }
        }
    }
}

/// Binding a key anew keeps the keys distinct.
pub proof fn lemma_renewed<A, B>(s: Seq<(A, B)>, k: A, v: B)
    requires
        distinct_keys(s),
    ensures
        distinct_keys(renewed(s, k, v)),
        renewed(s, k, v).len() == if has_key(s, k) {
            s.len()
        } else {
            s.len() + 1
        },
        lookup(renewed(s, k, v), k) == Some(v),
        forall|q: A| q != k ==> lookup(renewed(s, k, v), q) == lookup(s, q),
{
    lemma_without(s, k);
    let w = without(s, k);
    let r = renewed(s, k, v);
    assert forall|i: int, j: int| 0 <= i < j < r.len() implies (#[trigger] r[i]).0 != (
    #[trigger] r[j]).0 by {
        if j < w.len() {
            assert(r[i] == w[i] && r[j] == w[j]);
        } else {
            assert(r[i] == w[i]);
        }
    }
    assert(first_at(r, k, w.len() as int)) by {
        assert forall|j: int| 0 <= j < w.len() implies (#[trigger] r[j]).0 != k by {
            assert(r[j] == w[j]);
        }
    }
    lemma_place_is(r, k, w.len() as int);
    assert forall|q: A| q != k implies lookup(r, q) == lookup(s, q) by {
        lemma_push_other(w, (k, v), q);
    }
}

/// An entry pushed at the end changes no lookup of another key.
pub proof fn lemma_push_other<A, B>(s: Seq<(A, B)>, e: (A, B), q: A)
    requires
        e.0 != q,
    ensures
        lookup(s.push(e), q) == lookup(s, q),
        has_key(s.push(e), q) == has_key(s, q),
{
    let t = s.push(e);
    lemma_place(s, q);
    lemma_place(t, q);
    if place(s, q) < s.len() {
        let a = place(s, q);
        assert(first_at(t, q, a)) by {
            assert(t[a] == s[a]);
            assert forall|j: int| 0 <= j < a implies (#[trigger] t[j]).0 != q by {
                assert(t[j] == s[j]);
            }
        }
        lemma_place_is(t, q, a);
        assert(t[a].0 == q);
    } else {
        if place(t, q) < t.len() {
            let b = place(t, q);
            assert(b < s.len());
            assert(s[b] == t[b]);
        }
    }
}

/// Storing into the newest `limit` entries gives the newest `limit` entries
/// of what an unbounded cache would hold.
pub proof fn lemma_stored_newest<A, B>(x: Seq<(A, B)>, k: A, v: B, limit: nat)
    requires
        distinct_keys(x),
    ensures
        stored(newest(x, limit), k, v, limit) == newest(renewed(x, k, v), limit),
{
    let t = newest(x, limit);
    let off = x.len() - t.len();
    let p = place(x, k);
    lemma_place(x, k);
    lemma_place(t, k);
    assert forall|i: int| 0 <= i < t.len() implies #[trigger] t[i] == x[i + off] by {}
    if off <= p < x.len() {
        assert(first_at(t, k, p - off)) by {
            assert(t[p - off] == x[p]);
            assert forall|j: int| 0 <= j < p - off implies (#[trigger] t[j]).0 != k by {
                assert(t[j] == x[j + off]);
            }
        }
        lemma_place_is(t, k, p - off);
    } else {
        if place(t, k) < t.len() {
            let b = place(t, k);
            assert(t[b] == x[b + off]);
            assert(x[b + off].0 == k);
            assert(false);
        }
    }
    assert(stored(t, k, v, limit) =~= newest(renewed(x, k, v), limit));
}

/// After any run of puts into an empty cache, the cache holds the newest
/// bindings of the most recently put distinct keys, as many as fit, in the
/// order in which the keys were last put.
pub proof fn lemma_puts_keep_newest<A, B>(ops: Seq<(A, B)>, limit: nat)
    ensures
        distinct_keys(latest(ops)),
        replay(Seq::empty(), ops, limit) == newest(latest(ops), limit),
        replay(Seq::empty(), ops, limit).len() == if latest(ops).len() <= limit {
            latest(ops).len()
        } else {
            limit
        },
    decreases ops.len(),
{
    if ops.len() == 0 {
    } else {
        let e = ops.last();
        lemma_puts_keep_newest(ops.drop_last(), limit);
        lemma_renewed(latest(ops.drop_last()), e.0, e.1);
        lemma_stored_newest(latest(ops.drop_last()), e.0, e.1, limit);
    }
}

/// A key is among the latest bindings exactly where some put bound it, and
/// its value there is the one that the last such put gave it.
pub proof fn lemma_latest_holds<A, B>(ops: Seq<(A, B)>, q: A)
    ensures
        has_key(latest(ops), q) <==> has_key(ops, q),
        forall|i: int|
            0 <= i < ops.len() && ops[i].0 == q && (forall|j: int|
                i < j < ops.len() ==> (#[trigger] ops[j]).0 != q) ==> lookup(latest(ops), q)
                == Some(#[trigger] ops[i].1),
    decreases ops.len(),
{
    if ops.len() == 0 {
        lemma_place(latest(ops), q);
    } else {
        let e = ops.last();
        let rest = ops.drop_last();
        lemma_latest_holds(rest, q);
        lemma_puts_keep_newest::<A, B>(rest, 0);
        lemma_renewed(latest(rest), e.0, e.1);
        lemma_place(latest(ops), q);
        lemma_place(latest(rest), q);
        if e.0 == q {
            assert(ops[ops.len() - 1].0 == q);
        } else {
            if has_key(rest, q) {
                let w = choose|i: int| 0 <= i < rest.len() && (#[trigger] rest[i]).0 == q;
                assert(ops[w] == rest[w]);
            }
            if has_key(ops, q) {
                let w = choose|i: int| 0 <= i < ops.len() && (#[trigger] ops[i]).0 == q;
                assert(rest[w] == ops[w]);
            }
        }
        assert forall|i: int|
            0 <= i < ops.len() && ops[i].0 == q && (forall|j: int|
                i < j < ops.len() ==> (#[trigger] ops[j]).0 != q) implies lookup(latest(ops), q)
            == Some(#[trigger] ops[i].1) by {
            if i == ops.len() - 1 {
            } else {
                assert(ops[ops.len() - 1].0 != q);
                assert(rest[i] == ops[i]);
                assert forall|j: int| i < j < rest.len() implies (#[trigger] rest[j]).0 != q by {
                    assert(rest[j] == ops[j]);
                }
            }
        }
    }
}

/// Without their first entry, entries with distinct keys no longer hold its
/// key and hold every other key as before.
pub proof fn lemma_drop_first<A, B>(s: Seq<(A, B)>, q: A)
    requires
        distinct_keys(s),
        s.len() > 0,
    ensures
        distinct_keys(s.drop_first()),
        lookup(s.drop_first(), q) == if q == s[0].0 {
            None
        } else {
            lookup(s, q)
        },
{
    let t = s.drop_first();
    lemma_place(s, q);
    lemma_place(t, q);
    assert forall|i: int| 0 <= i < t.len() implies #[trigger] t[i] == s[i + 1] by {}
    if place(t, q) < t.len() {
        let b = place(t, q);
        assert(t[b] == s[b + 1]);
        assert(first_at(s, q, b + 1)) by {
            assert forall|j: int| 0 <= j < b + 1 implies (#[trigger] s[j]).0 != q by {
                if j > 0 {
                    assert(t[j - 1] == s[j]);
                }
            }
        }
        lemma_place_is(s, q, b + 1);
    } else {
        if place(s, q) < s.len() && q != s[0].0 {
            let a = place(s, q);
            assert(t[a - 1] == s[a]);
            assert(t[a - 1].0 == q);
        }
    }
}

/// A put keeps the cache well formed. After it, the key that was put reads
/// as the new value, the key that had to leave reads as nothing, and every
/// other key reads as before.
pub proof fn lemma_put_then_get<A, B>(c: CacheView<A, B>, k: A, v: B, q: A)
    requires
        c.wf(),
    ensures
        c.put(k, v).wf(),
        c.put(k, v).get(q) == if c.victim(k) == Some(q) {
            None
        } else if q == k {
            Some(v)
        } else {
            c.get(q)
        },
        c.limit > 0 ==> c.put(k, v).entries.last() == (k, v),
        c.get(k) is Some ==> c.victim(k) is None,
        c.get(k) is None && c.entries.len() == c.limit && c.limit > 0 ==> c.victim(k) == Some(
            c.entries[0].0,
        ),
        c.get(k) is None && c.entries.len() < c.limit ==> c.victim(k) is None,
{
    let r = renewed(c.entries, k, v);
    let w = without(c.entries, k);
    lemma_renewed(c.entries, k, v);
    lemma_without(c.entries, k);
    lemma_place(c.entries, k);
    lemma_place(c.entries, q);
    if r.len() > c.limit {
        lemma_drop_first(r, q);
        if w.len() > 0 {
            assert(r[0] == w[0]);
        }
    }
}

/// A read keeps the cache well formed and changes what no key reads as; a
/// key that is present becomes the most recently used, and the others keep
/// their order.
pub proof fn lemma_touch_then_get<A, B>(c: CacheView<A, B>, k: A, q: A)
    requires
        c.wf(),
    ensures
        c.touch(k).wf(),
        c.touch(k).get(q) == c.get(q),
        c.touch(k).entries.len() == c.entries.len(),
        c.get(k) is Some ==> c.touch(k).entries.last() == (k, c.get(k).unwrap()),
        c.get(k) is Some ==> c.touch(k).entries.drop_last() == without(c.entries, k),
{
    lemma_place(c.entries, k);
    match lookup(c.entries, k) {
        Some(v) => {
            lemma_renewed(c.entries, k, v);
            assert(touched(c.entries, k) == renewed(c.entries, k, v));
            assert(renewed(c.entries, k, v).drop_last() =~= without(c.entries, k));
        },
        None => {},
    }
}

/// A cache of capacity zero holds nothing: every put leaves it empty and
/// every read finds nothing.
pub proof fn lemma_zero_capacity<A, B>(c: CacheView<A, B>, k: A, v: B, q: A)
    requires
        c.wf(),
        c.limit == 0,
    ensures
        c.entries == Seq::<(A, B)>::empty(),
        c.get(q) is None,
        c.put(k, v) == c,
        c.touch(k) == c,
        c.put(k, v).get(q) is None,
{
    assert(c.entries =~= Seq::empty());
    lemma_place(c.entries, q);
    lemma_place(c.entries, k);
    assert(stored(c.entries, k, v, 0) =~= Seq::empty());
}

/// Into a cache of capacity zero, no run of puts brings anything.
pub proof fn lemma_zero_capacity_run<A, B>(ops: Seq<(A, B)>)
    ensures
        replay(Seq::empty(), ops, 0) == Seq::<(A, B)>::empty(),
{
    lemma_puts_keep_newest(ops, 0);
    assert(replay(Seq::empty(), ops, 0) =~= Seq::empty());
}

/// A run of puts keeps the cache well formed.
pub proof fn lemma_put_all_wf<A, B>(c: CacheView<A, B>, ops: Seq<(A, B)>)
    requires
        c.wf(),
    ensures
        c.put_all(ops).wf(),
        ops.len() == 0 ==> c.put_all(ops) == c,
    decreases ops.len(),
{
    if ops.len() > 0 {
        let e = ops.last();
        lemma_put_all_wf(c, ops.drop_last());
        lemma_put_then_get(c.put_all(ops.drop_last()), e.0, e.1, e.0);
    }
}

/// The line of an entry whose texts can stand in a line reads back as that
/// entry.
pub proof fn lemma_line_reads_back<K: Text, V: Text>(e: (K::V, V::V))
    requires
        plain_entry::<K, V>(e),
    ensures
        entry_of::<K, V>(line_of::<K, V>(e)) == Some(e),
{
    let a = K::text_of(e.0);
    let b = V::text_of(e.1);
    let line = line_of::<K, V>(e);
    let i = a.len() as int;
    assert(cut_at(line, i)) by {
        assert(line[i] == '=');
        assert forall|j: int| 0 <= j < i implies line[j] != '=' by {
            assert(line[j] == a[j]);
        }
    }
    lemma_split_at(line, i);
    assert(line.subrange(0, i) =~= a);
    assert(line.subrange(i + 1, line.len() as int) =~= b);
    K::lemma_text_reads_back(e.0);
    V::lemma_text_reads_back(e.1);
}

/// The lines of entries whose texts can stand in a line read back as those
/// entries, in their order.
pub proof fn lemma_lines_read_back<K: Text, V: Text>(entries: Seq<(K::V, V::V)>)
    requires
        forall|i: int| 0 <= i < entries.len() ==> plain_entry::<K, V>(#[trigger] entries[i]),
    ensures
        entries_of::<K, V>(lines_of::<K, V>(entries)) == entries,
    decreases entries.len(),
{
    let lines = lines_of::<K, V>(entries);
    if entries.len() == 0 {
        assert(entries =~= Seq::empty());
    } else {
        let rest = entries.drop_last();
        assert forall|i: int| 0 <= i < rest.len() implies plain_entry::<K, V>(
            #[trigger] rest[i],
        ) by {
            assert(rest[i] == entries[i]);
        }
        lemma_lines_read_back::<K, V>(rest);
        assert(lines.drop_last() =~= lines_of::<K, V>(rest));
        lemma_line_reads_back::<K, V>(entries.last());
        assert(rest.push(entries.last()) =~= entries);
    }
}

/// Putting entries with distinct keys, in their order, into an empty cache
/// that has room for all of them gives those entries in that order.
pub proof fn lemma_replay_distinct<A, B>(entries: Seq<(A, B)>, limit: nat)
    requires
        distinct_keys(entries),
        entries.len() <= limit,
    ensures
        replay(Seq::empty(), entries, limit) == entries,
    decreases entries.len(),
{
    if entries.len() == 0 {
        assert(entries =~= Seq::empty());
    } else {
        let rest = entries.drop_last();
        let e = entries.last();
        assert forall|i: int, j: int| 0 <= i < j < rest.len() implies (#[trigger] rest[i]).0 != (
        #[trigger] rest[j]).0 by {
            assert(rest[i] == entries[i] && rest[j] == entries[j]);
        }
        lemma_replay_distinct(rest, limit);
        lemma_place(rest, e.0);
        if place(rest, e.0) < rest.len() {
            let p = place(rest, e.0);
            assert(rest[p] == entries[p]);
            assert(entries[p].0 != entries[entries.len() - 1].0);
        }
        assert(rest.push(e) =~= entries);
    }
}

/// Saving a cache and loading the lines into an empty cache with room for
/// all its entries gives a cache with the same entries in the same order of
/// recency: the cache that putting those entries one by one gives. So every
/// key reads as it did, and what later puts evict is the same.
pub proof fn lemma_round_trip<K: Text, V: Text>(c: CacheView<K::V, V::V>, limit: nat)
    requires
        c.wf(),
        c.entries.len() <= limit,
        forall|i: int| 0 <= i < c.entries.len() ==> plain_entry::<K, V>(#[trigger] c.entries[i]),
    ensures
        CacheView::<K::V, V::V>::empty(limit).put_all(
            entries_of::<K, V>(lines_of::<K, V>(c.entries)),
        ) == (CacheView { limit, entries: c.entries }),
        CacheView::<K::V, V::V>::empty(limit).put_all(c.entries) == (CacheView {
            limit,
            entries: c.entries,
        }),
{
    lemma_lines_read_back::<K, V>(c.entries);
    lemma_replay_distinct(c.entries, limit);
}

/// Loading no lines changes nothing.
pub proof fn lemma_load_nothing<K: Text, V: Text>(c: CacheView<K::V, V::V>)
    ensures
        c.put_all(entries_of::<K, V>(Seq::empty())) == c,
{
}

/// A run of puts can be made in two parts.
pub proof fn lemma_replay_in_parts<A, B>(s: Seq<(A, B)>, a: Seq<(A, B)>, b: Seq<(A, B)>, limit: nat)
    ensures
        replay(s, a + b, limit) == replay(replay(s, a, limit), b, limit),
    decreases b.len(),
{
    if b.len() == 0 {
        assert(a + b =~= a);
    } else {
        assert((a + b).drop_last() =~= a + b.drop_last());
        assert((a + b).last() == b.last());
        lemma_replay_in_parts(s, a, b.drop_last(), limit);
    }
}

/// After any run of puts into a well-formed cache, the cache holds the
/// newest bindings of the most recently used distinct keys, as many as fit:
/// the keys that it held count as put before the run, in their order of
/// recency.
pub proof fn lemma_puts_keep_newest_from<A, B>(c: CacheView<A, B>, ops: Seq<(A, B)>)
    requires
        c.wf(),
    ensures
        c.put_all(ops).entries == newest(latest(c.entries + ops), c.limit),
{
    lemma_replay_distinct(c.entries, c.limit);
    lemma_replay_in_parts(Seq::empty(), c.entries, ops, c.limit);
    lemma_puts_keep_newest(c.entries + ops, c.limit);
}

/// A read of a key that is present changes the cache as a put of that key
/// with the value that it has.
pub proof fn lemma_touch_is_put<A, B>(c: CacheView<A, B>, k: A)
    requires
        c.wf(),
        c.get(k) is Some,
    ensures
        c.touch(k) == c.put(k, c.get(k).unwrap()),
{
    lemma_renewed(c.entries, k, c.get(k).unwrap());
    lemma_place(c.entries, k);
}

/// In a well-formed cache the order of recency holds every key once, the
/// keys that the mapping holds and no others, and the mapping gives each the
/// value that a read returns; so the mapping holds no more keys than the
/// capacity.
pub proof fn lemma_index_and_recency<A, B>(c: CacheView<A, B>)
    requires
        c.wf(),
    ensures
        c.recency().no_duplicates(),
        c.recency().len() == c.entries.len(),
        c.index().dom() == c.recency().to_set(),
        c.index().dom().finite(),
        c.index().dom().len() == c.entries.len(),
        c.index().dom().len() <= c.limit,
        forall|k: A| #[trigger] c.index().dom().contains(k) <==> c.get(k) is Some,
        forall|k: A| #[trigger] c.index().dom().contains(k) ==> Some(c.index()[k]) == c.get(k),
{
    let r = c.recency();
    assert forall|k: A| #[trigger] c.index().dom().contains(k) <==> r.to_set().contains(k) by {
        if has_key(c.entries, k) {
            let i = choose|i: int| 0 <= i < c.entries.len() && (#[trigger] c.entries[i]).0 == k;
            assert(r[i] == k);
        }
        if r.contains(k) {
            let i = choose|i: int| 0 <= i < r.len() && r[i] == k;
            assert(c.entries[i].0 == k);
        }
    }
    assert(c.index().dom() =~= r.to_set());
    r.unique_seq_to_set();
    assert forall|k: A| #[trigger] c.index().dom().contains(k) <==> c.get(k) is Some by {
        lemma_place(c.entries, k);
    }
}

} // verus!
