//! The text form of a cache: one line per entry, `key=value`, the least
//! recently used entry first.

use crate::structs::Cache;
use crate::traits::{CacheTrait, Key, Text, Value};
use vstd::prelude::*;
use vstd::string::StrSliceExecFns;
use vstd::string::StringExecFns;

verus! {

/// The line that stands for one entry: the key's text, `=`, the value's text.
pub open spec fn line_of<K: Text, V: Text>(e: (K::V, V::V)) -> Seq<char> {
    K::text_of(e.0) + seq!['='] + V::text_of(e.1)
}

/// The lines that stand for `entries`, one per entry and in their order.
pub open spec fn lines_of<K: Text, V: Text>(entries: Seq<(K::V, V::V)>) -> Seq<Seq<char>> {
    Seq::new(entries.len(), |i: int| line_of::<K, V>(entries[i]))
}

/// `i` is the index of the first `=` in `line`.
pub open spec fn cut_at(line: Seq<char>, i: int) -> bool {
    &&& 0 <= i < line.len()
    &&& line[i] == '='
    &&& forall|j: int| 0 <= j < i ==> line[j] != '='
}

/// The two parts of a line around its first `=`, where it has one and both
/// parts are non-empty.
pub open spec fn split_of(line: Seq<char>) -> Option<(Seq<char>, Seq<char>)> {
    if exists|i: int| cut_at(line, i) {
        let i = choose|i: int| cut_at(line, i);
        if 0 < i && i + 1 < line.len() {
            Some((line.subrange(0, i), line.subrange(i + 1, line.len() as int)))
        } else {
            None
        }
    } else {
        None
    }
}

/// The entry that a line stands for: its two parts, each read as its type.
pub open spec fn entry_of<K: Text, V: Text>(line: Seq<char>) -> Option<(K::V, V::V)> {
    match split_of(line) {
        Some((a, b)) => match (K::parse_of(a), V::parse_of(b)) {
            (Some(k), Some(v)) => Some((k, v)),
            _ => None,
        },
        None => None,
    }
}

/// The entries that `lines` stand for, in their order, without the lines
/// that stand for none.
pub open spec fn entries_of<K: Text, V: Text>(lines: Seq<Seq<char>>) -> Seq<(K::V, V::V)>
    decreases lines.len(),
{
    if lines.len() == 0 {
        Seq::empty()
    } else {
        let rest = entries_of::<K, V>(lines.drop_last());
        match entry_of::<K, V>(lines.last()) {
            Some(e) => rest.push(e),
            None => rest,
        }
    }
}

/// The texts of an entry can stand in a line: neither is empty, and the
/// key's holds no `=`.
pub open spec fn plain_entry<K: Text, V: Text>(e: (K::V, V::V)) -> bool {
    &&& K::text_of(e.0).len() > 0
    &&& V::text_of(e.1).len() > 0
    &&& forall|i: int| 0 <= i < K::text_of(e.0).len() ==> K::text_of(e.0)[i] != '='
}

/// Where `i` is the index of the first `=`, the line splits there.
pub proof fn lemma_split_at(line: Seq<char>, i: int)
    requires
        cut_at(line, i),
    ensures
        split_of(line) == if 0 < i && i + 1 < line.len() {
            Some((line.subrange(0, i), line.subrange(i + 1, line.len() as int)))
        } else {
            None
        },
{
    let j = choose|j: int| cut_at(line, j);
    assert(cut_at(line, j));
    assert(j == i) by {
        if j < i {
            assert(line[j] != '=');
        } else if i < j {
            assert(line[i] != '=');
        }
    }
}

/// Splits a line at its first `=`. `None` where the line has no `=`, or
/// nothing before the first one, or nothing after it.
pub fn split_line<'a>(line: &'a str) -> (r: Option<(&'a str, &'a str)>)
    ensures
        match r {
            Some((a, b)) => split_of(line@) == Some((a@, b@)),
            None => split_of(line@) is None,
        },
{
    let n = line.unicode_len();
    let mut i: usize = 0;
    while i < n
        invariant
            i <= n,
            n == line@.len(),
            forall|j: int| 0 <= j < i ==> line@[j] != '=',
        decreases n - i,
    {
        if line.get_char(i) == '=' {
            proof {
                lemma_split_at(line@, i as int);
            }
            if 0 < i && i + 1 < n {
                return Some((line.substring_char(0, i), line.substring_char(i + 1, n)));
            } else {
                return None;
            }
        }
        i += 1;
    }
    assert(!exists|j: int| cut_at(line@, j));
    None
}

/// Reads one line as an entry: both parts of the line, each as its type.
pub fn read_entry<K: Text, V: Text>(line: &str) -> (r: Option<(K, V)>)
    ensures
        match r {
            Some((k, v)) => entry_of::<K, V>(line@) == Some((k@, v@)),
            None => entry_of::<K, V>(line@) is None,
        },
{
    match split_line(line) {
        Some((a, b)) => match K::from_text(a) {
            Some(k) => match V::from_text(b) {
                Some(v) => Some((k, v)),
                None => None,
            },
            None => None,
        },
        None => None,
    }
}

/// Writes one entry as a line.
pub fn write_entry<K: Text, V: Text>(key: &K, value: &V) -> (line: String)
    ensures
        line@ == line_of::<K, V>((key@, value@)),
{
    let mut line = key.to_text();
    proof {
        reveal_strlit("=");
    }
    assert("="@ =~= seq!['=']);
    line.append("=");
    line.append(value.to_text().as_str());
    line
}

/// The entries of `cache` as lines, the least recently used first.
pub fn save<K: Key + Text, V: Value + Text>(cache: &Cache<K, V>) -> (lines: Vec<String>)
    ensures
        lines.deep_view() == lines_of::<K, V>(cache@.entries),
{
    let n = cache.entries.len();
    let mut lines: Vec<String> = Vec::new();
    let mut i: usize = 0;
    while i < n
        invariant
            i <= n,
            n == cache.entries@.len(),
            lines@.len() == i,
            forall|j: int| 0 <= j < i ==> (#[trigger] lines@[j])@ == line_of::<K, V>(cache@.entries[j]),
        decreases n - i,
    {
        let e = &cache.entries[i];
        lines.push(write_entry(&e.0, &e.1));
        i += 1;
    }
    assert(lines.deep_view() =~= lines_of::<K, V>(cache@.entries));
    lines
}

/// Puts into `cache`, in their order, the entries that `lines` stand for. A
/// line that stands for no entry is passed over.
pub fn load<K: Key + Text, V: Value + Text>(lines: &Vec<String>, cache: &mut Cache<K, V>)
    requires
        old(cache)@.wf(),
    ensures
        final(cache)@.wf(),
        final(cache)@ == old(cache)@.put_all(entries_of::<K, V>(lines.deep_view())),
{
    let n = lines.len();
    let ghost texts = lines.deep_view();
    let mut i: usize = 0;
    assert(texts.take(0) =~= Seq::empty());
    while i < n
        invariant
            i <= n,
            n == lines@.len(),
            texts == lines.deep_view(),
            cache@.wf(),
            cache@ == old(cache)@.put_all(entries_of::<K, V>(texts.take(i as int))),
        decreases n - i,
    {
        let ghost head = texts.take(i + 1);
        assert(head.drop_last() =~= texts.take(i as int));
        assert(head.last() == lines@[i as int]@);
        let ghost done = entries_of::<K, V>(texts.take(i as int));
        match read_entry::<K, V>(lines[i].as_str()) {
            Some((k, v)) => {
                assert(entries_of::<K, V>(head) == done.push((k@, v@)));
                assert(done.push((k@, v@)).drop_last() =~= done);
                cache.put(k, v);
            },
            None => {
                assert(entries_of::<K, V>(head) == done);
            },
        }
        i += 1;
    }
    assert(texts.take(n as int) =~= texts);
}

} // verus!
