//! Vectors of `(key, value)` pairs kept in ascending order of their keys: the
//! representation behind dictionaries and documents. Keys are compared
//! character by character, so each such vector stands for one finite map.

use vstd::prelude::*;
use crate::text::collect_chars;

verus! {

/// `a` comes before `b` in lexicographic order of their characters.
pub open spec fn lex_less(a: Seq<char>, b: Seq<char>) -> bool
    decreases a.len(),
{
    if b.len() == 0 {
        false
    } else if a.len() == 0 {
        true
    } else if a[0] != b[0] {
        a[0] < b[0]
    } else {
        lex_less(a.skip(1), b.skip(1))
    }
}

/// No sequence comes before itself.
pub proof fn lemma_lex_irreflexive(a: Seq<char>)
    ensures
        !lex_less(a, a),
    decreases a.len(),
{
    if a.len() > 0 {
        lemma_lex_irreflexive(a.skip(1));
    }
}

/// Of two different sequences one comes before the other.
pub proof fn lemma_lex_total(a: Seq<char>, b: Seq<char>)
    ensures
        lex_less(a, b) || lex_less(b, a) || a == b,
        !(lex_less(a, b) && lex_less(b, a)),
    decreases a.len(),
{
    if a.len() > 0 && b.len() > 0 && a[0] == b[0] {
        lemma_lex_total(a.skip(1), b.skip(1));
        if a.skip(1) == b.skip(1) {
            assert(a =~= seq![a[0]] + a.skip(1));
            assert(b =~= seq![b[0]] + b.skip(1));
        }
    } else if a.len() == 0 && b.len() == 0 {
        assert(a =~= b);
    }
}

/// The order is transitive.
pub proof fn lemma_lex_transitive(a: Seq<char>, b: Seq<char>, c: Seq<char>)
    requires
        lex_less(a, b),
        lex_less(b, c),
    ensures
        lex_less(a, c),
    decreases a.len(),
{
    if a.len() > 0 && a[0] == b[0] && b[0] == c[0] {
        lemma_lex_transitive(a.skip(1), b.skip(1), c.skip(1));
    }
}

/// How a key stands to another.
#[derive(Clone, Copy, Debug, PartialEq, Eq)]
pub enum Rank {
    Before,
    Same,
    After,
}

/// The rank of `a` against `b` in lexicographic order.
pub open spec fn rank_of(a: Seq<char>, b: Seq<char>) -> Rank {
    if a == b {
        Rank::Same
    } else if lex_less(a, b) {
        Rank::Before
    } else {
        Rank::After
    }
}

/// Compares a stored key with the characters of a key that is looked for.
pub fn compare_key(stored: &str, probe: &Vec<char>) -> (r: Rank)
    ensures
        r == rank_of(stored@, probe@),
{
    let mut i: usize = 0;
    proof {
        assert(stored@.skip(0) == stored@);
        assert(probe@.skip(0) == probe@);
    }
    for c in it: stored.chars()
        invariant
            it.seq() == stored@,
            i == it.index(),
            i <= probe@.len(),
            stored@.take(i as int) == probe@.take(i as int),
            lex_less(stored@, probe@) == lex_less(stored@.skip(i as int), probe@.skip(i as int)),
    {
        if i >= probe.len() {
            proof {
                assert(stored@ != probe@);
            }
            return Rank::After;
        }
        let p = probe[i];
        proof {
            assert(stored@.skip(i as int).skip(1) == stored@.skip(i + 1));
            assert(probe@.skip(i as int).skip(1) == probe@.skip(i + 1));
            assert(stored@.skip(i as int)[0] == c);
            assert(probe@.skip(i as int)[0] == p);
        }
        if c < p {
            proof {
                assert(stored@[i as int] != probe@[i as int]);
            }
            return Rank::Before;
        }
        if c > p {
            proof {
                assert(stored@[i as int] != probe@[i as int]);
            }
            return Rank::After;
        }
        proof {
            assert(stored@.take(i + 1) == stored@.take(i as int).push(c));
            assert(probe@.take(i + 1) == probe@.take(i as int).push(p));
        }
        i = i + 1;
    }
    proof {
        assert(stored@.take(i as int) == stored@);
        assert(stored@.skip(i as int).len() == 0);
    }
    if i < probe.len() {
        Rank::Before
    } else {
        proof {
            assert(probe@.take(i as int) == probe@);
        }
        Rank::Same
    }
}

/// The keys of `entries` ascend strictly: none occurs twice.
pub open spec fn keys_ascending<V>(entries: Seq<(String, V)>) -> bool {
    forall|i: int, j: int|
        0 <= i < j < entries.len() ==> lex_less(#[trigger] entries[i].0@, #[trigger] entries[j].0@)
}

/// Some entry has the key `key`.
pub open spec fn has_key<V>(entries: Seq<(String, V)>, key: Seq<char>) -> bool {
    exists|i: int| 0 <= i < entries.len() && #[trigger] entries[i].0@ == key
}

/// The index of an entry with the key `key`.
pub open spec fn index_of<V>(entries: Seq<(String, V)>, key: Seq<char>) -> int {
    choose|i: int| 0 <= i < entries.len() && #[trigger] entries[i].0@ == key
}

/// With ascending keys, the entry at `i` is the one that its key finds.
pub proof fn lemma_index_of<V>(entries: Seq<(String, V)>, i: int)
    requires
        keys_ascending(entries),
        0 <= i < entries.len(),
    ensures
        has_key(entries, entries[i].0@),
        index_of(entries, entries[i].0@) == i,
{
    let j = index_of(entries, entries[i].0@);
    lemma_lex_irreflexive(entries[i].0@);
    if j < i {
        assert(lex_less(entries[j].0@, entries[i].0@));
    } else if i < j {
        assert(lex_less(entries[i].0@, entries[j].0@));
    }
}

/// The first index whose key does not come before `probe`.
pub(crate) fn lower_bound<V>(entries: &Vec<(String, V)>, probe: &Vec<char>) -> (r: (usize, bool))
    requires
        keys_ascending(entries@),
    ensures
        r.0 <= entries@.len(),
        forall|j: int| 0 <= j < r.0 ==> lex_less(#[trigger] entries@[j].0@, probe@),
        forall|j: int| r.0 < j < entries@.len() ==> lex_less(probe@, #[trigger] entries@[j].0@),
        r.1 ==> r.0 < entries@.len() && entries@[r.0 as int].0@ == probe@,
        !r.1 && r.0 < entries@.len() ==> lex_less(probe@, entries@[r.0 as int].0@),
        r.1 == has_key(entries@, probe@),
{
    let mut lo: usize = 0;
    let mut hi: usize = entries.len();
    while lo < hi
        invariant
            lo <= hi <= entries@.len(),
            keys_ascending(entries@),
            forall|j: int| 0 <= j < lo ==> lex_less(#[trigger] entries@[j].0@, probe@),
            forall|j: int| hi <= j < entries@.len() ==> lex_less(probe@, #[trigger] entries@[j].0@),
        decreases hi - lo,
    {
        let mid: usize = lo + (hi - lo) / 2;
        let rank = compare_key(entries[mid].0.as_str(), probe);
        match rank {
            Rank::Before => {
                proof {
                    assert forall|j: int| 0 <= j < mid + 1 implies lex_less(
                        #[trigger] entries@[j].0@,
                        probe@,
                    ) by {
                        if j < mid {
                            lemma_lex_transitive(entries@[j].0@, entries@[mid as int].0@, probe@);
                        }
                    }
                }
                lo = mid + 1;
            },
            Rank::Same => {
                proof {
                    assert forall|j: int| mid < j < entries@.len() implies lex_less(
                        probe@,
                        #[trigger] entries@[j].0@,
                    ) by {
                        assert(lex_less(entries@[mid as int].0@, entries@[j].0@));
                    }
                    assert forall|j: int| 0 <= j < mid implies lex_less(
                        #[trigger] entries@[j].0@,
                        probe@,
                    ) by {
                        assert(lex_less(entries@[j].0@, entries@[mid as int].0@));
                    }
                }
                return (mid, true);
            },
            Rank::After => {
                proof {
                    lemma_lex_total(entries@[mid as int].0@, probe@);
                    assert forall|j: int| mid <= j < entries@.len() implies lex_less(
                        probe@,
                        #[trigger] entries@[j].0@,
                    ) by {
                        if mid < j {
                            lemma_lex_transitive(probe@, entries@[mid as int].0@, entries@[j].0@);
                        }
                    }
                }
                hi = mid;
            },
        }
    }
    proof {
        lemma_lex_irreflexive(probe@);
        if has_key(entries@, probe@) {
            let j = index_of(entries@, probe@);
            assert(lex_less(entries@[j].0@, probe@) || lex_less(probe@, entries@[j].0@));
        }
    }
    (lo, false)
}

/// The value that `entries` hold under `key`.
pub open spec fn value_of<V>(entries: Seq<(String, V)>, key: Seq<char>) -> V {
    entries[index_of(entries, key)].1
}

/// The value under `key`, if there is one.
pub(crate) fn find<'a, V>(entries: &'a Vec<(String, V)>, key: &str) -> (r: Option<&'a V>)
    requires
        keys_ascending(entries@),
    ensures
        r == (if has_key(entries@, key@) {
            Some(&value_of(entries@, key@))
        } else {
            None
        }),
{
    let probe = collect_chars(key);
    let (i, found) = lower_bound(entries, &probe);
    if found {
        proof {
            lemma_index_of(entries@, i as int);
        }
        Some(&entries[i].1)
    } else {
        None
    }
}

/// Writes `value` under `key`: over the entry that has the key, or as a new
/// entry at its place in the order. Returns the value that was there.
pub(crate) fn upsert<V>(entries: &mut Vec<(String, V)>, key: String, value: V) -> (r: Option<V>)
    requires
        keys_ascending(old(entries)@),
    ensures
        keys_ascending(final(entries)@),
        forall|k: Seq<char>| #[trigger]
            has_key(final(entries)@, k) <==> k == key@ || has_key(old(entries)@, k),
        value_of(final(entries)@, key@) == value,
        forall|k: Seq<char>|
            k != key@ && has_key(old(entries)@, k) ==> #[trigger] value_of(final(entries)@, k)
                == value_of(old(entries)@, k),
        r == (if has_key(old(entries)@, key@) {
            Some(value_of(old(entries)@, key@))
        } else {
            None
        }),
        final(entries)@.len() == old(entries)@.len() + (if has_key(old(entries)@, key@) {
            0int
        } else {
            1int
        }),
{
    let probe = collect_chars(key.as_str());
    let (i, found) = lower_bound(entries, &probe);
    let ghost before = entries@;
    let ghost entry = (key, value);
    if found {
        entries.push((key, value));
        let previous = entries.swap_remove(i);
        proof {
            let after = entries@;
            assert(after =~= before.update(i as int, entry));
            assert forall|a: int, b: int| 0 <= a < b < after.len() implies lex_less(
                #[trigger] after[a].0@,
                #[trigger] after[b].0@,
            ) by {
                assert(after[a].0@ == before[a].0@);
                assert(after[b].0@ == before[b].0@);
            }
            lemma_index_of(before, i as int);
            lemma_index_of(after, i as int);
            assert forall|k: Seq<char>| #[trigger]
                has_key(after, k) <==> k == entry.0@ || has_key(before, k) by {
                if has_key(after, k) {
                    let j = index_of(after, k);
                    assert(before[j].0@ == k);
                }
                if has_key(before, k) {
                    let j = index_of(before, k);
                    assert(after[j].0@ == k);
                }
            }
            assert forall|k: Seq<char>| k != entry.0@ && has_key(before, k) implies #[trigger] value_of(
                after,
                k,
            ) == value_of(before, k) by {
                let j = index_of(before, k);
                assert(after[j].0@ == k);
                lemma_index_of(after, j);
            }
        }
        Some(previous.1)
    } else {
        entries.insert(i, (key, value));
        proof {
            let after = entries@;
            assert(after =~= before.insert(i as int, entry));
            assert forall|a: int, b: int| 0 <= a < b < after.len() implies lex_less(
                #[trigger] after[a].0@,
                #[trigger] after[b].0@,
            ) by {
                if b < i {
                    assert(after[a] == before[a] && after[b] == before[b]);
                } else if b == i {
                    assert(after[a] == before[a]);
                } else if a < i {
                    assert(after[a] == before[a] && after[b] == before[b - 1]);
                } else if a == i {
                    assert(after[b] == before[b - 1]);
                } else {
                    assert(after[a] == before[a - 1] && after[b] == before[b - 1]);
                }
            }
            lemma_index_of(after, i as int);
            assert forall|k: Seq<char>| #[trigger]
                has_key(after, k) <==> k == entry.0@ || has_key(before, k) by {
                if has_key(after, k) {
                    let j = index_of(after, k);
                    if j < i {
                        assert(before[j].0@ == k);
                    } else if j > i {
                        assert(before[j - 1].0@ == k);
                    }
                }
                if has_key(before, k) {
                    let j = index_of(before, k);
                    if j < i {
                        assert(after[j].0@ == k);
                    } else {
                        assert(after[j + 1].0@ == k);
                    }
                }
            }
            assert forall|k: Seq<char>| k != entry.0@ && has_key(before, k) implies #[trigger] value_of(
                after,
                k,
            ) == value_of(before, k) by {
                let j = index_of(before, k);
                if j < i {
                    assert(after[j].0@ == k);
                    lemma_index_of(after, j);
                } else {
                    assert(after[j + 1].0@ == k);
                    lemma_index_of(after, j + 1);
                }
            }
        }
        None
    }
}

} // verus!
