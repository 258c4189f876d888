//! The mathematical model of the cache: an entry sequence ordered from the
//! most recently used entry (front) to the least recently used one (back),
//! and the transforms that the cache operations apply to it.

use vstd::prelude::*;

verus! {

/// The number of entries the cache may hold once an operation has completed:
/// `max_len`, except that a cache built with `max_len == 0` still keeps the
/// most recent insertion until the next `put` evicts it.
pub open spec fn cap(max_len: usize) -> int {
    if max_len == 0 {
        1
    } else {
        max_len as int
    }
}

/// Whether the entry sequence `s` holds `key` at position `i`.
pub open spec fn contains_key_at<K, V>(s: Seq<(K, V)>, i: int, key: K) -> bool {
    0 <= i < s.len() && s[i].0 == key
}

/// Whether some entry of `s` holds `key`.
pub open spec fn entries_contain_key<K, V>(s: Seq<(K, V)>, key: K) -> bool {
    exists|i: int| contains_key_at(s, i, key)
}

/// The position of the entry of `s` holding `key`.
pub open spec fn key_index<K, V>(s: Seq<(K, V)>, key: K) -> int {
    choose|i: int| contains_key_at(s, i, key)
}

/// No two entries of `s` hold the same key.
pub open spec fn keys_distinct<K, V>(s: Seq<(K, V)>) -> bool {
    forall|i: int, j: int| 0 <= i < j < s.len() ==> s[i].0 != s[j].0
}

/// The entry sequence after a hit on `key`: its entry moves to the front,
/// and every other entry keeps its value and its relative order.
pub open spec fn touch_result<K, V>(s: Seq<(K, V)>, key: K) -> Seq<(K, V)> {
    let i = key_index(s, key);
    seq![s[i]] + s.remove(i)
}

/// The entry sequence after `put(key, val)`. On a hit the entry moves to
/// the front carrying the new value. On a miss the new entry becomes the
/// front; when the cache was already at `max_len` entries (in particular,
/// always when `max_len == 0` and an entry is present), the back entry is
/// evicted first.
pub open spec fn put_result<K, V>(s: Seq<(K, V)>, max_len: usize, key: K, val: V) -> Seq<(K, V)> {
    if entries_contain_key(s, key) {
        seq![(key, val)] + s.remove(key_index(s, key))
    } else {
        let kept = if s.len() >= max_len && s.len() > 0 {
            s.drop_last()
        } else {
            s
        };
        seq![(key, val)] + kept
    }
}

/// Capacity invariant: a `put` never leaves more than `cap(max_len)`
/// entries, for any key, value and prior state within that bound.
pub proof fn lemma_put_bounds_len<K, V>(s: Seq<(K, V)>, max_len: usize, key: K, val: V)
    requires
        s.len() <= cap(max_len),
    ensures
        put_result(s, max_len, key, val).len() <= cap(max_len),
{
    if entries_contain_key(s, key) {
        let i = key_index(s, key);
        assert(contains_key_at(s, i, key));
    }
}

/// Capacity invariant with a positive bound: for every sequence of `put`
/// calls on a cache with `max_len >= 1`, the entry count stays at or below
/// `max_len` after each call.
pub proof fn lemma_put_respects_max<K, V>(s: Seq<(K, V)>, max_len: usize, key: K, val: V)
    requires
        max_len >= 1,
        s.len() <= max_len,
    ensures
        put_result(s, max_len, key, val).len() <= max_len,
{
    lemma_put_bounds_len(s, max_len, key, val);
}

/// Recency of `put`: the key just put stands at the front of the chain, so
/// among the keys then held it is the last in line for eviction.
pub proof fn lemma_put_moves_key_to_front<K, V>(s: Seq<(K, V)>, max_len: usize, key: K, val: V)
    ensures
        put_result(s, max_len, key, val).len() > 0,
        put_result(s, max_len, key, val)[0] == (key, val),
{
}

/// Recency of `get`: the key just hit stands at the front of the chain, with
/// its value unchanged and no entry gained or lost.
pub proof fn lemma_touch_moves_key_to_front<K, V>(s: Seq<(K, V)>, key: K)
    requires
        entries_contain_key(s, key),
    ensures
        touch_result(s, key).len() == s.len(),
        touch_result(s, key)[0].0 == key,
        touch_result(s, key)[0].1 == s[key_index(s, key)].1,
{
    let i = key_index(s, key);
    assert(contains_key_at(s, i, key));
}

/// Updating a key already present neither grows nor shrinks the cache: no
/// entry is evicted by such a `put`.
pub proof fn lemma_update_keeps_len<K, V>(s: Seq<(K, V)>, max_len: usize, key: K, val: V)
    requires
        entries_contain_key(s, key),
    ensures
        put_result(s, max_len, key, val).len() == s.len(),
{
    let i = key_index(s, key);
    assert(contains_key_at(s, i, key));
}

/// Eviction order: a `put` miss on a full, non-empty cache evicts exactly
/// the back entry, the least recently used; when its key differs from the
/// new one and keys are distinct, that key is no longer present afterwards.
pub proof fn lemma_put_evicts_back<K, V>(s: Seq<(K, V)>, max_len: usize, key: K, val: V)
    requires
        !entries_contain_key(s, key),
        s.len() >= max_len,
        s.len() > 0,
        keys_distinct(s),
    ensures
        put_result(s, max_len, key, val) == seq![(key, val)] + s.drop_last(),
        !entries_contain_key(put_result(s, max_len, key, val), s.last().0),
{
    let r = put_result(s, max_len, key, val);
    let back = s.last().0;
    assert forall|i: int| !contains_key_at(r, i, back) by {
        if 0 <= i < r.len() {
            if i == 0 {
                assert(contains_key_at(s, s.len() - 1, back));
                assert(r[0].0 == key);
            } else {
                assert(r[i] == s[i - 1]);
                assert(s[i - 1].0 != s[s.len() - 1].0);
            }
        }
    }
}

/// A hit on `key` keeps the set of keys: every key present before the
/// access is present after it, and no other.
pub proof fn lemma_touch_keeps_keys<K, V>(s: Seq<(K, V)>, key: K, k2: K)
    requires
        entries_contain_key(s, key),
    ensures
        entries_contain_key(touch_result(s, key), k2) == entries_contain_key(s, k2),
{
    let i = key_index(s, key);
    assert(contains_key_at(s, i, key));
    let r = touch_result(s, key);
    if entries_contain_key(s, k2) {
        let j = key_index(s, k2);
        assert(contains_key_at(s, j, k2));
        if j == i {
            assert(contains_key_at(r, 0, k2));
        } else if j < i {
            assert(r[j + 1] == s[j]);
            assert(contains_key_at(r, j + 1, k2));
        } else {
            assert(r[j] == s[j]);
            assert(contains_key_at(r, j, k2));
        }
    }
    if entries_contain_key(r, k2) {
        let j = key_index(r, k2);
        assert(contains_key_at(r, j, k2));
        if j == 0 {
            assert(contains_key_at(s, i, k2));
        } else if j <= i {
            assert(r[j] == s[j - 1]);
            assert(contains_key_at(s, j - 1, k2));
        } else {
            assert(r[j] == s[j]);
            assert(contains_key_at(s, j, k2));
        }
    }
}

} // verus!
