//! The cache engine: a hash index from key to chain slot, composed with the
//! entry chain, the two kept mutually consistent under every operation.

use core::hash::Hash;
use std::collections::HashMap;
use vstd::prelude::*;
use vstd::std_specs::hash::obeys_key_model;

use crate::list::List;
use crate::model::cap;
use crate::model::contains_key_at;
use crate::model::entries_contain_key;
use crate::model::key_index;
use crate::model::keys_distinct;
use crate::model::put_result;
use crate::model::touch_result;

verus! {

broadcast use vstd::std_specs::hash::group_hash_axioms;

/// Relies on `Clone::clone` of the key type: vstd's hash-table key model
/// (`obeys_key_model`) requires that cloning a key yields a value identical
/// to the key.
#[verifier::external_body]
fn clone_key<K: Clone>(k: &K) -> (r: K)
    ensures
        obeys_key_model::<K>() ==> r == *k,
{
    k.clone()
}

/// A fixed-capacity key-value cache with least-recently-used eviction.
///
/// The index maps each cached key to the arena slot of its chain entry; the
/// chain orders the entries by recency. `max_len` bounds the entry count,
/// with the boundary reading that a cache built with `max_len == 0` still
/// holds the most recent insertion until the next `put`.
pub struct LRU<K, V> {
    list: List<K, V>,
    map: HashMap<K, usize>,
    max_len: usize,
}

impl<K, V> View for LRU<K, V> {
    type V = Seq<(K, V)>;

    /// The cached entries in recency order, most recently used first.
    closed spec fn view(&self) -> Seq<(K, V)> {
        self.list@
    }
}

impl<K, V> LRU<K, V> {
    /// The capacity bound fixed at construction.
    pub closed spec fn spec_max(self) -> usize {
        self.max_len
    }

    /// The set of keys the hash index holds.
    pub closed spec fn index_keys(self) -> Set<K> {
        self.map@.dom()
    }

    /// The entry chain.
    pub closed spec fn chain(self) -> List<K, V> {
        self.list
    }

    /// Well-formedness: the keys obey the hash-table key model; the chain is
    /// well formed; the index is exactly the map from each live entry's key
    /// to its slot; and the entry count and the arena stay within the
    /// capacity bound.
    pub closed spec fn wf(self) -> bool {
        &&& obeys_key_model::<K>()
        &&& self.list.wf()
        &&& self.map@.len() == self.list.order().len()
        &&& forall|j: int|
            0 <= j < self.list.order().len() ==> {
                let i = #[trigger] self.list.order()[j];
                self.map@.contains_key(self.list.key_at(i)) && self.map@[self.list.key_at(i)] == i
            }
        &&& forall|k: K|
            #[trigger] self.map@.contains_key(k) ==> self.list.order().contains(self.map@[k])
                && self.list.is_live(self.map@[k]) && self.list.key_at(self.map@[k]) == k
        &&& self.list@.len() <= cap(self.max_len)
        &&& self.list.n_slots() <= cap(self.max_len)
    }

    /// No two entries of a well-formed cache hold the same key.
    pub proof fn lemma_wf_distinct(self)
        requires
            self.wf(),
        ensures
            keys_distinct(self@),
    {
        self.list.lemma_view();
        self.list.lemma_wf_facts();
        assert forall|a: int, b: int|
            0 <= a < b < self@.len() implies self@[a].0 != self@[b].0 by {
            let ia = self.list.order()[a];
            let ib = self.list.order()[b];
            assert(self@[a] == (self.list.key_at(ia), self.list.val_at(ia)));
            assert(self@[b] == (self.list.key_at(ib), self.list.val_at(ib)));
            if self.list.key_at(ia) == self.list.key_at(ib) {
                assert(self.map@[self.list.key_at(ia)] == ia);
                assert(self.map@[self.list.key_at(ib)] == ib);
                assert(ia == ib);
                assert(self.list.order().no_duplicates());
            }
        }
    }

    /// The index and the chain agree on each key: a key is in the index
    /// exactly when an entry of the chain holds it, and then the index names
    /// that entry's slot and position.
    proof fn lemma_view_key(self, k: K)
        requires
            self.wf(),
        ensures
            self.map@.contains_key(k) <==> entries_contain_key(self@, k),
            self.map@.contains_key(k) ==> {
                let p = key_index(self@, k);
                &&& 0 <= p < self@.len()
                &&& self@[p].0 == k
                &&& self.list.order()[p] == self.map@[k]
                &&& self@[p].1 == self.list.val_at(self.map@[k])
            },
    {
        self.list.lemma_view();
        self.list.lemma_wf_facts();
        if self.map@.contains_key(k) {
            let i = self.map@[k];
            assert(self.list.order().contains(i));
            let j = choose|j: int|
                0 <= j < self.list.order().len() && self.list.order()[j] == i;
            assert(self@[j] == (self.list.key_at(i), self.list.val_at(i)));
            assert(contains_key_at(self@, j, k));
            assert(entries_contain_key(self@, k));
            let p = key_index(self@, k);
            assert(contains_key_at(self@, p, k));
            let ip = self.list.order()[p];
            assert(self@[p] == (self.list.key_at(ip), self.list.val_at(ip)));
            assert(self.map@[self.list.key_at(ip)] == ip);
            assert(ip == i);
        }
        if entries_contain_key(self@, k) {
            let p = key_index(self@, k);
            assert(contains_key_at(self@, p, k));
            let ip = self.list.order()[p];
            assert(self@[p] == (self.list.key_at(ip), self.list.val_at(ip)));
            assert(self.map@.contains_key(self.list.key_at(ip)));
        }
    }

    /// Chain/index consistency: the index holds exactly the keys on the
    /// chain, no two chain entries share a key, and the index size equals
    /// the chain length.
    pub proof fn lemma_index_chain_consistent(self)
        requires
            self.wf(),
        ensures
            forall|k: K| self.index_keys().contains(k) <==> entries_contain_key(self@, k),
            self.index_keys().len() == self@.len(),
            keys_distinct(self@),
    {
        assert forall|k: K|
            self.index_keys().contains(k) <==> entries_contain_key(self@, k) by {
            self.lemma_view_key(k);
        }
        self.lemma_wf_distinct();
        self.list.lemma_view();
    }

    /// Resource accounting: every arena slot of the chain is exactly one of
    /// live (holding a cached entry) or vacant (awaiting reuse), the arena
    /// holds exactly those two kinds, and it never outgrows the capacity.
    pub proof fn lemma_no_leaks(self)
        requires
            self.wf(),
        ensures
            forall|i: usize|
                i < self.chain().n_slots() ==> (self.chain().order().contains(i)
                    <==> !self.chain().vacant_slots().contains(i)),
            self.chain().n_slots() == self@.len() + self.chain().vacant_slots().len(),
            self.chain().n_slots() <= cap(self.spec_max()),
    {
        self.list.lemma_slot_accounting();
        self.list.lemma_counts();
        self.list.lemma_view();
    }

    /// A map that indexes a chain keeps indexing it after the chain is
    /// reordered without a change to its live slots or their keys.
    proof fn lemma_index_carries(a: List<K, V>, b: List<K, V>, m: Map<K, usize>)
        requires
            a.wf(),
            b.wf(),
            forall|x: usize| b.is_live(x) == a.is_live(x),
            forall|x: usize| a.is_live(x) ==> b.key_at(x) == a.key_at(x),
            forall|j: int|
                0 <= j < a.order().len() ==> {
                    let i = #[trigger] a.order()[j];
                    m.contains_key(a.key_at(i)) && m[a.key_at(i)] == i
                },
            forall|k: K|
                #[trigger] m.contains_key(k) ==> a.order().contains(m[k]) && a.is_live(m[k])
                    && a.key_at(m[k]) == k,
        ensures
            forall|j: int|
                0 <= j < b.order().len() ==> {
                    let i = #[trigger] b.order()[j];
                    m.contains_key(b.key_at(i)) && m[b.key_at(i)] == i
                },
            forall|k: K|
                #[trigger] m.contains_key(k) ==> b.order().contains(m[k]) && b.is_live(m[k])
                    && b.key_at(m[k]) == k,
    {
        a.lemma_wf_facts();
        b.lemma_wf_facts();
        assert forall|j: int|
            0 <= j < b.order().len() implies {
                let i = #[trigger] b.order()[j];
                m.contains_key(b.key_at(i)) && m[b.key_at(i)] == i
            } by {
            let i = b.order()[j];
            assert(b.is_live(i));
            assert(a.is_live(i));
            assert(a.order().contains(i));
            let j2 = choose|j2: int| 0 <= j2 < a.order().len() && a.order()[j2] == i;
            assert(a.order()[j2] == i);
            assert(m.contains_key(a.key_at(i)) && m[a.key_at(i)] == i);
        }
        assert forall|k: K|
            #[trigger] m.contains_key(k) implies b.order().contains(m[k]) && b.is_live(m[k])
            && b.key_at(m[k]) == k by {
            let i = m[k];
            assert(a.is_live(i));
            assert(b.is_live(i));
            assert(b.order().contains(i));
        }
    }

    /// Looks `key` up. On a hit the entry moves to the front of the recency
    /// order (a read counts as a use) and a borrow of its value is
    /// returned; on a miss the cache is unchanged.
    pub fn get<'a>(&'a mut self, key: &K) -> (r: Option<&'a V>) where K: Hash + Eq
        requires
            old(self).wf(),
        ensures
            final(self).wf(),
            final(self).spec_max() == old(self).spec_max(),
            !entries_contain_key(old(self)@, *key) ==> r is None && final(self)@ == old(self)@,
            entries_contain_key(old(self)@, *key) ==> {
                &&& final(self)@ == touch_result(old(self)@, *key)
                &&& r is Some
                &&& *r.unwrap() == old(self)@[key_index(old(self)@, *key)].1
            },
    {
        let ghost pre = *self;
        proof {
            pre.lemma_view_key(*key);
            pre.lemma_wf_distinct();
            pre.list.lemma_view();
            pre.list.lemma_wf_facts();
        }
        let hit = match self.map.get(key) {
            Some(i_ref) => Some(*i_ref),
            None => None,
        };
        match hit {
            Some(i) => {
                let ghost p = key_index(pre@, *key);
                proof {
                    assert(pre.map@.contains_key(*key));
                    assert(i == pre.map@[*key]);
                    assert(pre.list.order()[p] == i);
                    assert(pre.list.is_live(i));
                    assert(pre.list.order().contains(i)) by {
                        assert(pre.list.order()[p] == i);
                    }
                    assert(pre.list.order().index_of(i) == p) by {
                        let q = pre.list.order().index_of(i);
                        assert(pre.list.order()[q] == i);
                        assert(pre.list.order().no_duplicates());
                    }
                }
                self.list.move_to_front(i);
                proof {
                    let post = *self;
                    post.list.lemma_view();
                    post.list.lemma_wf_facts();
                    assert(post@ == touch_result(pre@, *key));
                    Self::lemma_index_carries(pre.list, post.list, pre.map@);
                    assert(post.wf());
                    assert(post.list.is_live(i));
                    assert(post.list.val_at(i) == pre.list.val_at(i));
                }
                Some(self.list.val_ref(i))
            },
            None => {
                proof {
                    assert(!pre.map@.contains_key(*key));
                }
                None
            },
        }
    }

    /// Creates an empty cache that will hold at most `len` entries (one
    /// transient entry when `len == 0`). The key type must obey the
    /// hash-table key model: its equality, hashing and cloning must agree
    /// with value identity.
    pub fn new(len: usize) -> (r: Self)
        requires
            obeys_key_model::<K>(),
        ensures
            r.wf(),
            r@ == Seq::<(K, V)>::empty(),
            r.spec_max() == len,
    {
        let r = LRU { list: List::new(), map: HashMap::new(), max_len: len };
        proof {
            r.list.lemma_view();
            assert(r.map@.dom() =~= Set::<K>::empty());
            assert(r.map@.len() == 0);
        }
        r
    }

    /// Looks `key` up for in-place modification. On a hit the entry moves to
    /// the front of the recency order and a mutable borrow of its value is
    /// returned: the front entry afterwards holds whatever the caller wrote
    /// through the borrow, under the same key. On a miss the cache is
    /// unchanged.
    pub fn get_mut<'a>(&'a mut self, key: &K) -> (r: Option<&'a mut V>) where K: Hash + Eq
        requires
            old(self).wf(),
        ensures
            final(self).wf(),
            final(self).spec_max() == old(self).spec_max(),
            !entries_contain_key(old(self)@, *key) ==> r is None && final(self)@ == old(self)@,
            entries_contain_key(old(self)@, *key) ==> r is Some,
            entries_contain_key(old(self)@, *key) ==> *r.unwrap() == old(self)@[key_index(
                old(self)@,
                *key,
            )].1,
            entries_contain_key(old(self)@, *key) ==> final(self)@.len() == old(self)@.len(),
            entries_contain_key(old(self)@, *key) ==> final(self)@[0] == (
                old(self)@[key_index(old(self)@, *key)].0,
                *final(r.unwrap()),
            ),
            entries_contain_key(old(self)@, *key) ==> forall|q: int|
                1 <= q < final(self)@.len() ==> final(self)@[q] == touch_result(
                    old(self)@,
                    *key,
                )[q],
    {
        let ghost pre = *self;
        proof {
            pre.lemma_view_key(*key);
            pre.lemma_wf_distinct();
            pre.list.lemma_view();
            pre.list.lemma_wf_facts();
        }
        let hit = match self.map.get(key) {
            Some(i_ref) => Some(*i_ref),
            None => None,
        };
        match hit {
            Some(i) => {
                let ghost p = key_index(pre@, *key);
                proof {
                    assert(pre.map@.contains_key(*key));
                    assert(i == pre.map@[*key]);
                    assert(pre.list.order()[p] == i);
                    assert(pre.list.is_live(i));
                    assert(pre.list.order().contains(i)) by {
                        assert(pre.list.order()[p] == i);
                    }
                    assert(pre.list.order().index_of(i) == p) by {
                        let q = pre.list.order().index_of(i);
                        assert(pre.list.order()[q] == i);
                        assert(pre.list.order().no_duplicates());
                    }
                }
                self.list.move_to_front(i);
                proof {
                    let mid = *self;
                    mid.list.lemma_view();
                    mid.list.lemma_wf_facts();
                    assert(mid@ == touch_result(pre@, *key));
                    Self::lemma_index_carries(pre.list, mid.list, pre.map@);
                    assert(mid.wf());
                    assert(mid.list.order()[0] == i);
                    assert(mid.list.is_live(i));
                    assert(mid.list.key_at(i) == pre@[p].0);
                    assert(mid.list.val_at(i) == pre@[p].1);
                    assert(forall|q: int|
                        1 <= q < mid.list.order().len() ==> #[trigger] mid.list.order()[q] != i)
                        by {
                        assert(mid.list.order().no_duplicates());
                    }
                }
                Some(self.list.val_mut(i))
            },
            None => {
                proof {
                    assert(!pre.map@.contains_key(*key));
                }
                None
            },
        }
    }

    /// Inserts or updates `key`. On a hit the entry's value is replaced, the
    /// previous value is returned, and the entry moves to the front; the
    /// entry count does not change. On a miss the new entry becomes the
    /// front and `None` is returned, after evicting the back entry when the
    /// cache was full (or its `max_len` is zero and an entry was present).
    #[verifier::rlimit(100)]
    pub fn put(&mut self, key: K, val: V) -> (r: Option<V>) where K: Hash + Eq + Clone
        requires
            old(self).wf(),
        ensures
            final(self).wf(),
            final(self).spec_max() == old(self).spec_max(),
            final(self)@ == put_result(old(self)@, old(self).spec_max(), key, val),
            entries_contain_key(old(self)@, key) ==> r == Some(
                old(self)@[key_index(old(self)@, key)].1,
            ),
            !entries_contain_key(old(self)@, key) ==> r is None,
    {
        let ghost pre = *self;
        proof {
            pre.lemma_view_key(key);
            pre.lemma_wf_distinct();
            pre.list.lemma_view();
            pre.list.lemma_wf_facts();
        }
        let hit = match self.map.get(&key) {
            Some(i_ref) => Some(*i_ref),
            None => None,
        };
        match hit {
            Some(i) => {
                let ghost p = key_index(pre@, key);
                proof {
                    assert(pre.map@.contains_key(key));
                    assert(i == pre.map@[key]);
                    assert(pre.list.order()[p] == i);
                    assert(pre.list.is_live(i));
                    assert(pre.list.order().contains(i)) by {
                        assert(pre.list.order()[p] == i);
                    }
                }
                let prev_val = self.list.replace_val(i, val);
                let ghost mid = *self;
                proof {
                    assert(prev_val == pre@[p].1);
                    assert(mid.list.wf());
                    mid.list.lemma_view();
                    mid.list.lemma_wf_facts();
                    assert(mid.list.order() == pre.list.order());
                    assert(mid.list.order().index_of(i) == p) by {
                        let q = mid.list.order().index_of(i);
                        assert(mid.list.order().contains(i)) by {
                            assert(mid.list.order()[p] == i);
                        }
                        assert(mid.list.order()[q] == i);
                        assert(mid.list.order().no_duplicates());
                    }
                    assert(mid@[p] == (pre@[p].0, val));
                    assert(mid@.len() == pre@.len());
                }
                self.list.move_to_front(i);
                proof {
                    let post = *self;
                    post.list.lemma_view();
                    post.list.lemma_wf_facts();
                    assert(post@ == seq![mid@[p]] + mid@.remove(p));
                    assert(mid@.remove(p) =~= pre@.remove(p)) by {
                        pre@.remove_ensures(p);
                        mid@.remove_ensures(p);
                        assert forall|x: int|
                            0 <= x < mid@.remove(p).len() implies mid@.remove(p)[x] == pre@.remove(
                            p,
                        )[x] by {
                            if x < p {
                                assert(mid@[x] == pre@[x]) by {
                                    assert(mid.list.order()[x] != i) by {
                                        assert(pre.list.order().no_duplicates());
                                    }
                                }
                            } else {
                                assert(mid@[x + 1] == pre@[x + 1]) by {
                                    assert(mid.list.order()[x + 1] != i) by {
                                        assert(pre.list.order().no_duplicates());
                                    }
                                }
                            }
                        }
                    }
                    assert(pre@[p].0 == key);
                    assert(post@ =~= put_result(pre@, pre.max_len, key, val));
                    Self::lemma_index_carries(mid.list, post.list, pre.map@);
                    assert(post.wf());
                }
                Some(prev_val)
            },
            None => {
                proof {
                    assert(!pre.map@.contains_key(key));
                    assert(!entries_contain_key(pre@, key));
                }
                if self.map.len() >= self.max_len {
                    match self.list.pop_back() {
                        Some(kv) => {
                            let ghost t = pre.list.order().last();
                            proof {
                                assert(pre@.len() > 0);
                                assert(kv.0 == pre.list.key_at(t));
                                assert(pre.list.order()[pre@.len() - 1] == t);
                                assert(pre.map@.contains_key(kv.0) && pre.map@[kv.0] == t);
                            }
                            let _ = self.map.remove(&kv.0);
                            proof {
                                let mid = *self;
                                let bk = kv.0;
                                mid.list.lemma_view();
                                mid.list.lemma_wf_facts();
                                assert(mid.map@ == pre.map@.remove(bk));
                                assert(mid.map@.len() == pre.map@.len() - 1) by {
                                    assert(pre.map@.dom().finite());
                                }
                                assert(mid@ == pre@.drop_last());
                                assert forall|j: int|
                                    0 <= j < mid.list.order().len() implies {
                                        let i2 = #[trigger] mid.list.order()[j];
                                        mid.map@.contains_key(mid.list.key_at(i2))
                                            && mid.map@[mid.list.key_at(i2)] == i2
                                    } by {
                                    let i2 = mid.list.order()[j];
                                    assert(i2 == pre.list.order()[j]);
                                    assert(i2 != t) by {
                                        assert(pre.list.order().no_duplicates());
                                    }
                                    assert(pre.list.is_live(i2)) by {
                                        assert(pre.list.order().contains(pre.list.order()[j]));
                                    }
                                    assert(mid.list.key_at(i2) == pre.list.key_at(i2));
                                    assert(pre.map@.contains_key(pre.list.key_at(i2))
                                        && pre.map@[pre.list.key_at(i2)] == i2);
                                    assert(pre.list.key_at(i2) != bk) by {
                                        if pre.list.key_at(i2) == bk {
                                            assert(pre.map@[bk] == t);
                                        }
                                    }
                                }
                                assert forall|k2: K|
                                    #[trigger] mid.map@.contains_key(k2) implies mid.list.order()
                                    .contains(mid.map@[k2]) && mid.list.is_live(mid.map@[k2])
                                    && mid.list.key_at(mid.map@[k2]) == k2 by {
                                    let i2 = pre.map@[k2];
                                    assert(pre.map@.contains_key(k2));
                                    assert(pre.list.order().contains(i2) && pre.list.is_live(i2)
                                        && pre.list.key_at(i2) == k2);
                                    assert(i2 != t) by {
                                        if i2 == t {
                                            assert(pre.list.key_at(t) == bk);
                                        }
                                    }
                                    assert(mid.list.is_live(i2));
                                    assert(mid.list.order().contains(i2));
                                }
                                assert(mid.wf());
                            }
                        },
                        None => {
                            proof {
                                assert(pre@.len() == 0);
                            }
                        },
                    }
                }
                let ghost mid = *self;
                proof {
                    assert(mid.wf());
                    assert(mid.max_len == pre.max_len);
                    assert(!mid.map@.contains_key(key));
                    assert(mid@ == (if pre@.len() >= pre.max_len && pre@.len() > 0 {
                        pre@.drop_last()
                    } else {
                        pre@
                    }));
                    assert(mid@.len() + 1 <= cap(pre.max_len));
                    mid.list.lemma_view();
                    mid.list.lemma_wf_facts();
                }
                let kc = clone_key(&key);
                proof {
                    assert(kc == key);
                }
                let i = self.list.push_front(key, val);
                let _ = self.map.insert(kc, i);
                proof {
                    let post = *self;
                    post.list.lemma_view();
                    post.list.lemma_wf_facts();
                    assert(post.map@ == mid.map@.insert(key, i));
                    assert(post.map@.len() == mid.map@.len() + 1) by {
                        assert(mid.map@.dom().finite());
                    }
                    assert(post@ == seq![(key, val)] + mid@);
                    assert(post@ =~= put_result(pre@, pre.max_len, key, val));
                    assert forall|j: int|
                        0 <= j < post.list.order().len() implies {
                            let i2 = #[trigger] post.list.order()[j];
                            post.map@.contains_key(post.list.key_at(i2)) && post.map@[post.list.key_at(
                                i2,
                            )] == i2
                        } by {
                        let i2 = post.list.order()[j];
                        if j == 0 {
                            assert(i2 == i);
                            assert(post.list.key_at(i) == key);
                        } else {
                            assert(i2 == mid.list.order()[j - 1]);
                            assert(mid.list.is_live(i2)) by {
                                assert(mid.list.order().contains(mid.list.order()[j - 1]));
                            }
                            assert(post.list.key_at(i2) == mid.list.key_at(i2));
                            assert(mid.map@.contains_key(mid.list.key_at(i2))
                                && mid.map@[mid.list.key_at(i2)] == i2);
                            assert(mid.list.key_at(i2) != key);
                        }
                    }
                    assert forall|k2: K|
                        #[trigger] post.map@.contains_key(k2) implies post.list.order().contains(
                        post.map@[k2],
                    ) && post.list.is_live(post.map@[k2]) && post.list.key_at(post.map@[k2]) == k2
                        by {
                        if k2 == key {
                            assert(post.map@[key] == i);
                            assert(post.list.order()[0] == i);
                            assert(post.list.order().contains(i));
                        } else {
                            let i2 = mid.map@[k2];
                            assert(mid.map@.contains_key(k2));
                            assert(mid.list.order().contains(i2) && mid.list.is_live(i2)
                                && mid.list.key_at(i2) == k2);
                            assert(i2 != i) by {
                                assert(!mid.list.is_live(i));
                            }
                            assert(post.list.is_live(i2) && post.list.key_at(i2) == k2);
                            assert(post.list.order().contains(i2)) by {
                                let j = choose|j: int|
                                    0 <= j < mid.list.order().len() && mid.list.order()[j] == i2;
                                assert(post.list.order()[j + 1] == i2);
                            }
                        }
                    }
                    assert(post.list.n_slots() <= cap(post.max_len)) by {
                        mid.list.lemma_counts();
                        if mid.list.vacant_slots().len() == 0 {
                            assert(mid.list.n_slots() == mid.list.order().len());
                        }
                    }
                    assert(post.wf());
                }
                None
            },
        }
    }

    /// The number of entries currently cached: the index size, always equal
    /// to the chain length.
    pub fn count(&self) -> (r: usize)
        requires
            self.wf(),
        ensures
            r == self@.len(),
    {
        proof {
            self.list.lemma_view();
        }
        self.map.len()
    }
}

} // verus!
