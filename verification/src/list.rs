//! The entry chain: a doubly linked recency order over entries held in an
//! arena of stable slots.
//!
//! Each live slot holds one entry (key, value) and the slot indices of its
//! neighbours; vacated slots are kept on a stack and reused. The front of
//! the chain is the most recently used entry, the back the least recently
//! used. A ghost sequence of slot indices, front first, carries the order
//! through the proofs.

use vstd::prelude::*;
use vstd::pervasive::unreached;
use vstd::pervasive::VecAdditionalExecFns;

verus! {

/// One entry of the chain: a key, its value, and the slot indices of its
/// neighbours (`prev` toward the front, `next` toward the back).
struct Item<K, V> {
    key: K,
    val: V,
    prev: Option<usize>,
    next: Option<usize>,
}

/// The entry chain. `slots` is the arena; `head` and `tail` are the slot
/// indices of the front and back entries; `vacant` stacks the indices of
/// empty slots awaiting reuse.
pub struct List<K, V> {
    slots: Vec<Option<Item<K, V>>>,
    head: Option<usize>,
    tail: Option<usize>,
    vacant: Vec<usize>,
    order: Ghost<Seq<usize>>,
}

impl<K, V> View for List<K, V> {
    type V = Seq<(K, V)>;

    /// The entries in recency order, most recently used first.
    closed spec fn view(&self) -> Seq<(K, V)> {
        self.order@.map(
            |j: int, i: usize|
                (self.slots@[i as int].unwrap().key, self.slots@[i as int].unwrap().val),
        )
    }
}

impl<K, V> List<K, V> {
    /// The slot indices of the live entries, front (most recent) first.
    pub closed spec fn order(self) -> Seq<usize> {
        self.order@
    }

    /// The slot indices currently vacant and awaiting reuse.
    pub closed spec fn vacant_slots(self) -> Seq<usize> {
        self.vacant@
    }

    /// How many slots the arena holds, live and vacant together.
    pub closed spec fn n_slots(self) -> int {
        self.slots@.len() as int
    }

    /// Whether slot `i` holds a live entry.
    pub closed spec fn is_live(self, i: usize) -> bool {
        i < self.slots@.len() && self.slots@[i as int] is Some
    }

    spec fn item_at(self, i: usize) -> Item<K, V> {
        self.slots@[i as int].unwrap()
    }

    /// The key held by live slot `i`.
    pub closed spec fn key_at(self, i: usize) -> K {
        self.item_at(i).key
    }

    /// The value held by live slot `i`.
    pub closed spec fn val_at(self, i: usize) -> V {
        self.item_at(i).val
    }

    spec fn prev_at(self, i: usize) -> Option<usize> {
        self.item_at(i).prev
    }

    spec fn next_at(self, i: usize) -> Option<usize> {
        self.item_at(i).next
    }

    /// Well-formedness: the ghost order lists each live slot exactly once;
    /// the links of each live slot point to its neighbours in that order;
    /// `head` and `tail` point to its ends; the vacant stack lists each
    /// empty slot exactly once; and every slot is live or vacant, never
    /// both, so that the arena holds exactly the live and vacant slots.
    pub closed spec fn wf(self) -> bool {
        &&& self.order@.no_duplicates()
        &&& forall|j: int|
            0 <= j < self.order@.len() ==> (#[trigger] self.order@[j]) < self.slots@.len()
        &&& forall|j: int|
            0 <= j < self.order@.len() ==> self.prev_at(#[trigger] self.order@[j]) == (if j == 0 {
                None::<usize>
            } else {
                Some(self.order@[j - 1])
            })
        &&& forall|j: int|
            0 <= j < self.order@.len() ==> self.next_at(#[trigger] self.order@[j]) == (if j
                == self.order@.len() - 1 {
                None::<usize>
            } else {
                Some(self.order@[j + 1])
            })
        &&& self.head == (if self.order@.len() == 0 {
            None::<usize>
        } else {
            Some(self.order@[0])
        })
        &&& self.tail == (if self.order@.len() == 0 {
            None::<usize>
        } else {
            Some(self.order@[self.order@.len() - 1])
        })
        &&& self.vacant@.no_duplicates()
        &&& forall|j: int|
            0 <= j < self.vacant@.len() ==> (#[trigger] self.vacant@[j]) < self.slots@.len()
        &&& forall|i: usize|
            i < self.slots@.len() ==> ((#[trigger] self.slots@[i as int]) is Some
                <==> self.order@.contains(i))
        &&& forall|i: usize|
            i < self.slots@.len() ==> ((#[trigger] self.slots@[i as int]) is None
                <==> self.vacant@.contains(i))
        &&& self.slots@.len() == self.order@.len() + self.vacant@.len()
    }

    /// The view lists, front first, the key and value of each slot in the
    /// recency order.
    pub proof fn lemma_view(self)
        ensures
            self@.len() == self.order().len(),
            forall|j: int|
                0 <= j < self.order().len() ==> self@[j] == (
                    self.key_at(#[trigger] self.order()[j]),
                    self.val_at(self.order()[j]),
                ),
    {
    }

    /// The arena is fully accounted for: it holds exactly the live entries
    /// and the vacant slots.
    pub proof fn lemma_counts(self)
        requires
            self.wf(),
        ensures
            self.n_slots() == self.order().len() + self.vacant_slots().len(),
    {
    }

    /// Facts of a well-formed chain that callers rely on: the recency order
    /// lists each slot at most once, a slot is live exactly when the order
    /// lists it, and the arena splits into the live and the vacant slots.
    pub proof fn lemma_wf_facts(self)
        requires
            self.wf(),
        ensures
            self.order().no_duplicates(),
            forall|j: int| 0 <= j < self.order().len() ==> self.is_live(#[trigger] self.order()[j]),
            forall|i: usize| self.is_live(i) <==> self.order().contains(i),
            self.n_slots() == self.order().len() + self.vacant_slots().len(),
    {
        assert forall|j: int|
            0 <= j < self.order().len() implies self.is_live(#[trigger] self.order()[j]) by {
            let i = self.order()[j];
            assert(i < self.slots@.len());
            assert(self.order@.contains(i)) by {
                assert(self.order@[j] == i);
            }
        }
        assert forall|i: usize| self.is_live(i) <==> self.order().contains(i) by {
            if self.order@.contains(i) {
                let j = choose|j: int| 0 <= j < self.order@.len() && self.order@[j] == i;
                assert(self.order@[j] < self.slots@.len());
            }
        }
    }

    /// Slot accounting: every arena slot is exactly one of live (on the
    /// chain) or vacant (awaiting reuse); no slot is both and none is lost.
    pub proof fn lemma_slot_accounting(self)
        requires
            self.wf(),
        ensures
            forall|i: usize|
                i < self.n_slots() ==> (self.order().contains(i) <==> !self.vacant_slots().contains(
                    i,
                )),
            forall|i: usize| self.order().contains(i) ==> i < self.n_slots() && self.is_live(i),
            forall|i: usize| self.vacant_slots().contains(i) ==> i < self.n_slots() && !self.is_live(i),
    {
        assert forall|i: usize|
            i < self.n_slots() implies (self.order().contains(i) <==> !self.vacant_slots().contains(
            i,
        )) by {
            assert(self.slots@[i as int] is Some <==> self.order@.contains(i));
            assert(self.slots@[i as int] is None <==> self.vacant@.contains(i));
        }
        assert forall|i: usize| self.order().contains(i) implies i < self.n_slots()
            && self.is_live(i) by {
            let j = choose|j: int| 0 <= j < self.order@.len() && self.order@[j] == i;
            assert(self.order@[j] < self.slots@.len());
        }
        assert forall|i: usize| self.vacant_slots().contains(i) implies i < self.n_slots()
            && !self.is_live(i) by {
            let j = choose|j: int| 0 <= j < self.vacant@.len() && self.vacant@[j] == i;
            assert(self.vacant@[j] < self.slots@.len());
        }
    }

    /// Creates an empty chain.
    pub fn new() -> (r: Self)
        ensures
            r.wf(),
            r@ == Seq::<(K, V)>::empty(),
            r.order() == Seq::<usize>::empty(),
            r.n_slots() == 0,
    {
        let r = List {
            slots: Vec::new(),
            head: None,
            tail: None,
            vacant: Vec::new(),
            order: Ghost(Seq::empty()),
        };
        proof {
            assert(r@ =~= Seq::<(K, V)>::empty());
        }
        r
    }

    /// Points the `prev` link of the entry in slot `i` at `p`, leaving
    /// everything else as it was.
    fn set_prev(&mut self, i: usize, p: Option<usize>)
        requires
            old(self).is_live(i),
        ensures
            final(self).slots@.len() == old(self).slots@.len(),
            forall|j: int|
                0 <= j < old(self).slots@.len() && j != i ==> final(self).slots@[j] == old(
                    self,
                ).slots@[j],
            final(self).is_live(i),
            final(self).key_at(i) == old(self).key_at(i),
            final(self).val_at(i) == old(self).val_at(i),
            final(self).prev_at(i) == p,
            final(self).next_at(i) == old(self).next_at(i),
            final(self).head == old(self).head,
            final(self).tail == old(self).tail,
            final(self).vacant@ == old(self).vacant@,
            final(self).order@ == old(self).order@,
    {
        let slot = &mut self.slots[i];
        match slot {
            Some(item) => {
                item.prev = p;
            },
            None => {},
        }
    }

    /// Points the `next` link of the entry in slot `i` at `n`, leaving
    /// everything else as it was.
    fn set_next(&mut self, i: usize, n: Option<usize>)
        requires
            old(self).is_live(i),
        ensures
            final(self).slots@.len() == old(self).slots@.len(),
            forall|j: int|
                0 <= j < old(self).slots@.len() && j != i ==> final(self).slots@[j] == old(
                    self,
                ).slots@[j],
            final(self).is_live(i),
            final(self).key_at(i) == old(self).key_at(i),
            final(self).val_at(i) == old(self).val_at(i),
            final(self).prev_at(i) == old(self).prev_at(i),
            final(self).next_at(i) == n,
            final(self).head == old(self).head,
            final(self).tail == old(self).tail,
            final(self).vacant@ == old(self).vacant@,
            final(self).order@ == old(self).order@,
    {
        let slot = &mut self.slots[i];
        match slot {
            Some(item) => {
                item.next = n;
            },
            None => {},
        }
    }

    /// Inserts a new entry at the front (most recently used position),
    /// reusing a vacant slot when one exists, and returns the slot index,
    /// which stays valid for this entry until the entry leaves the chain.
    pub fn push_front(&mut self, key: K, val: V) -> (i: usize)
        requires
            old(self).wf(),
        ensures
            final(self).wf(),
            !old(self).is_live(i),
            final(self).is_live(i),
            final(self).order() == seq![i] + old(self).order(),
            final(self).key_at(i) == key,
            final(self).val_at(i) == val,
            forall|j: usize|
                old(self).is_live(j) ==> final(self).is_live(j) && final(self).key_at(j) == old(
                    self,
                ).key_at(j) && final(self).val_at(j) == old(self).val_at(j),
            final(self)@ == seq![(key, val)] + old(self)@,
            old(self).vacant_slots().len() > 0 ==> final(self).n_slots() == old(self).n_slots(),
            old(self).vacant_slots().len() == 0 ==> final(self).n_slots() == old(self).n_slots()
                + 1,
    {
        let ghost pre = *self;
        let item = Item { key, val, prev: None, next: self.head };
        let i: usize;
        match self.vacant.pop() {
            Some(f) => {
                proof {
                    assert(pre.vacant@.contains(f)) by {
                        assert(pre.vacant@[pre.vacant@.len() - 1] == f);
                    }
                    assert(f < pre.slots@.len());
                    assert(pre.slots@[f as int] is None);
                }
                i = f;
                self.slots.set(f, Some(item));
            },
            None => {
                i = self.slots.len();
                self.slots.push(Some(item));
            },
        }
        proof {
            assert(!pre.is_live(i));
            assert(!pre.order@.contains(i));
        }
        match self.head {
            Some(h) => {
                proof {
                    assert(pre.order@.len() > 0 && h == pre.order@[0]);
                    assert(pre.order@.contains(h)) by {
                        assert(pre.order@[0] == h);
                    }
                    assert(pre.is_live(h));
                    assert(h != i);
                }
                self.set_prev(h, Some(i));
            },
            None => {
                self.tail = Some(i);
            },
        }
        self.head = Some(i);
        proof {
            self.order@ = seq![i] + pre.order@;
        }
        proof {
            let post = *self;
            let n = pre.order@.len() as int;
            assert(post.order@.len() == n + 1);
            assert forall|j: int| 0 <= j < n implies post.order@[j + 1] == pre.order@[j] by {}
            assert forall|x: usize|
                pre.is_live(x) implies post.is_live(x) && post.key_at(x) == pre.key_at(x)
                && post.val_at(x) == pre.val_at(x) && post.next_at(x) == pre.next_at(x) by {
                assert(x != i);
            }
            assert(post.order@.no_duplicates()) by {
                assert forall|a: int, b: int|
                    0 <= a < b < post.order@.len() implies post.order@[a] != post.order@[b] by {
                    if a == 0 {
                        assert(pre.order@[b - 1] == post.order@[b]);
                        assert(pre.order@.contains(pre.order@[b - 1]));
                    } else {
                        assert(pre.order@[a - 1] != pre.order@[b - 1]);
                    }
                }
            }
            assert(post.wf()) by {
                assert forall|x: usize|
                    x < post.slots@.len() implies ((#[trigger] post.slots@[x as int]) is Some
                    <==> post.order@.contains(x)) && (post.slots@[x as int] is None
                    <==> post.vacant@.contains(x)) by {
                    if x == i {
                        assert(post.order@[0] == i);
                        assert(post.order@.contains(i));
                        if pre.vacant@.len() > 0 {
                            assert(!post.vacant@.contains(i)) by {
                                if post.vacant@.contains(i) {
                                    let j = choose|j: int|
                                        0 <= j < post.vacant@.len() && post.vacant@[j] == i;
                                    assert(pre.vacant@[j] == i);
                                    assert(pre.vacant@[pre.vacant@.len() - 1] == i);
                                }
                            }
                        }
                    } else {
                        assert(x < pre.slots@.len() ==> (pre.slots@[x as int] is Some
                            <==> pre.order@.contains(x)));
                        assert(post.order@.contains(x) ==> pre.order@.contains(x)) by {
                            if post.order@.contains(x) {
                                let j = choose|j: int|
                                    0 <= j < post.order@.len() && post.order@[j] == x;
                                assert(j != 0);
                                assert(pre.order@[j - 1] == x);
                                assert(pre.order@.contains(pre.order@[j - 1]));
                            }
                        }
                        assert(pre.order@.contains(x) ==> post.order@.contains(x)) by {
                            if pre.order@.contains(x) {
                                let j = choose|j: int|
                                    0 <= j < pre.order@.len() && pre.order@[j] == x;
                                assert(post.order@[j + 1] == x);
                            }
                        }
                        assert(pre.vacant@.contains(x) ==> post.vacant@.contains(x)) by {
                            if pre.vacant@.contains(x) {
                                let j = choose|j: int|
                                    0 <= j < pre.vacant@.len() && pre.vacant@[j] == x;
                                assert(j != pre.vacant@.len() - 1 || pre.vacant@[j] != i);
                                assert(post.vacant@[j] == x);
                            }
                        }
                        assert(post.vacant@.contains(x) ==> pre.vacant@.contains(x)) by {
                            if post.vacant@.contains(x) {
                                let j = choose|j: int|
                                    0 <= j < post.vacant@.len() && post.vacant@[j] == x;
                                assert(pre.vacant@[j] == x);
                                assert(pre.vacant@.contains(pre.vacant@[j]));
                            }
                        }
                    }
                }
                assert forall|j: int|
                    0 <= j < post.order@.len() implies post.prev_at(#[trigger] post.order@[j]) == (
                if j == 0 {
                    None::<usize>
                } else {
                    Some(post.order@[j - 1])
                }) && post.next_at(post.order@[j]) == (if j == post.order@.len() - 1 {
                    None::<usize>
                } else {
                    Some(post.order@[j + 1])
                }) by {
                    if j == 0 {
                    } else if j == 1 {
                        assert(post.order@[j] == pre.order@[0]);
                    } else {
                        assert(post.order@[j] == pre.order@[j - 1]);
                        assert(pre.order@.contains(pre.order@[j - 1]));
                        assert(post.order@[j] != i);
                        assert(post.order@[j] != pre.order@[0]) by {
                            assert(pre.order@.no_duplicates());
                        }
                    }
                }
            }
            assert(post@ == seq![(key, val)] + pre@) by {
                assert forall|j: int|
                    0 <= j < post@.len() implies post@[j] == (seq![(key, val)] + pre@)[j] by {
                    if j > 0 {
                        assert(post.order@[j] == pre.order@[j - 1]);
                        assert(pre.order@.contains(pre.order@[j - 1]));
                        assert(pre.is_live(pre.order@[j - 1]));
                        assert(pre@[j - 1] == (
                            pre.key_at(pre.order@[j - 1]),
                            pre.val_at(pre.order@[j - 1]),
                        ));
                    }
                }
                assert(post@ =~= seq![(key, val)] + pre@);
            }
        }
        i
    }

    /// Replaces the value in live slot `i`, returning the previous value;
    /// the key and the chain order stay as they were.
    pub fn replace_val(&mut self, i: usize, val: V) -> (r: V)
        requires
            old(self).wf(),
            old(self).is_live(i),
        ensures
            r == old(self).val_at(i),
            old(self).wf() ==> final(self).wf(),
            final(self).is_live(i),
            final(self).key_at(i) == old(self).key_at(i),
            final(self).val_at(i) == val,
            final(self).order() == old(self).order(),
            final(self).vacant_slots() == old(self).vacant_slots(),
            final(self).n_slots() == old(self).n_slots(),
            forall|j: usize|
                old(self).is_live(j) && j != i ==> final(self).is_live(j) && final(self).key_at(j)
                    == old(self).key_at(j) && final(self).val_at(j) == old(self).val_at(j),
            forall|j: usize| final(self).is_live(j) == old(self).is_live(j),
            final(self)@.len() == old(self)@.len(),
            forall|p: int|
                0 <= p < old(self)@.len() && old(self).order()[p] != i ==> final(self)@[p] == old(
                    self,
                )@[p],
            forall|p: int|
                0 <= p < old(self)@.len() && old(self).order()[p] == i ==> final(self)@[p] == (
                    old(self)@[p].0,
                    val,
                ),
    {
        let ghost pre = *self;
        let mut v = val;
        let slot = &mut self.slots[i];
        match slot {
            Some(item) => {
                core::mem::swap(&mut item.val, &mut v);
            },
            None => {},
        }
        proof {
            let post = *self;
            assert(post.slots@.len() == pre.slots@.len());
            assert(forall|j: int|
                0 <= j < pre.slots@.len() && j != i ==> post.slots@[j] == pre.slots@[j]);
            assert(post.slots@[i as int] is Some);
            assert(post.key_at(i) == pre.key_at(i));
            assert(post.prev_at(i) == pre.prev_at(i));
            assert(post.next_at(i) == pre.next_at(i));
            assert(post.val_at(i) == val);
        }
        v
    }

    /// A mutable borrow of the value in live slot `i`; the final state of
    /// the chain carries whatever the caller writes through it, and nothing
    /// else changes.
    pub fn val_mut(&mut self, i: usize) -> (r: &mut V)
        requires
            old(self).wf(),
            old(self).is_live(i),
        ensures
            *r == old(self).val_at(i),
            old(self).wf() ==> final(self).wf(),
            final(self).is_live(i),
            final(self).key_at(i) == old(self).key_at(i),
            final(self).val_at(i) == *final(r),
            final(self).order() == old(self).order(),
            final(self).vacant_slots() == old(self).vacant_slots(),
            final(self).n_slots() == old(self).n_slots(),
            forall|j: usize|
                old(self).is_live(j) && j != i ==> final(self).is_live(j) && final(self).key_at(j)
                    == old(self).key_at(j) && final(self).val_at(j) == old(self).val_at(j),
            forall|j: usize| final(self).is_live(j) == old(self).is_live(j),
            final(self)@.len() == old(self)@.len(),
            forall|p: int| #![trigger final(self)@[p]]
                0 <= p < old(self)@.len() && old(self).order()[p] != i ==> final(self)@[p] == old(
                    self,
                )@[p],
            forall|p: int| #![trigger final(self)@[p]]
                0 <= p < old(self)@.len() && old(self).order()[p] == i ==> final(self)@[p] == (
                    old(self)@[p].0,
                    *final(r),
                ),
    {
        let slot = &mut self.slots[i];
        match slot {
            Some(item) => &mut item.val,
            None => unreached(),
        }
    }

    /// The `prev` link of the entry in slot `i`.
    fn prev_of(&self, i: usize) -> (r: Option<usize>)
        requires
            self.is_live(i),
        ensures
            r == self.prev_at(i),
    {
        match &self.slots[i] {
            Some(item) => item.prev,
            None => unreached(),
        }
    }

    /// The `next` link of the entry in slot `i`.
    fn next_of(&self, i: usize) -> (r: Option<usize>)
        requires
            self.is_live(i),
        ensures
            r == self.next_at(i),
    {
        match &self.slots[i] {
            Some(item) => item.next,
            None => unreached(),
        }
    }

    /// Unlinks the entry in live slot `i` from its position and relinks it
    /// as the front (most recently used); a no-op when it is the front
    /// already. Entries keep their slots, keys and values.
    #[verifier::rlimit(100)]
    pub fn move_to_front(&mut self, i: usize)
        requires
            old(self).wf(),
            old(self).is_live(i),
        ensures
            final(self).wf(),
            old(self).order().contains(i),
            final(self).order() == seq![i] + old(self).order().remove(
                old(self).order().index_of(i),
            ),
            forall|j: usize| final(self).is_live(j) == old(self).is_live(j),
            forall|j: usize|
                old(self).is_live(j) ==> final(self).key_at(j) == old(self).key_at(j)
                    && final(self).val_at(j) == old(self).val_at(j),
            final(self).vacant_slots() == old(self).vacant_slots(),
            final(self).n_slots() == old(self).n_slots(),
            final(self)@ == seq![old(self)@[old(self).order().index_of(i)]] + old(self)@.remove(
                old(self).order().index_of(i),
            ),
    {
        let ghost pre = *self;
        let ghost pos = pre.order@.index_of(i);
        proof {
            assert(pre.order@.contains(i));
            assert(0 <= pos < pre.order@.len() && pre.order@[pos] == i);
            pre.order@.remove_ensures(pos);
            pre.lemma_view();
        }
        let at_front = match self.head {
            Some(h) => h == i,
            None => false,
        };
        if at_front {
            proof {
                assert(pre.order@[0] == i);
                assert(pos == 0);
                assert(self.order@ =~= seq![i] + pre.order@.remove(pos));
                assert(self@ =~= seq![pre@[pos]] + pre@.remove(pos));
            }
            return ;
        }
        proof {
            assert(pos >= 1) by {
                if pos == 0 {
                    assert(self.head == Some(pre.order@[0]));
                }
            }
        }
        let ghost n_len = pre.order@.len() as int;
        let p_opt = self.prev_of(i);
        let n_opt = self.next_of(i);
        let ghost p = pre.order@[pos - 1];
        proof {
            assert(p_opt == Some(p));
            assert(pre.order@.contains(p)) by {
                assert(pre.order@[pos - 1] == p);
            }
            assert(pre.is_live(p));
            if pos < n_len - 1 {
                assert(n_opt == Some(pre.order@[pos + 1]));
                assert(pre.order@.contains(pre.order@[pos + 1]));
                assert(pre.is_live(pre.order@[pos + 1]));
            } else {
                assert(n_opt is None);
            }
        }
        let is_tail = match self.tail {
            Some(t) => t == i,
            None => false,
        };
        if is_tail {
            self.tail = p_opt;
        }
        proof {
            assert(is_tail <==> pos == n_len - 1) by {
                assert(pre.tail == Some(pre.order@[n_len - 1]));
                if pre.order@[n_len - 1] == i && pos != n_len - 1 {
                    assert(pre.order@.no_duplicates());
                }
            }
        }
        match p_opt {
            Some(pp) => {
                self.set_next(pp, n_opt);
            },
            None => {},
        }
        match n_opt {
            Some(nn) => {
                proof {
                    assert(nn == pre.order@[pos + 1]);
                    assert(nn != p && nn != i) by {
                        assert(pre.order@.no_duplicates());
                    }
                    assert(self.is_live(nn));
                }
                self.set_prev(nn, p_opt);
            },
            None => {},
        }
        proof {
            assert(self.is_live(i));
        }
        self.set_prev(i, None);
        let h_opt = self.head;
        self.set_next(i, h_opt);
        let ghost h = pre.order@[0];
        match h_opt {
            Some(hh) => {
                proof {
                    assert(hh == h);
                    assert(hh != i);
                    assert(self.is_live(hh)) by {
                        assert(pre.order@.contains(h)) by {
                            assert(pre.order@[0] == h);
                        }
                        assert(pre.is_live(h));
                    }
                }
                self.set_prev(hh, Some(i));
            },
            None => {},
        }
        self.head = Some(i);
        proof {
            self.order@ = seq![i] + pre.order@.remove(pos);
        }
        proof {
            let post = *self;
            assert(post.order@.len() == n_len);
            assert forall|j: int| 1 <= j < n_len implies post.order@[j] == (if j <= pos {
                pre.order@[j - 1]
            } else {
                pre.order@[j]
            }) by {
                assert(post.order@[j] == pre.order@.remove(pos)[j - 1]);
            }
            assert forall|x: usize|
                pre.is_live(x) implies post.is_live(x) && post.key_at(x) == pre.key_at(x)
                && post.val_at(x) == pre.val_at(x) by {}
            assert forall|x: usize| post.is_live(x) == pre.is_live(x) by {}
            assert(post.order@.no_duplicates()) by {
                assert forall|a: int, b: int|
                    0 <= a < b < post.order@.len() implies post.order@[a] != post.order@[b] by {
                    let xa: usize = if a == 0 {
                        i
                    } else if a <= pos {
                        pre.order@[a - 1]
                    } else {
                        pre.order@[a]
                    };
                    let xb: usize = if b <= pos {
                        pre.order@[b - 1]
                    } else {
                        pre.order@[b]
                    };
                    assert(post.order@[a] == xa && post.order@[b] == xb);
                    if a == 0 {
                        assert(pre.order@[pos] == i);
                        assert(xb != i) by {
                            assert(pre.order@.no_duplicates());
                        }
                    } else {
                        assert(xa != xb) by {
                            assert(pre.order@.no_duplicates());
                        }
                    }
                }
            }
            assert(post.wf()) by {
                assert forall|x: usize|
                    x < post.slots@.len() implies ((#[trigger] post.slots@[x as int]) is Some
                    <==> post.order@.contains(x)) && (post.slots@[x as int] is None
                    <==> post.vacant@.contains(x)) by {
                    assert(pre.slots@[x as int] is Some <==> post.slots@[x as int] is Some);
                    assert(pre.order@.contains(x) ==> post.order@.contains(x)) by {
                        if pre.order@.contains(x) {
                            let j = choose|j: int|
                                0 <= j < pre.order@.len() && pre.order@[j] == x;
                            if j == pos {
                                assert(post.order@[0] == x);
                            } else if j < pos {
                                assert(post.order@[j + 1] == x);
                            } else {
                                assert(post.order@[j] == x);
                            }
                        }
                    }
                    assert(post.order@.contains(x) ==> pre.order@.contains(x)) by {
                        if post.order@.contains(x) {
                            let j = choose|j: int|
                                0 <= j < post.order@.len() && post.order@[j] == x;
                            if j == 0 {
                                assert(pre.order@[pos] == x);
                            } else if j <= pos {
                                assert(pre.order@[j - 1] == x);
                                assert(pre.order@.contains(pre.order@[j - 1]));
                            } else {
                                assert(pre.order@[j] == x);
                                assert(pre.order@.contains(pre.order@[j]));
                            }
                        }
                    }
                }
                assert forall|j: int|
                    0 <= j < post.order@.len() implies post.prev_at(#[trigger] post.order@[j]) == (
                if j == 0 {
                    None::<usize>
                } else {
                    Some(post.order@[j - 1])
                }) && post.next_at(post.order@[j]) == (if j == post.order@.len() - 1 {
                    None::<usize>
                } else {
                    Some(post.order@[j + 1])
                }) by {
                    let x = post.order@[j];
                    assert(pre.order@.no_duplicates());
                    if j == 0 {
                        assert(x == i);
                    } else if j == 1 {
                        assert(x == h);
                        if pos == 1 {
                            assert(x == p);
                        } else {
                            assert(x != p && x != i) by {
                                assert(pre.order@[0] == h && pre.order@[pos - 1] == p
                                    && pre.order@[pos] == i);
                            }
                            if pos < n_len - 1 {
                                assert(x != pre.order@[pos + 1]);
                            }
                        }
                    } else if j < pos {
                        assert(x == pre.order@[j - 1]);
                        assert(x != i && x != h && x != p) by {
                            assert(pre.order@[0] == h && pre.order@[pos - 1] == p && pre.order@[pos]
                                == i);
                        }
                        if pos < n_len - 1 {
                            assert(x != pre.order@[pos + 1]);
                        }
                    } else if j == pos {
                        assert(x == p);
                        assert(x != i && x != h) by {
                            assert(pre.order@[0] == h && pre.order@[pos] == i);
                        }
                        if pos < n_len - 1 {
                            assert(x != pre.order@[pos + 1]);
                        }
                    } else if j == pos + 1 {
                        assert(x == pre.order@[pos + 1]);
                        assert(x != i && x != h && x != p) by {
                            assert(pre.order@[0] == h && pre.order@[pos - 1] == p && pre.order@[pos]
                                == i);
                        }
                    } else {
                        assert(x == pre.order@[j]);
                        assert(x != i && x != h && x != p) by {
                            assert(pre.order@[0] == h && pre.order@[pos - 1] == p && pre.order@[pos]
                                == i);
                        }
                        if pos < n_len - 1 {
                            assert(x != pre.order@[pos + 1]);
                        }
                    }
                }
            }
            assert(post@ == seq![pre@[pos]] + pre@.remove(pos)) by {
                pre@.remove_ensures(pos);
                post.lemma_view();
                assert forall|j: int|
                    0 <= j < post@.len() implies post@[j] == (seq![pre@[pos]] + pre@.remove(pos))[j]
                    by {
                    let x = post.order@[j];
                    assert(post@[j] == (post.key_at(x), post.val_at(x)));
                    if j == 0 {
                        assert(x == i);
                        assert(pre@[pos] == (pre.key_at(i), pre.val_at(i)));
                    } else if j <= pos {
                        assert(x == pre.order@[j - 1]);
                        assert(pre.is_live(x)) by {
                            assert(pre.order@.contains(pre.order@[j - 1]));
                        }
                        assert(pre@[j - 1] == (pre.key_at(x), pre.val_at(x)));
                    } else {
                        assert(x == pre.order@[j]);
                        assert(pre.is_live(x)) by {
                            assert(pre.order@.contains(pre.order@[j]));
                        }
                        assert(pre@[j] == (pre.key_at(x), pre.val_at(x)));
                    }
                }
                assert(post@ =~= seq![pre@[pos]] + pre@.remove(pos));
            }
        }
    }

    /// Removes and returns the back entry, the least recently used, or
    /// `None` when the chain is empty. The caller takes ownership of the
    /// key and value; the slot is vacated for reuse.
    pub fn pop_back(&mut self) -> (r: Option<(K, V)>)
        requires
            old(self).wf(),
        ensures
            final(self).wf(),
            old(self)@.len() == 0 ==> r is None && *final(self) == *old(self),
            old(self)@.len() > 0 ==> {
                let t = old(self).order().last();
                &&& r == Some((old(self).key_at(t), old(self).val_at(t)))
                &&& final(self).order() == old(self).order().drop_last()
                &&& !final(self).is_live(t)
                &&& forall|j: usize| j != t ==> final(self).is_live(j) == old(self).is_live(j)
                &&& forall|j: usize|
                    old(self).is_live(j) && j != t ==> final(self).key_at(j) == old(self).key_at(j)
                        && final(self).val_at(j) == old(self).val_at(j)
                &&& final(self)@ == old(self)@.drop_last()
                &&& final(self).n_slots() == old(self).n_slots()
                &&& final(self).vacant_slots() == old(self).vacant_slots().push(t)
            },
    {
        let ghost pre = *self;
        proof {
            pre.lemma_view();
        }
        let t = match self.tail {
            Some(t) => t,
            None => {
                proof {
                    assert(pre.order@.len() == 0);
                }
                return None;
            },
        };
        let ghost n = pre.order@.len() as int;
        proof {
            assert(n > 0);
            assert(t == pre.order@[n - 1]);
            assert(pre.order@.contains(t)) by {
                assert(pre.order@[n - 1] == t);
            }
            assert(pre.is_live(t));
        }
        let mut taken: Option<Item<K, V>> = None;
        self.slots.set_and_swap(t, &mut taken);
        let item = match taken {
            Some(it) => it,
            None => unreached(),
        };
        proof {
            assert(item == pre.item_at(t));
            assert(item.prev == (if n == 1 {
                None::<usize>
            } else {
                Some(pre.order@[n - 2])
            }));
        }
        match item.prev {
            Some(p) => {
                proof {
                    assert(p == pre.order@[n - 2]);
                    assert(pre.order@.contains(p)) by {
                        assert(pre.order@[n - 2] == p);
                    }
                    assert(p != t) by {
                        assert(pre.order@.no_duplicates());
                    }
                    assert(self.is_live(p));
                }
                self.set_next(p, None);
                self.tail = Some(p);
            },
            None => {
                self.head = None;
                self.tail = None;
            },
        }
        self.vacant.push(t);
        proof {
            self.order@ = pre.order@.drop_last();
        }
        proof {
            let post = *self;
            assert(post.order@.len() == n - 1);
            assert(forall|j: int| 0 <= j < n - 1 ==> post.order@[j] == pre.order@[j]);
            assert(post.vacant@ == pre.vacant@.push(t));
            assert(!pre.vacant@.contains(t));
            assert(post.wf()) by {
                assert(post.vacant@.no_duplicates()) by {
                    assert forall|a: int, b: int|
                        0 <= a < b < post.vacant@.len() implies post.vacant@[a] != post.vacant@[b]
                        by {
                        if b == post.vacant@.len() - 1 {
                            assert(post.vacant@[b] == t);
                            assert(pre.vacant@[a] == post.vacant@[a]);
                            assert(pre.vacant@.contains(pre.vacant@[a]));
                        } else {
                            assert(pre.vacant@[a] != pre.vacant@[b]);
                        }
                    }
                }
                assert forall|x: usize|
                    x < post.slots@.len() implies ((#[trigger] post.slots@[x as int]) is Some
                    <==> post.order@.contains(x)) && (post.slots@[x as int] is None
                    <==> post.vacant@.contains(x)) by {
                    if x == t {
                        assert(post.slots@[x as int] is None);
                        assert(post.vacant@[post.vacant@.len() - 1] == t);
                        assert(post.vacant@.contains(t));
                        assert(!post.order@.contains(t)) by {
                            if post.order@.contains(t) {
                                let j = choose|j: int|
                                    0 <= j < post.order@.len() && post.order@[j] == t;
                                assert(pre.order@[j] == t);
                                assert(pre.order@[n - 1] == t);
                                assert(pre.order@.no_duplicates());
                            }
                        }
                    } else {
                        assert((post.slots@[x as int] is Some) == (pre.slots@[x as int] is Some))
                            by {
                            if n > 1 && x == pre.order@[n - 2] {
                                assert(post.slots@[x as int] is Some);
                                assert(pre.order@.contains(pre.order@[n - 2]));
                                assert(pre.is_live(x));
                            } else {
                                assert(post.slots@[x as int] == pre.slots@[x as int]);
                            }
                        }
                        assert(post.order@.contains(x) ==> pre.order@.contains(x)) by {
                            if post.order@.contains(x) {
                                let j = choose|j: int|
                                    0 <= j < post.order@.len() && post.order@[j] == x;
                                assert(pre.order@[j] == x);
                                assert(pre.order@.contains(pre.order@[j]));
                            }
                        }
                        assert(pre.order@.contains(x) ==> post.order@.contains(x)) by {
                            if pre.order@.contains(x) {
                                let j = choose|j: int|
                                    0 <= j < pre.order@.len() && pre.order@[j] == x;
                                assert(j != n - 1);
                                assert(post.order@[j] == x);
                            }
                        }
                        assert(post.vacant@.contains(x) ==> pre.vacant@.contains(x)) by {
                            if post.vacant@.contains(x) {
                                let j = choose|j: int|
                                    0 <= j < post.vacant@.len() && post.vacant@[j] == x;
                                assert(j != post.vacant@.len() - 1);
                                assert(pre.vacant@[j] == x);
                                assert(pre.vacant@.contains(pre.vacant@[j]));
                            }
                        }
                        assert(pre.vacant@.contains(x) ==> post.vacant@.contains(x)) by {
                            if pre.vacant@.contains(x) {
                                let j = choose|j: int|
                                    0 <= j < pre.vacant@.len() && pre.vacant@[j] == x;
                                assert(post.vacant@[j] == x);
                            }
                        }
                    }
                }
                assert forall|j: int|
                    0 <= j < post.order@.len() implies post.prev_at(#[trigger] post.order@[j]) == (
                if j == 0 {
                    None::<usize>
                } else {
                    Some(post.order@[j - 1])
                }) && post.next_at(post.order@[j]) == (if j == post.order@.len() - 1 {
                    None::<usize>
                } else {
                    Some(post.order@[j + 1])
                }) by {
                    let x = post.order@[j];
                    assert(x == pre.order@[j]);
                    assert(x != t) by {
                        assert(pre.order@.no_duplicates());
                        assert(pre.order@[n - 1] == t);
                    }
                    if j == n - 2 {
                        assert(x == pre.order@[n - 2]);
                    } else {
                        assert(x != pre.order@[n - 2] || n == 1) by {
                            assert(pre.order@.no_duplicates());
                        }
                    }
                }
            }
            assert(post@ == pre@.drop_last()) by {
                post.lemma_view();
                assert forall|j: int| 0 <= j < post@.len() implies post@[j] == pre@[j] by {
                    let x = post.order@[j];
                    assert(x == pre.order@[j]);
                    assert(pre.order@.contains(pre.order@[j]));
                    assert(pre.is_live(x));
                    assert(x != t) by {
                        assert(pre.order@.no_duplicates());
                        assert(pre.order@[n - 1] == t);
                    }
                    assert(post.key_at(x) == pre.key_at(x) && post.val_at(x) == pre.val_at(x));
                    assert(pre@[j] == (pre.key_at(x), pre.val_at(x)));
                }
                assert(post@ =~= pre@.drop_last());
            }
            assert(pre@[n - 1] == (pre.key_at(t), pre.val_at(t)));
        }
        Some((item.key, item.val))
    }

    /// A shared borrow of the key in live slot `i`.
    pub fn key_ref(&self, i: usize) -> (r: &K)
        requires
            self.is_live(i),
        ensures
            *r == self.key_at(i),
    {
        match &self.slots[i] {
            Some(item) => &item.key,
            None => unreached(),
        }
    }

    /// A shared borrow of the value in live slot `i`.
    pub fn val_ref(&self, i: usize) -> (r: &V)
        requires
            self.is_live(i),
        ensures
            *r == self.val_at(i),
    {
        match &self.slots[i] {
            Some(item) => &item.val,
            None => unreached(),
        }
    }
}

} // verus!
