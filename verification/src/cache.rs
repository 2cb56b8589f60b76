//! A fixed-capacity LRU cache over `u64` keys and generic values.
//!
//! Three cooperating structures implement the cache:
//! - an *arena*: a `Vec` of [`LruNode`] slots addressed by stable indices,
//!   with a free list recycling the slots of evicted entries;
//! - a *recency order*: a doubly linked list threaded through the arena by
//!   `prev`/`next` indices, most-recently-used at `head`, eviction candidate
//!   at `tail`;
//! - an *entry store*: a `HashMap` from key to arena index, giving
//!   constant-time lookup.
//!
//! The abstract state of a cache is a sequence of key-value pairs in recency
//! order, most recent first (see the [`View`] impl); every public operation
//! states its effect on that sequence.

use std::collections::HashMap;
use vstd::prelude::*;

verus! {

broadcast use vstd::std_specs::hash::group_hash_axioms;

/// Sentinel index marking the absence of a neighbour in the recency order.
/// Arena indices are always below the arena length, so no slot index ever
/// collides with it.
const NIL: usize = usize::MAX;

/// Why constructing a cache can fail.
#[derive(Clone, Copy, Debug, PartialEq, Eq)]
pub enum CacheError {
    /// A cache of capacity zero could never hold an entry; such a request
    /// is rejected rather than silently accepted.
    ZeroCapacity,
}

/// One arena slot: a cached key-value pair. Its position in the recency
/// order is kept in the cache's link table, not in the node itself.
pub struct LruNode<V> {
    pub key: u64,
    pub value: V,
}

impl<V> LruNode<V> {
    /// Packs a key and a value into a node.
    pub fn new(key: u64, value: V) -> (node: LruNode<V>)
        ensures
            node.key == key,
            node.value == value,
    {
        LruNode { key, value }
    }
}

/// The recency-order neighbours of one arena slot; `NIL` on a side means
/// the slot is the first (respectively last) of the order.
#[derive(Clone, Copy)]
struct Link {
    prev: usize,
    next: usize,
}

/// A bounded key-value store that evicts the least-recently-used entry when
/// an insertion would exceed its capacity.
pub struct LruCache<V> {
    capacity: usize,
    map: HashMap<u64, usize>,
    nodes: Vec<LruNode<V>>,
    links: Vec<Link>,
    head: usize,
    tail: usize,
    size: usize,
    free: Vec<usize>,
    /// The arena indices of the present entries, most recent first.
    order: Ghost<Seq<usize>>,
}

// ---------------------------------------------------------------------------
// The abstract model: a sequence of key-value pairs, most recent first.
// ---------------------------------------------------------------------------

/// Does some entry of `s` carry the key `key`?
pub open spec fn has_key<V>(s: Seq<(u64, V)>, key: u64) -> bool {
    exists|i: int| 0 <= i < s.len() && (#[trigger] s[i]).0 == key
}

/// The position of the entry carrying `key`; meaningful when `has_key` holds
/// and the keys of `s` are distinct.
pub open spec fn key_index<V>(s: Seq<(u64, V)>, key: u64) -> int {
    choose|i: int| 0 <= i < s.len() && (#[trigger] s[i]).0 == key
}

/// The value stored under `key`.
pub open spec fn value_of<V>(s: Seq<(u64, V)>, key: u64) -> V {
    s[key_index(s, key)].1
}

/// No two entries of `s` carry the same key.
pub open spec fn distinct_keys<V>(s: Seq<(u64, V)>) -> bool {
    forall|i: int, j: int|
        0 <= i < s.len() && 0 <= j < s.len() && i != j ==> (#[trigger] s[i]).0 != (
        #[trigger] s[j]).0
}

/// The entry at position `i` moved to the front; the rest keep their order.
pub open spec fn promote<V>(s: Seq<(u64, V)>, i: int) -> Seq<(u64, V)> {
    seq![s[i]] + s.remove(i)
}

/// The abstract effect of `put` on a cache state with capacity `cap`: an
/// existing entry is updated and promoted; a new entry is prepended, evicting
/// the last entry when the cache is full.
pub open spec fn spec_put<V>(s: Seq<(u64, V)>, cap: int, key: u64, value: V) -> Seq<(u64, V)> {
    if has_key(s, key) {
        seq![(key, value)] + s.remove(key_index(s, key))
    } else if s.len() < cap {
        seq![(key, value)] + s
    } else {
        seq![(key, value)] + s.drop_last()
    }
}

/// The position of slot index `idx` in the order `ord`; meaningful when
/// `ord` contains `idx`.
spec fn position_of(ord: Seq<usize>, idx: usize) -> int {
    choose|p: int| 0 <= p < ord.len() && ord[p] == idx
}

proof fn lemma_position_of(ord: Seq<usize>, idx: usize)
    requires
        ord.contains(idx),
    ensures
        0 <= position_of(ord, idx) < ord.len(),
        ord[position_of(ord, idx)] == idx,
{
    assert(exists|p: int| 0 <= p < ord.len() && ord[p] == idx);
}

/// Moving the element at position `p` to the front leaves membership in the
/// sequence unchanged.
proof fn lemma_promote_contains(s: Seq<usize>, p: int)
    requires
        0 <= p < s.len(),
    ensures
        forall|x: usize| #[trigger] (seq![s[p]] + s.remove(p)).contains(x) <==> s.contains(x),
{
    let t = seq![s[p]] + s.remove(p);
    assert forall|x: usize| #[trigger] t.contains(x) implies s.contains(x) by {
        let q = choose|q: int| 0 <= q < t.len() && t[q] == x;
        if q == 0 {
            assert(s[p] == x);
        } else if q <= p {
            assert(s[q - 1] == x);
        } else {
            assert(s[q] == x);
        }
    }
    assert forall|x: usize| s.contains(x) implies #[trigger] t.contains(x) by {
        let q = choose|q: int| 0 <= q < s.len() && s[q] == x;
        if q == p {
            assert(t[0] == x);
        } else if q < p {
            assert(t[q + 1] == x);
        } else {
            assert(t[q] == x);
        }
    }
}

/// Prepending an element makes membership the old membership plus that
/// element.
proof fn lemma_cons_contains(s: Seq<usize>, x: usize)
    ensures
        forall|y: usize| #[trigger] (seq![x] + s).contains(y) <==> y == x || s.contains(y),
{
    let t = seq![x] + s;
    assert forall|y: usize| #[trigger] t.contains(y) implies y == x || s.contains(y) by {
        let q = choose|q: int| 0 <= q < t.len() && t[q] == y;
        if q > 0 {
            assert(s[q - 1] == y);
        }
    }
    assert forall|y: usize| y == x || s.contains(y) implies #[trigger] t.contains(y) by {
        if y == x {
            assert(t[0] == y);
        } else {
            let q = choose|q: int| 0 <= q < s.len() && s[q] == y;
            assert(t[q + 1] == y);
        }
    }
}

/// In a sequence with pairwise distinct keys, a position holding `key`
/// is *the* position of `key`.
pub proof fn lemma_key_index_unique<V>(s: Seq<(u64, V)>, key: u64, p: int)
    requires
        distinct_keys(s),
        0 <= p < s.len(),
        s[p].0 == key,
    ensures
        has_key(s, key),
        key_index(s, key) == p,
        value_of(s, key) == s[p].1,
{
    assert(has_key(s, key));
    let i = key_index(s, key);
    assert(0 <= i < s.len() && s[i].0 == key);
}

// ---------------------------------------------------------------------------
// The concrete structure and its invariant.
// ---------------------------------------------------------------------------

impl<V> View for LruCache<V> {
    type V = Seq<(u64, V)>;

    /// The present entries in recency order, most recent first.
    closed spec fn view(&self) -> Seq<(u64, V)> {
        Seq::new(
            self.order@.len(),
            |p: int|
                (
                    self.nodes@[self.order@[p] as int].key,
                    self.nodes@[self.order@[p] as int].value,
                ),
        )
    }
}

impl<V> LruCache<V> {
    /// The fixed capacity the cache was constructed with.
    pub closed spec fn cap(&self) -> nat {
        self.capacity as nat
    }

    /// Every index in the recency order denotes an arena slot.
    spec fn index_bounds(&self) -> bool {
        forall|p: int| 0 <= p < self.order@.len() ==> (#[trigger] self.order@[p]) < self.nodes@.len()
    }

    /// No arena slot occurs twice in the recency order.
    spec fn order_distinct(&self) -> bool {
        forall|p: int, q: int|
            0 <= p < q < self.order@.len() ==> (#[trigger] self.order@[p]) != (
            #[trigger] self.order@[q])
    }

    /// `head`, `tail` and the `prev`/`next` links trace out exactly the
    /// recency order.
    spec fn links_ok(&self) -> bool {
        let ord = self.order@;
        &&& (ord.len() == 0 ==> self.head == NIL && self.tail == NIL)
        &&& (ord.len() > 0 ==> self.head == ord[0] && self.tail == ord[ord.len() - 1])
        &&& forall|p: int|
            0 <= p < ord.len() ==> self.links@[(#[trigger] ord[p]) as int].prev == (if p == 0 {
                NIL
            } else {
                ord[p - 1]
            })
        &&& forall|p: int|
            0 <= p < ord.len() ==> self.links@[(#[trigger] ord[p]) as int].next == (if p == ord.len()
                - 1 {
                NIL
            } else {
                ord[p + 1]
            })
    }

    /// Distinct occupied slots hold distinct keys.
    spec fn keys_distinct(&self) -> bool {
        forall|i: usize, j: usize|
            #[trigger] self.order@.contains(i) && #[trigger] self.order@.contains(j) && i != j
                ==> self.nodes@[i as int].key != self.nodes@[j as int].key
    }

    /// The entry store maps exactly the keys of the occupied slots, each to
    /// its slot index.
    spec fn map_sync(&self) -> bool {
        &&& forall|i: usize| #[trigger]
            self.order@.contains(i) ==> self.map@.contains_key(self.nodes@[i as int].key)
                && self.map@[self.nodes@[i as int].key] == i
        &&& forall|k: u64| #[trigger]
            self.map@.contains_key(k) ==> self.order@.contains(self.map@[k]) && self.map@[k]
                < self.nodes@.len() && self.nodes@[self.map@[k] as int].key == k
    }

    /// The free list holds valid arena indices, none of them occupied, none
    /// of them twice.
    spec fn free_ok(&self) -> bool {
        &&& forall|j: int|
            0 <= j < self.free@.len() ==> (#[trigger] self.free@[j]) < self.nodes@.len()
                && !self.order@.contains(self.free@[j])
        &&& forall|j1: int, j2: int|
            0 <= j1 < j2 < self.free@.len() ==> (#[trigger] self.free@[j1]) != (
            #[trigger] self.free@[j2])
    }

    /// The internal invariant: capacity is positive, the size counter, the
    /// arena, the links, the entry store and the free list all agree with
    /// the recency order.
    pub closed spec fn well_formed(&self) -> bool {
        &&& 1 <= self.capacity
        &&& self.size == self.order@.len()
        &&& self.order@.len() <= self.capacity
        &&& self.nodes@.len() <= self.capacity
        &&& self.links@.len() == self.nodes@.len()
        &&& self.order@.len() + self.free@.len() == self.nodes@.len()
        &&& self.index_bounds()
        &&& self.order_distinct()
        &&& self.links_ok()
        &&& self.keys_distinct()
        &&& self.map_sync()
        &&& self.free_ok()
    }

    /// Moves the occupied slot `idx` to the front of the recency order,
    /// patching its neighbours' links; a no-op when it is already the head.
    #[verifier::rlimit(30)]
    fn move_to_front(&mut self, idx: usize)
        requires
            old(self).well_formed(),
            old(self).order@.contains(idx),
        ensures
            final(self).well_formed(),
            final(self).capacity == old(self).capacity,
            final(self).map@ == old(self).map@,
            final(self).nodes@ == old(self).nodes@,
            final(self).free@ == old(self).free@,
            final(self).size == old(self).size,
            final(self).order@ == seq![idx] + old(self).order@.remove(
                position_of(old(self).order@, idx),
            ),
            final(self)@ == promote(old(self)@, position_of(old(self).order@, idx)),
    {
        proof {
            lemma_position_of(old(self).order@, idx);
        }
        let ghost ord0 = self.order@;
        let ghost p = position_of(ord0, idx);
        let ghost view0 = self@;

        if self.links[idx].prev == NIL {
            // `idx` has no predecessor, so it is already the head.
            proof {
                assert(p == 0) by {
                    if p != 0 {
                        assert(ord0[p - 1] < self.nodes@.len());
                    }
                }
                assert(self.order@ =~= seq![idx] + ord0.remove(p));
                assert(self@ =~= promote(view0, p)) by {
                    assert forall|q: int| 0 <= q < view0.len() implies promote(view0, p)[q]
                        == view0[q] by {}
                    assert(promote(view0, p) =~= view0);
                }
            }
            return ;
        }
        proof {
            assert(p != 0);
        }
        let prev_i = self.links[idx].prev;
        let next_i = self.links[idx].next;
        proof {
            assert(prev_i == ord0[p - 1]);
            if p < ord0.len() - 1 {
                assert(next_i == ord0[p + 1]);
                assert(next_i < self.nodes@.len());
            } else {
                assert(next_i == NIL);
            }
        }
        if next_i != NIL {
            self.links[next_i].prev = prev_i;
        } else {
            self.tail = prev_i;
        }
        self.links[prev_i].next = next_i;
        let old_head = self.head;
        proof {
            assert(old_head == ord0[0]);
        }
        self.links[idx] = Link { prev: NIL, next: old_head };
        self.links[old_head].prev = idx;
        self.head = idx;
        self.order = Ghost(seq![idx] + ord0.remove(p));

        proof {
            Self::lemma_move_to_front_reestablish(*old(self), *self, idx, p);
        }
    }

    /// After `move_to_front` has detached the slot `idx` (at position
    /// `p > 0`) and reattached it before the old head, the invariant holds
    /// again and the view is the old view with position `p` promoted.
    #[verifier::spinoff_prover]
    #[verifier::rlimit(30)]
    proof fn lemma_move_to_front_reestablish(c0: Self, c1: Self, idx: usize, p: int)
        requires
            c0.well_formed(),
            0 < p < c0.order@.len(),
            c0.order@[p] == idx,
            c1.capacity == c0.capacity,
            c1.size == c0.size,
            c1.map@ == c0.map@,
            c1.nodes@ == c0.nodes@,
            c1.free@ == c0.free@,
            c1.head == idx,
            c1.tail == (if p == c0.order@.len() - 1 {
                c0.order@[p - 1]
            } else {
                c0.tail
            }),
            c1.order@ == seq![idx] + c0.order@.remove(p),
            c1.links@.len() == c0.links@.len(),
            c1.links@[idx as int].prev == NIL,
            c1.links@[idx as int].next == c0.order@[0],
            c1.links@[c0.order@[0] as int].prev == idx,
            p > 1 ==> c1.links@[c0.order@[0] as int].next == c0.links@[c0.order@[0] as int].next,
            p > 1 ==> c1.links@[c0.order@[p - 1] as int].prev == c0.links@[c0.order@[p
                - 1] as int].prev,
            c1.links@[c0.order@[p - 1] as int].next == (if p == c0.order@.len() - 1 {
                NIL
            } else {
                c0.order@[p + 1]
            }),
            p < c0.order@.len() - 1 ==> c1.links@[c0.order@[p + 1] as int].prev == c0.order@[p - 1]
                && c1.links@[c0.order@[p + 1] as int].next == c0.links@[c0.order@[p + 1] as int].next,
            forall|i: int|
                0 <= i < c0.links@.len() && i != idx && i != c0.order@[0] && i != c0.order@[p - 1]
                    && (p == c0.order@.len() - 1 || i != c0.order@[p + 1]) ==> #[trigger] c1.links@[i]
                    == c0.links@[i],
        ensures
            c1.well_formed(),
            c1@ == promote(c0@, p),
    {
        let ord0 = c0.order@;
        let ord1 = c1.order@;
        let len = ord0.len() as int;
        assert(ord1.len() == len);
        assert(ord1[0] == idx);
        assert forall|q: int| 1 <= q <= p implies #[trigger] ord1[q] == ord0[q - 1] by {}
        assert forall|q: int| p < q < len implies #[trigger] ord1[q] == ord0[q] by {}
        lemma_promote_contains(ord0, p);

        // The order still addresses valid, pairwise distinct slots.
        assert(c1.index_bounds()) by {
            assert forall|q: int| 0 <= q < len implies (#[trigger] ord1[q])
                < c1.nodes@.len() by {
                if q == 0 {
                } else if q <= p {
                    assert(ord1[q] == ord0[q - 1]);
                } else {
                    assert(ord1[q] == ord0[q]);
                }
            }
        }
        assert(c1.order_distinct()) by {
            assert forall|q: int, r: int| 0 <= q < r < len implies (#[trigger] ord1[q]) != (
            #[trigger] ord1[r]) by {
                let q0 = if q == 0 {
                    p
                } else if q <= p {
                    q - 1
                } else {
                    q
                };
                let r0 = if r <= p {
                    r - 1
                } else {
                    r
                };
                assert(ord1[q] == ord0[q0]);
                assert(ord1[r] == ord0[r0]);
            }
        }

        // The links trace out the new order.
        assert(c1.links_ok()) by {
            assert forall|q: int| 0 <= q < len implies c1.links@[(#[trigger] ord1[q]) as int].prev
                == (if q == 0 {
                NIL
            } else {
                ord1[q - 1]
            }) by {
                if q == 0 {
                } else if q == 1 {
                    assert(ord1[q] == ord0[0]);
                } else if q <= p {
                    assert(ord1[q] == ord0[q - 1]);
                    assert(ord1[q - 1] == ord0[q - 2]);
                    assert(ord0[q - 1] != idx);
                    assert(ord0[q - 1] != ord0[0]);
                    if q < p {
                        assert(ord0[q - 1] != ord0[p - 1]);
                        if p < len - 1 {
                            assert(ord0[q - 1] != ord0[p + 1]);
                        }
                        assert(c1.links@[ord0[q - 1] as int] == c0.links@[ord0[q - 1] as int]);
                    }
                } else {
                    assert(ord1[q] == ord0[q]);
                    if q == p + 1 {
                        assert(ord1[q - 1] == ord0[p - 1]);
                    } else {
                        assert(ord1[q - 1] == ord0[q - 1]);
                        assert(ord0[q] != idx);
                        assert(ord0[q] != ord0[0]);
                        assert(ord0[q] != ord0[p - 1]);
                        if p < len - 1 {
                            assert(ord0[q] != ord0[p + 1]);
                        }
                        assert(c1.links@[ord0[q] as int] == c0.links@[ord0[q] as int]);
                    }
                }
            }
            assert forall|q: int| 0 <= q < len implies c1.links@[(#[trigger] ord1[q]) as int].next
                == (if q == len - 1 {
                NIL
            } else {
                ord1[q + 1]
            }) by {
                if q == 0 {
                } else if q == 1 && p == 1 {
                    assert(ord1[q] == ord0[0]);
                } else if q <= p {
                    assert(ord1[q] == ord0[q - 1]);
                    if q == p {
                        if q < len - 1 {
                            assert(ord1[q + 1] == ord0[p + 1]);
                        }
                    } else {
                        assert(ord1[q + 1] == ord0[q]);
                        if q == 1 {
                            assert(c1.links@[ord0[0] as int].next == c0.links@[ord0[
                                0] as int].next);
                        } else {
                            assert(ord0[q - 1] != idx);
                            assert(ord0[q - 1] != ord0[0]);
                            assert(ord0[q - 1] != ord0[p - 1]);
                            if p < len - 1 {
                                assert(ord0[q - 1] != ord0[p + 1]);
                            }
                            assert(c1.links@[ord0[q - 1] as int] == c0.links@[ord0[q
                                - 1] as int]);
                        }
                    }
                } else {
                    assert(ord1[q] == ord0[q]);
                    if q < len - 1 {
                        assert(ord1[q + 1] == ord0[q + 1]);
                    }
                    if q == p + 1 && p < len - 1 {
                        assert(c1.links@[ord0[p + 1] as int].next == c0.links@[ord0[
                            p + 1] as int].next);
                    } else {
                        assert(ord0[q] != idx);
                        assert(ord0[q] != ord0[0]);
                        assert(ord0[q] != ord0[p - 1]);
                        if p < len - 1 {
                            assert(ord0[q] != ord0[p + 1]);
                        }
                        assert(c1.links@[ord0[q] as int] == c0.links@[ord0[q] as int]);
                    }
                }
            }
        }

        // Membership of the order is unchanged, so the entry store, the key
        // distinctness and the free list are untouched.
        assert forall|i: usize| #[trigger] ord1.contains(i) implies ord0.contains(i) by {}
        assert forall|i: usize| ord0.contains(i) implies #[trigger] ord1.contains(i) by {}
        assert(c1.keys_distinct()) by {
            assert forall|i: usize, j: usize|
                #[trigger] ord1.contains(i) && #[trigger] ord1.contains(j) && i
                    != j implies c1.nodes@[i as int].key != c1.nodes@[j as int].key by {
                assert(ord0.contains(i));
                assert(ord0.contains(j));
            }
        }
        assert(c1.map_sync()) by {
            assert forall|i: usize| #[trigger]
                ord1.contains(i) implies c1.map@.contains_key(c1.nodes@[i as int].key)
                && c1.map@[c1.nodes@[i as int].key] == i by {
                assert(ord0.contains(i));
            }
            assert forall|k: u64| #[trigger]
                c1.map@.contains_key(k) implies ord1.contains(c1.map@[k]) && c1.map@[k]
                < c1.nodes@.len() && c1.nodes@[c1.map@[k] as int].key == k by {
                assert(c0.map@.contains_key(k));
                assert(ord0.contains(c0.map@[k]));
            }
        }
        assert(c1.free_ok()) by {
            assert forall|j: int| 0 <= j < c1.free@.len() implies (#[trigger] c1.free@[j])
                < c1.nodes@.len() && !ord1.contains(c1.free@[j]) by {
                assert(c0.free@[j] < c0.nodes@.len());
                assert(!ord0.contains(c0.free@[j]));
            }
        }

        // The new view is the old view with position `p` promoted.
        assert(c1@ =~= promote(c0@, p)) by {
            assert forall|q: int| 0 <= q < len implies c1@[q] == promote(c0@, p)[q] by {
                if q == 0 {
                } else if q <= p {
                    assert(ord1[q] == ord0[q - 1]);
                    assert(promote(c0@, p)[q] == c0@[q - 1]);
                } else {
                    assert(ord1[q] == ord0[q]);
                    assert(promote(c0@, p)[q] == c0@[q]);
                }
            }
        }
    }

    /// Removes the least-recently-used entry: unlinks the tail slot, takes
    /// its key out of the entry store and recycles the slot.
    fn evict_lru(&mut self)
        requires
            old(self).well_formed(),
            old(self).order@.len() > 0,
        ensures
            final(self).well_formed(),
            final(self).capacity == old(self).capacity,
            final(self).nodes@ == old(self).nodes@,
            final(self).size == old(self).size - 1,
            final(self).order@ == old(self).order@.drop_last(),
            final(self)@ == old(self)@.drop_last(),
            forall|k: u64|
                final(self).map@.contains_key(k) ==> old(self).map@.contains_key(k),
    {
        let ghost ord0 = self.order@;
        let ghost len = ord0.len() as int;
        let t = self.tail;
        proof {
            assert(t == ord0[len - 1]);
            assert(t < self.nodes@.len());
        }
        let key = self.nodes[t].key;
        self.map.remove(&key);
        let t_prev = self.links[t].prev;
        if t_prev == NIL {
            proof {
                assert(len == 1) by {
                    if len > 1 {
                        assert(ord0[len - 2] < self.nodes@.len());
                    }
                }
            }
            self.head = NIL;
            self.tail = NIL;
        } else {
            proof {
                assert(len > 1);
                assert(t_prev == ord0[len - 2]);
                assert(t_prev < self.nodes@.len());
            }
            self.tail = t_prev;
            self.links[t_prev].next = NIL;
        }
        self.free.push(t);
        self.size = self.size - 1;
        self.order = Ghost(ord0.drop_last());
        proof {
            Self::lemma_evict_reestablish(*old(self), *self);
        }
    }

    /// After `evict_lru` has unlinked the tail slot, removed its key from
    /// the entry store and pushed the slot onto the free list, the invariant
    /// holds again and the view has lost its last entry.
    #[verifier::spinoff_prover]
    #[verifier::rlimit(30)]
    proof fn lemma_evict_reestablish(c0: Self, c1: Self)
        requires
            c0.well_formed(),
            c0.order@.len() > 0,
            ({
                let len = c0.order@.len() as int;
                let t = c0.order@[len - 1];
                &&& c1.capacity == c0.capacity
                &&& c1.size == c0.size - 1
                &&& c1.nodes@ == c0.nodes@
                &&& c1.map@ == c0.map@.remove(c0.nodes@[t as int].key)
                &&& c1.free@ == c0.free@.push(t)
                &&& c1.order@ == c0.order@.drop_last()
                &&& c1.links@.len() == c0.links@.len()
                &&& (len == 1 ==> c1.head == NIL && c1.tail == NIL)
                &&& (len > 1 ==> c1.head == c0.head && c1.tail == c0.order@[len - 2]
                    && c1.links@[c0.order@[len - 2] as int].next == NIL && c1.links@[c0.order@[len
                    - 2] as int].prev == c0.links@[c0.order@[len - 2] as int].prev)
                &&& forall|i: int|
                    0 <= i < c0.links@.len() && (len == 1 || i != c0.order@[len - 2])
                        ==> #[trigger] c1.links@[i] == c0.links@[i]
            }),
        ensures
            c1.well_formed(),
            c1@ == c0@.drop_last(),
    {
        let ord0 = c0.order@;
        let ord1 = c1.order@;
        let len = ord0.len() as int;
        let t = ord0[len - 1];
        assert(ord1.len() == len - 1);
        assert forall|q: int| 0 <= q < len - 1 implies #[trigger] ord1[q] == ord0[q] by {}

        // Every element of the shortened order was in the old one, and the
        // dropped tail slot was not.
        assert forall|i: usize| #[trigger] ord1.contains(i) implies ord0.contains(i) && i != t by {
            let q = choose|q: int| 0 <= q < ord1.len() && ord1[q] == i;
            assert(ord0[q] == i);
        }

        assert(c1.index_bounds());
        assert(c1.order_distinct());
        assert(c1.links_ok()) by {
            if len > 1 {
                assert forall|q: int| 0 <= q < len - 1 implies c1.links@[(
                #[trigger] ord1[q]) as int].prev == (if q == 0 {
                    NIL
                } else {
                    ord1[q - 1]
                }) && c1.links@[(#[trigger] ord1[q]) as int].next == (if q == len - 2 {
                    NIL
                } else {
                    ord1[q + 1]
                }) by {
                    assert(ord1[q] == ord0[q]);
                    if q < len - 2 {
                        assert(ord0[q] != ord0[len - 2]);
                        assert(c1.links@[ord0[q] as int] == c0.links@[ord0[q] as int]);
                    }
                }
            }
        }
        assert(c1.keys_distinct()) by {
            assert forall|i: usize, j: usize|
                #[trigger] ord1.contains(i) && #[trigger] ord1.contains(j) && i
                    != j implies c1.nodes@[i as int].key != c1.nodes@[j as int].key by {
                assert(ord0.contains(i));
                assert(ord0.contains(j));
            }
        }
        assert(c1.map_sync()) by {
            assert forall|i: usize| #[trigger]
                ord1.contains(i) implies c1.map@.contains_key(c1.nodes@[i as int].key)
                && c1.map@[c1.nodes@[i as int].key] == i by {
                assert(ord0.contains(i));
                assert(ord0.contains(t)) by {
                    assert(ord0[len - 1] == t);
                }
                assert(c1.nodes@[i as int].key != c0.nodes@[t as int].key);
            }
            assert forall|k: u64| #[trigger]
                c1.map@.contains_key(k) implies ord1.contains(c1.map@[k]) && c1.map@[k]
                < c1.nodes@.len() && c1.nodes@[c1.map@[k] as int].key == k by {
                assert(c0.map@.contains_key(k));
                let i = c0.map@[k];
                assert(ord0.contains(i));
                let q = choose|q: int| 0 <= q < ord0.len() && ord0[q] == i;
                assert(k != c0.nodes@[t as int].key);
                assert(q != len - 1);
                assert(ord1[q] == i);
            }
        }
        assert(c1.free_ok()) by {
            assert(ord0.contains(t)) by {
                assert(ord0[len - 1] == t);
            }
            assert forall|j: int| 0 <= j < c1.free@.len() implies (#[trigger] c1.free@[j])
                < c1.nodes@.len() && !ord1.contains(c1.free@[j]) by {
                if j < c0.free@.len() {
                    assert(c1.free@[j] == c0.free@[j]);
                    assert(!ord0.contains(c0.free@[j]));
                } else {
                    assert(c1.free@[j] == t);
                    if ord1.contains(t) {
                        let q = choose|q: int| 0 <= q < ord1.len() && ord1[q] == t;
                        assert(ord0[q] == ord0[len - 1]);
                    }
                }
            }
            assert forall|j1: int, j2: int| 0 <= j1 < j2 < c1.free@.len() implies (
            #[trigger] c1.free@[j1]) != (#[trigger] c1.free@[j2]) by {
                if j2 == c0.free@.len() as int {
                    assert(c1.free@[j2] == t);
                    assert(!ord0.contains(c0.free@[j1]));
                }
            }
        }
        assert(c1@ =~= c0@.drop_last()) by {
            assert forall|q: int| 0 <= q < len - 1 implies c1@[q] == c0@[q] by {
                assert(ord1[q] == ord0[q]);
            }
        }
    }

    /// A well-formed cache never holds two entries with the same key, and
    /// never holds more entries than its capacity.
    pub proof fn lemma_well_formed_view(&self)
        requires
            self.well_formed(),
        ensures
            distinct_keys(self@),
            self@.len() <= self.cap(),
            1 <= self.cap(),
    {
        let ord = self.order@;
        assert forall|i: int, j: int|
            0 <= i < self@.len() && 0 <= j < self@.len() && i != j implies (#[trigger] self@[i]).0
            != (#[trigger] self@[j]).0 by {
            assert(ord.contains(ord[i]));
            assert(ord.contains(ord[j]));
            assert(ord[i] != ord[j]) by {
                if i < j {
                    assert(ord[i] != ord[j]);
                }
            }
        }
    }

    /// When the entry store knows `key`, its slot is occupied, carries `key`,
    /// and sits at the key's position in the view.
    proof fn lemma_hit(&self, key: u64)
        requires
            self.well_formed(),
            self.map@.contains_key(key),
        ensures
            ({
                let idx = self.map@[key];
                &&& self.order@.contains(idx)
                &&& idx < self.nodes@.len()
                &&& self.nodes@[idx as int].key == key
                &&& has_key(self@, key)
                &&& 0 <= key_index(self@, key) < self@.len()
                &&& key_index(self@, key) == position_of(self.order@, idx)
                &&& self.order@[key_index(self@, key)] == idx
                &&& self@[key_index(self@, key)] == (key, self.nodes@[idx as int].value)
            }),
    {
        let idx = self.map@[key];
        lemma_position_of(self.order@, idx);
        let p = position_of(self.order@, idx);
        assert(self@[p] == (key, self.nodes@[idx as int].value));
        self.lemma_well_formed_view();
        lemma_key_index_unique(self@, key, p);
    }

    /// When the entry store does not know `key`, neither does the view.
    proof fn lemma_miss(&self, key: u64)
        requires
            self.well_formed(),
            !self.map@.contains_key(key),
        ensures
            !has_key(self@, key),
    {
        if has_key(self@, key) {
            let q = choose|q: int| 0 <= q < self@.len() && self@[q].0 == key;
            assert(self.order@.contains(self.order@[q]));
        }
    }

    /// Overwriting the value of the occupied slot `idx` (at position `p` of
    /// the order) keeps the invariant and updates position `p` of the view.
    #[verifier::spinoff_prover]
    proof fn lemma_update_value_reestablish(c0: Self, c1: Self, idx: usize, p: int)
        requires
            c0.well_formed(),
            0 <= p < c0.order@.len(),
            c0.order@[p] == idx,
            c1.capacity == c0.capacity,
            c1.size == c0.size,
            c1.map@ == c0.map@,
            c1.links@ == c0.links@,
            c1.free@ == c0.free@,
            c1.order@ == c0.order@,
            c1.head == c0.head,
            c1.tail == c0.tail,
            c1.nodes@.len() == c0.nodes@.len(),
            c1.nodes@[idx as int].key == c0.nodes@[idx as int].key,
            forall|i: int|
                0 <= i < c0.nodes@.len() && i != idx ==> #[trigger] c1.nodes@[i] == c0.nodes@[i],
        ensures
            c1.well_formed(),
            c1@ == c0@.update(p, (c0.nodes@[idx as int].key, c1.nodes@[idx as int].value)),
    {
        let ord = c0.order@;
        assert(c1.keys_distinct()) by {
            assert forall|i: usize, j: usize|
                #[trigger] ord.contains(i) && #[trigger] ord.contains(j) && i
                    != j implies c1.nodes@[i as int].key != c1.nodes@[j as int].key by {
                assert(c1.nodes@[i as int].key == c0.nodes@[i as int].key);
                assert(c1.nodes@[j as int].key == c0.nodes@[j as int].key);
            }
        }
        assert(c1.map_sync()) by {
            assert forall|i: usize| #[trigger]
                ord.contains(i) implies c1.map@.contains_key(c1.nodes@[i as int].key)
                && c1.map@[c1.nodes@[i as int].key] == i by {
                assert(c1.nodes@[i as int].key == c0.nodes@[i as int].key);
            }
            assert forall|k: u64| #[trigger]
                c1.map@.contains_key(k) implies ord.contains(c1.map@[k]) && c1.map@[k]
                < c1.nodes@.len() && c1.nodes@[c1.map@[k] as int].key == k by {
                assert(ord.contains(c0.map@[k]));
                assert(c1.nodes@[c0.map@[k] as int].key == c0.nodes@[c0.map@[k] as int].key);
            }
        }
        assert(c1@ =~= c0@.update(p, (c0.nodes@[idx as int].key, c1.nodes@[idx as int].value)))
            by {
            assert forall|q: int| 0 <= q < ord.len() && q != p implies c1@[q] == c0@[q] by {
                assert(ord[q] != idx) by {
                    if q < p {
                        assert(ord[q] != ord[p]);
                    }
                }
                assert(c1.nodes@[ord[q] as int] == c0.nodes@[ord[q] as int]);
            }
            assert(c1@[p] == (c0.nodes@[idx as int].key, c1.nodes@[idx as int].value));
        }
    }

    /// After a fresh key's slot has been linked in before the old head, the
    /// invariant holds again and the view has gained a first entry.
    #[verifier::spinoff_prover]
    #[verifier::rlimit(30)]
    proof fn lemma_push_front_reestablish(c0: Self, c1: Self, idx: usize, key: u64)
        requires
            c0.well_formed(),
            c0.order@.len() < c0.capacity,
            !c0.map@.contains_key(key),
            !c0.order@.contains(idx),
            idx < c1.nodes@.len(),
            c1.capacity == c0.capacity,
            c1.size == c0.size + 1,
            c1.map@ == c0.map@.insert(key, idx),
            c1.order@ == seq![idx] + c0.order@,
            c1.head == idx,
            c1.tail == (if c0.order@.len() == 0 {
                idx
            } else {
                c0.tail
            }),
            c1.nodes@.len() == c1.links@.len(),
            c1.nodes@.len() <= c0.capacity,
            c0.nodes@.len() <= c1.nodes@.len(),
            c1.nodes@[idx as int].key == key,
            forall|i: int|
                0 <= i < c0.nodes@.len() && i != idx ==> #[trigger] c1.nodes@[i] == c0.nodes@[i],
            c1.links@[idx as int].prev == NIL,
            c1.links@[idx as int].next == (if c0.order@.len() == 0 {
                NIL
            } else {
                c0.order@[0]
            }),
            c0.order@.len() > 0 ==> c1.links@[c0.order@[0] as int].prev == idx
                && c1.links@[c0.order@[0] as int].next == c0.links@[c0.order@[0] as int].next,
            forall|i: int|
                0 <= i < c0.links@.len() && i != idx && (c0.order@.len() == 0 || i != c0.order@[0])
                    ==> #[trigger] c1.links@[i] == c0.links@[i],
            forall|j: int|
                0 <= j < c1.free@.len() ==> (#[trigger] c1.free@[j]) < c1.nodes@.len()
                    && !c0.order@.contains(c1.free@[j]) && c1.free@[j] != idx,
            forall|j1: int, j2: int|
                0 <= j1 < j2 < c1.free@.len() ==> (#[trigger] c1.free@[j1]) != (
                #[trigger] c1.free@[j2]),
            c1.order@.len() + c1.free@.len() == c1.nodes@.len(),
        ensures
            c1.well_formed(),
            c1@ == seq![(key, c1.nodes@[idx as int].value)] + c0@,
    {
        let ord0 = c0.order@;
        let ord1 = c1.order@;
        let len = ord0.len() as int;
        assert(ord1.len() == len + 1);
        assert(ord1[0] == idx);
        assert forall|q: int| 1 <= q <= len implies #[trigger] ord1[q] == ord0[q - 1] by {}
        lemma_cons_contains(ord0, idx);

        // A fresh key differs from the key of every occupied slot.
        assert forall|i: usize| #[trigger] ord0.contains(i) implies c0.nodes@[i as int].key
            != key by {}

        assert(c1.index_bounds()) by {
            assert forall|q: int| 0 <= q < len + 1 implies (#[trigger] ord1[q])
                < c1.nodes@.len() by {
                if q > 0 {
                    assert(ord1[q] == ord0[q - 1]);
                }
            }
        }
        assert(c1.order_distinct()) by {
            assert forall|q: int, r: int| 0 <= q < r < len + 1 implies (#[trigger] ord1[q]) != (
            #[trigger] ord1[r]) by {
                assert(ord1[r] == ord0[r - 1]);
                assert(ord0.contains(ord0[r - 1]));
                if q > 0 {
                    assert(ord1[q] == ord0[q - 1]);
                }
            }
        }
        assert(c1.links_ok()) by {
            assert forall|q: int| 0 <= q < len + 1 implies c1.links@[(
            #[trigger] ord1[q]) as int].prev == (if q == 0 {
                NIL
            } else {
                ord1[q - 1]
            }) && c1.links@[(#[trigger] ord1[q]) as int].next == (if q == len {
                NIL
            } else {
                ord1[q + 1]
            }) by {
                if q == 1 {
                    assert(ord1[q] == ord0[0]);
                } else if q > 1 {
                    assert(ord1[q] == ord0[q - 1]);
                    assert(ord0.contains(ord0[q - 1]));
                    assert(ord0[q - 1] != ord0[0]);
                    assert(c1.links@[ord0[q - 1] as int] == c0.links@[ord0[q - 1] as int]);
                }
            }
        }
        assert(c1.keys_distinct()) by {
            assert forall|i: usize, j: usize|
                #[trigger] ord1.contains(i) && #[trigger] ord1.contains(j) && i
                    != j implies c1.nodes@[i as int].key != c1.nodes@[j as int].key by {
                if i != idx && j != idx {
                    assert(ord0.contains(i));
                    assert(ord0.contains(j));
                    assert(c1.nodes@[i as int] == c0.nodes@[i as int]);
                    assert(c1.nodes@[j as int] == c0.nodes@[j as int]);
                } else if i == idx {
                    assert(ord0.contains(j));
                    assert(c1.nodes@[j as int] == c0.nodes@[j as int]);
                } else {
                    assert(ord0.contains(i));
                    assert(c1.nodes@[i as int] == c0.nodes@[i as int]);
                }
            }
        }
        assert(c1.map_sync()) by {
            assert forall|i: usize| #[trigger]
                ord1.contains(i) implies c1.map@.contains_key(c1.nodes@[i as int].key)
                && c1.map@[c1.nodes@[i as int].key] == i by {
                if i != idx {
                    assert(ord0.contains(i));
                    assert(c1.nodes@[i as int] == c0.nodes@[i as int]);
                    assert(c0.nodes@[i as int].key != key);
                }
            }
            assert forall|k: u64| #[trigger]
                c1.map@.contains_key(k) implies ord1.contains(c1.map@[k]) && c1.map@[k]
                < c1.nodes@.len() && c1.nodes@[c1.map@[k] as int].key == k by {
                if k != key {
                    assert(c0.map@.contains_key(k));
                    assert(ord0.contains(c0.map@[k]));
                    assert(c1.nodes@[c0.map@[k] as int] == c0.nodes@[c0.map@[k] as int]);
                }
            }
        }
        assert(c1.free_ok()) by {
            assert forall|j: int| 0 <= j < c1.free@.len() implies (#[trigger] c1.free@[j])
                < c1.nodes@.len() && !ord1.contains(c1.free@[j]) by {}
        }
        assert(c1@ =~= seq![(key, c1.nodes@[idx as int].value)] + c0@) by {
            assert forall|q: int| 0 <= q < len + 1 implies c1@[q] == (seq![
                (key, c1.nodes@[idx as int].value),
            ] + c0@)[q] by {
                if q > 0 {
                    assert(ord1[q] == ord0[q - 1]);
                    assert(ord0.contains(ord0[q - 1]));
                    assert(c1.nodes@[ord0[q - 1] as int] == c0.nodes@[ord0[q - 1] as int]);
                }
            }
        }
    }

    /// Builds an empty cache; a zero capacity is a caller misconfiguration
    /// and is rejected.
    pub fn new(capacity: usize) -> (result: Result<LruCache<V>, CacheError>)
        ensures
            result is Ok <==> capacity > 0,
            result matches Ok(cache) ==> cache.well_formed() && cache@ == Seq::<(u64, V)>::empty()
                && cache.cap() == capacity,
            result matches Err(e) ==> e == CacheError::ZeroCapacity,
    {
        if capacity == 0 {
            return Err(CacheError::ZeroCapacity);
        }
        let cache = LruCache {
            capacity,
            map: HashMap::new(),
            nodes: Vec::new(),
            links: Vec::new(),
            head: NIL,
            tail: NIL,
            size: 0,
            free: Vec::new(),
            order: Ghost(Seq::empty()),
        };
        proof {
            assert(cache@ =~= Seq::<(u64, V)>::empty());
        }
        Ok(cache)
    }

    /// Inserts or updates the entry for `key`, making it the most recent.
    /// An existing entry is overwritten in place; a new entry is prepended,
    /// and when the cache was full the least-recently-used entry is evicted
    /// to make room.
    #[verifier::rlimit(30)]
    pub fn put(&mut self, key: u64, value: V)
        requires
            old(self).well_formed(),
        ensures
            final(self).well_formed(),
            final(self).cap() == old(self).cap(),
            final(self)@ == spec_put(old(self)@, old(self).cap() as int, key, value),
            final(self)@.len() <= final(self).cap(),
            final(self)@[0] == (key, value),
            has_key(final(self)@, key),
    {
        let ghost view0 = self@;
        let ghost cap = self.capacity as int;
        let idx_opt: Option<usize> = match self.map.get(&key) {
            Some(i) => Some(*i),
            None => None,
        };
        if let Some(idx) = idx_opt {
            proof {
                self.lemma_hit(key);
            }
            let ghost p = key_index(view0, key);
            self.nodes[idx].value = value;
            proof {
                Self::lemma_update_value_reestablish(*old(self), *self, idx, p);
            }
            self.move_to_front(idx);
            proof {
                let mid_view = view0.update(p, (key, value));
                assert(self@ == seq![(key, value)] + mid_view.remove(p));
                assert(mid_view.remove(p) =~= view0.remove(p)) by {
                    assert forall|q: int| 0 <= q < view0.len() - 1 implies mid_view.remove(p)[q]
                        == view0.remove(p)[q] by {}
                }
                assert(self@ == spec_put(view0, cap, key, value));
                assert(self@[0] == (key, value));
            }
        } else {
            proof {
                self.lemma_miss(key);
            }
            if self.size == self.capacity {
                self.evict_lru();
            }
            let ghost mid = *self;
            proof {
                assert(mid.order@.len() < mid.capacity);
                assert(!mid.map@.contains_key(key));
            }
            let node = LruNode::new(key, value);
            let next0 = self.head;
            let idx: usize;
            match self.free.pop() {
                Some(i) => {
                    proof {
                        assert(mid.free@[mid.free@.len() - 1] == i);
                        assert(i < self.nodes@.len());
                    }
                    idx = i;
                    self.nodes[i] = node;
                    self.links[i] = Link { prev: NIL, next: next0 };
                },
                None => {
                    idx = self.nodes.len();
                    self.nodes.push(node);
                    self.links.push(Link { prev: NIL, next: next0 });
                },
            }
            if next0 != NIL {
                proof {
                    assert(mid.order@.len() > 0) by {
                        if mid.order@.len() == 0 {
                            assert(mid.head == NIL);
                        }
                    }
                    assert(next0 == mid.order@[0]);
                    assert(next0 < mid.nodes@.len());
                    assert(next0 != idx);
                }
                self.links[next0].prev = idx;
            } else {
                proof {
                    assert(mid.order@.len() == 0) by {
                        if mid.order@.len() > 0 {
                            assert(mid.order@[0] < mid.nodes@.len());
                        }
                    }
                }
                self.tail = idx;
            }
            self.head = idx;
            self.map.insert(key, idx);
            self.size = self.size + 1;
            self.order = Ghost(seq![idx] + mid.order@);
            proof {
                assert forall|j: int| 0 <= j < self.free@.len() implies (#[trigger] self.free@[j])
                    < self.nodes@.len() && !mid.order@.contains(self.free@[j]) && self.free@[j]
                    != idx by {
                    assert(self.free@[j] == mid.free@[j]);
                    assert(mid.free@[j] < mid.nodes@.len());
                    assert(!mid.order@.contains(mid.free@[j]));
                }
                Self::lemma_push_front_reestablish(mid, *self, idx, key);
                assert(self@ == seq![(key, value)] + mid@);
                if view0.len() < cap {
                    assert(mid@ == view0);
                } else {
                    assert(mid@ == view0.drop_last());
                }
                assert(self@ == spec_put(view0, cap, key, value));
                assert(self@[0] == (key, value));
            }
        }
    }

    /// Looks up `key`. A hit promotes the entry to most-recently-used and
    /// returns a reference to its value; a miss changes nothing.
    pub fn get(&mut self, key: u64) -> (result: Option<&V>)
        requires
            old(self).well_formed(),
        ensures
            final(self).well_formed(),
            final(self).cap() == old(self).cap(),
            match result {
                Some(v) => {
                    &&& has_key(old(self)@, key)
                    &&& final(self)@ == promote(old(self)@, key_index(old(self)@, key))
                    &&& *v == value_of(old(self)@, key)
                    &&& final(self)@[0] == (key, *v)
                },
                None => {
                    &&& !has_key(old(self)@, key)
                    &&& final(self)@ == old(self)@
                },
            },
    {
        let idx_opt: Option<usize> = match self.map.get(&key) {
            Some(i) => Some(*i),
            None => None,
        };
        if let Some(idx) = idx_opt {
            proof {
                self.lemma_hit(key);
            }
            self.move_to_front(idx);
            Some(&self.nodes[idx].value)
        } else {
            proof {
                self.lemma_miss(key);
            }
            None
        }
    }

    /// How many entries the cache currently holds.
    pub fn len(&self) -> (n: usize)
        requires
            self.well_formed(),
        ensures
            n == self@.len(),
    {
        self.size
    }

    /// Whether the cache currently holds no entry.
    pub fn is_empty(&self) -> (empty: bool)
        requires
            self.well_formed(),
        ensures
            empty == (self@.len() == 0),
    {
        self.size == 0
    }
}

/// Walks the recency order from most to least recent and collects the
/// entries, so `contents@ == cache@`: the first pair is the most recently
/// used entry, the last is the next eviction candidate.
pub fn get_cache_contents<V: Copy>(cache: &LruCache<V>) -> (contents: Vec<(u64, V)>)
    requires
        cache.well_formed(),
    ensures
        contents@ == cache@,
{
    let ghost ord = cache.order@;
    let mut contents: Vec<(u64, V)> = Vec::new();
    let mut cur = cache.head;
    proof {
        assert(cache@.take(0) =~= contents@);
    }
    while cur != NIL
        invariant
            cache.well_formed(),
            ord == cache.order@,
            contents@.len() <= ord.len(),
            contents@ == cache@.take(contents@.len() as int),
            cur == (if contents@.len() == ord.len() {
                NIL
            } else {
                ord[contents@.len() as int]
            }),
        decreases ord.len() - contents@.len(),
    {
        let ghost k = contents@.len() as int;
        proof {
            assert(k < ord.len()) by {
                if k == ord.len() {
                    assert(cur == NIL);
                }
            }
            assert(cur == ord[k]);
            assert(cur < cache.nodes@.len());
        }
        contents.push((cache.nodes[cur].key, cache.nodes[cur].value));
        cur = cache.links[cur].next;
        proof {
            assert(contents@ =~= cache@.take(k + 1));
        }
    }
    proof {
        assert(contents@.len() == ord.len()) by {
            if contents@.len() < ord.len() {
                assert(ord[contents@.len() as int] < cache.nodes@.len());
            }
        }
        assert(cache@.take(ord.len() as int) =~= cache@);
    }
    contents
}

} // verus!
