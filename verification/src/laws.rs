//! Laws of the cache's abstract model.
//!
//! The public operations of [`crate::cache::LruCache`] describe their effect
//! on the abstract state — a sequence of key-value pairs in recency order —
//! through [`spec_put`] and [`promote`]. The proof functions here state the
//! guarantees an LRU cache owes its callers as consequences of those two
//! transitions alone: the capacity bound, which keys survive a run of
//! insertions, what a promotion preserves, and how updates and round trips
//! behave.

use crate::cache::{distinct_keys, has_key, key_index, lemma_key_index_unique, promote, spec_put, value_of};
use vstd::prelude::*;

verus! {

/// Promoting position `i` keeps the length, the key set, every key's value
/// and the distinctness of keys; the promoted pair moves to the front.
pub proof fn lemma_promote_properties<V>(s: Seq<(u64, V)>, i: int)
    requires
        distinct_keys(s),
        0 <= i < s.len(),
    ensures
        ({
            let r = promote(s, i);
            &&& r.len() == s.len()
            &&& distinct_keys(r)
            &&& r[0] == s[i]
            &&& forall|k: u64| has_key(r, k) <==> has_key(s, k)
            &&& forall|k: u64| has_key(s, k) ==> value_of(r, k) == value_of(s, k)
        }),
{
    let r = promote(s, i);
    assert(r.len() == s.len());
    assert forall|q: int| 1 <= q <= i implies #[trigger] r[q] == s[q - 1] by {}
    assert forall|q: int| i < q < s.len() implies #[trigger] r[q] == s[q] by {}

    // Each position of `r` holds a pair of `s`, at a mapped position.
    assert forall|q: int| 0 <= q < r.len() implies #[trigger] r[q] == s[map_back(q, i)] && 0
        <= map_back(q, i) < s.len() by {}
    // The mapping is injective, so distinctness carries over.
    assert forall|q1: int, q2: int|
        0 <= q1 < r.len() && 0 <= q2 < r.len() && q1 != q2 implies (#[trigger] r[q1]).0 != (
    #[trigger] r[q2]).0 by {
        assert(map_back(q1, i) != map_back(q2, i));
        assert(s[map_back(q1, i)].0 != s[map_back(q2, i)].0);
    }
    assert(distinct_keys(r));

    assert forall|k: u64| #[trigger] has_key(r, k) implies has_key(s, k) by {
        let q = choose|q: int| 0 <= q < r.len() && r[q].0 == k;
        assert(s[map_back(q, i)].0 == k);
    }
    assert forall|k: u64| #[trigger] has_key(s, k) implies has_key(r, k) by {
        let q = choose|q: int| 0 <= q < s.len() && s[q].0 == k;
        if q == i {
            assert(r[0].0 == k);
        } else if q < i {
            assert(r[q + 1].0 == k);
        } else {
            assert(r[q].0 == k);
        }
    }
    assert forall|k: u64| #[trigger] has_key(s, k) implies value_of(r, k) == value_of(s, k) by {
        let qs = key_index(s, k);
        assert(0 <= qs < s.len() && s[qs].0 == k);
        let qr = if qs == i {
            0
        } else if qs < i {
            qs + 1
        } else {
            qs
        };
        assert(r[qr] == s[qs]);
        lemma_key_index_unique(r, k, qr);
    }
}

/// Where position `q` of `promote(s, i)` came from in `s`.
spec fn map_back(q: int, i: int) -> int {
    if q == 0 {
        i
    } else if q <= i {
        q - 1
    } else {
        q
    }
}

/// What one `put` does to a valid state: the new pair sits at the front
/// under its key alone, the length respects the capacity, every other
/// surviving key keeps the value it had, and keys stay distinct.
pub proof fn lemma_spec_put_properties<V>(s: Seq<(u64, V)>, cap: int, key: u64, value: V)
    requires
        distinct_keys(s),
        s.len() <= cap,
        1 <= cap,
    ensures
        ({
            let r = spec_put(s, cap, key, value);
            &&& distinct_keys(r)
            &&& 1 <= r.len() <= cap
            &&& r[0] == (key, value)
            &&& has_key(r, key)
            &&& key_index(r, key) == 0
            &&& value_of(r, key) == value
            &&& (has_key(s, key) ==> r.len() == s.len())
            &&& (!has_key(s, key) && s.len() < cap ==> r.len() == s.len() + 1)
            &&& (!has_key(s, key) && s.len() == cap ==> r.len() == cap)
            &&& forall|k2: u64|
                k2 != key && #[trigger] has_key(r, k2) ==> has_key(s, k2) && value_of(r, k2)
                    == value_of(s, k2)
        }),
{
    let r = spec_put(s, cap, key, value);
    let rest = r.subrange(1, r.len() as int);

    // Whatever branch `spec_put` took, every pair of `r` after the front is
    // a pair of `s` whose key is not `key`.
    assert forall|q: int| 1 <= q < r.len() implies exists|q0: int|
        0 <= q0 < s.len() && s[q0] == #[trigger] r[q] && s[q0].0 != key by {
        if has_key(s, key) {
            let i = key_index(s, key);
            assert(0 <= i < s.len() && s[i].0 == key);
            let q0 = if q - 1 < i {
                q - 1
            } else {
                q
            };
            assert(s[q0] == r[q]);
            assert(s[q0].0 != key) by {
                assert(s[q0].0 != s[i].0);
            }
        } else {
            let q0 = q - 1;
            assert(s[q0] == r[q]);
            assert(s[q0].0 != key) by {
                if s[q0].0 == key {
                    assert(has_key(s, key));
                }
            }
        }
    }
    assert(r[0] == (key, value));

    // Distinctness: the front key occurs nowhere else, and two later
    // positions came from distinct positions of `s`.
    assert forall|q1: int, q2: int|
        0 <= q1 < r.len() && 0 <= q2 < r.len() && q1 != q2 implies (#[trigger] r[q1]).0 != (
    #[trigger] r[q2]).0 by {
        if q1 != 0 && q2 != 0 {
            if has_key(s, key) {
                let i = key_index(s, key);
                let q01 = if q1 - 1 < i {
                    q1 - 1
                } else {
                    q1
                };
                let q02 = if q2 - 1 < i {
                    q2 - 1
                } else {
                    q2
                };
                assert(s[q01] == r[q1]);
                assert(s[q02] == r[q2]);
                assert(s[q01].0 != s[q02].0);
            } else {
                assert(s[q1 - 1] == r[q1]);
                assert(s[q2 - 1] == r[q2]);
                assert(s[q1 - 1].0 != s[q2 - 1].0);
            }
        } else {
            let q = if q1 == 0 {
                q2
            } else {
                q1
            };
            let q0 = choose|q0: int| 0 <= q0 < s.len() && s[q0] == r[q] && s[q0].0 != key;
            assert(r[q].0 != key);
        }
    }
    assert(distinct_keys(r));
    lemma_key_index_unique(r, key, 0);

    assert forall|k2: u64| k2 != key && #[trigger] has_key(r, k2) implies has_key(s, k2)
        && value_of(r, k2) == value_of(s, k2) by {
        let q = key_index(r, k2);
        assert(0 <= q < r.len() && r[q].0 == k2);
        assert(q != 0);
        let q0 = choose|q0: int| 0 <= q0 < s.len() && s[q0] == r[q] && s[q0].0 != key;
        lemma_key_index_unique(s, k2, q0);
        assert(value_of(s, k2) == s[q0].1);
        assert(value_of(r, k2) == r[q].1);
    }
}

/// Capacity bound: a `put` on a state within capacity yields a state within
/// capacity, so no sequence of `put` calls ever exceeds it.
pub proof fn lemma_capacity_bound<V>(s: Seq<(u64, V)>, cap: int, key: u64, value: V)
    requires
        distinct_keys(s),
        s.len() <= cap,
        1 <= cap,
    ensures
        spec_put(s, cap, key, value).len() <= cap,
{
    lemma_spec_put_properties(s, cap, key, value);
}

/// The state after `put`-ing each pair of `entries` in order, starting from
/// `s`.
pub open spec fn put_all<V>(s: Seq<(u64, V)>, cap: int, entries: Seq<(u64, V)>) -> Seq<(u64, V)>
    decreases entries.len(),
{
    if entries.len() == 0 {
        s
    } else {
        spec_put(put_all(s, cap, entries.drop_last()), cap, entries.last().0, entries.last().1)
    }
}

/// Putting pairwise-distinct fresh keys into an empty cache keeps exactly
/// the most recent `cap` of them, in reverse insertion order.
pub proof fn lemma_put_all_fresh_keys<V>(entries: Seq<(u64, V)>, cap: int)
    requires
        1 <= cap,
        distinct_keys(entries),
    ensures
        ({
            let r = put_all(Seq::<(u64, V)>::empty(), cap, entries);
            &&& r.len() == (if entries.len() <= cap {
                entries.len() as int
            } else {
                cap
            })
            &&& distinct_keys(r)
            &&& forall|q: int| 0 <= q < r.len() ==> #[trigger] r[q] == entries[entries.len() - 1 - q]
        }),
    decreases entries.len(),
{
    let r = put_all(Seq::<(u64, V)>::empty(), cap, entries);
    if entries.len() == 0 {
        assert(r.len() == 0);
    } else {
        let front = entries.drop_last();
        let last = entries.last();
        let r0 = put_all(Seq::<(u64, V)>::empty(), cap, front);
        assert(distinct_keys(front)) by {
            assert forall|i: int, j: int|
                0 <= i < front.len() && 0 <= j < front.len() && i != j implies (
            #[trigger] front[i]).0 != (#[trigger] front[j]).0 by {
                assert(front[i] == entries[i]);
                assert(front[j] == entries[j]);
            }
        }
        lemma_put_all_fresh_keys(front, cap);
        assert(!has_key(r0, last.0)) by {
            if has_key(r0, last.0) {
                let q = choose|q: int| 0 <= q < r0.len() && r0[q].0 == last.0;
                assert(r0[q] == entries[front.len() - 1 - q]);
                assert(entries[front.len() - 1 - q].0 != entries[entries.len() - 1].0);
            }
        }
        lemma_spec_put_properties(r0, cap, last.0, last.1);
        assert(r == spec_put(r0, cap, last.0, last.1));
        if r0.len() < cap {
            assert(r =~= seq![last] + r0);
            assert forall|q: int| 0 <= q < r.len() implies #[trigger] r[q] == entries[entries.len()
                - 1 - q] by {
                if q > 0 {
                    assert(r[q] == r0[q - 1]);
                    assert(r0[q - 1] == entries[front.len() - 1 - (q - 1)]);
                }
            }
        } else {
            assert(r =~= seq![last] + r0.drop_last());
            assert forall|q: int| 0 <= q < r.len() implies #[trigger] r[q] == entries[entries.len()
                - 1 - q] by {
                if q > 0 {
                    assert(r[q] == r0[q - 1]);
                    assert(r0[q - 1] == entries[front.len() - 1 - (q - 1)]);
                }
            }
        }
    }
}

/// Recency correctness: after `cap + 1` puts of distinct fresh keys into an
/// empty cache, the first key has been evicted and all later ones are
/// present.
pub proof fn lemma_recency_correctness<V>(entries: Seq<(u64, V)>, cap: int)
    requires
        1 <= cap,
        entries.len() == cap + 1,
        distinct_keys(entries),
    ensures
        ({
            let r = put_all(Seq::<(u64, V)>::empty(), cap, entries);
            &&& !has_key(r, entries[0].0)
            &&& forall|j: int| 1 <= j < entries.len() ==> has_key(r, #[trigger] entries[j].0)
        }),
{
    let r = put_all(Seq::<(u64, V)>::empty(), cap, entries);
    lemma_put_all_fresh_keys(entries, cap);
    assert(!has_key(r, entries[0].0)) by {
        if has_key(r, entries[0].0) {
            let q = choose|q: int| 0 <= q < r.len() && r[q].0 == entries[0].0;
            assert(r[q] == entries[entries.len() - 1 - q]);
            assert(entries.len() - 1 - q != 0);
            assert(entries[entries.len() - 1 - q].0 != entries[0].0);
        }
    }
    assert forall|j: int| 1 <= j < entries.len() implies has_key(r, #[trigger] entries[j].0) by {
        let q = entries.len() - 1 - j;
        assert(r[q] == entries[j]);
    }
}

/// Eviction order: with capacity 3 and four puts of distinct fresh keys,
/// the first key is evicted and the final state is exactly the last three
/// pairs, most recent first.
pub proof fn lemma_eviction_order<V>(entries: Seq<(u64, V)>)
    requires
        entries.len() == 4,
        distinct_keys(entries),
    ensures
        ({
            let r = put_all(Seq::<(u64, V)>::empty(), 3, entries);
            &&& r == seq![entries[3], entries[2], entries[1]]
            &&& !has_key(r, entries[0].0)
        }),
{
    let r = put_all(Seq::<(u64, V)>::empty(), 3, entries);
    lemma_put_all_fresh_keys(entries, 3);
    lemma_recency_correctness(entries, 3);
    assert(r =~= seq![entries[3], entries[2], entries[1]]);
}

/// Promotion on read: with capacity 2 and entries for `a` then `b`, reading
/// `a` and then putting a fresh key `c` evicts `b`, not `a`, because the
/// read promoted `a` to most recent.
pub proof fn lemma_promotion_on_read<V>(ka: u64, va: V, kb: u64, vb: V, kc: u64, vc: V)
    requires
        ka != kb,
        ka != kc,
        kb != kc,
    ensures
        ({
            let s0 = Seq::<(u64, V)>::empty();
            let s1 = spec_put(s0, 2, ka, va);
            let s2 = spec_put(s1, 2, kb, vb);
            let s3 = promote(s2, key_index(s2, ka));
            let s4 = spec_put(s3, 2, kc, vc);
            &&& has_key(s2, ka) && has_key(s2, kb)
            &&& s4 == seq![(kc, vc), (ka, va)]
            &&& has_key(s4, ka) && has_key(s4, kc)
            &&& !has_key(s4, kb)
        }),
{
    let s0 = Seq::<(u64, V)>::empty();
    let s1 = spec_put(s0, 2, ka, va);
    assert(!has_key(s0, ka));
    assert(s1 =~= seq![(ka, va)]);
    let s2 = spec_put(s1, 2, kb, vb);
    assert(!has_key(s1, kb)) by {
        if has_key(s1, kb) {
            let q = choose|q: int| 0 <= q < s1.len() && s1[q].0 == kb;
        }
    }
    assert(s2 =~= seq![(kb, vb), (ka, va)]);
    assert(distinct_keys(s2));
    lemma_key_index_unique(s2, ka, 1);
    let s3 = promote(s2, key_index(s2, ka));
    assert(s3 =~= seq![(ka, va), (kb, vb)]);
    assert(distinct_keys(s3));
    let s4 = spec_put(s3, 2, kc, vc);
    assert(!has_key(s3, kc)) by {
        if has_key(s3, kc) {
            let q = choose|q: int| 0 <= q < s3.len() && s3[q].0 == kc;
        }
    }
    assert(s4 =~= seq![(kc, vc)] + s3.drop_last());
    assert(s4 =~= seq![(kc, vc), (ka, va)]);
    assert(has_key(s4, ka)) by {
        assert(s4[1].0 == ka);
    }
    assert(has_key(s4, kc)) by {
        assert(s4[0].0 == kc);
    }
    assert(!has_key(s4, kb)) by {
        if has_key(s4, kb) {
            let q = choose|q: int| 0 <= q < s4.len() && s4[q].0 == kb;
        }
    }
    assert(has_key(s2, ka)) by {
        assert(s2[1].0 == ka);
    }
    assert(has_key(s2, kb)) by {
        assert(s2[0].0 == kb);
    }
}

/// Update in place: putting `key` twice leaves one entry for it, holding
/// the second value, and the second put does not change the length.
pub proof fn lemma_update_in_place<V>(s: Seq<(u64, V)>, cap: int, key: u64, v1: V, v2: V)
    requires
        distinct_keys(s),
        s.len() <= cap,
        1 <= cap,
    ensures
        ({
            let s1 = spec_put(s, cap, key, v1);
            let s2 = spec_put(s1, cap, key, v2);
            &&& s2.len() == s1.len()
            &&& has_key(s2, key)
            &&& value_of(s2, key) == v2
            &&& distinct_keys(s2)
        }),
{
    let s1 = spec_put(s, cap, key, v1);
    lemma_spec_put_properties(s, cap, key, v1);
    let s2 = spec_put(s1, cap, key, v2);
    lemma_spec_put_properties(s1, cap, key, v2);
}

/// Round trip: putting back the value just read for a present key changes
/// neither that value nor the length.
pub proof fn lemma_round_trip<V>(s: Seq<(u64, V)>, cap: int, key: u64)
    requires
        distinct_keys(s),
        s.len() <= cap,
        1 <= cap,
        has_key(s, key),
    ensures
        ({
            let v = value_of(s, key);
            let g1 = promote(s, key_index(s, key));
            let s2 = spec_put(g1, cap, key, v);
            &&& s2 == g1
            &&& s2.len() == s.len()
            &&& has_key(s2, key)
            &&& value_of(s2, key) == v
        }),
{
    let v = value_of(s, key);
    let i = key_index(s, key);
    assert(0 <= i < s.len() && s[i].0 == key);
    lemma_promote_properties(s, i);
    let g1 = promote(s, i);
    assert(g1[0] == (key, v));
    lemma_key_index_unique(g1, key, 0);
    let s2 = spec_put(g1, cap, key, v);
    assert(s2 == seq![(key, v)] + g1.remove(0));
    assert(s2 =~= g1) by {
        assert forall|q: int| 0 <= q < g1.len() implies s2[q] == g1[q] by {
            if q > 0 {
                assert(g1.remove(0)[q - 1] == g1[q]);
            }
        }
    }
    lemma_spec_put_properties(g1, cap, key, v);
}

} // verus!
