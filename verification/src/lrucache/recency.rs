//! The cache as a sequence of key-value pairs, most recently used first,
//! and what the cache's operations do to that sequence.

use crate::linkedlist::tickets::moved_to_head;
use vstd::prelude::*;

verus! {

/// Some pair of `s` has the key `k`.
pub open spec fn has_key<K, V>(s: Seq<(K, V)>, k: K) -> bool {
    exists|i: int| 0 <= i < s.len() && (#[trigger] s[i]).0 == k
}

/// A position of a pair with key `k`, where there is one.
pub open spec fn key_index<K, V>(s: Seq<(K, V)>, k: K) -> int {
    choose|i: int| 0 <= i < s.len() && (#[trigger] s[i]).0 == k
}

/// No key occurs in two pairs.
pub open spec fn distinct_keys<K, V>(s: Seq<(K, V)>) -> bool {
    forall|i: int, j: int|
        0 <= i < s.len() && 0 <= j < s.len() && i != j ==> (#[trigger] s[i]).0 != (#[trigger] s[j]).0
}

/// The value stored under `k`, if any.
pub open spec fn found<K, V>(s: Seq<(K, V)>, k: K) -> Option<V> {
    if has_key(s, k) {
        Some(s[key_index(s, k)].1)
    } else {
        None
    }
}

/// The cache after a use of `k`: its pair, if there is one, moves to the
/// front; the others keep their order.
pub open spec fn touched<K, V>(s: Seq<(K, V)>, k: K) -> Seq<(K, V)> {
    if has_key(s, k) {
        moved_to_head(s, key_index(s, k))
    } else {
        s
    }
}

/// The cache without the pair of `k`; the others keep their order.
pub open spec fn removed<K, V>(s: Seq<(K, V)>, k: K) -> Seq<(K, V)> {
    if has_key(s, k) {
        s.remove(key_index(s, k))
    } else {
        s
    }
}

/// The cache of capacity `cap` after `v` was stored under `k`. A key that is
/// present gets the new value and moves to the front. A new key goes to the
/// front, and if that makes one pair too many, the last pair is dropped.
pub open spec fn stored<K, V>(s: Seq<(K, V)>, cap: nat, k: K, v: V) -> Seq<(K, V)> {
    if has_key(s, k) {
        seq![(k, v)] + s.remove(key_index(s, k))
    } else if s.len() + 1 > cap {
        (seq![(k, v)] + s).drop_last()
    } else {
        seq![(k, v)] + s
    }
}

/// With distinct keys, a key is found at the one position that holds it.
pub proof fn lemma_key_index<K, V>(s: Seq<(K, V)>, i: int)
    requires
        distinct_keys(s),
        0 <= i < s.len(),
    ensures
        has_key(s, s[i].0),
        key_index(s, s[i].0) == i,
{
    let k = s[i].0;
    assert(has_key(s, k));
    let j = key_index(s, k);
    assert(0 <= j < s.len() && s[j].0 == k);
}

/// Taking one pair out of a cache with distinct keys: the keys stay
/// distinct, exactly the key taken out is gone, and the pairs behind it
/// move up by one.
pub proof fn lemma_remove_keys<K, V>(s: Seq<(K, V)>, p: int)
    requires
        distinct_keys(s),
        0 <= p < s.len(),
    ensures
        distinct_keys(s.remove(p)),
        forall|x: K| #[trigger] has_key(s.remove(p), x) <==> (has_key(s, x) && x != s[p].0),
        forall|x: K| #[trigger]
            has_key(s.remove(p), x) ==> key_index(s.remove(p), x) == (if key_index(s, x) < p {
                key_index(s, x)
            } else {
                key_index(s, x) - 1
            }),
{
    let t = s.remove(p);
    assert forall|i: int| 0 <= i < t.len() implies #[trigger] t[i] == s[if i < p {
        i
    } else {
        i + 1
    }] by {}
    assert forall|i: int, j: int| 0 <= i < t.len() && 0 <= j < t.len() && i != j implies (
    #[trigger] t[i]).0 != (#[trigger] t[j]).0 by {
        let a = if i < p {
            i
        } else {
            i + 1
        };
        let b = if j < p {
            j
        } else {
            j + 1
        };
        assert(t[i] == s[a] && t[j] == s[b]);
    }
    assert forall|x: K| #[trigger] has_key(t, x) <==> (has_key(s, x) && x != s[p].0) by {
        if has_key(t, x) {
            let i = key_index(t, x);
            let a = if i < p {
                i
            } else {
                i + 1
            };
            assert(t[i] == s[a]);
            assert(s[a].0 == x);
        }
        if has_key(s, x) && x != s[p].0 {
            let a = key_index(s, x);
            let i = if a < p {
                a
            } else {
                a - 1
            };
            assert(t[i] == s[a]);
            assert(t[i].0 == x);
        }
    }
    assert forall|x: K| #[trigger] has_key(t, x) implies key_index(t, x) == (if key_index(s, x) < p {
        key_index(s, x)
    } else {
        key_index(s, x) - 1
    }) by {
        let i = key_index(t, x);
        let a = if i < p {
            i
        } else {
            i + 1
        };
        assert(t[i] == s[a]);
        lemma_key_index(s, a);
    }
}

/// Putting a pair with a new key in front of a cache with distinct keys:
/// the keys stay distinct, the new key stands first, and the others move
/// back by one.
pub proof fn lemma_cons_keys<K, V>(s: Seq<(K, V)>, k: K, v: V)
    requires
        distinct_keys(s),
        !has_key(s, k),
    ensures
        distinct_keys(seq![(k, v)] + s),
        forall|x: K| #[trigger] has_key(seq![(k, v)] + s, x) <==> (x == k || has_key(s, x)),
        key_index(seq![(k, v)] + s, k) == 0,
        forall|x: K| #[trigger]
            has_key(s, x) ==> key_index(seq![(k, v)] + s, x) == key_index(s, x) + 1,
{
    let t = seq![(k, v)] + s;
    assert(t[0] == (k, v));
    assert forall|i: int| 1 <= i < t.len() implies #[trigger] t[i] == s[i - 1] by {}
    assert forall|i: int, j: int| 0 <= i < t.len() && 0 <= j < t.len() && i != j implies (
    #[trigger] t[i]).0 != (#[trigger] t[j]).0 by {
        if i > 0 {
            assert(t[i] == s[i - 1]);
        }
        if j > 0 {
            assert(t[j] == s[j - 1]);
        }
    }
    assert forall|x: K| #[trigger] has_key(t, x) <==> (x == k || has_key(s, x)) by {
        if has_key(t, x) {
            let i = key_index(t, x);
            if i > 0 {
                assert(t[i] == s[i - 1]);
                assert(s[i - 1].0 == x);
            }
        }
        if x == k {
            assert(t[0].0 == x);
        }
        if has_key(s, x) {
            let a = key_index(s, x);
            assert(t[a + 1] == s[a]);
            assert(t[a + 1].0 == x);
        }
    }
    lemma_key_index(t, 0);
    assert forall|x: K| #[trigger] has_key(s, x) implies key_index(t, x) == key_index(s, x) + 1 by {
        let a = key_index(s, x);
        assert(t[a + 1] == s[a]);
        lemma_key_index(t, a + 1);
    }
}

/// Dropping the last pair of a cache with distinct keys: the keys stay
/// distinct, exactly the last key is gone, and no pair moves.
pub proof fn lemma_drop_last_keys<K, V>(s: Seq<(K, V)>)
    requires
        distinct_keys(s),
        s.len() > 0,
    ensures
        distinct_keys(s.drop_last()),
        forall|x: K| #[trigger] has_key(s.drop_last(), x) <==> (has_key(s, x) && x != s.last().0),
        forall|x: K| #[trigger]
            has_key(s.drop_last(), x) ==> key_index(s.drop_last(), x) == key_index(s, x),
{
    assert(s.drop_last() =~= s.remove(s.len() - 1));
    lemma_remove_keys(s, s.len() - 1);
    let t = s.drop_last();
    assert forall|x: K| #[trigger] has_key(t, x) implies key_index(t, x) == key_index(s, x) by {
        let a = key_index(s, x);
        lemma_key_index(s, s.len() - 1);
    }
}

/// What storing does to a cache in good order. The result is in good order
/// too: its keys are distinct and it holds at most `cap` pairs. The pair
/// stored stands first. No key appears that was not there or stored.
pub proof fn lemma_stored<K, V>(s: Seq<(K, V)>, cap: nat, k: K, v: V)
    requires
        distinct_keys(s),
        s.len() <= cap,
        cap >= 1,
    ensures
        distinct_keys(stored(s, cap, k, v)),
        1 <= stored(s, cap, k, v).len() <= cap,
        stored(s, cap, k, v)[0] == (k, v),
        has_key(stored(s, cap, k, v), k),
        key_index(stored(s, cap, k, v), k) == 0,
        forall|x: K| #[trigger] has_key(stored(s, cap, k, v), x) ==> x == k || has_key(s, x),
{
    let t = stored(s, cap, k, v);
    if has_key(s, k) {
        let p = key_index(s, k);
        lemma_remove_keys(s, p);
        lemma_cons_keys(s.remove(p), k, v);
    } else {
        lemma_cons_keys(s, k, v);
        let full = seq![(k, v)] + s;
        if s.len() + 1 > cap {
            lemma_drop_last_keys(full);
            lemma_key_index(full, 0);
            lemma_key_index(full, full.len() - 1);
            assert(t[0] == full[0]);
        }
    }
    assert(t[0].0 == k);
    lemma_key_index(t, 0);
}

/// The cache never holds more than its capacity: whatever is stored in a
/// cache that holds at most `cap` pairs, it holds at most `cap` pairs
/// afterwards.
pub proof fn lemma_capacity_kept<K, V>(s: Seq<(K, V)>, cap: nat, k: K, v: V)
    requires
        distinct_keys(s),
        s.len() <= cap,
        cap >= 1,
    ensures
        stored(s, cap, k, v).len() <= cap,
{
    lemma_stored(s, cap, k, v);
}

/// Of two keys stored one after the other, the second is the more recently
/// used: it stands first, and the first one stands right behind it, if the
/// cache has room for both. A cache with room for one has dropped the first
/// key by then.
pub proof fn lemma_second_store_is_newer<K, V>(s: Seq<(K, V)>, cap: nat, k1: K, v1: V, k2: K, v2: V)
    requires
        distinct_keys(s),
        s.len() <= cap,
        cap >= 1,
        k1 != k2,
    ensures
        ({
            let t = stored(stored(s, cap, k1, v1), cap, k2, v2);
            &&& has_key(t, k2)
            &&& key_index(t, k2) == 0
            &&& cap >= 2 ==> has_key(t, k1) && key_index(t, k1) == 1 && t[1] == (k1, v1)
            &&& cap == 1 ==> !has_key(t, k1)
        }),
{
    let m = stored(s, cap, k1, v1);
    lemma_stored(s, cap, k1, v1);
    lemma_stored(m, cap, k2, v2);
    let t = stored(m, cap, k2, v2);
    if cap >= 2 {
        if has_key(m, k2) {
            let p = key_index(m, k2);
            assert(p != 0);
            assert(t[1] == m.remove(p)[0]);
            assert(m.remove(p)[0] == m[0]);
        } else {
            let full = seq![(k2, v2)] + m;
            assert(full[1] == m[0]);
            assert(t[1] == full[1]);
        }
        lemma_key_index(t, 1);
    } else {
        if has_key(t, k1) {
            let i = key_index(t, k1);
            assert(t[i].0 == k1);
        }
    }
}

/// Entries leave in order of use. If `a` was used more recently than `b`,
/// then after anything is stored, `b` is in the cache only if `a` is; and
/// unless it was `b` that was stored, `a` still counts as used more
/// recently than `b`.
pub proof fn lemma_older_leaves_first<K, V>(s: Seq<(K, V)>, cap: nat, k: K, v: V, a: K, b: K)
    requires
        distinct_keys(s),
        s.len() <= cap,
        cap >= 1,
        has_key(s, a),
        has_key(s, b),
        key_index(s, a) < key_index(s, b),
    ensures
        has_key(stored(s, cap, k, v), b) ==> has_key(stored(s, cap, k, v), a),
        has_key(stored(s, cap, k, v), b) && k != b ==> key_index(stored(s, cap, k, v), a) < key_index(
            stored(s, cap, k, v),
            b,
        ),
{
    let t = stored(s, cap, k, v);
    lemma_stored(s, cap, k, v);
    let ia = key_index(s, a);
    let ib = key_index(s, b);
    assert(s[ia].0 == a && s[ib].0 == b);
    if has_key(s, k) {
        let p = key_index(s, k);
        lemma_remove_keys(s, p);
        let rest = s.remove(p);
        lemma_cons_keys(rest, k, v);
        if k != a && k != b {
            assert(has_key(rest, a) && has_key(rest, b));
        } else if k == a {
            lemma_key_index(s, p);
            assert(has_key(rest, b));
        }
    } else {
        lemma_cons_keys(s, k, v);
        let full = seq![(k, v)] + s;
        if s.len() + 1 > cap {
            lemma_drop_last_keys(full);
            lemma_key_index(full, full.len() - 1);
            if has_key(t, b) {
                assert(key_index(full, b) == ib + 1);
                assert(key_index(full, a) == ia + 1);
                assert(full.last().0 != a) by {
                    lemma_key_index(full, ia + 1);
                }
            }
        }
    }
}

/// A use moves the key to the front and keeps everything else: the cache
/// holds the same keys with the same values, and the key used stands
/// first.
pub proof fn lemma_touched<K, V>(s: Seq<(K, V)>, k: K)
    requires
        distinct_keys(s),
        has_key(s, k),
    ensures
        distinct_keys(touched(s, k)),
        touched(s, k).len() == s.len(),
        touched(s, k)[0] == s[key_index(s, k)],
        key_index(touched(s, k), k) == 0,
        forall|x: K| #[trigger] has_key(touched(s, k), x) <==> has_key(s, x),
        forall|x: K| #[trigger] has_key(s, x) ==> found(touched(s, k), x) == found(s, x),
{
    let p = key_index(s, k);
    let t = touched(s, k);
    lemma_remove_keys(s, p);
    lemma_cons_keys(s.remove(p), k, s[p].1);
    assert(t =~= seq![(k, s[p].1)] + s.remove(p));
    assert forall|x: K| #[trigger] has_key(t, x) <==> has_key(s, x) by {}
    assert forall|x: K| #[trigger] has_key(s, x) implies found(t, x) == found(s, x) by {
        let a = key_index(s, x);
        let i = if a == p {
            0
        } else if a < p {
            a + 1
        } else {
            a
        };
        assert(t[i] == s[a]);
        lemma_key_index(t, i);
    }
}

/// The key used last is safe from the next eviction: in a cache with room
/// for two or more, the pair that stands first is still there after
/// anything is stored.
pub proof fn lemma_head_survives<K, V>(s: Seq<(K, V)>, cap: nat, k: K, v: V)
    requires
        distinct_keys(s),
        1 <= s.len() <= cap,
        cap >= 2,
    ensures
        has_key(stored(s, cap, k, v), s[0].0),
{
    let h = s[0].0;
    lemma_key_index(s, 0);
    lemma_stored(s, cap, k, v);
    if has_key(s, k) {
        let p = key_index(s, k);
        lemma_remove_keys(s, p);
        lemma_cons_keys(s.remove(p), k, v);
    } else {
        lemma_cons_keys(s, k, v);
        let full = seq![(k, v)] + s;
        if s.len() + 1 > cap {
            lemma_drop_last_keys(full);
            assert(full[1] == s[0]);
            lemma_key_index(full, 1);
            lemma_key_index(full, full.len() - 1);
        }
    }
}

/// After a key was removed it is gone, and storing it again is a fresh
/// insert: the new pair goes to the front of what was left, and the last
/// pair is dropped only if what was left already filled the cache. If the
/// key had been in the cache, its removal made room, so nothing is dropped.
pub proof fn lemma_store_after_remove<K, V>(s: Seq<(K, V)>, cap: nat, k: K, v: V)
    requires
        distinct_keys(s),
        s.len() <= cap,
        cap >= 1,
    ensures
        !has_key(removed(s, k), k),
        distinct_keys(removed(s, k)),
        stored(removed(s, k), cap, k, v) == (if removed(s, k).len() + 1 > cap {
            (seq![(k, v)] + removed(s, k)).drop_last()
        } else {
            seq![(k, v)] + removed(s, k)
        }),
        has_key(s, k) ==> stored(removed(s, k), cap, k, v) == seq![(k, v)] + removed(s, k),
{
    if has_key(s, k) {
        let p = key_index(s, k);
        lemma_remove_keys(s, p);
    }
}

/// A use of one key does not change the order of two others: if `a` was
/// used more recently than `b`, and a key other than `b` is used, both are
/// still in the cache and `a` still counts as used more recently than `b`.
pub proof fn lemma_use_keeps_order<K, V>(s: Seq<(K, V)>, k: K, a: K, b: K)
    requires
        distinct_keys(s),
        has_key(s, a),
        has_key(s, b),
        key_index(s, a) < key_index(s, b),
        k != b,
    ensures
        has_key(touched(s, k), a),
        has_key(touched(s, k), b),
        key_index(touched(s, k), a) < key_index(touched(s, k), b),
{
    let ia = key_index(s, a);
    let ib = key_index(s, b);
    assert(s[ia].0 == a && s[ib].0 == b);
    if has_key(s, k) {
        let p = key_index(s, k);
        assert(s[p].0 == k);
        let t = touched(s, k);
        lemma_touched(s, k);
        let ja = if ia == p {
            0
        } else if ia < p {
            ia + 1
        } else {
            ia
        };
        let jb = if ib < p {
            ib + 1
        } else {
            ib
        };
        assert(t[ja] == s[ia]);
        assert(t[jb] == s[ib]);
        lemma_key_index(t, ja);
        lemma_key_index(t, jb);
    }
}

/// Removing one key does not change the order of two others.
pub proof fn lemma_remove_keeps_order<K, V>(s: Seq<(K, V)>, k: K, a: K, b: K)
    requires
        distinct_keys(s),
        has_key(s, a),
        has_key(s, b),
        key_index(s, a) < key_index(s, b),
        k != a,
        k != b,
    ensures
        has_key(removed(s, k), a),
        has_key(removed(s, k), b),
        key_index(removed(s, k), a) < key_index(removed(s, k), b),
{
    if has_key(s, k) {
        let p = key_index(s, k);
        assert(s[p].0 == k);
        lemma_remove_keys(s, p);
    }
}

} // verus!
