//! Strictly increasing sequences of keys, and what putting a key in and
//! taking a key out means for them.
//!
//! These are the mathematical model of the index: its view is such a
//! sequence, and its operations are stated with `with_key` and
//! `without_key`.

use crate::order::{
    equiv, lemma_equiv_congruent, lemma_lt_transitive, lemma_trichotomy, lt, total_order,
};
use vstd::prelude::*;

verus! {

/// Every key comes strictly before all keys that follow it. In particular
/// no two keys of the sequence are equivalent.
pub open spec fn strictly_increasing<T: Ord>(s: Seq<T>) -> bool {
    forall|i: int, j: int| 0 <= i < j < s.len() ==> lt(#[trigger] s[i], #[trigger] s[j])
}

/// Some key of the sequence is equivalent to `key`.
pub open spec fn has_key<T: Ord>(s: Seq<T>, key: T) -> bool {
    exists|i: int| 0 <= i < s.len() && equiv(#[trigger] s[i], key)
}

/// The keys of `s` that come strictly before `key`, in their order.
#[verifier::opaque]
pub open spec fn below<T: Ord>(s: Seq<T>, key: T) -> Seq<T> {
    s.filter(|x: T| lt(x, key))
}

/// The keys of `s` that come strictly after `key`, in their order.
#[verifier::opaque]
pub open spec fn above<T: Ord>(s: Seq<T>, key: T) -> Seq<T> {
    s.filter(|x: T| lt(key, x))
}

/// `s` after `key` has been put in: `key` stands between the keys before it
/// and the keys after it, and whatever was equivalent to it is gone.
pub open spec fn with_key<T: Ord>(s: Seq<T>, key: T) -> Seq<T> {
    below(s, key).push(key) + above(s, key)
}

/// `s` after everything equivalent to `key` has been taken out.
pub open spec fn without_key<T: Ord>(s: Seq<T>, key: T) -> Seq<T> {
    below(s, key) + above(s, key)
}

/// The key of `s` that is equivalent to `key`, if there is one. A strictly
/// increasing sequence has at most one.
pub open spec fn lookup<T: Ord>(s: Seq<T>, key: T) -> Option<T> {
    if has_key(s, key) {
        Some(s[choose|i: int| 0 <= i < s.len() && equiv(#[trigger] s[i], key)])
    } else {
        None
    }
}

/// Of keys that stand on towers of the given heights, those whose tower is
/// taller than `l`, in their order.
pub open spec fn taller<T>(keys: Seq<T>, heights: Seq<nat>, l: int) -> Seq<T>
    decreases keys.len(),
{
    if keys.len() == 0 || heights.len() != keys.len() {
        Seq::empty()
    } else if heights.first() > l {
        seq![keys.first()] + taller(keys.drop_first(), heights.drop_first(), l)
    } else {
        taller(keys.drop_first(), heights.drop_first(), l)
    }
}

/// `k` is the place of `key` in `s`: the keys in front of `k` come before
/// `key`, the keys from `k` on do not.
pub open spec fn boundary<T: Ord>(s: Seq<T>, key: T, k: int) -> bool {
    &&& 0 <= k <= s.len()
    &&& forall|i: int| 0 <= i < k ==> lt(#[trigger] s[i], key)
    &&& forall|i: int| k <= i < s.len() ==> !lt(#[trigger] s[i], key)
}

/// `key` has an equivalent in `s` at its place `k`.
pub open spec fn present_at<T: Ord>(s: Seq<T>, key: T, k: int) -> bool {
    0 <= k < s.len() && equiv(s[k], key)
}

/// A filter that every key passes changes nothing.
proof fn lemma_filter_all<T>(s: Seq<T>, pred: spec_fn(T) -> bool)
    requires
        forall|i: int| 0 <= i < s.len() ==> pred(#[trigger] s[i]),
    ensures
        s.filter(pred) == s,
    decreases s.len(),
{
    reveal(Seq::filter);
    if s.len() > 0 {
        lemma_filter_all(s.drop_last(), pred);
        assert(s.drop_last().push(s.last()) =~= s);
    }
}

/// A filter that no key passes leaves nothing.
proof fn lemma_filter_none<T>(s: Seq<T>, pred: spec_fn(T) -> bool)
    requires
        forall|i: int| 0 <= i < s.len() ==> !pred(#[trigger] s[i]),
    ensures
        s.filter(pred) == Seq::<T>::empty(),
    decreases s.len(),
{
    reveal(Seq::filter);
    if s.len() > 0 {
        lemma_filter_none(s.drop_last(), pred);
    }
}

/// Every sequence has a place for every key, if it is strictly increasing.
pub proof fn lemma_boundary_exists<T: Ord>(s: Seq<T>, key: T) -> (k: int)
    requires
        total_order::<T>(),
        strictly_increasing(s),
    ensures
        boundary(s, key, k),
    decreases s.len(),
{
    if s.len() == 0 {
        0
    } else {
        let front = s.drop_last();
        let k = lemma_boundary_exists(front, key);
        if lt(s.last(), key) {
            assert forall|i: int| 0 <= i < s.len() implies lt(#[trigger] s[i], key) by {
                if i < s.len() - 1 {
                    lemma_lt_transitive(s[i], s.last(), key);
                }
            }
            s.len() as int
        } else {
            assert forall|i: int| k <= i < s.len() implies !lt(#[trigger] s[i], key) by {
                if i < s.len() - 1 {
                    assert(front[i] == s[i]);
                }
            }
            assert forall|i: int| 0 <= i < k implies lt(#[trigger] s[i], key) by {
                assert(front[i] == s[i]);
            }
            k
        }
    }
}

/// What stands around the place of a key: everything in front of the place
/// is below the key; everything behind it is above, except for the key at
/// the place itself when that one is equivalent.
pub proof fn lemma_split<T: Ord>(s: Seq<T>, key: T, k: int)
    requires
        total_order::<T>(),
        strictly_increasing(s),
        boundary(s, key, k),
    ensures
        has_key(s, key) == present_at(s, key, k),
        below(s, key) == s.subrange(0, k),
        above(s, key) == (if present_at(s, key, k) {
            s.subrange(k + 1, s.len() as int)
        } else {
            s.subrange(k, s.len() as int)
        }),
        forall|i: int| 0 <= i < s.len() && i != k ==> !equiv(#[trigger] s[i], key),
{
    reveal(below);
    reveal(above);
    let n = s.len() as int;
    assert forall|i: int| 0 <= i < n && i != k implies !equiv(#[trigger] s[i], key) by {
        lemma_trichotomy(s[i], key);
        if k < i {
            lemma_trichotomy(s[k], key);
            if equiv(s[i], key) {
                lemma_trichotomy(key, s[i]);
                lemma_equiv_congruent(key, s[i], s[k]);
                lemma_trichotomy(s[k], s[i]);
            }
        }
    }
    if has_key(s, key) {
        let i = choose|i: int| 0 <= i < s.len() && equiv(#[trigger] s[i], key);
        assert(i == k);
    }
    let skip: int = if present_at(s, key, k) { 1 } else { 0 };
    let front = s.subrange(0, k);
    let mid = s.subrange(k, k + skip);
    let back = s.subrange(k + skip, n);
    assert(s =~= front + mid + back);
    let before = |x: T| lt(x, key);
    let after = |x: T| lt(key, x);
    assert forall|i: int| 0 <= i < front.len() implies before(#[trigger] front[i]) by {
        assert(front[i] == s[i]);
    }
    assert forall|i: int| 0 <= i < front.len() implies !after(#[trigger] front[i]) by {
        assert(front[i] == s[i]);
        lemma_trichotomy(s[i], key);
    }
    assert forall|i: int| 0 <= i < mid.len()
        implies !before(#[trigger] mid[i]) && !after(mid[i]) by {
        assert(mid[i] == s[k]);
        lemma_trichotomy(s[k], key);
    }
    assert forall|i: int| 0 <= i < back.len() implies !before(#[trigger] back[i]) by {
        assert(back[i] == s[k + skip + i]);
    }
    assert forall|i: int| 0 <= i < back.len() implies after(#[trigger] back[i]) by {
        assert(back[i] == s[k + skip + i]);
        lemma_trichotomy(s[k + skip + i], key);
    }
    lemma_filter_all(front, before);
    lemma_filter_none(mid, before);
    lemma_filter_none(back, before);
    lemma_filter_none(front, after);
    lemma_filter_none(mid, after);
    lemma_filter_all(back, after);
    Seq::filter_distributes_over_add(front + mid, back, before);
    Seq::filter_distributes_over_add(front, mid, before);
    Seq::filter_distributes_over_add(front + mid, back, after);
    Seq::filter_distributes_over_add(front, mid, after);
    assert(below(s, key) =~= front);
    assert(above(s, key) =~= back);
}

/// In a strictly increasing sequence no two keys are equivalent to the same
/// key, so a key that is equivalent to `key` is the one that `lookup` finds.
pub proof fn lemma_lookup<T: Ord>(s: Seq<T>, key: T, i: int)
    requires
        total_order::<T>(),
        strictly_increasing(s),
        0 <= i < s.len(),
        equiv(s[i], key),
    ensures
        lookup(s, key) == Some(s[i]),
        forall|j: int| 0 <= j < s.len() && equiv(#[trigger] s[j], key) ==> j == i,
{
    assert forall|j: int| 0 <= j < s.len() && equiv(#[trigger] s[j], key) implies j == i by {
        lemma_trichotomy(s[i], key);
        lemma_equiv_congruent(s[j], key, s[i]);
        lemma_trichotomy(s[j], s[i]);
        if j < i {
            assert(lt(s[j], s[i]));
        }
        if i < j {
            assert(lt(s[i], s[j]));
        }
    }
}

/// Putting a key in, by positions: a key that has an equivalent takes its
/// place; a key that has none is inserted where the order wants it.
pub proof fn lemma_with_key_at<T: Ord>(s: Seq<T>, key: T, k: int)
    requires
        total_order::<T>(),
        strictly_increasing(s),
        boundary(s, key, k),
    ensures
        with_key(s, key) == (if present_at(s, key, k) {
            s.update(k, key)
        } else {
            s.insert(k, key)
        }),
{
    lemma_split(s, key, k);
    if present_at(s, key, k) {
        assert(with_key(s, key) =~= s.update(k, key));
    } else {
        assert(with_key(s, key) =~= s.insert(k, key));
    }
}

/// Taking a key out, by positions: the equivalent key leaves, if there is
/// one; else nothing changes.
pub proof fn lemma_without_key_at<T: Ord>(s: Seq<T>, key: T, k: int)
    requires
        total_order::<T>(),
        strictly_increasing(s),
        boundary(s, key, k),
    ensures
        without_key(s, key) == (if present_at(s, key, k) {
            s.remove(k)
        } else {
            s
        }),
{
    lemma_split(s, key, k);
    if present_at(s, key, k) {
        assert(without_key(s, key) =~= s.remove(k));
    } else {
        assert(without_key(s, key) =~= s);
    }
}

/// The keys on the taller towers are among the keys, in the same order.
pub proof fn lemma_taller_increasing<T: Ord>(keys: Seq<T>, heights: Seq<nat>, l: int)
    requires
        strictly_increasing(keys),
    ensures
        strictly_increasing(taller(keys, heights, l)),
        forall|i: int|
            0 <= i < taller(keys, heights, l).len()
                ==> keys.contains(#[trigger] taller(keys, heights, l)[i]),
    decreases keys.len(),
{
    if keys.len() > 0 && heights.len() == keys.len() {
        let rest_keys = keys.drop_first();
        let rest = taller(rest_keys, heights.drop_first(), l);
        assert forall|i: int, j: int| 0 <= i < j < rest_keys.len()
            implies lt(#[trigger] rest_keys[i], #[trigger] rest_keys[j]) by {
            assert(rest_keys[i] == keys[i + 1] && rest_keys[j] == keys[j + 1]);
        }
        lemma_taller_increasing(rest_keys, heights.drop_first(), l);
        let all = taller(keys, heights, l);
        assert forall|i: int| 0 <= i < rest.len()
            implies keys.contains(#[trigger] rest[i]) && lt(keys[0], rest[i]) by {
            assert(rest_keys.contains(rest[i]));
            let j = choose|j: int| 0 <= j < rest_keys.len() && rest_keys[j] == rest[i];
            assert(keys[j + 1] == rest[i]);
        }
        if heights.first() > l {
            assert(keys[0] == all[0]);
            assert forall|i: int| 0 <= i < all.len() implies keys.contains(#[trigger] all[i]) by {
                if i > 0 {
                    assert(all[i] == rest[i - 1]);
                }
            }
            assert forall|i: int, j: int| 0 <= i < j < all.len()
                implies lt(#[trigger] all[i], #[trigger] all[j]) by {
                assert(all[j] == rest[j - 1]);
                if i > 0 {
                    assert(all[i] == rest[i - 1]);
                }
            }
        }
    }
}

/// Where every tower is taller than `l`, all keys are on the taller towers.
pub proof fn lemma_taller_all<T>(keys: Seq<T>, heights: Seq<nat>, l: int)
    requires
        heights.len() == keys.len(),
        forall|i: int| 0 <= i < heights.len() ==> #[trigger] heights[i] > l,
    ensures
        taller(keys, heights, l) == keys,
    decreases keys.len(),
{
    if keys.len() > 0 {
        let rest = heights.drop_first();
        assert forall|i: int| 0 <= i < rest.len() implies #[trigger] rest[i] > l by {
            assert(rest[i] == heights[i + 1]);
        }
        lemma_taller_all(keys.drop_first(), rest, l);
        assert(heights.first() == heights[0]);
        assert(seq![keys.first()] + keys.drop_first() =~= keys);
    }
}

/// Putting a key in keeps the sequence strictly increasing. The key is then
/// in it, and the sequence has grown by one exactly if the key had no
/// equivalent.
pub proof fn lemma_with_key_increasing<T: Ord>(s: Seq<T>, key: T)
    requires
        total_order::<T>(),
        strictly_increasing(s),
    ensures
        strictly_increasing(with_key(s, key)),
        with_key(s, key).contains(key),
        has_key(with_key(s, key), key),
        has_key(s, key) ==> with_key(s, key).len() == s.len(),
        !has_key(s, key) ==> with_key(s, key).len() == s.len() + 1,
{
    let k = lemma_boundary_exists(s, key);
    lemma_split(s, key, k);
    lemma_with_key_at(s, key, k);
    let r = with_key(s, key);
    lemma_trichotomy(key, key);
    assert(r[k] == key);
    if present_at(s, key, k) {
        assert forall|i: int, j: int| 0 <= i < j < r.len()
            implies lt(#[trigger] r[i], #[trigger] r[j]) by {
            if i == k {
                lemma_equiv_congruent(s[k], key, s[j]);
                assert(lt(s[k], s[j]));
            } else if j == k {
                assert(lt(s[i], key));
            } else {
                assert(lt(s[i], s[j]));
            }
        }
    } else {
        assert forall|i: int, j: int| 0 <= i < j < r.len()
            implies lt(#[trigger] r[i], #[trigger] r[j]) by {
            let i0 = if i < k { i } else { i - 1 };
            let j0 = if j < k { j } else { j - 1 };
            if i == k {
                assert(!lt(s[j0], key));
                assert(!equiv(s[j0], key));
                lemma_trichotomy(s[j0], key);
            } else if j == k {
                assert(lt(s[i0], key));
            } else {
                assert(lt(s[i0], s[j0]));
            }
        }
    }
}

/// A strictly increasing sequence stays so when a key leaves it.
pub proof fn lemma_remove_increasing<T: Ord>(s: Seq<T>, k: int)
    requires
        strictly_increasing(s),
        0 <= k < s.len(),
    ensures
        strictly_increasing(s.remove(k)),
{
    let r = s.remove(k);
    assert forall|i: int, j: int| 0 <= i < j < r.len()
        implies lt(#[trigger] r[i], #[trigger] r[j]) by {
        let i0 = if i < k { i } else { i + 1 };
        let j0 = if j < k { j } else { j + 1 };
        assert(r[i] == s[i0] && r[j] == s[j0]);
    }
}

/// Taking a key out keeps the sequence strictly increasing. The key then
/// has no equivalent in it, and the sequence has shrunk by one exactly if
/// the key had one.
pub proof fn lemma_without_key_increasing<T: Ord>(s: Seq<T>, key: T)
    requires
        total_order::<T>(),
        strictly_increasing(s),
    ensures
        strictly_increasing(without_key(s, key)),
        !has_key(without_key(s, key), key),
        has_key(s, key) ==> without_key(s, key).len() == s.len() - 1,
        !has_key(s, key) ==> without_key(s, key).len() == s.len(),
{
    let k = lemma_boundary_exists(s, key);
    lemma_split(s, key, k);
    lemma_without_key_at(s, key, k);
    if present_at(s, key, k) {
        let r = s.remove(k);
        lemma_remove_increasing(s, k);
        assert forall|i: int| 0 <= i < r.len() implies !equiv(#[trigger] r[i], key) by {
            let i0 = if i < k { i } else { i + 1 };
            assert(r[i] == s[i0]);
        }
        assert(!has_key(r, key));
    } else {
        assert(!has_key(s, key));
    }
}

} // verus!
