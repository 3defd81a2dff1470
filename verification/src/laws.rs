//! What holds of the index over whole histories of use.
//!
//! The operations of the list are stated over its view, a strictly
//! increasing sequence of keys: `insert` turns the view `s` into
//! `with_key(s, key)`, `delete` turns it into `without_key(s, key)`, and
//! `find` answers `lookup(s, key)`. The laws here follow a list through any
//! number of such steps.

use crate::order::{
    equiv, lemma_equiv_congruent, lemma_equiv_transitive, lemma_trichotomy, total_order,
};
use crate::sorted::{
    boundary, has_key, lemma_boundary_exists, lemma_lookup, lemma_split, lemma_with_key_at,
    lemma_with_key_increasing, lemma_without_key_at, lemma_without_key_increasing, lookup,
    present_at, strictly_increasing, with_key, without_key,
};
use vstd::prelude::*;

verus! {

/// A step in the history of a list.
pub enum Op<T> {
    Insert(T),
    Delete(T),
}

/// The view of a list after one step.
pub open spec fn apply<T: Ord>(s: Seq<T>, op: Op<T>) -> Seq<T> {
    match op {
        Op::Insert(key) => with_key(s, key),
        Op::Delete(key) => without_key(s, key),
    }
}

/// The view of a list after the steps `ops`, taken in their order.
pub open spec fn run<T: Ord>(s: Seq<T>, ops: Seq<Op<T>>) -> Seq<T>
    decreases ops.len(),
{
    if ops.len() == 0 {
        s
    } else {
        apply(run(s, ops.drop_last()), ops.last())
    }
}

/// The steps that insert `keys`, one after the other.
pub open spec fn inserts<T>(keys: Seq<T>) -> Seq<Op<T>> {
    Seq::new(keys.len(), |i: int| Op::Insert(keys[i]))
}

/// The steps that delete `keys`, one after the other.
pub open spec fn deletes<T>(keys: Seq<T>) -> Seq<Op<T>> {
    Seq::new(keys.len(), |i: int| Op::Delete(keys[i]))
}

/// No two of `keys` are equivalent.
pub open spec fn distinct<T: Ord>(keys: Seq<T>) -> bool {
    forall|i: int, j: int|
        0 <= i < j < keys.len() ==> !equiv(#[trigger] keys[i], #[trigger] keys[j])
}

/// A step inserts or deletes a key equivalent to `key`.
pub open spec fn touches<T: Ord>(op: Op<T>, key: T) -> bool {
    match op {
        Op::Insert(k) => equiv(k, key),
        Op::Delete(k) => equiv(k, key),
    }
}

/// Some step of `ops` inserts a key equivalent to `key`.
pub open spec fn inserted<T: Ord>(ops: Seq<Op<T>>, key: T) -> bool {
    exists|i: int| 0 <= i < ops.len() && (#[trigger] ops[i]) is Insert && touches(ops[i], key)
}

/// The last step of `ops` that touches `key`; -1 if none does.
pub open spec fn last_touch<T: Ord>(ops: Seq<Op<T>>, key: T) -> int
    decreases ops.len(),
{
    if ops.len() == 0 {
        -1
    } else if touches(ops.last(), key) {
        ops.len() - 1
    } else {
        last_touch(ops.drop_last(), key)
    }
}

/// The keys of a sequence into which a key has been inserted.
proof fn lemma_has_key_insert<T: Ord>(s: Seq<T>, k: int, key: T, x: T)
    requires
        0 <= k <= s.len(),
    ensures
        has_key(s.insert(k, key), x) == (has_key(s, x) || equiv(key, x)),
{
    let r = s.insert(k, key);
    if has_key(s, x) {
        let i = choose|i: int| 0 <= i < s.len() && equiv(#[trigger] s[i], x);
        let i1 = if i < k { i } else { i + 1 };
        assert(r[i1] == s[i]);
    }
    if equiv(key, x) {
        assert(r[k] == key);
    }
    if has_key(r, x) {
        let i = choose|i: int| 0 <= i < r.len() && equiv(#[trigger] r[i], x);
        if i != k {
            let i0 = if i < k { i } else { i - 1 };
            assert(r[i] == s[i0]);
        }
    }
}

/// The keys of a sequence in which a key has taken the place of an
/// equivalent key.
proof fn lemma_has_key_update<T: Ord>(s: Seq<T>, k: int, key: T, x: T)
    requires
        total_order::<T>(),
        0 <= k < s.len(),
        equiv(s[k], key),
    ensures
        has_key(s.update(k, key), x) == (has_key(s, x) || equiv(key, x)),
{
    let r = s.update(k, key);
    lemma_equiv_congruent(s[k], key, x);
    if has_key(s, x) {
        let i = choose|i: int| 0 <= i < s.len() && equiv(#[trigger] s[i], x);
        if i != k {
            assert(r[i] == s[i]);
        } else {
            assert(r[k] == key);
        }
    }
    if equiv(key, x) {
        assert(r[k] == key);
    }
    if has_key(r, x) {
        let i = choose|i: int| 0 <= i < r.len() && equiv(#[trigger] r[i], x);
        if i != k {
            assert(r[i] == s[i]);
        } else {
            assert(equiv(s[k], x));
        }
    }
}

/// The keys of a strictly increasing sequence that a key has left.
proof fn lemma_has_key_remove<T: Ord>(s: Seq<T>, k: int, x: T)
    requires
        total_order::<T>(),
        strictly_increasing(s),
        0 <= k < s.len(),
    ensures
        has_key(s.remove(k), x) == (has_key(s, x) && !equiv(s[k], x)),
{
    let r = s.remove(k);
    if has_key(r, x) {
        let i = choose|i: int| 0 <= i < r.len() && equiv(#[trigger] r[i], x);
        let i0 = if i < k { i } else { i + 1 };
        assert(r[i] == s[i0]);
        if equiv(s[k], x) {
            lemma_lookup(s, x, k);
        }
    }
    if has_key(s, x) && !equiv(s[k], x) {
        let i = choose|i: int| 0 <= i < s.len() && equiv(#[trigger] s[i], x);
        let i1 = if i < k { i } else { i - 1 };
        assert(r[i1] == s[i]);
    }
}

/// The keys of a list after an insertion: those it had, and the new one.
pub proof fn lemma_with_key_has_key<T: Ord>(s: Seq<T>, key: T, x: T)
    requires
        total_order::<T>(),
        strictly_increasing(s),
    ensures
        has_key(with_key(s, key), x) == (has_key(s, x) || equiv(key, x)),
{
    let k = lemma_boundary_exists(s, key);
    lemma_with_key_at(s, key, k);
    if present_at(s, key, k) {
        lemma_has_key_update(s, k, key, x);
    } else {
        lemma_has_key_insert(s, k, key, x);
    }
}

/// The keys of a list after a deletion: those it had, but the deleted one.
pub proof fn lemma_without_key_has_key<T: Ord>(s: Seq<T>, key: T, x: T)
    requires
        total_order::<T>(),
        strictly_increasing(s),
    ensures
        has_key(without_key(s, key), x) == (has_key(s, x) && !equiv(key, x)),
{
    let k = lemma_boundary_exists(s, key);
    lemma_without_key_at(s, key, k);
    if present_at(s, key, k) {
        lemma_has_key_remove(s, k, x);
        lemma_equiv_congruent(s[k], key, x);
    } else {
        assert(!has_key(s, key)) by {
            lemma_split(s, key, k);
        }
        if equiv(key, x) && has_key(s, x) {
            let i = choose|i: int| 0 <= i < s.len() && equiv(#[trigger] s[i], x);
            lemma_trichotomy(key, x);
            lemma_equiv_transitive(s[i], x, key);
        }
    }
}

/// What is found after an insertion: the inserted key, for every key that
/// is equivalent to it; for every other key what was found before.
pub proof fn lemma_lookup_with_key<T: Ord>(s: Seq<T>, key: T, x: T)
    requires
        total_order::<T>(),
        strictly_increasing(s),
    ensures
        lookup(with_key(s, key), x) == (if equiv(key, x) {
            Some(key)
        } else {
            lookup(s, x)
        }),
{
    let k = lemma_boundary_exists(s, key);
    lemma_split(s, key, k);
    lemma_with_key_at(s, key, k);
    lemma_with_key_increasing(s, key);
    lemma_with_key_has_key(s, key, x);
    let r = with_key(s, key);
    if equiv(key, x) {
        assert(r[k] == key);
        lemma_lookup(r, x, k);
    } else if has_key(s, x) {
        let i = choose|i: int| 0 <= i < s.len() && equiv(#[trigger] s[i], x);
        lemma_lookup(s, x, i);
        if present_at(s, key, k) {
            lemma_equiv_congruent(s[k], key, x);
            assert(r[i] == s[i]);
            lemma_lookup(r, x, i);
        } else {
            let moved = if i < k { i } else { i + 1 };
            assert(r[moved] == s[i]);
            lemma_lookup(r, x, moved);
        }
    }
}

/// What is found after a deletion: nothing, for every key that is
/// equivalent to the deleted one; for every other key what was found before.
pub proof fn lemma_lookup_without_key<T: Ord>(s: Seq<T>, key: T, x: T)
    requires
        total_order::<T>(),
        strictly_increasing(s),
    ensures
        lookup(without_key(s, key), x) == (if equiv(key, x) {
            None
        } else {
            lookup(s, x)
        }),
{
    let k = lemma_boundary_exists(s, key);
    lemma_split(s, key, k);
    lemma_without_key_at(s, key, k);
    lemma_without_key_increasing(s, key);
    lemma_without_key_has_key(s, key, x);
    let r = without_key(s, key);
    if !equiv(key, x) && has_key(s, x) {
        let i = choose|i: int| 0 <= i < s.len() && equiv(#[trigger] s[i], x);
        lemma_lookup(s, x, i);
        if present_at(s, key, k) {
            lemma_equiv_congruent(s[k], key, x);
            let moved = if i < k { i } else { i - 1 };
            assert(r[moved] == s[i]);
            lemma_lookup(r, x, moved);
        }
    }
}

/// Which keys a list has after a step.
pub proof fn lemma_apply_has_key<T: Ord>(s: Seq<T>, op: Op<T>, x: T)
    requires
        total_order::<T>(),
        strictly_increasing(s),
    ensures
        has_key(apply(s, op), x) == (match op {
            Op::Insert(key) => has_key(s, x) || equiv(key, x),
            Op::Delete(key) => has_key(s, x) && !equiv(key, x),
        }),
{
    match op {
        Op::Insert(key) => lemma_with_key_has_key(s, key, x),
        Op::Delete(key) => lemma_without_key_has_key(s, key, x),
    }
}

/// Whatever is done to a list, in whatever order, its keys stay strictly
/// increasing.
pub proof fn lemma_run_increasing<T: Ord>(s: Seq<T>, ops: Seq<Op<T>>)
    requires
        total_order::<T>(),
        strictly_increasing(s),
    ensures
        strictly_increasing(run(s, ops)),
    decreases ops.len(),
{
    if ops.len() > 0 {
        lemma_run_increasing(s, ops.drop_last());
        match ops.last() {
            Op::Insert(key) => lemma_with_key_increasing(run(s, ops.drop_last()), key),
            Op::Delete(key) => lemma_without_key_increasing(run(s, ops.drop_last()), key),
        }
    }
}

/// Whether a list that was empty has a key depends on the last step that
/// touched the key: the list has it exactly if that step was an insertion.
pub proof fn lemma_has_key_history<T: Ord>(ops: Seq<Op<T>>, key: T)
    requires
        total_order::<T>(),
    ensures
        -1 <= last_touch(ops, key) < ops.len(),
        forall|i: int| last_touch(ops, key) < i < ops.len() ==> !touches(#[trigger] ops[i], key),
        last_touch(ops, key) >= 0 ==> touches(ops[last_touch(ops, key)], key),
        has_key(run(Seq::<T>::empty(), ops), key)
            == (last_touch(ops, key) >= 0 && ops[last_touch(ops, key)] is Insert),
    decreases ops.len(),
{
    if ops.len() > 0 {
        let front = ops.drop_last();
        lemma_has_key_history(front, key);
        lemma_run_increasing(Seq::<T>::empty(), front);
        lemma_apply_has_key(run(Seq::<T>::empty(), front), ops.last(), key);
        assert forall|i: int| last_touch(ops, key) < i < ops.len()
            implies !touches(#[trigger] ops[i], key) by {
            if i < ops.len() - 1 {
                assert(front[i] == ops[i]);
            }
        }
        if last_touch(front, key) >= 0 {
            assert(front[last_touch(front, key)] == ops[last_touch(front, key)]);
        }
    }
}

/// A key that was never inserted is not found.
pub proof fn lemma_never_inserted<T: Ord>(ops: Seq<Op<T>>, key: T)
    requires
        total_order::<T>(),
        !inserted(ops, key),
    ensures
        lookup(run(Seq::<T>::empty(), ops), key) is None,
    decreases ops.len(),
{
    if ops.len() > 0 {
        let front = ops.drop_last();
        assert forall|i: int| 0 <= i < front.len() implies !((#[trigger] front[i]) is Insert
            && touches(front[i], key)) by {
            assert(front[i] == ops[i]);
        }
        lemma_never_inserted(front, key);
        lemma_run_increasing(Seq::<T>::empty(), front);
        lemma_apply_has_key(run(Seq::<T>::empty(), front), ops.last(), key);
        assert(ops[ops.len() - 1] == ops.last());
    }
}

/// After distinct keys have been inserted into an empty list, the list has
/// as many keys as were inserted, and each of them is found.
pub proof fn lemma_insert_distinct<T: Ord>(keys: Seq<T>)
    requires
        total_order::<T>(),
        distinct(keys),
    ensures
        run(Seq::<T>::empty(), inserts(keys)).len() == keys.len(),
        forall|i: int|
            0 <= i < keys.len() ==> lookup(
                run(Seq::<T>::empty(), inserts(keys)),
                #[trigger] keys[i],
            ) == Some(keys[i]),
    decreases keys.len(),
{
    if keys.len() > 0 {
        let front = keys.drop_last();
        let last = keys.last();
        assert(inserts(keys).drop_last() =~= inserts(front));
        assert(inserts(keys).last() == Op::Insert(last));
        let before = run(Seq::<T>::empty(), inserts(front));
        let after = run(Seq::<T>::empty(), inserts(keys));
        assert(after == with_key(before, last));
        assert(distinct(front)) by {
            assert forall|i: int, j: int| 0 <= i < j < front.len()
                implies !equiv(#[trigger] front[i], #[trigger] front[j]) by {
                assert(front[i] == keys[i] && front[j] == keys[j]);
            }
        }
        lemma_insert_distinct(front);
        lemma_run_increasing(Seq::<T>::empty(), inserts(front));
        assert(!inserted(inserts(front), last)) by {
            if inserted(inserts(front), last) {
                let i = choose|i: int|
                    0 <= i < inserts(front).len() && (#[trigger] inserts(front)[i]) is Insert
                        && touches(inserts(front)[i], last);
                assert(!equiv(keys[i], keys[keys.len() - 1]));
            }
        }
        lemma_never_inserted(inserts(front), last);
        lemma_with_key_increasing(before, last);
        let k = lemma_boundary_exists(before, last);
        lemma_split(before, last, k);
        lemma_with_key_at(before, last, k);
        assert forall|i: int| 0 <= i < keys.len()
            implies lookup(after, #[trigger] keys[i]) == Some(keys[i]) by {
            lemma_trichotomy(keys[i], keys[i]);
            if i == keys.len() - 1 {
                assert(after[k] == last);
                lemma_lookup(after, last, k);
            } else {
                assert(front[i] == keys[i]);
                assert(lookup(before, keys[i]) == Some(keys[i]));
                let p = choose|p: int|
                    0 <= p < before.len() && equiv(#[trigger] before[p], keys[i]);
                let moved = if p < k { p } else { p + 1 };
                assert(after[moved] == before[p]);
                lemma_lookup(after, keys[i], moved);
            }
        }
    } else {
        assert(inserts(keys) =~= Seq::<Op<T>>::empty());
    }
}

/// Inserting a key that has an equivalent in the list leaves the number of
/// keys as it was, and the inserted key is then the one match for it.
pub proof fn lemma_insert_present<T: Ord>(s: Seq<T>, key: T)
    requires
        total_order::<T>(),
        strictly_increasing(s),
        has_key(s, key),
    ensures
        with_key(s, key).len() == s.len(),
        lookup(with_key(s, key), key) == Some(key),
        forall|i: int, j: int|
            0 <= i < j < with_key(s, key).len() ==> !(equiv(#[trigger] with_key(s, key)[i], key)
                && equiv(#[trigger] with_key(s, key)[j], key)),
{
    let k = lemma_boundary_exists(s, key);
    lemma_split(s, key, k);
    lemma_with_key_at(s, key, k);
    lemma_with_key_increasing(s, key);
    lemma_trichotomy(key, key);
    let r = with_key(s, key);
    assert(r[k] == key);
    lemma_lookup(r, key, k);
}

/// Deleting a key that has no equivalent in the list changes nothing.
pub proof fn lemma_delete_absent<T: Ord>(s: Seq<T>, key: T)
    requires
        total_order::<T>(),
        strictly_increasing(s),
        !has_key(s, key),
    ensures
        without_key(s, key) == s,
{
    let k = lemma_boundary_exists(s, key);
    lemma_split(s, key, k);
    lemma_without_key_at(s, key, k);
}

/// After every inserted key has been deleted, the list is empty, and none
/// of the keys is found.
pub proof fn lemma_delete_all<T: Ord>(keys: Seq<T>, gone: Seq<T>)
    requires
        total_order::<T>(),
        forall|i: int| 0 <= i < keys.len() ==> has_key(gone, #[trigger] keys[i]),
    ensures
        run(Seq::<T>::empty(), inserts(keys) + deletes(gone)).len() == 0,
        forall|key: T| lookup(run(Seq::<T>::empty(), inserts(keys) + deletes(gone)), key) is None,
{
    let ops = inserts(keys) + deletes(gone);
    let r = run(Seq::<T>::empty(), ops);
    lemma_run_increasing(Seq::<T>::empty(), ops);
    if r.len() > 0 {
        let x = r[0];
        lemma_trichotomy(x, x);
        assert(has_key(r, x));
        lemma_has_key_history(ops, x);
        let i = last_touch(ops, x);
        if i < keys.len() {
            assert(ops[i] == Op::Insert(keys[i]));
            let j = choose|j: int| 0 <= j < gone.len() && equiv(#[trigger] gone[j], keys[i]);
            assert(ops[keys.len() + j] == Op::Delete(gone[j]));
            lemma_equiv_transitive(gone[j], keys[i], x);
            assert(touches(ops[keys.len() + j], x));
        } else {
            assert(ops[i] == Op::Delete(gone[i - keys.len()]));
        }
    }
    assert forall|key: T| lookup(r, key) is None by {
        if has_key(r, key) {
            let i = choose|i: int| 0 <= i < r.len() && equiv(#[trigger] r[i], key);
        }
    }
}

} // verus!
