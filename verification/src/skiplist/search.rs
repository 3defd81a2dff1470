//! What a finished search tells about the place of its key.

use super::{Cursor, SkipList};
use crate::order::{lemma_lt_transitive, lt};
use crate::sorted::boundary;
use vstd::prelude::*;

verus! {

impl<T: Ord> SkipList<T> {
    /// Where the search has stopped on every level, the place of the key is
    /// just behind the stop on level 0, and each stop is the last place of
    /// its level in front of it.
    pub(super) proof fn lemma_stops_boundary(&self, prevs: Seq<Cursor>, key: T)
        requires
            self.wf(),
            prevs.len() == self.head@.len(),
            forall|l: int| 0 <= l < prevs.len() ==> self.stops(#[trigger] prevs[l], l, key),
        ensures
            boundary(self@, key, self.position(prevs[0]) + 1),
            self.preds_ok(prevs, self.position(prevs[0]) + 1, 0),
    {
        let n = self.size();
        let stop = self.position(prevs[0]);
        let k = stop + 1;
        assert(self.stops(prevs[0], 0, key));
        assert(self.visible(stop, 0, -2, 0, 0));
        assert(self.link_ok(stop, 0, -2, 0, 0));
        let beyond = self.target(self.link(stop, 0));
        if beyond > k {
            assert(self.visible(k, 0, -2, 0, 0));
        }
        assert(beyond == k);
        assert forall|i: int| 0 <= i < k implies lt(#[trigger] self@[i], key) by {
            if i < stop {
                lemma_lt_transitive(self@[i], self@[stop], key);
            }
        }
        assert forall|i: int| k <= i < n implies !lt(#[trigger] self@[i], key) by {
            if i > k && lt(self@[i], key) {
                lemma_lt_transitive(self@[k], self@[i], key);
            }
        }
        assert forall|l: int| 0 <= l < prevs.len()
            implies self.pred_ok(#[trigger] prevs[l], l, k) by {
            let p = self.position(prevs[l]);
            assert(self.stops(prevs[l], l, key));
            assert(self.visible(p, l, -2, 0, 0));
            assert(self.link_ok(p, l, -2, 0, 0));
            let q = self.target(self.link(p, l));
            if p >= k {
                assert(!lt(self@[p], key));
            }
            if q < k {
                assert(lt(self@[q], key));
            }
            assert forall|r: int| p < r < k implies #[trigger] self.height(r) <= l by {
                assert(!self.visible(r, l, -2, 0, 0));
            }
        }
    }

    /// On level 0 every link leads to the very next position.
    pub(super) proof fn lemma_level_zero(&self, p: int)
        requires
            self.wf(),
            -1 <= p < self.size(),
        ensures
            0 < self.height(p),
            p + 1 == self.size() ==> self.link(p, 0) is None,
            p + 1 < self.size() ==> self.link(p, 0) == Some(self.order@[p + 1]),
    {
        if p >= 0 {
            assert(self.occupied(self.order@[p] as int));
        }
        assert(self.visible(p, 0, -2, 0, 0));
        assert(self.link_ok(p, 0, -2, 0, 0));
        let q = self.target(self.link(p, 0));
        if p + 1 < self.size() {
            assert(self.occupied(self.order@[p + 1] as int));
            if q > p + 1 {
                assert(self.visible(p + 1, 0, -2, 0, 0));
            }
        }
    }

    /// On level 0 the last place in front of position `k` is the place just
    /// in front of it, and its link leads to `k`.
    pub(super) proof fn lemma_successor(&self, prevs: Seq<Cursor>, k: int)
        requires
            self.wf(),
            0 <= k <= self.size(),
            self.preds_ok(prevs, k, 0),
        ensures
            self.position(prevs[0]) == k - 1,
            self.cursor_ok(prevs[0]),
            0 < self.height(k - 1),
            k == self.size() ==> self.link(k - 1, 0) is None,
            k < self.size() ==> self.link(k - 1, 0) == Some(self.order@[k]),
    {
        let p = self.position(prevs[0]);
        assert(self.pred_ok(prevs[0], 0, k));
        if p < k - 1 {
            assert(self.height(k - 1) <= 0);
            assert(self.occupied(self.order@[k - 1] as int));
        }
        assert(self.visible(p, 0, -2, 0, 0));
        assert(self.link_ok(p, 0, -2, 0, 0));
        let q = self.target(self.link(p, 0));
        if q > k {
            assert(self.visible(k, 0, -2, 0, 0));
        }
        if k < self.size() {
            assert(self.occupied(self.order@[k] as int));
        }
    }
}

} // verus!
