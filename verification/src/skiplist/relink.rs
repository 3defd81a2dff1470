//! Linking a node into a level and unlinking it from a level.

use super::{Cursor, SkipList};
use vstd::prelude::*;

verus! {

impl<T> SkipList<T> {
    /// A node that takes part in all its levels is a node like any other.
    pub(super) proof fn lemma_linked(&self, k: int, hi: int)
        requires
            self.links_ok(k, 0, hi),
            0 <= k < self.size(),
            hi == self.height(k),
        ensures
            self.links_ok(-2, 0, 0),
    {
        assert forall|p: int, m: int|
            -1 <= p < self.size() && #[trigger] self.visible(p, m, -2, 0, 0)
                implies self.link_ok(p, m, -2, 0, 0) by {
            assert(self.visible(p, m, k, 0, hi));
            assert(self.link_ok(p, m, k, 0, hi));
            let q = self.target(self.link(p, m));
            assert forall|r: int| p < r < q implies !#[trigger] self.visible(r, m, -2, 0, 0) by {
                assert(!self.visible(r, m, k, 0, hi));
            }
        }
    }

    /// Any node can be seen as one that takes part in all its levels.
    pub(super) proof fn lemma_linked_back(&self, k: int, hi: int)
        requires
            self.links_ok(-2, 0, 0),
            0 <= k < self.size(),
            hi == self.height(k),
        ensures
            self.links_ok(k, 0, hi),
    {
        assert forall|p: int, m: int|
            -1 <= p < self.size() && #[trigger] self.visible(p, m, k, 0, hi)
                implies self.link_ok(p, m, k, 0, hi) by {
            assert(self.visible(p, m, -2, 0, 0));
            assert(self.link_ok(p, m, -2, 0, 0));
            let q = self.target(self.link(p, m));
            assert forall|r: int| p < r < q implies !#[trigger] self.visible(r, m, k, 0, hi) by {
                assert(!self.visible(r, m, -2, 0, 0));
            }
        }
    }

    /// Linking the node at position `k` into level `l`: the node takes over
    /// the link of its predecessor on that level, and the predecessor links
    /// to the node. The node then takes part in the levels up to `l`.
    pub(super) proof fn lemma_splice(&self, before: &Self, prev: Cursor, k: int, l: int)
        requires
            before.arena_ok(),
            before.links_ok(k, 0, l),
            self.same_shape(before),
            0 <= k < before.size(),
            0 <= l < before.height(k),
            before.pred_ok(prev, l, k),
            forall|p: int, m: int|
                -1 <= p < before.size() && 0 <= m < before.height(p) ==> #[trigger] self.link(p, m)
                    == (if p == k && m == l {
                    before.link(before.position(prev), l)
                } else if p == before.position(prev) && m == l {
                    Some(before.order@[k])
                } else {
                    before.link(p, m)
                }),
        ensures
            self.links_ok(k, 0, l + 1),
    {
        self.lemma_same_shape(before);
        let n = before.size();
        let pp = before.position(prev);
        assert(before.visible(pp, l, k, 0, l));
        assert(before.link_ok(pp, l, k, 0, l));
        let qq = before.target(before.link(pp, l));
        assert(before.occupied(before.order@[k] as int));
        if qq < k {
            assert(before.height(qq) <= l);
        }
        assert forall|p: int, m: int|
            -1 <= p < self.size() && #[trigger] self.visible(p, m, k, 0, l + 1)
                implies self.link_ok(p, m, k, 0, l + 1) by {
            assert(self.height(p) == before.height(p));
            if m != l {
                // On the other levels nothing has changed.
                assert(before.visible(p, m, k, 0, l));
                assert(before.link_ok(p, m, k, 0, l));
                let q = before.target(before.link(p, m));
                assert forall|r: int| p < r < q
                    implies !#[trigger] self.visible(r, m, k, 0, l + 1) by {
                    assert(!before.visible(r, m, k, 0, l));
                    assert(self.height(r) == before.height(r));
                }
                if q < n {
                    assert(self.height(q) == before.height(q));
                }
            } else if p == k {
                // The node has the link that its predecessor had, which led
                // beyond the node.
                assert forall|r: int| k < r < qq
                    implies !#[trigger] self.visible(r, l, k, 0, l + 1) by {
                    assert(!before.visible(r, l, k, 0, l));
                    assert(self.height(r) == before.height(r));
                }
                if qq < n {
                    assert(self.height(qq) == before.height(qq));
                }
            } else if p == pp {
                // The predecessor links to the node, and nothing between them
                // takes part in the level.
                assert forall|r: int| pp < r < k
                    implies !#[trigger] self.visible(r, l, k, 0, l + 1) by {
                    assert(before.height(r) <= l);
                    assert(self.height(r) == before.height(r));
                }
            } else {
                // The link of any other place does not pass over the node:
                // it would pass over the predecessor, or start behind it.
                assert(before.visible(p, l, k, 0, l));
                assert(before.link_ok(p, l, k, 0, l));
                let q = before.target(before.link(p, l));
                if p < k < q {
                    if p < pp {
                        assert(before.visible(pp, l, k, 0, l));
                    } else {
                        assert(before.height(p) <= l);
                    }
                }
                assert forall|r: int| p < r < q
                    implies !#[trigger] self.visible(r, l, k, 0, l + 1) by {
                    assert(!before.visible(r, l, k, 0, l));
                    assert(self.height(r) == before.height(r));
                }
                if q < n {
                    assert(self.height(q) == before.height(q));
                }
            }
        }
    }

    /// Unlinking the node at position `k` from level `l`: its predecessor
    /// on that level takes over its link. The node then takes part in the
    /// levels above `l` only.
    pub(super) proof fn lemma_unlink(&self, before: &Self, prev: Cursor, k: int, l: int, hi: int)
        requires
            before.arena_ok(),
            before.links_ok(k, l, hi),
            self.same_shape(before),
            0 <= k < before.size(),
            0 <= l < hi == before.height(k),
            before.pred_ok(prev, l, k),
            forall|p: int, m: int|
                -1 <= p < before.size() && 0 <= m < before.height(p) ==> #[trigger] self.link(p, m)
                    == (if p == before.position(prev) && m == l {
                    before.link(k, l)
                } else {
                    before.link(p, m)
                }),
        ensures
            self.links_ok(k, l + 1, hi),
    {
        self.lemma_same_shape(before);
        let n = before.size();
        let pp = before.position(prev);
        assert(before.visible(k, l, k, l, hi));
        assert(before.link_ok(k, l, k, l, hi));
        let qk = before.target(before.link(k, l));
        assert forall|p: int, m: int|
            -1 <= p < self.size() && #[trigger] self.visible(p, m, k, l + 1, hi)
                implies self.link_ok(p, m, k, l + 1, hi) by {
            assert(self.height(p) == before.height(p));
            if m != l {
                // On the other levels nothing has changed.
                assert(before.visible(p, m, k, l, hi));
                assert(before.link_ok(p, m, k, l, hi));
                let q = before.target(before.link(p, m));
                assert forall|r: int| p < r < q
                    implies !#[trigger] self.visible(r, m, k, l + 1, hi) by {
                    assert(!before.visible(r, m, k, l, hi));
                    assert(self.height(r) == before.height(r));
                }
                if q < n {
                    assert(self.height(q) == before.height(q));
                }
            } else if p == pp {
                // The predecessor has the link that the node had: nothing
                // between the two took part in the level, and the node does
                // no longer.
                assert forall|r: int| pp < r < qk
                    implies !#[trigger] self.visible(r, l, k, l + 1, hi) by {
                    if r < k {
                        assert(before.height(r) <= l);
                    } else if r > k {
                        assert(!before.visible(r, l, k, l, hi));
                    }
                    assert(self.height(r) == before.height(r));
                }
                if qk < n {
                    assert(self.height(qk) == before.height(qk));
                }
            } else {
                // No other place linked to the node: only its predecessor
                // did.
                assert(before.visible(p, l, k, l, hi));
                assert(before.link_ok(p, l, k, l, hi));
                let q = before.target(before.link(p, l));
                if q == k {
                    if p < pp {
                        assert(before.visible(pp, l, k, l, hi));
                    } else {
                        assert(before.height(p) <= l);
                    }
                }
                assert forall|r: int| p < r < q
                    implies !#[trigger] self.visible(r, l, k, l + 1, hi) by {
                    assert(!before.visible(r, l, k, l, hi));
                    assert(self.height(r) == before.height(r));
                }
                if q < n {
                    assert(self.height(q) == before.height(q));
                }
            }
        }
    }
}

} // verus!
