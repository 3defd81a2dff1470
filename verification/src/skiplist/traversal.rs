//! Following the links of a level from the head.

use super::SkipList;
use crate::sorted::{lemma_taller_all, lemma_taller_increasing, strictly_increasing, taller};
use vstd::prelude::*;

verus! {

impl<T> SkipList<T> {
    /// Following the links of level `l` from a place `src` meets the keys on
    /// the towers taller than `l` behind it. Stated for any position `p`
    /// such that no tower between `src` and `p`, `p` included, is taller
    /// than `l`.
    pub(super) proof fn lemma_walk(&self, l: int, src: int, p: int, steps: nat)
        requires
            self.arena_ok(),
            self.links_ok(-2, 0, 0),
            -1 <= src <= p < self.size(),
            0 <= l < self.height(src),
            forall|r: int| src < r <= p ==> #[trigger] self.height(r) <= l,
            steps >= self.size() - 1 - p,
        ensures
            self.walk(self.link(src, l), l, steps) == taller(
                self@.subrange(p + 1, self.size()),
                self.heights().subrange(p + 1, self.size()),
                l,
            ),
        decreases self.size() - p,
    {
        let n = self.size();
        let keys = self@.subrange(p + 1, n);
        let heights = self.heights().subrange(p + 1, n);
        assert(self.visible(src, l, -2, 0, 0));
        assert(self.link_ok(src, l, -2, 0, 0));
        let q = self.target(self.link(src, l));
        if p + 1 == n {
            if q < n {
                assert(self.height(q) <= l);
            }
        } else {
            assert(keys.drop_first() =~= self@.subrange(p + 2, n));
            assert(heights.drop_first() =~= self.heights().subrange(p + 2, n));
            assert(heights.first() == self.height(p + 1));
            assert(keys.first() == self.node(p + 1).key);
            assert(self.occupied(self.order@[p + 1] as int));
            if self.height(p + 1) > l {
                if q > p + 1 {
                    assert(!self.visible(p + 1, l, -2, 0, 0));
                }
                if q < p + 1 {
                    assert(self.height(q) <= l);
                }
                assert(q == p + 1);
                self.lemma_walk(l, p + 1, p + 1, (steps - 1) as nat);
            } else {
                self.lemma_walk(l, src, p + 1, steps);
            }
        }
    }
}

impl<T: Ord> SkipList<T> {
    /// The links are what the view says: following the links of a level
    /// from the head meets, in key order, the keys of the nodes taller than
    /// the level, which on level 0 are all keys of the list.
    pub proof fn lemma_traversal(&self, l: int)
        requires
            self.wf(),
            0 <= l < self.max_level(),
        ensures
            self.traversal(l) == taller(self@, self.heights(), l),
            strictly_increasing(self.traversal(l)),
            l == 0 ==> self.traversal(l) == self@,
    {
        self.lemma_size_bound();
        self.lemma_walk(l, -1, -1, self.nodes@.len());
        assert(self@.subrange(0, self.size()) =~= self@);
        assert(self.heights().subrange(0, self.size()) =~= self.heights());
        lemma_taller_increasing(self@, self.heights(), l);
        if l == 0 {
            self.lemma_heights();
            lemma_taller_all(self@, self.heights(), 0);
        }
    }
}

} // verus!
