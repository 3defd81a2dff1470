//! Lists that differ in little: what carries over from one to the other.

use super::{Cursor, SkipList};
use crate::skipnode::Link;
use vstd::prelude::*;

verus! {

impl<T> SkipList<T> {
    /// What depends on neither links nor keys is the same in two lists that
    /// differ in those only.
    pub(super) proof fn lemma_same_shape(&self, other: &Self)
        requires
            self.same_shape(other),
            other.arena_ok(),
        ensures
            self.arena_ok(),
            other.free_ok() ==> self.free_ok(),
            self.heights() == other.heights(),
            self.size() == other.size(),
            forall|p: int| -1 <= p < self.size() ==> #[trigger] self.height(p) == other.height(p),
            forall|link: Link| #[trigger] self.target(link) == other.target(link),
            forall|c: Cursor| #[trigger] self.cursor_ok(c) == other.cursor_ok(c),
            forall|c: Cursor| #[trigger] self.position(c) == other.position(c),
    {
        assert forall|p: int| 0 <= p < self.size()
            implies self.occupied(#[trigger] self.order@[p] as int)
            && self.place@[self.order@[p] as int] == p by {
            assert(other.occupied(other.order@[p] as int));
            let j = self.order@[p] as int;
            assert(self.nodes@[j] is Some);
        }
        assert forall|j: int| self.occupied(j) implies 0 <= #[trigger] self.place@[j] < self.size()
            && self.order@[self.place@[j]] == j by {
            assert(self.nodes@[j] is Some);
            assert(other.occupied(j));
        }
        assert forall|j: int| self.occupied(j) implies {
            let node = (#[trigger] self.nodes@[j]).unwrap();
            1 <= node.level <= self.head@.len() && node.next@.len() == node.level
        } by {
            assert(other.occupied(j));
            assert(other.nodes@[j] is Some);
        }
        assert forall|p: int| 0 <= p < self.size()
            implies self.node(p).level == other.node(p).level by {
            assert(other.occupied(other.order@[p] as int));
            let j = self.order@[p] as int;
            assert(self.nodes@[j] is Some);
        }
        assert(self.heights() =~= other.heights());
        assert forall|link: Link| #[trigger] self.target(link) == other.target(link) by {
            if let Some(j) = link {
                if 0 <= j < self.nodes@.len() {
                    assert((self.nodes@[j as int] is Some) == (other.nodes@[j as int] is Some));
                }
            }
        }
        assert forall|c: Cursor| #[trigger] self.cursor_ok(c) == other.cursor_ok(c) by {
            if let Cursor::Node(j) = c {
                if 0 <= j < self.nodes@.len() {
                    assert((self.nodes@[j as int] is Some) == (other.nodes@[j as int] is Some));
                }
            }
        }
        if other.free_ok() {
            assert forall|i: int| 0 <= i < self.free@.len() implies (#[trigger] self.free@[i])
                < self.nodes@.len() && self.nodes@[self.free@[i] as int] is None by {
                let j = self.free@[i] as int;
                assert(other.free@[i] == j);
                assert((self.nodes@[j] is Some) == (other.nodes@[j] is Some));
            }
            assert forall|j: usize|
                j < self.nodes@.len() && (#[trigger] self.nodes@[j as int]) is None
                    implies self.free@.contains(j) by {
                assert(other.nodes@[j as int] is None);
            }
        }
    }

    /// The keys are the same in two lists that differ in their links only.
    pub(super) proof fn lemma_same_frame(&self, other: &Self)
        requires
            self.same_frame(other),
            other.arena_ok(),
        ensures
            self@ == other@,
    {
        self.lemma_same_shape(other);
        assert forall|p: int| 0 <= p < self.size()
            implies self.node(p).key == other.node(p).key by {
            assert(other.occupied(other.order@[p] as int));
            let j = self.order@[p] as int;
            assert(self.nodes@[j] is Some);
        }
        assert(self@ =~= other@);
    }

    /// The links that are as they should be stay so in a list whose links
    /// are the same.
    pub(super) proof fn lemma_links_kept(&self, before: &Self, k: int, lo: int, hi: int)
        requires
            before.arena_ok(),
            before.links_ok(k, lo, hi),
            self.same_shape(before),
            -1 <= k < before.size() ==> 0 <= lo && hi <= before.height(k),
            forall|p: int, m: int|
                -1 <= p < before.size() && 0 <= m < before.height(p) ==> #[trigger] self.link(p, m)
                    == before.link(p, m),
        ensures
            self.links_ok(k, lo, hi),
    {
        self.lemma_same_shape(before);
        assert forall|p: int, m: int|
            -1 <= p < self.size() && #[trigger] self.visible(p, m, k, lo, hi)
                implies self.link_ok(p, m, k, lo, hi) by {
            assert(self.height(p) == before.height(p));
            assert(before.visible(p, m, k, lo, hi));
            assert(before.link_ok(p, m, k, lo, hi));
            let q = before.target(before.link(p, m));
            assert forall|r: int| p < r < q implies !#[trigger] self.visible(r, m, k, lo, hi) by {
                assert(!before.visible(r, m, k, lo, hi));
                assert(self.height(r) == before.height(r));
            }
            if q < before.size() {
                assert(self.height(q) == before.height(q));
            }
        }
    }

    /// The predecessors that were found stay the predecessors in a list
    /// that differs in links and keys only.
    pub(super) proof fn lemma_preds_kept(
        &self,
        before: &Self,
        prevs: Seq<Cursor>,
        k: int,
        from: int,
    )
        requires
            before.arena_ok(),
            self.same_shape(before),
            before.preds_ok(prevs, k, from),
            k <= before.size(),
        ensures
            self.preds_ok(prevs, k, from),
    {
        self.lemma_same_shape(before);
        assert forall|l: int| from <= l < prevs.len()
            implies self.pred_ok(#[trigger] prevs[l], l, k) by {
            let c = prevs[l];
            assert(before.pred_ok(c, l, k));
            let p = before.position(c);
            assert(self.height(p) == before.height(p));
            assert forall|r: int| p < r < k implies #[trigger] self.height(r) <= l by {
                assert(before.height(r) <= l);
            }
        }
    }
}

} // verus!
