//! The arena: reading and writing nodes, taking a slot and giving it back.

use super::{moved_down, moved_up, Cursor, SkipList};
use crate::skipnode::{Link, SkipNode};
use vstd::prelude::*;

verus! {

/// Distinct numbers below `m` are at most `m` numbers.
proof fn lemma_pigeonhole(s: Seq<usize>, m: int)
    requires
        0 <= m,
        s.no_duplicates(),
        forall|i: int| 0 <= i < s.len() ==> (#[trigger] s[i]) < m,
    ensures
        s.len() <= m,
    decreases m,
{
    if s.len() > 0 {
        assert(s[0] < m);
        if exists|i: int| 0 <= i < s.len() && s[i] == m - 1 {
            let i = choose|i: int| 0 <= i < s.len() && s[i] == m - 1;
            let t = s.remove(i);
            assert(t.len() == s.len() - 1);
            assert forall|a: int| 0 <= a < t.len() implies (#[trigger] t[a]) < m - 1 by {
                let a1 = if a < i { a } else { a + 1 };
                assert(t[a] == s[a1]);
                assert(s[a1] != s[i]);
            }
            assert forall|a: int, b: int| 0 <= a < t.len() && 0 <= b < t.len() && a != b
                implies t[a] != t[b] by {
                let a1 = if a < i { a } else { a + 1 };
                let b1 = if b < i { b } else { b + 1 };
                assert(t[a] == s[a1] && t[b] == s[b1]);
            }
            lemma_pigeonhole(t, m - 1);
        } else {
            assert forall|a: int| 0 <= a < s.len() implies (#[trigger] s[a]) < m - 1 by {
                assert(s[a] != m - 1);
            }
            lemma_pigeonhole(s, m - 1);
        }
    }
}

impl<T> SkipList<T> {
    /// The link that leaves `at` on level `l`.
    pub(super) fn next_of(&self, at: Cursor, l: usize) -> (r: Link)
        requires
            self.arena_ok(),
            self.cursor_ok(at),
            l < self.height(self.position(at)),
        ensures
            r == self.link(self.position(at), l as int),
    {
        match at {
            Cursor::Head => self.head[l],
            Cursor::Node(j) => self.nodes[j].as_ref().unwrap().next[l],
        }
    }

    /// The key of the node in slot `j`.
    pub(super) fn key_at(&self, j: usize) -> (r: &T)
        requires
            self.arena_ok(),
            self.occupied(j as int),
        ensures
            *r == self@[self.place@[j as int]],
    {
        &self.nodes[j].as_ref().unwrap().key
    }

    /// Makes `v` the link that leaves `at` on level `l`.
    pub(super) fn set_next(&mut self, at: Cursor, l: usize, v: Link)
        requires
            old(self).arena_ok(),
            old(self).cursor_ok(at),
            l < old(self).height(old(self).position(at)),
        ensures
            final(self).same_frame(old(self)),
            final(self).rnd == old(self).rnd,
            forall|p: int, m: int|
                -1 <= p < old(self).size() && 0 <= m < old(self).height(p)
                    ==> #[trigger] final(self).link(p, m) == (if p == old(self).position(at)
                        && m == l {
                        v
                    } else {
                        old(self).link(p, m)
                    }),
    {
        match at {
            Cursor::Head => {
                self.head[l] = v;
            },
            Cursor::Node(j) => {
                let node = self.nodes[j].as_mut().unwrap();
                node.next[l] = v;
                proof {
                    assert forall|p: int, m: int|
                        -1 <= p < old(self).size() && 0 <= m < old(self).height(p)
                            implies #[trigger] self.link(p, m) == (if p == old(self).position(at)
                            && m == l {
                            v
                        } else {
                            old(self).link(p, m)
                        }) by {
                        if p >= 0 {
                            assert(old(self).occupied(old(self).order@[p] as int));
                        }
                    }
                }
            },
        }
    }

    /// Puts `key` in the place of the key of the node in slot `j`.
    pub(super) fn replace_key(&mut self, j: usize, key: T)
        requires
            old(self).arena_ok(),
            old(self).occupied(j as int),
        ensures
            final(self).same_shape(old(self)),
            final(self).rnd == old(self).rnd,
            forall|p: int, m: int|
                -1 <= p < old(self).size() && 0 <= m < old(self).height(p)
                    ==> #[trigger] final(self).link(p, m) == old(self).link(p, m),
            final(self)@ == old(self)@.update(old(self).place@[j as int], key),
    {
        let node = self.nodes[j].as_mut().unwrap();
        node.key = key;
        proof {
            let k = old(self).place@[j as int];
            assert forall|p: int| 0 <= p < old(self).size()
                implies self.node(p).next == old(self).node(p).next
                && self.node(p).key == (if p == k { key } else { old(self).node(p).key }) by {
                assert(old(self).occupied(old(self).order@[p] as int));
            }
            assert(self@ =~= old(self)@.update(old(self).place@[j as int], key));
        }
    }

    /// Puts `node` into a vacant slot of the arena, or into a new slot where
    /// none is vacant, and gives it position `k` of the key order. Returns
    /// the slot.
    pub(super) fn allocate(&mut self, node: SkipNode<T>, Ghost(k): Ghost<int>) -> (idx: usize)
        requires
            old(self).arena_ok(),
            old(self).free_ok(),
            old(self).len == old(self).size(),
            0 <= k <= old(self).size(),
        ensures
            final(self).opened(old(self), k, idx as int, node),
            final(self).free_ok(),
    {
        let ghost place = self.place@;
        let idx = match self.free.pop() {
            Some(j) => {
                assert(old(self).free@[old(self).free@.len() - 1] == j);
                self.nodes[j] = Some(node);
                j
            },
            None => {
                self.nodes.push(Some(node));
                self.nodes.len() - 1
            },
        };
        proof {
            self.order@ = self.order@.insert(k, idx);
            self.place@ = Seq::new(
                self.nodes@.len(),
                |j: int| if j == idx { k } else { moved_up(place[j], k) },
            );
            assert forall|j: usize|
                j < self.nodes@.len() && (#[trigger] self.nodes@[j as int]) is None
                    implies self.free@.contains(j) by {
                assert(old(self).nodes@[j as int] is None);
                let i = old(self).free@.index_of(j);
                assert(self.free@[i] == j);
            }
            assert(self.nodes@ =~= if idx < old(self).nodes@.len() {
                old(self).nodes@.update(idx as int, Some(node))
            } else {
                old(self).nodes@.push(Some(node))
            });
            // The count can grow: the nodes stand in slots of their own, so
            // there are no more of them than there are slots.
            assert forall|a: int, b: int|
                0 <= a < self.order@.len() && 0 <= b < self.order@.len() && a != b
                    implies self.order@[a] != self.order@[b] by {
                if a != k {
                    assert(old(self).occupied(old(self).order@[moved_down(a, k)] as int));
                }
                if b != k {
                    assert(old(self).occupied(old(self).order@[moved_down(b, k)] as int));
                }
            }
            assert forall|a: int| 0 <= a < self.order@.len() implies (#[trigger] self.order@[a])
                < self.nodes@.len() by {
                if a != k {
                    assert(old(self).occupied(old(self).order@[moved_down(a, k)] as int));
                }
            }
            lemma_pigeonhole(self.order@, self.nodes@.len() as int);
            assert(self.nodes@.len() == self.nodes.len());
        }
        self.len += 1;
        idx
    }

    /// Takes the node at position `k` of the key order, which is the node
    /// in slot `j`, out of the arena. The node is dropped and its slot
    /// becomes vacant.
    pub(super) fn release(&mut self, j: usize, Ghost(k): Ghost<int>)
        requires
            old(self).arena_ok(),
            old(self).free_ok(),
            old(self).len == old(self).size(),
            0 <= k < old(self).size(),
            old(self).order@[k] == j,
        ensures
            final(self).closed(old(self), k),
            final(self).free_ok(),
    {
        let ghost place = self.place@;
        assert(self.occupied(self.order@[k] as int));
        self.nodes[j] = None;
        self.free.push(j);
        self.len -= 1;
        proof {
            self.order@ = self.order@.remove(k);
            self.place@ = Seq::new(self.nodes@.len(), |i: int| moved_down(place[i], k));
            assert forall|a: int, b: int|
                0 <= a < self.free@.len() && 0 <= b < self.free@.len() && a != b
                    implies self.free@[a] != self.free@[b] by {
                if a < old(self).free@.len() {
                    assert(old(self).free@[a] == self.free@[a]);
                }
                if b < old(self).free@.len() {
                    assert(old(self).free@[b] == self.free@[b]);
                }
            }
            assert forall|i: int| 0 <= i < self.free@.len() implies (#[trigger] self.free@[i])
                < self.nodes@.len() && self.nodes@[self.free@[i] as int] is None by {
                if i < old(self).free@.len() {
                    assert(old(self).free@[i] == self.free@[i]);
                }
            }
            assert forall|i: usize|
                i < self.nodes@.len() && (#[trigger] self.nodes@[i as int]) is None
                    implies self.free@.contains(i) by {
                if i == j {
                    assert(self.free@[self.free@.len() - 1] == j);
                } else {
                    assert(old(self).nodes@[i as int] is None);
                    let a = old(self).free@.index_of(i);
                    assert(self.free@[a] == i);
                }
            }
        }
    }

    /// The number of nodes is at most the number of slots.
    pub(super) proof fn lemma_size_bound(&self)
        requires
            self.arena_ok(),
        ensures
            self.size() <= self.nodes@.len(),
    {
        assert forall|a: int, b: int|
            0 <= a < self.order@.len() && 0 <= b < self.order@.len() && a != b
                implies self.order@[a] != self.order@[b] by {
            assert(self.place@[self.order@[a] as int] == a);
            assert(self.place@[self.order@[b] as int] == b);
        }
        assert forall|i: int| 0 <= i < self.order@.len() implies (#[trigger] self.order@[i])
            < self.nodes@.len() by {
            assert(self.occupied(self.order@[i] as int));
        }
        lemma_pigeonhole(self.order@, self.nodes@.len() as int);
    }

    /// A node that has been put into the arena, and takes part in no level
    /// yet, leaves the links of all levels as they should be.
    pub(super) proof fn lemma_opened(
        &self,
        before: &Self,
        k: int,
        idx: int,
        node: SkipNode<T>,
        prevs: Seq<Cursor>,
    )
        requires
            before.arena_ok(),
            before.links_ok(-2, 0, 0),
            0 <= k <= before.size(),
            idx <= usize::MAX,
            self.opened(before, k, idx, node),
            1 <= node.level <= before.head@.len(),
            node.next@.len() == node.level,
            before.preds_ok(prevs, k, 0),
        ensures
            self.arena_ok(),
            self.links_ok(k, 0, 0),
            self.size() == before.size() + 1,
            self@ == before@.insert(k, node.key),
            self.heights() == before.heights().insert(k, node.level as nat),
            self.order@[k] == idx,
            self.occupied(idx),
            self.height(k) == node.level,
            self.preds_ok(prevs, k, 0),
    {
        let n = before.size();
        assert(self.nodes@[idx] == Some(node));
        assert forall|j: int| before.occupied(j) implies self.occupied(j) && self.nodes@[j]
            == before.nodes@[j] && self.place@[j] == moved_up(before.place@[j], k) by {}
        assert forall|p: int| 0 <= p < n + 1 && p != k implies self.order@[p]
            == before.order@[moved_down(p, k)] && before.occupied(self.order@[p] as int)
            && #[trigger] self.node(p) == before.node(moved_down(p, k)) by {
            assert(before.occupied(before.order@[moved_down(p, k)] as int));
        }
        assert forall|p: int| 0 <= p < self.size()
            implies self.occupied(#[trigger] self.order@[p] as int)
            && self.place@[self.order@[p] as int] == p by {
            if p != k {
                assert(self.node(p) == before.node(moved_down(p, k)));
            }
        }
        assert forall|j: int| self.occupied(j) implies 0 <= #[trigger] self.place@[j] < self.size()
            && self.order@[self.place@[j]] == j by {
            if j != idx {
                assert(before.occupied(j));
                let p = before.place@[j];
                assert(self.node(moved_up(p, k)) == before.node(p));
            }
        }
        assert forall|j: int| self.occupied(j) implies {
            let node = (#[trigger] self.nodes@[j]).unwrap();
            1 <= node.level <= self.head@.len() && node.next@.len() == node.level
        } by {
            if j != idx {
                assert(before.occupied(j));
                assert(before.nodes@[j] is Some);
            }
        }
        assert(self.arena_ok());
        assert forall|p: int| 0 <= p < self.size()
            implies self@[p] == before@.insert(k, node.key)[p]
            && self.heights()[p] == before.heights().insert(k, node.level as nat)[p] by {
            if p != k {
                assert(self.node(p) == before.node(moved_down(p, k)));
            }
        }
        assert(self@ =~= before@.insert(k, node.key));
        assert(self.heights() =~= before.heights().insert(k, node.level as nat));
        assert forall|p: int, l: int|
            -1 <= p < self.size() && #[trigger] self.visible(p, l, k, 0, 0)
                implies self.link_ok(p, l, k, 0, 0) by {
            let b = moved_down(p, k);
            if p >= 0 {
                assert(self.node(p) == before.node(b));
            }
            assert(before.visible(b, l, -2, 0, 0));
            assert(before.link_ok(b, l, -2, 0, 0));
            let q = before.target(before.link(b, l));
            assert(self.target(self.link(p, l)) == moved_up(q, k));
            if q < n {
                assert(self.node(moved_up(q, k)) == before.node(q));
            }
            assert forall|r: int| p < r < moved_up(q, k)
                implies !#[trigger] self.visible(r, l, k, 0, 0) by {
                if r != k {
                    assert(self.node(r) == before.node(moved_down(r, k)));
                    assert(!before.visible(moved_down(r, k), l, -2, 0, 0));
                }
            }
        }
        assert forall|l: int| 0 <= l < prevs.len()
            implies self.pred_ok(#[trigger] prevs[l], l, k) by {
            let c = prevs[l];
            assert(before.pred_ok(c, l, k));
            let p = before.position(c);
            if p >= 0 {
                assert(self.node(p) == before.node(p));
            }
            assert forall|r: int| p < r < k implies #[trigger] self.height(r) <= l by {
                assert(self.node(r) == before.node(r));
                assert(before.height(r) <= l);
            }
        }
    }

    /// A node that takes part in no level any more can be taken out of the
    /// arena, and the links of all levels stay as they should be.
    pub(super) proof fn lemma_closed(&self, before: &Self, k: int, hi: int)
        requires
            before.arena_ok(),
            before.links_ok(k, hi, hi),
            0 <= k < before.size(),
            self.closed(before, k),
        ensures
            self.arena_ok(),
            self.links_ok(-2, 0, 0),
            self.size() == before.size() - 1,
            self@ == before@.remove(k),
            self.heights() == before.heights().remove(k),
    {
        let n = before.size();
        let idx = before.order@[k] as int;
        assert(before.occupied(idx));
        assert forall|j: int| before.occupied(j) && j != idx implies self.occupied(j)
            && self.nodes@[j] == before.nodes@[j] && self.place@[j]
                == moved_down(before.place@[j], k) && before.place@[j] != k by {}
        assert forall|p: int| 0 <= p < n - 1 implies self.order@[p] == before.order@[moved_up(p, k)]
            && #[trigger] self.node(p)
                == before.node(moved_up(p, k)) && self.occupied(self.order@[p] as int) by {
            assert(before.occupied(before.order@[moved_up(p, k)] as int));
        }
        assert forall|p: int| 0 <= p < self.size()
            implies self.occupied(#[trigger] self.order@[p] as int)
            && self.place@[self.order@[p] as int] == p by {
            assert(self.node(p) == before.node(moved_up(p, k)));
            assert(before.occupied(before.order@[moved_up(p, k)] as int));
        }
        assert forall|j: int| self.occupied(j) implies 0 <= #[trigger] self.place@[j] < self.size()
            && self.order@[self.place@[j]] == j by {
            assert(before.occupied(j));
            let p = before.place@[j];
            assert(self.node(moved_down(p, k)) == before.node(p));
        }
        assert forall|j: int| self.occupied(j) implies {
            let node = (#[trigger] self.nodes@[j]).unwrap();
            1 <= node.level <= self.head@.len() && node.next@.len() == node.level
        } by {
            assert(before.occupied(j));
            assert(before.nodes@[j] is Some);
        }
        assert(self.arena_ok());
        assert forall|p: int| 0 <= p < self.size() implies self@[p] == before@.remove(k)[p]
            && self.heights()[p] == before.heights().remove(k)[p] by {
            assert(self.node(p) == before.node(moved_up(p, k)));
        }
        assert(self@ =~= before@.remove(k));
        assert(self.heights() =~= before.heights().remove(k));
        assert forall|p: int, l: int|
            -1 <= p < self.size() && #[trigger] self.visible(p, l, -2, 0, 0)
                implies self.link_ok(p, l, -2, 0, 0) by {
            let b = moved_up(p, k);
            if p >= 0 {
                assert(self.node(p) == before.node(b));
            }
            assert(before.visible(b, l, k, hi, hi));
            assert(before.link_ok(b, l, k, hi, hi));
            let q = before.target(before.link(b, l));
            assert(q != k);
            assert(self.target(self.link(p, l)) == moved_down(q, k));
            if q < n {
                assert(self.node(moved_down(q, k)) == before.node(q));
            }
            assert forall|r: int| p < r < moved_down(q, k)
                implies !#[trigger] self.visible(r, l, -2, 0, 0) by {
                assert(self.node(r) == before.node(moved_up(r, k)));
                assert(!before.visible(moved_up(r, k), l, k, hi, hi));
            }
        }
    }
}

} // verus!
