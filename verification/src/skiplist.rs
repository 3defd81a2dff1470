//! The skip list: an ordered index whose nodes live in an arena.
//!
//! Nodes are kept in the slots of a vector and link to each other by slot
//! number, so the list is the one owner of every node. A keyless head holds
//! the first link of every level. On level 0 the links run through all nodes
//! in key order; on level `l` they run through the nodes taller than `l`.

use crate::order::{equiv, less, lt, same, total_order};
use crate::random::{drawn_level, initial_state, state_after_draw, valid_state, Random};
use crate::skipnode::{Link, SkipNode};
use crate::sorted::{
    below, boundary, has_key, lemma_lookup, lemma_remove_increasing, lemma_split,
    lemma_with_key_at, lemma_with_key_increasing, lemma_without_key_at, lookup,
    strictly_increasing, with_key, without_key,
};
use vstd::prelude::*;

mod arena;
mod frame;
mod relink;
mod search;
mod traversal;

verus! {

/// The number of levels of a list made by `SkipList::new`.
pub const DEFAULT_MAX_LEVEL: usize = 12;

/// The branching factor of a list made by `SkipList::new`: a node reaches
/// each further level with one chance in this many.
pub const DEFAULT_BRANCHING: u32 = 4;

/// The seed of the level generator of a list made by `SkipList::new`.
pub const DEFAULT_SEED: u32 = 0xdeadbeef;

/// A place to stand in the list: the head, or the node in a slot.
#[derive(Clone, Copy)]
enum Cursor {
    Head,
    Node(usize),
}

/// An ordered set of keys. Its view is the sequence of its keys in their
/// order.
pub struct SkipList<T> {
    /// The links of the head; there is one for each level.
    head: Vec<Link>,
    /// The arena. A slot holds a node of the list or is vacant.
    nodes: Vec<Option<SkipNode<T>>>,
    /// The vacant slots, each once.
    free: Vec<usize>,
    len: usize,
    branching: u32,
    rnd: Random,
    /// The slots of the nodes, in key order.
    order: Ghost<Seq<usize>>,
    /// For each slot that holds a node, the node's position in `order`.
    place: Ghost<Seq<int>>,
}

impl<T> View for SkipList<T> {
    type V = Seq<T>;

    /// The keys of the list in their order. By `lemma_traversal` these are
    /// the keys that are met on the way along the links of level 0.
    closed spec fn view(&self) -> Seq<T> {
        Seq::new(self.order@.len(), |p: int| self.node(p).key)
    }
}

impl<T> SkipList<T> {
    /// The number of levels: the height of the head, and the greatest height
    /// a node can have.
    pub closed spec fn spec_max_level(&self) -> usize {
        self.head.len()
    }

    /// The number of levels.
    #[verifier::when_used_as_spec(spec_max_level)]
    pub fn max_level(&self) -> (r: usize)
        ensures
            r == self.spec_max_level(),
    {
        self.head.len()
    }

    /// The branching factor: a node reaches each further level with one
    /// chance in this many.
    pub closed spec fn spec_branching(&self) -> u32 {
        self.branching
    }

    /// The branching factor.
    #[verifier::when_used_as_spec(spec_branching)]
    pub fn branching(&self) -> (r: u32)
        ensures
            r == self.spec_branching(),
    {
        self.branching
    }

    /// The state of the level generator.
    pub closed spec fn generator(&self) -> int {
        self.rnd@
    }

    /// The height that the next new node will have: the one that the level
    /// generator draws from the state it is in.
    pub open spec fn next_height(&self) -> nat {
        drawn_level(self.generator(), 1, self.max_level() as nat, self.branching() as int)
    }

    /// The state of the level generator after it has drawn the height of
    /// the next new node.
    pub open spec fn generator_after_draw(&self) -> int {
        state_after_draw(self.generator(), 1, self.max_level() as nat, self.branching() as int)
    }

    /// The heights of the nodes, in key order.
    pub closed spec fn heights(&self) -> Seq<nat> {
        Seq::new(self.order@.len(), |p: int| self.node(p).level as nat)
    }

    /// The keys that are met by following the links of level `l` from the
    /// head to the end of the level.
    pub closed spec fn traversal(&self, l: int) -> Seq<T> {
        self.walk(self.head@[l], l, self.nodes@.len())
    }

    /// `self` and `other` are the same but, possibly, for the state of the
    /// level generator.
    pub closed spec fn same_structure(&self, other: &Self) -> bool {
        &&& self.head == other.head
        &&& self.nodes == other.nodes
        &&& self.free == other.free
        &&& self.len == other.len
        &&& self.branching == other.branching
        &&& self.order == other.order
        &&& self.place == other.place
    }
}

impl<T: Ord> SkipList<T> {
    /// The invariant of the list: the keys are strictly increasing in a
    /// lawful total order; every key has its node in the arena, and every
    /// slot of the arena holds such a node or is on the free list; on every
    /// level every link leads to the nearest node behind it that is taller
    /// than the level; and the count of keys is right.
    pub closed spec fn wf(&self) -> bool {
        &&& total_order::<T>()
        &&& self.head@.len() >= 1
        &&& self.branching >= 1
        &&& valid_state(self.rnd@)
        &&& self.len == self.size()
        &&& self.arena_ok()
        &&& self.free_ok()
        &&& self.links_ok(-2, 0, 0)
        &&& strictly_increasing(self@)
    }

    /// An empty list of `max_level` levels and the given branching factor,
    /// whose level generator is seeded with `seed`.
    pub fn with_config(max_level: usize, branching: u32, seed: u32) -> (list: Self)
        requires
            total_order::<T>(),
            max_level >= 1,
            branching >= 1,
        ensures
            list.wf(),
            list@ == Seq::<T>::empty(),
            list.max_level() == max_level,
            list.branching() == branching,
            list.generator() == initial_state(seed),
    {
        let head: Vec<Link> = vec![None; max_level];
        let list = SkipList {
            head,
            nodes: Vec::new(),
            free: Vec::new(),
            len: 0,
            branching,
            rnd: Random::new(seed),
            order: Ghost(Seq::empty()),
            place: Ghost(Seq::empty()),
        };
        assert(list@ =~= Seq::<T>::empty());
        assert forall|p: int, l: int|
            -1 <= p < list.size() && #[trigger] list.visible(p, l, -2, 0, 0)
                implies list.link_ok(p, l, -2, 0, 0) by {
            assert(p == -1);
        }
        list
    }

    /// An empty list with the default number of levels, branching factor
    /// and seed.
    pub fn new() -> (list: Self)
        requires
            total_order::<T>(),
        ensures
            list.wf(),
            list@ == Seq::<T>::empty(),
            list.max_level() == DEFAULT_MAX_LEVEL,
            list.branching() == DEFAULT_BRANCHING,
            list.generator() == initial_state(DEFAULT_SEED),
    {
        Self::with_config(DEFAULT_MAX_LEVEL, DEFAULT_BRANCHING, DEFAULT_SEED)
    }

    /// The number of keys in the list.
    pub fn len(&self) -> (r: usize)
        requires
            self.wf(),
        ensures
            r == self@.len(),
    {
        self.len
    }

    /// Whether the list holds no key.
    pub fn is_empty(&self) -> (r: bool)
        requires
            self.wf(),
        ensures
            r == (self@.len() == 0),
    {
        self.len == 0
    }

    /// Finds the place of `key`: for each level the last place in front of
    /// it, and (for proofs) its position in the key order. The search walks
    /// each level as far as the keys stay below `key`, then goes on one level
    /// down from where it stands.
    fn find_less_than(&self, key: &T) -> (r: (Vec<Cursor>, Ghost<int>))
        requires
            self.wf(),
        ensures
            boundary(self@, *key, r.1@),
            self.preds_ok(r.0@, r.1@, 0),
    {
        let max = self.head.len();
        let mut prevs: Vec<Cursor> = vec![Cursor::Head; max];
        let mut level: usize = max - 1;
        let mut cur = Cursor::Head;
        loop
            invariant
                self.wf(),
                prevs.len() == max == self.head.len(),
                level < max,
                self.cursor_ok(cur),
                -1 <= self.position(cur) < self.size(),
                self.position(cur) >= 0 ==> lt(self@[self.position(cur)], *key),
                level < self.height(self.position(cur)),
                forall|l: int| level < l < max ==> self.stops(#[trigger] prevs[l], l, *key),
            ensures
                prevs.len() == max,
                forall|l: int| 0 <= l < max ==> self.stops(#[trigger] prevs[l], l, *key),
            decreases level,
        {
            loop
                invariant
                    self.wf(),
                    level < max == self.head.len(),
                    self.cursor_ok(cur),
                    -1 <= self.position(cur) < self.size(),
                    self.position(cur) >= 0 ==> lt(self@[self.position(cur)], *key),
                    level < self.height(self.position(cur)),
                ensures
                    self.stops(cur, level as int, *key),
                decreases self.size() - self.position(cur),
            {
                proof {
                    assert(self.visible(self.position(cur), level as int, -2, 0, 0));
                }
                match self.next_of(cur, level) {
                    Some(j) => {
                        if less(self.key_at(j), key) {
                            cur = Cursor::Node(j);
                        } else {
                            break ;
                        }
                    },
                    None => {
                        break ;
                    },
                }
            }
            prevs[level] = cur;
            if level > 0 {
                level -= 1;
            } else {
                break ;
            }
        }
        let ghost stop = self.position(prevs[0]);
        let ghost k = stop + 1;
        proof {
            self.lemma_stops_boundary(prevs@, *key);
        }
        (prevs, Ghost(k))
    }

    /// The key of the list that is equivalent to `key`, if there is one.
    pub fn find(&self, key: &T) -> (r: Option<&T>)
        requires
            self.wf(),
        ensures
            (match r {
                Some(found) => lookup(self@, *key) == Some(*found),
                None => lookup(self@, *key) is None,
            }),
    {
        let (prevs, Ghost(k)) = self.find_less_than(key);
        proof {
            self.lemma_successor(prevs@, k);
            lemma_split(self@, *key, k);
            if k < self@.len() && equiv(self@[k], *key) {
                lemma_lookup(self@, *key, k);
            }
        }
        match self.next_of(prevs[0], 0) {
            Some(j) => {
                let found = self.key_at(j);
                if same(found, key) {
                    Some(found)
                } else {
                    None
                }
            },
            None => None,
        }
    }

    /// The keys of the list in their order, as they are met on the way
    /// along level 0 from the head to the end.
    pub fn keys(&self) -> (r: Vec<&T>)
        requires
            self.wf(),
        ensures
            r@.len() == self@.len(),
            forall|i: int| 0 <= i < r@.len() ==> *(#[trigger] r@[i]) == self@[i],
    {
        let mut keys: Vec<&T> = Vec::new();
        let mut link = self.head[0];
        let ghost mut p: int = 0;
        proof {
            self.lemma_level_zero(-1);
        }
        loop
            invariant
                self.wf(),
                0 <= p <= self.size(),
                keys@.len() == p,
                forall|i: int| 0 <= i < p ==> *(#[trigger] keys@[i]) == self@[i],
                p == self.size() ==> link is None,
                p < self.size() ==> link == Some(self.order@[p]),
            ensures
                keys@.len() == self@.len(),
                forall|i: int| 0 <= i < keys@.len() ==> *(#[trigger] keys@[i]) == self@[i],
            decreases self.size() - p,
        {
            match link {
                Some(j) => {
                    proof {
                        assert(self.occupied(self.order@[p] as int));
                        self.lemma_level_zero(p);
                    }
                    keys.push(self.key_at(j));
                    link = self.next_of(Cursor::Node(j), 0);
                    proof {
                        p = p + 1;
                    }
                },
                None => {
                    break ;
                },
            }
        }
        keys
    }

    /// Draws the height of a new node from the level generator. Nothing
    /// but the generator changes.
    pub fn random_level(&mut self) -> (level: usize)
        requires
            old(self).wf(),
        ensures
            final(self).wf(),
            final(self).same_structure(old(self)),
            final(self)@ == old(self)@,
            final(self).heights() == old(self).heights(),
            final(self).max_level() == old(self).max_level(),
            final(self).branching() == old(self).branching(),
            level == old(self).next_height(),
            final(self).generator() == old(self).generator_after_draw(),
            1 <= level <= old(self).max_level(),
    {
        let level = self.rnd.random_level(self.head.len(), self.branching);
        proof {
            self.lemma_same_structure(old(self));
        }
        level
    }

    /// Puts `key` into the list. A key of the list that is equivalent to
    /// `key` is replaced by it, in its node. Otherwise `key` gets a node of
    /// its own, of a height drawn from the level generator, which is linked
    /// in behind the last node in front of it on each of its levels.
    pub fn insert(&mut self, key: T)
        requires
            old(self).wf(),
        ensures
            final(self).wf(),
            final(self)@ == with_key(old(self)@, key),
            final(self).max_level() == old(self).max_level(),
            final(self).branching() == old(self).branching(),
            has_key(old(self)@, key) ==> final(self).heights() == old(self).heights(),
            has_key(old(self)@, key) ==> final(self).generator() == old(self).generator(),
            !has_key(old(self)@, key) ==> final(self).heights() == old(self).heights().insert(
                below(old(self)@, key).len() as int,
                old(self).next_height(),
            ),
            !has_key(old(self)@, key) ==> final(self).generator()
                == old(self).generator_after_draw(),
    {
        let (prevs, Ghost(k)) = self.find_less_than(&key);
        proof {
            self.lemma_successor(prevs@, k);
            lemma_split(self@, key, k);
            lemma_with_key_at(self@, key, k);
            lemma_with_key_increasing(self@, key);
        }
        match self.next_of(prevs[0], 0) {
            Some(j) => {
                if same(self.key_at(j), &key) {
                    self.replace_key(j, key);
                    proof {
                        self.lemma_same_shape(old(self));
                        self.lemma_links_kept(old(self), -2, 0, 0);
                    }
                    return ;
                }
            },
            None => {},
        }
        let level = self.random_level();
        let ghost drawn = *self;
        proof {
            self.lemma_same_structure(old(self));
            self.lemma_same_shape(old(self));
            self.lemma_preds_kept(old(self), prevs@, k, 0);
        }
        let node = SkipNode::new(key, level);
        let idx = self.allocate(node, Ghost(k));
        let ghost full = self@;
        let ghost heights = self.heights();
        proof {
            self.lemma_opened(&drawn, k, idx as int, node, prevs@);
        }
        let mut l: usize = 0;
        while l < level
            invariant
                l <= level == self.height(k),
                0 <= k < self.size(),
                self.order@[k] == idx,
                self.occupied(idx as int),
                self.arena_ok(),
                self.free_ok(),
                self.links_ok(k, 0, l as int),
                self.preds_ok(prevs@, k, 0),
                self.len == self.size(),
                self.branching == old(self).branching,
                self.head@.len() == old(self).head@.len(),
                self.rnd == drawn.rnd,
                self@ == full,
                self.heights() == heights,
            decreases level - l,
        {
            let prev = prevs[l];
            let ghost before = *self;
            assert(self.pred_ok(prev, l as int, k));
            let succ = self.next_of(prev, l);
            self.set_next(Cursor::Node(idx), l, succ);
            let ghost mid = *self;
            proof {
                mid.lemma_same_shape(&before);
            }
            self.set_next(prev, l, Some(idx));
            proof {
                self.lemma_same_shape(&mid);
                assert(self.same_frame(&before));
                self.lemma_same_shape(&before);
                self.lemma_same_frame(&before);
                self.lemma_splice(&before, prev, k, l as int);
                self.lemma_preds_kept(&before, prevs@, k, 0);
            }
            l += 1;
        }
        proof {
            self.lemma_linked(k, level as int);
        }
    }

    /// Unlinks the node in slot `j`, which stands at position `k`, from
    /// each of its levels, and drops it. `prevs` holds the last place in
    /// front of the node on every level.
    fn remove_node(&mut self, j: usize, prevs: &Vec<Cursor>, Ghost(k): Ghost<int>)
        requires
            old(self).wf(),
            0 <= k < old(self).size(),
            old(self).order@[k] == j,
            old(self).preds_ok(prevs@, k, 0),
        ensures
            final(self).wf(),
            final(self)@ == old(self)@.remove(k),
            final(self).heights() == old(self).heights().remove(k),
            final(self).size() == old(self).size() - 1,
            final(self).head@.len() == old(self).head@.len(),
            final(self).branching == old(self).branching,
            final(self).rnd == old(self).rnd,
    {
        assert(self.occupied(self.order@[k] as int));
        let level = self.nodes[j].as_ref().unwrap().level;
        proof {
            self.lemma_linked_back(k, level as int);
        }
        let mut l: usize = 0;
        while l < level
            invariant
                l <= level == self.height(k),
                0 <= k < self.size(),
                self.order@[k] == j,
                self.occupied(j as int),
                self.arena_ok(),
                self.free_ok(),
                self.links_ok(k, l as int, level as int),
                self.preds_ok(prevs@, k, 0),
                self.len == self.size(),
                self.branching == old(self).branching,
                self.head@.len() == old(self).head@.len(),
                self.rnd == old(self).rnd,
                self@ == old(self)@,
                self.heights() == old(self).heights(),
            decreases level - l,
        {
            let prev = prevs[l];
            let ghost before = *self;
            assert(self.pred_ok(prev, l as int, k));
            let succ = self.next_of(Cursor::Node(j), l);
            self.set_next(prev, l, succ);
            proof {
                self.lemma_same_shape(&before);
                self.lemma_same_frame(&before);
                self.lemma_unlink(&before, prev, k, l as int, level as int);
                self.lemma_preds_kept(&before, prevs@, k, 0);
            }
            l += 1;
        }
        let ghost unlinked = *self;
        self.release(j, Ghost(k));
        proof {
            self.lemma_closed(&unlinked, k, level as int);
            lemma_remove_increasing(old(self)@, k);
        }
    }

    /// Takes the key that is equivalent to `key` out of the list, and says
    /// whether there was one. Its node is unlinked from each of its levels
    /// and dropped. Where there is no such key, the list stays as it is.
    pub fn delete(&mut self, key: &T) -> (r: bool)
        requires
            old(self).wf(),
        ensures
            final(self).wf(),
            r == has_key(old(self)@, *key),
            final(self)@ == without_key(old(self)@, *key),
            !r ==> *final(self) == *old(self),
            r ==> final(self).heights()
                == old(self).heights().remove(below(old(self)@, *key).len() as int),
            final(self).generator() == old(self).generator(),
            final(self).max_level() == old(self).max_level(),
            final(self).branching() == old(self).branching(),
    {
        let (prevs, Ghost(k)) = self.find_less_than(key);
        proof {
            self.lemma_successor(prevs@, k);
            lemma_split(self@, *key, k);
            lemma_without_key_at(self@, *key, k);
        }
        match self.next_of(prevs[0], 0) {
            Some(j) => {
                if same(self.key_at(j), key) {
                    self.remove_node(j, &prevs, Ghost(k));
                    return true;
                }
            },
            None => {},
        }
        false
    }

    /// Empties the list: walks along level 0 from the head and drops node
    /// after node, until the level is at its end.
    pub fn clear(&mut self)
        requires
            old(self).wf(),
        ensures
            final(self).wf(),
            final(self)@ == Seq::<T>::empty(),
            final(self).generator() == old(self).generator(),
            final(self).max_level() == old(self).max_level(),
            final(self).branching() == old(self).branching(),
    {
        let max = self.head.len();
        let heads: Vec<Cursor> = vec![Cursor::Head; max];
        loop
            invariant
                self.wf(),
                heads.len() == max == self.head@.len() == old(self).head@.len(),
                forall|l: int| 0 <= l < heads.len() ==> heads[l] == Cursor::Head,
                self.branching == old(self).branching,
                self.rnd == old(self).rnd,
            ensures
                self.wf(),
                self.size() == 0,
                self.head@.len() == old(self).head@.len(),
                self.branching == old(self).branching,
                self.rnd == old(self).rnd,
            decreases self.size(),
        {
            proof {
                assert forall|l: int| 0 <= l < heads@.len()
                    implies self.pred_ok(#[trigger] heads@[l], l, 0) by {}
                self.lemma_successor(heads@, 0);
            }
            match self.head[0] {
                Some(j) => {
                    self.remove_node(j, &heads, Ghost(0));
                },
                None => {
                    break ;
                },
            }
        }
        assert(self@ =~= Seq::<T>::empty());
    }

    /// The keys of a list are strictly increasing, it has a level and a
    /// branching factor of one at least, and its level generator is in a
    /// state that generators can be in.
    pub proof fn lemma_wf(&self)
        requires
            self.wf(),
        ensures
            total_order::<T>(),
            strictly_increasing(self@),
            self.max_level() >= 1,
            self.branching() >= 1,
            valid_state(self.generator()),
    {
    }

    /// Every key stands on a tower of its own, of at least one level and at
    /// most as many as the list has.
    pub proof fn lemma_heights(&self)
        requires
            self.wf(),
        ensures
            self.heights().len() == self@.len(),
            forall|p: int|
                0 <= p < self.heights().len()
                    ==> 1 <= #[trigger] self.heights()[p] <= self.max_level(),
    {
        assert forall|p: int| 0 <= p < self.heights().len()
            implies 1 <= #[trigger] self.heights()[p] <= self.max_level() by {
            assert(self.occupied(self.order@[p] as int));
        }
    }

    /// Two lists with the same structure are the same list, but for the
    /// state of the level generator.
    pub proof fn lemma_same_structure(&self, other: &Self)
        requires
            self.same_structure(other),
            valid_state(self.generator()),
            other.wf(),
        ensures
            self.wf(),
            self@ == other@,
            self.heights() == other.heights(),
            self.max_level() == other.max_level(),
            self.branching() == other.branching(),
    {
        self.lemma_same_shape(other);
        self.lemma_same_frame(other);
        self.lemma_links_kept(other, -2, 0, 0);
    }
}

/// Where position `x` moves when a position is opened at `k`.
spec fn moved_up(x: int, k: int) -> int {
    if x >= k {
        x + 1
    } else {
        x
    }
}

/// Where position `x` moves when position `k` is closed.
spec fn moved_down(x: int, k: int) -> int {
    if x > k {
        x - 1
    } else {
        x
    }
}

// What the invariant says, part by part. Positions are counted along the
// key order: the head stands at position -1, the nodes at the positions
// from 0 on.
impl<T> SkipList<T> {
    /// The number of nodes.
    spec fn size(&self) -> int {
        self.order@.len() as int
    }

    /// Slot `j` of the arena holds a node.
    spec fn occupied(&self, j: int) -> bool {
        0 <= j < self.nodes@.len() && self.nodes@[j] is Some
    }

    /// The node at position `p` of the key order.
    spec fn node(&self, p: int) -> SkipNode<T> {
        self.nodes@[self.order@[p] as int].unwrap()
    }

    /// The height at a position; position -1 is the head.
    spec fn height(&self, p: int) -> int {
        if p < 0 {
            self.head@.len() as int
        } else {
            self.node(p).level as int
        }
    }

    /// The link that leaves position `p` on level `l`.
    spec fn link(&self, p: int, l: int) -> Link {
        if p < 0 {
            self.head@[l]
        } else {
            self.node(p).next@[l]
        }
    }

    /// The position a link leads to. The end of a level counts as the
    /// position behind the last node; a link into a vacant slot leads
    /// nowhere.
    spec fn target(&self, link: Link) -> int {
        match link {
            None => self.size(),
            Some(j) => if self.occupied(j as int) {
                self.place@[j as int]
            } else {
                -2
            },
        }
    }

    /// Whether the node at position `p` takes part in level `l`. A node
    /// takes part in the levels below its height. The one exception is the
    /// node at position `k`, which is on its way into the list or out of it,
    /// level by level: it takes part in the levels from `lo` up to, not
    /// including, `hi`. No node stands at position -2, so with -2 for `k`
    /// this speaks of a list at rest.
    spec fn visible(&self, p: int, l: int, k: int, lo: int, hi: int) -> bool {
        if p == k {
            lo <= l < hi
        } else {
            0 <= l < self.height(p)
        }
    }

    /// The link that leaves `p` on level `l` leads to the nearest node
    /// behind `p` that takes part in level `l`.
    spec fn link_ok(&self, p: int, l: int, k: int, lo: int, hi: int) -> bool {
        let q = self.target(self.link(p, l));
        &&& p < q <= self.size()
        &&& q < self.size() ==> self.visible(q, l, k, lo, hi)
        &&& forall|r: int| p < r < q ==> !#[trigger] self.visible(r, l, k, lo, hi)
    }

    /// All links are as `link_ok` says, on every level and from every place
    /// that takes part in it.
    spec fn links_ok(&self, k: int, lo: int, hi: int) -> bool {
        forall|p: int, l: int|
            -1 <= p < self.size() && #[trigger] self.visible(p, l, k, lo, hi)
                ==> self.link_ok(p, l, k, lo, hi)
    }

    /// The arena and the key order describe each other, and every node has
    /// as many links as its height says.
    spec fn arena_ok(&self) -> bool {
        &&& self.place@.len() == self.nodes@.len()
        &&& forall|p: int|
            0 <= p < self.size() ==> self.occupied(#[trigger] self.order@[p] as int)
                && self.place@[self.order@[p] as int] == p
        &&& forall|j: int|
            self.occupied(j) ==> 0 <= #[trigger] self.place@[j] < self.size()
                && self.order@[self.place@[j]] == j
        &&& forall|j: int|
            self.occupied(j) ==> {
                let node = (#[trigger] self.nodes@[j]).unwrap();
                1 <= node.level <= self.head@.len() && node.next@.len() == node.level
            }
    }

    /// The free list holds the vacant slots, each once.
    spec fn free_ok(&self) -> bool {
        &&& self.free@.no_duplicates()
        &&& forall|i: int|
            0 <= i < self.free@.len() ==> (#[trigger] self.free@[i]) < self.nodes@.len()
                && self.nodes@[self.free@[i] as int] is None
        &&& forall|j: usize|
            j < self.nodes@.len() && (#[trigger] self.nodes@[j as int]) is None
                ==> self.free@.contains(j)
    }

    /// The position of a cursor; the head is at -1.
    spec fn position(&self, c: Cursor) -> int {
        match c {
            Cursor::Head => -1,
            Cursor::Node(j) => self.place@[j as int],
        }
    }

    /// The cursor stands at the head or at a slot that holds a node.
    spec fn cursor_ok(&self, c: Cursor) -> bool {
        match c {
            Cursor::Head => true,
            Cursor::Node(j) => self.occupied(j as int),
        }
    }

    /// `c` is the last place in front of position `k` that takes part in
    /// level `l`.
    spec fn pred_ok(&self, c: Cursor, l: int, k: int) -> bool {
        let p = self.position(c);
        &&& self.cursor_ok(c)
        &&& -1 <= p < k
        &&& l < self.height(p)
        &&& forall|r: int| p < r < k ==> #[trigger] self.height(r) <= l
    }

    /// From level `from` up, `prevs` holds for each level the last place in
    /// front of position `k`.
    spec fn preds_ok(&self, prevs: Seq<Cursor>, k: int, from: int) -> bool {
        &&& prevs.len() == self.head@.len()
        &&& forall|l: int| from <= l < prevs.len() ==> self.pred_ok(#[trigger] prevs[l], l, k)
    }

    /// `self` and `other` differ in their links and keys at most.
    spec fn same_shape(&self, other: &Self) -> bool {
        &&& self.order == other.order
        &&& self.place == other.place
        &&& self.free == other.free
        &&& self.len == other.len
        &&& self.branching == other.branching
        &&& self.head@.len() == other.head@.len()
        &&& self.nodes@.len() == other.nodes@.len()
        &&& forall|j: int|
            0 <= j < self.nodes@.len() ==> ((#[trigger] self.nodes@[j]) is Some)
                == (other.nodes@[j] is Some)
        &&& forall|j: int|
            self.occupied(j) ==> {
                let a = (#[trigger] self.nodes@[j]).unwrap();
                let b = other.nodes@[j].unwrap();
                a.level == b.level && a.next@.len() == b.next@.len()
            }
    }

    /// `self` and `other` differ in their links at most.
    spec fn same_frame(&self, other: &Self) -> bool {
        &&& self.same_shape(other)
        &&& forall|j: int|
            self.occupied(j) ==> (#[trigger] self.nodes@[j]).unwrap().key
                == other.nodes@[j].unwrap().key
    }

    /// `self` is `before` with `node` put into the vacant slot `idx`, at
    /// position `k` of the key order.
    spec fn opened(&self, before: &Self, k: int, idx: int, node: SkipNode<T>) -> bool {
        &&& self.head == before.head
        &&& self.len == before.len + 1
        &&& self.branching == before.branching
        &&& self.rnd == before.rnd
        &&& 0 <= idx <= before.nodes@.len()
        &&& !before.occupied(idx)
        &&& self.nodes@ == if idx < before.nodes@.len() {
            before.nodes@.update(idx, Some(node))
        } else {
            before.nodes@.push(Some(node))
        }
        &&& self.order@ == before.order@.insert(k, idx as usize)
        &&& self.place@.len() == self.nodes@.len()
        &&& forall|j: int|
            0 <= j < self.place@.len() ==> #[trigger] self.place@[j] == if j == idx {
                k
            } else {
                moved_up(before.place@[j], k)
            }
    }

    /// `self` is `before` with the node at position `k` taken out of the
    /// arena.
    spec fn closed(&self, before: &Self, k: int) -> bool {
        &&& self.head == before.head
        &&& self.len == before.len - 1
        &&& self.branching == before.branching
        &&& self.rnd == before.rnd
        &&& self.nodes@ == before.nodes@.update(before.order@[k] as int, None)
        &&& self.order@ == before.order@.remove(k)
        &&& self.place@.len() == self.nodes@.len()
        &&& forall|j: int|
            0 <= j < self.place@.len()
                ==> #[trigger] self.place@[j] == moved_down(before.place@[j], k)
    }

    /// The keys that are met from `link` on by following the links of level
    /// `l`, for `steps` steps at most.
    spec fn walk(&self, link: Link, l: int, steps: nat) -> Seq<T>
        decreases steps,
    {
        match link {
            None => Seq::empty(),
            Some(j) => if steps > 0 && self.occupied(j as int) && 0 <= l
                < self.nodes@[j as int].unwrap().next@.len() {
                let node = self.nodes@[j as int].unwrap();
                seq![node.key] + self.walk(node.next@[l], l, (steps - 1) as nat)
            } else {
                Seq::empty()
            },
        }
    }
}

impl<T: Ord> SkipList<T> {
    /// A search for `key` on level `l` stops at `c`: what stands at `c`
    /// comes before `key`, what follows it on that level does not.
    spec fn stops(&self, c: Cursor, l: int, key: T) -> bool {
        let p = self.position(c);
        let q = self.target(self.link(p, l));
        &&& self.cursor_ok(c)
        &&& -1 <= p < self.size()
        &&& p >= 0 ==> lt(self@[p], key)
        &&& l < self.height(p)
        &&& q < self.size() ==> !lt(self@[q], key)
    }
}

} // verus!
