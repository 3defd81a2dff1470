//! One stored key with its tower of forward links.

use vstd::prelude::*;

verus! {

/// A forward link: the slot, in the arena of the list that owns the node, of
/// the next node on the same level, or `None` at the end of that level.
pub type Link = Option<usize>;

/// A node of a skip list. It takes part in the levels `0..level`, and
/// `next[i]` is its link on level `i`.
pub struct SkipNode<T> {
    pub key: T,
    pub level: usize,
    pub next: Vec<Link>,
}

impl<T: Ord> SkipNode<T> {
    /// A node of `level` levels that holds `key` and is linked to nothing.
    pub fn new(key: T, level: usize) -> (node: Self)
        ensures
            node.key == key,
            node.level == level,
            node.next@ == Seq::new(level as nat, |i: int| None::<usize>),
    {
        let next: Vec<Link> = vec![None; level];
        assert(next@ =~= Seq::new(level as nat, |i: int| None::<usize>));
        SkipNode { key, level, next }
    }
}

} // verus!
