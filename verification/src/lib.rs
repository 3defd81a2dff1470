//! An ordered in-memory index built as a skip list, with the pseudo-random
//! level generator that decides the height of each node.
//!
//! - [`skiplist`] holds the list: insertion, lookup and deletion in an
//!   order that the key type brings with it, with nodes kept in an arena.
//! - [`skipnode`] holds the node of the list.
//! - [`random`] holds the level generator, and [`period`] the proof that it
//!   runs through all its states.
//! - [`order`] says what is asked of the order on keys, [`sorted`] is the
//!   model of the list as a strictly increasing sequence, and [`laws`] says
//!   what holds of that model over any history of insertions and deletions.

pub mod laws;
pub mod order;
pub mod period;
pub mod random;
pub mod skiplist;
pub mod skipnode;
pub mod sorted;

pub use random::Random;
pub use skiplist::SkipList;
pub use skipnode::SkipNode;
