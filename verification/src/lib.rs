//! A B-tree over any totally ordered key type, with search, insertion and
//! deletion, verified with Verus: the keys of a tree are a sorted sequence,
//! laid out in nodes, and each operation says what it does to the sequence
//! and to the layout.

pub mod btree;
pub mod laws;
pub mod layout;
pub mod order;
pub mod sorted;
pub mod sorted_weave;
pub mod weave;
