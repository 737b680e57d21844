//! Bucket-overflow tree bins of a concurrent hash map: when a bucket's chain
//! of entries grows past a threshold, the owning map promotes it to a
//! red-black tree over the same nodes, so lookups in one bucket stay
//! logarithmic under hash collisions. Nodes live in an arena and are linked
//! by index; each bin keeps two views over the same node set, a doubly
//! linked list in insertion order and a red-black tree ordered by
//! `(hash, key)`, plus a reader/writer/waiter lock word coordinating
//! structural changes with lock-free lookups.

pub mod bin_entry;
pub mod ext;
pub mod model;
pub mod node;
pub mod state;
pub mod tree_bin;
pub mod tree_node;
