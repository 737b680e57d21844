use vstd::prelude::*;

verus! {

/// One chain entry of a bucket: an immutable `hash` and `key`, the current
/// `value`, and the arena index of the next entry in the chain (`NIL` ends
/// the chain). The pair `(hash, key)` identifies an entry: no two live nodes
/// of one bin share both.
#[derive(Clone, Copy, Debug)]
pub struct Node {
    pub hash: u64,
    pub key: u64,
    pub value: u64,
    pub next: usize,
}

impl Node {
    pub fn new(hash: u64, key: u64, value: u64, next: usize) -> (n: Node)
        ensures
            n.hash == hash,
            n.key == key,
            n.value == value,
            n.next == next,
    {
        Node { hash, key, value, next }
    }
}

} // verus!
