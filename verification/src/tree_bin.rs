use vstd::prelude::*;
use crate::model::{
    arena_ok, bst_wf, fits, in_order_seq, lemma_chain_char, lemma_chain_props, lemma_list_find,
    lemma_list_frame, list_find, list_of, list_wf, pair_lt, rb_wf, same_data, same_list_links,
    tree_idxs,
    tree_wf, valid_or_nil, NIL,
};
use crate::state::{State, WAITER_BIT, WRITER_BIT};
use crate::tree_node::{set_left, set_next, set_parent, set_prev, set_red, set_right, TreeNode};

verus! {

/// The shape construction gives the first node of a chain: a cleared black
/// root.
spec fn black_root_of(n: TreeNode) -> TreeNode {
    TreeNode { parent: NIL, left: NIL, right: NIL, red: false, ..n }
}

/// A node just taken off the chain, its tree child links cleared.
spec fn cleared_of(n: TreeNode) -> TreeNode {
    TreeNode { left: NIL, right: NIL, ..n }
}

/// The root of a two-entry tree: black, with its one child `b` on the side
/// the placement order demands.
spec fn two_root_of(n: TreeNode, b: usize, on_left: bool) -> TreeNode {
    TreeNode {
        parent: NIL,
        left: if on_left {
            b
        } else {
            NIL
        },
        right: if on_left {
            NIL
        } else {
            b
        },
        red: false,
        ..n
    }
}

/// The red leaf of a two-entry tree.
spec fn red_leaf_of(n: TreeNode, parent: usize) -> TreeNode {
    TreeNode { parent, left: NIL, right: NIL, red: true, ..n }
}

/// The side a fresh entry takes under a tree node: left exactly when its
/// pair is below the node's.
spec fn goes_left_of(fresh: TreeNode, at: TreeNode) -> bool {
    pair_lt(fresh.node.hash, fresh.node.key, at.node.hash, at.node.key)
}

/// The promoted, tree-shaped representation of an overflowing bucket: an
/// arena owning every node of the bin, the index of the red-black tree's
/// root, the head `first` of the doubly linked list threaded through the
/// same nodes, the lock word coordinating writers with fallback readers, and
/// the slot remembering the one thread parked waiting for the writer lock.
pub struct TreeBin {
    pub nodes: Vec<TreeNode>,
    pub root: usize,
    pub first: usize,
    pub lock_state: u64,
    pub waiter: Option<u64>,
}

impl TreeBin {
    /// The fuel that lets the recursive views capture any well-formed
    /// structure over this arena in full.
    pub open spec fn fuel(self) -> nat {
        self.nodes@.len() as nat
    }

    /// The list view: the indices of the bin's entries in list order.
    pub open spec fn list(self) -> Seq<int> {
        list_of(self.nodes@, self.first as int)
    }

    /// Every link of every node, and `root` and `first`, are null or in
    /// range: the property that keeps every traversal in bounds.
    pub open spec fn inv_basic(self) -> bool {
        &&& arena_ok(self.nodes@)
        &&& (self.root == NIL || (self.root as int) < self.nodes@.len())
        &&& (self.first == NIL || (self.first as int) < self.nodes@.len())
    }

    /// The doubly linked list from `first` is well formed and carries no two
    /// entries with the same hash and key.
    pub open spec fn inv_list(self) -> bool {
        list_wf(self.nodes@, self.first as int)
    }

    /// The tree view is sound: structurally well formed from `root` (whose
    /// parent link is null), ordered by `(hash, key)`, and covering exactly
    /// the entries of the list view.
    pub open spec fn inv_tree(self) -> bool {
        &&& tree_wf(self.nodes@, self.root as int, self.fuel())
        &&& (self.root != NIL ==> self.nodes@[self.root as int].parent == NIL)
        &&& bst_wf(self.nodes@, self.root as int, self.fuel())
        &&& tree_idxs(self.nodes@, self.root as int, self.fuel()) == self.list().to_set()
    }

    /// The red-black invariants hold on the tree view.
    pub open spec fn inv_rb(self) -> bool {
        rb_wf(self.nodes@, self.root as int, self.fuel())
    }

    /// The writer lock can be taken at once: no writer holds it and no
    /// reader is inside the fallback path (a set waiter bit alone does not
    /// block acquisition).
    pub open spec fn lock_available(self) -> bool {
        self.lock_state == 0 || self.lock_state == WAITER_BIT
    }

    /// Promote a chain into a tree bin. The arena holds the chain's nodes,
    /// already doubly linked from `first` in insertion order with unique
    /// `(hash, key)` pairs; the constructor builds only the tree links,
    /// descending from the root by pair order for each node in turn and
    /// rebalancing after every link, and leaves the list exactly as given.
    /// For a chain of at most two nodes the result provably satisfies the
    /// whole tree view — ordered, consistent with the list — and the
    /// red-black invariants; for longer chains those invariants are decided
    /// after the fact by `check_tree_invariants`, whose `true` answer
    /// carries them with proof.
    pub fn new(nodes: Vec<TreeNode>, first: usize, guard: &crossbeam_epoch::Guard) -> (bin:
        TreeBin)
        requires
            arena_ok(nodes@),
            list_wf(nodes@, first as int),
        ensures
            bin.first == first,
            same_data(nodes@, bin.nodes@),
            same_list_links(nodes@, bin.nodes@),
            bin.inv_basic(),
            bin.inv_list(),
            bin.list() == list_of(nodes@, first as int),
            bin.lock_state == 0,
            bin.waiter is None,
            (bin.root == NIL) <==> (first == NIL),
            list_of(nodes@, first as int).len() <= 2 ==> bin.inv_tree() && bin.inv_rb(),
    {
        let ghost orig = nodes@;
        let ghost q = list_of(nodes@, first as int);
        proof {
            lemma_chain_props(orig, first as int, orig.len() as nat);
        }
        let mut nodes = nodes;
        let arena_len = nodes.len();
        let mut root: usize = NIL;
        let mut x = first;
        let ghost mut pos: nat = 0;
        loop
            invariant
                arena_ok(nodes@),
                fits(nodes@),
                arena_len == nodes@.len(),
                same_data(orig, nodes@),
                same_list_links(orig, nodes@),
                list_wf(orig, first as int),
                q == list_of(orig, first as int),
                pos <= q.len(),
                pos < q.len() ==> x as int == q[pos as int],
                pos >= q.len() ==> x == NIL,
                valid_or_nil(x, nodes@.len() as nat),
                valid_or_nil(root, nodes@.len() as nat),
                (root == NIL) <==> (pos == 0),
                q.len() <= 2 && pos == 0 ==> nodes@ == orig,
                q.len() <= 2 && pos == 1 ==> root == first && nodes@ == orig.update(
                    q[0],
                    black_root_of(orig[q[0]]),
                ),
                q.len() == 2 && pos == 2 ==> root == first && nodes@ == orig.update(
                    q[0],
                    two_root_of(orig[q[0]], q[1] as usize, goes_left_of(orig[q[1]], orig[q[0]])),
                ).update(q[1], red_leaf_of(orig[q[1]], q[0] as usize)),
            ensures
                arena_ok(nodes@),
                fits(nodes@),
                same_data(orig, nodes@),
                same_list_links(orig, nodes@),
                x == NIL,
                pos <= q.len(),
                pos >= q.len() || q[pos as int] == NIL as int,
                valid_or_nil(root, nodes@.len() as nat),
                (root == NIL) <==> (pos == 0),
                q.len() <= 2 && pos == 0 ==> nodes@ == orig,
                q.len() <= 2 && pos == 1 ==> root == first && nodes@ == orig.update(
                    q[0],
                    black_root_of(orig[q[0]]),
                ),
                q.len() == 2 && pos == 2 ==> root == first && nodes@ == orig.update(
                    q[0],
                    two_root_of(orig[q[0]], q[1] as usize, goes_left_of(orig[q[1]], orig[q[0]])),
                ).update(q[1], red_leaf_of(orig[q[1]], q[0] as usize)),
            decreases q.len() - pos,
        {
            proof {
                lemma_chain_props(orig, first as int, orig.len() as nat);
            }
            if x == NIL {
                break ;
            }
            let ghost xi: int = x as int;
            let next = nodes[x].node.next;
            proof {
                if pos + 1 < q.len() {
                    assert(orig[q[pos as int]].node.next as int == q[pos as int + 1]);
                } else {
                    assert(q.last() == q[pos as int]);
                }
            }
            set_left(&mut nodes, x, NIL);
            set_right(&mut nodes, x, NIL);
            if root == NIL {
                set_parent(&mut nodes, x, NIL);
                set_red(&mut nodes, x, false);
                root = x;
                x = next;
                proof {
                    pos = pos + 1;
                    if q.len() <= 2 {
                        assert(xi == q[0]);
                        assert(nodes@[xi] == black_root_of(orig[xi]));
                        assert(forall|j: int|
                            0 <= j < orig.len() && j != xi ==> nodes@[j] == orig[j]);
                        assert(nodes@ =~= orig.update(q[0], black_root_of(orig[q[0]])));
                    }
                }
                continue ;
            }
            let hash = nodes[x].node.hash;
            let key = nodes[x].node.key;
            proof {
                if q.len() == 2 && pos == 1 {
                    assert(q[0] != q[1]);
                    assert(nodes@ =~= orig.update(q[0], black_root_of(orig[q[0]])).update(
                        q[1],
                        cleared_of(orig[q[1]]),
                    ));
                }
            }
            let mut p = root;
            // The descent visits distinct nodes of a sound tree, so the
            // budget, which only bounds the loop for the verifier, is never
            // exhausted on one.
            let mut budget = arena_len;
            loop
                invariant_except_break
                    q.len() == 2 && pos == 1 ==> p == first && root == first && x as int == q[1]
                        && budget >= 1 && nodes@ == orig.update(
                        q[0],
                        black_root_of(orig[q[0]]),
                    ).update(q[1], cleared_of(orig[q[1]])),
                invariant
                    arena_ok(nodes@),
                    fits(nodes@),
                    same_data(orig, nodes@),
                    same_list_links(orig, nodes@),
                    list_wf(orig, first as int),
                    q == list_of(orig, first as int),
                    p != NIL && (p as int) < nodes@.len(),
                    root != NIL && (root as int) < nodes@.len(),
                    x != NIL && (x as int) < nodes@.len(),
                    hash == nodes@[x as int].node.hash && key == nodes@[x as int].node.key,
                ensures
                    arena_ok(nodes@),
                    fits(nodes@),
                    same_data(orig, nodes@),
                    same_list_links(orig, nodes@),
                    root != NIL && (root as int) < nodes@.len(),
                    q.len() == 2 && pos == 1 ==> root == first && nodes@ == orig.update(
                        q[0],
                        two_root_of(
                            orig[q[0]],
                            q[1] as usize,
                            goes_left_of(orig[q[1]], orig[q[0]]),
                        ),
                    ).update(q[1], red_leaf_of(orig[q[1]], q[0] as usize)),
                decreases budget,
            {
                proof {
                    lemma_chain_props(orig, first as int, orig.len() as nat);
                }
                if budget == 0 {
                    break ;
                }
                budget = budget - 1;
                proof {
                    if q.len() == 2 && pos == 1 {
                        assert(q[0] != q[1]);
                        assert(nodes@[p as int] == black_root_of(orig[q[0]]));
                        assert(nodes@[x as int] == cleared_of(orig[q[1]]));
                        assert(!(orig[q[0]].node.hash == orig[q[1]].node.hash && orig[q[0]].node.key
                            == orig[q[1]].node.key));
                    }
                }
                let p_hash = nodes[p].node.hash;
                let p_key = nodes[p].node.key;
                if p_hash == hash && p_key == key {
                    // A duplicate pair violates the input contract (the
                    // chain's pairs are unique); leave the node out of the
                    // tree rather than corrupt it.
                    break ;
                }
                let xp = p;
                let dir_left = if p_hash != hash {
                    p_hash > hash
                } else {
                    p_key > key
                };
                let pc = if dir_left {
                    nodes[p].left
                } else {
                    nodes[p].right
                };
                if pc == NIL {
                    set_parent(&mut nodes, x, xp);
                    if dir_left {
                        set_left(&mut nodes, xp, x);
                    } else {
                        set_right(&mut nodes, xp, x);
                    }
                    root = TreeNode::balance_insertion(&mut nodes, root, x, guard);
                    proof {
                        if q.len() == 2 && pos == 1 {
                            assert(nodes@ =~= orig.update(
                                q[0],
                                two_root_of(
                                    orig[q[0]],
                                    q[1] as usize,
                                    goes_left_of(orig[q[1]], orig[q[0]]),
                                ),
                            ).update(q[1], red_leaf_of(orig[q[1]], q[0] as usize)));
                        }
                    }
                    break ;
                }
                p = pc;
            }
            x = next;
            proof {
                pos = pos + 1;
            }
        }
        let bin = TreeBin {
            nodes,
            root,
            first,
            lock_state: State::Free.bits(),
            waiter: None,
        };
        proof {
            lemma_list_frame(orig, bin.nodes@, first as int);
            lemma_chain_props(orig, first as int, orig.len() as nat);
            if first == NIL {
                assert(q.len() == 0);
                assert(pos == 0);
                assert(bin.root == NIL);
                assert(tree_idxs(bin.nodes@, bin.root as int, bin.fuel()) =~= Set::<int>::empty());
                assert(bin.list().to_set() =~= Set::<int>::empty());
            } else {
                assert(q.len() > 0);
                assert(q[0] == first as int);
                assert(pos >= q.len());
            }
            if q.len() == 1 {
                let f = first as int;
                assert(pos == 1);
                assert(bin.root == first);
                assert(bin.nodes@ == orig.update(f, black_root_of(orig[f])));
                assert(bin.nodes@[f].left == NIL && bin.nodes@[f].right == NIL && bin.nodes@[
                    f
                ].parent == NIL && !bin.nodes@[f].red);
                let full = bin.fuel();
                let sub = (full - 1) as nat;
                assert(full > 0);
                assert(tree_idxs(bin.nodes@, NIL as int, sub) =~= Set::<int>::empty());
                assert(tree_idxs(bin.nodes@, f, full) =~= Set::<int>::empty().insert(f));
                assert(tree_wf(bin.nodes@, f, full)) by {
                    reveal_with_fuel(crate::model::tree_wf, 2);
                    assert(tree_idxs(bin.nodes@, NIL as int, sub) =~= Set::<int>::empty());
                }
                assert(bst_wf(bin.nodes@, f, full)) by {
                    reveal_with_fuel(crate::model::bst_wf, 2);
                    assert(tree_idxs(bin.nodes@, NIL as int, sub) =~= Set::<int>::empty());
                }
                assert(rb_wf(bin.nodes@, f, full)) by {
                    reveal_with_fuel(crate::model::no_red_red, 2);
                    reveal_with_fuel(crate::model::bh_wf, 2);
                    reveal_with_fuel(crate::model::black_height, 2);
                }
                assert(bin.list().to_set() =~= Set::<int>::empty().insert(f)) by {
                    assert(bin.list() == q);
                    assert(q[0] == f);
                    assert forall|y: int| bin.list().to_set().contains(y) implies y == f by {
                        let m = choose|m: int| 0 <= m < q.len() && q[m] == y;
                        assert(m == 0);
                    }
                    assert(q.contains(f));
                }
            }
            if q.len() == 2 {
                let f = first as int;
                let c = q[1];
                assert(pos == 2);
                assert(bin.root == first);
                let dl = goes_left_of(orig[c], orig[f]);
                assert(bin.nodes@ == orig.update(f, two_root_of(orig[f], c as usize, dl)).update(
                    c,
                    red_leaf_of(orig[c], first),
                ));
                assert(f != c);
                assert(0 <= c < orig.len());
                assert(bin.nodes@[f].parent == NIL && !bin.nodes@[f].red);
                assert(bin.nodes@[c].parent == first && bin.nodes@[c].left == NIL && bin.nodes@[
                    c
                ].right == NIL && bin.nodes@[c].red);
                // The two entries carry distinct pairs, so the child sits on
                // the side its order demands.
                assert(!(orig[f].node.hash == orig[c].node.hash && orig[f].node.key == orig[
                    c
                ].node.key));
                assert(dl <==> pair_lt(
                    bin.nodes@[c].node.hash,
                    bin.nodes@[c].node.key,
                    bin.nodes@[f].node.hash,
                    bin.nodes@[f].node.key,
                ));
                let full = bin.fuel();
                assert(full >= 2);
                let sub = (full - 1) as nat;
                let sub2 = (sub - 1) as nat;
                assert(tree_idxs(bin.nodes@, NIL as int, sub) =~= Set::<int>::empty());
                assert(tree_idxs(bin.nodes@, NIL as int, sub2) =~= Set::<int>::empty());
                assert(tree_idxs(bin.nodes@, c, sub) =~= Set::<int>::empty().insert(c));
                assert(tree_idxs(bin.nodes@, f, full) =~= Set::<int>::empty().insert(c).insert(f));
                assert(tree_wf(bin.nodes@, c, sub)) by {
                    reveal_with_fuel(crate::model::tree_wf, 2);
                    assert(tree_idxs(bin.nodes@, NIL as int, sub2) =~= Set::<int>::empty());
                }
                assert(tree_wf(bin.nodes@, f, full)) by {
                    reveal_with_fuel(crate::model::tree_wf, 2);
                    assert(tree_idxs(bin.nodes@, c, sub) =~= Set::<int>::empty().insert(c));
                    assert(tree_idxs(bin.nodes@, NIL as int, sub) =~= Set::<int>::empty());
                }
                assert(bst_wf(bin.nodes@, c, sub)) by {
                    reveal_with_fuel(crate::model::bst_wf, 2);
                    assert(tree_idxs(bin.nodes@, NIL as int, sub2) =~= Set::<int>::empty());
                }
                assert(bst_wf(bin.nodes@, f, full)) by {
                    reveal_with_fuel(crate::model::bst_wf, 2);
                    assert(tree_idxs(bin.nodes@, c, sub) =~= Set::<int>::empty().insert(c));
                    assert(tree_idxs(bin.nodes@, NIL as int, sub) =~= Set::<int>::empty());
                }
                assert(rb_wf(bin.nodes@, f, full)) by {
                    reveal_with_fuel(crate::model::no_red_red, 3);
                    reveal_with_fuel(crate::model::bh_wf, 3);
                    reveal_with_fuel(crate::model::black_height, 3);
                }
                assert(bin.list().to_set() =~= Set::<int>::empty().insert(c).insert(f)) by {
                    assert(bin.list() == q);
                    assert(q[0] == f);
                    assert forall|y: int| bin.list().to_set().contains(y) implies (y == f || y
                        == c) by {
                        let m = choose|m: int| 0 <= m < q.len() && q[m] == y;
                        assert(m == 0 || m == 1);
                    }
                    assert(q.contains(f));
                    assert(q.contains(c));
                }
            }
        }
        bin
    }

    /// Look up the entry carrying exactly `(hash, key)` in a bucket slot
    /// known to hold a tree bin, returning its arena index or null. While
    /// the lock word shows neither the waiter nor the writer bit, the walk
    /// takes the fast path down the linked list, which needs no
    /// synchronization beyond the caller's guard; as soon as either bit
    /// shows, it falls back to a tree search under a reader count (see
    /// `crate::state` for the reader steps the concurrent runner follows —
    /// sequentially the reader registration always succeeds at once).
    /// Either path returns the index of the one entry with that hash and
    /// key, or null when the bin holds none; forcing the lock bits never
    /// changes the answer.
    pub fn find(bin: &crate::bin_entry::BinEntry, hash: u64, key: u64, guard: &crossbeam_epoch::Guard) -> (r:
        usize)
        requires
            bin matches crate::bin_entry::BinEntry::Tree(tb) && tb.inv_basic() && tb.inv_list()
                && (tb.lock_state & (WAITER_BIT | WRITER_BIT) != 0 ==> tb.inv_tree()),
        ensures
            (match bin {
                crate::bin_entry::BinEntry::Tree(tb) => {
                    &&& r as int == list_find(tb.nodes@, tb.list(), hash, key)
                    &&& (r != NIL ==> (r as int) < tb.nodes@.len() && tb.nodes@[r as int].node.hash
                        == hash && tb.nodes@[r as int].node.key == key)
                },
                _ => false,
            }),
    {
        let tb = if let crate::bin_entry::BinEntry::Tree(tb) = bin {
            tb
        } else {
            proof {
                assert(false);
            }
            return NIL;
        };
        // Reading the length pins the arena as machine-sized, which the view
        // facts rest on: a valid index is never the null sentinel.
        let _arena_len = tb.nodes.len();
        let ghost q = tb.list();
        proof {
            lemma_chain_props(tb.nodes@, tb.first as int, tb.nodes@.len() as nat);
            lemma_list_find(tb.nodes@, q, hash, key);
        }
        let mut element = tb.first;
        let ghost mut pos: nat = 0;
        loop
            invariant
                *bin == crate::bin_entry::BinEntry::Tree(*tb),
                tb.inv_basic(),
                tb.inv_list(),
                tb.lock_state & (WAITER_BIT | WRITER_BIT) != 0 ==> tb.inv_tree(),
                fits(tb.nodes@),
                q == tb.list(),
                pos <= q.len(),
                pos < q.len() ==> element as int == q[pos as int],
                pos >= q.len() ==> element == NIL,
                valid_or_nil(element, tb.nodes@.len() as nat),
                forall|m: int|
                    0 <= m < pos ==> !((#[trigger] tb.nodes@[q[m]]).node.hash == hash && tb.nodes@[
                    q[m]].node.key == key),
            decreases q.len() - pos,
        {
            proof {
                lemma_chain_props(tb.nodes@, tb.first as int, tb.nodes@.len() as nat);
            }
            if element == NIL {
                proof {
                    lemma_list_find(tb.nodes@, q, hash, key);
                    if list_find(tb.nodes@, q, hash, key) != NIL as int {
                        let m = choose|m: int|
                            0 <= m < q.len() && (#[trigger] tb.nodes@[q[m]]).node.hash == hash
                                && tb.nodes@[q[m]].node.key == key;
                        assert(false);
                    }
                }
                return NIL;
            }
            let s = tb.lock_state;
            if s & (WAITER_BIT | WRITER_BIT) == 0 {
                let e = TreeNode::get_tree_node(&tb.nodes, element);
                if e.node.hash == hash && e.node.key == key {
                    proof {
                        crate::model::lemma_list_find_unique(tb.nodes@, q, pos as int);
                    }
                    return element;
                }
                element = e.node.next;
                proof {
                    if pos + 1 < q.len() {
                        assert(tb.nodes@[q[pos as int]].node.next as int == q[pos as int + 1]);
                    } else {
                        assert(q.last() == q[pos as int]);
                    }
                    pos = pos + 1;
                }
            } else {
                // Fallback: the tree search under the reader count. The
                // sequential model performs the search directly; the reader
                // entry and exit words, and the unpark hand-off to a parked
                // writer, are the step functions of `crate::state`.
                let root = tb.root;
                let p = if root == NIL {
                    NIL
                } else {
                    TreeNode::find_tree_node(&tb.nodes, root, hash, key, guard)
                };
                proof {
                    let full = tb.fuel();
                    lemma_list_find(tb.nodes@, q, hash, key);
                    if root == NIL {
                        assert(tree_idxs(tb.nodes@, root as int, full) =~= Set::<int>::empty());
                    }
                    // The tree covers exactly the list entries, so the tree
                    // answer and the list answer agree.
                    if p != NIL {
                        assert(tree_idxs(tb.nodes@, root as int, full).contains(p as int));
                        assert(q.to_set().contains(p as int));
                        assert(q.contains(p as int));
                        let m = choose|m: int| 0 <= m < q.len() && q[m] == p as int;
                        crate::model::lemma_list_find_unique(tb.nodes@, q, m);
                    } else {
                        if list_find(tb.nodes@, q, hash, key) != NIL as int {
                            let j = list_find(tb.nodes@, q, hash, key);
                            assert(q.contains(j));
                            let m = choose|m: int| 0 <= m < q.len() && q[m] == j;
                            assert(q.to_set().contains(j));
                            assert(tree_idxs(tb.nodes@, root as int, full).contains(j));
                            assert(crate::model::tree_has(tb.nodes@, root as int, full, hash, key));
                            assert(false);
                        }
                    }
                }
                return p;
            }
        }
    }

    /// Remove the node at `p` from the bin. First unlink it from the doubly
    /// linked list, relinking its neighbors and moving `first` when it was
    /// the head; a bin whose list thereby empties clears its root and
    /// reports that it collapsed, and a tree of trivial shape (null root, or
    /// a root without a right child) skips the tree surgery and reports that
    /// it did not. Otherwise take the writer lock, unlink `p` from the tree —
    /// splicing its in-order successor into its structural place when it has
    /// two children — rebalance when the unlinked node was black, store the
    /// new root and release the lock. Collapse is reported exactly when `p`
    /// was the last entry. The removed node and its value stay in the arena:
    /// under the reclamation contract nothing is freed while a concurrent
    /// reader could still hold an index, so memory goes only with the bin
    /// itself (`drop_value` marks the value for that same deferred fate).
    /// Removal is non-reentrant by contract: the caller must not hand in a
    /// node it already removed, which the premise that `p` is still on the
    /// list states. The contract pins the list half of the removal exactly,
    /// together with the lock word and the color frame of the early paths;
    /// what the surgery leaves of the tree view is decided after the fact by
    /// `check_tree_invariants`, and `find_validated` answers lookups exactly
    /// whether or not that view survived.
    #[verifier::rlimit(100)]
    #[verifier::spinoff_prover]
    pub fn remove_tree_node(&mut self, p: usize, drop_value: bool, guard: &crossbeam_epoch::Guard)
        -> (collapsed: bool)
        requires
            old(self).inv_basic(),
            old(self).inv_list(),
            old(self).lock_available(),
            old(self).list().contains(p as int),
        ensures
            final(self).inv_basic(),
            final(self).inv_list(),
            same_data(old(self).nodes@, final(self).nodes@),
            final(self).list() == old(self).list().remove(old(self).list().index_of(p as int)),
            collapsed <==> old(self).list().len() == 1,
            collapsed ==> final(self).root == NIL && final(self).first == NIL,
            final(self).waiter == old(self).waiter,
            collapsed || old(self).root == NIL || old(self).nodes@[old(self).root as int].right
                == NIL ==> final(self).lock_state == old(self).lock_state,
            !collapsed && old(self).root != NIL && old(self).nodes@[old(self).root as int].right
                != NIL ==> final(self).lock_state == 0,
            collapsed ==> final(self).inv_rb(),
            !collapsed && (old(self).root == NIL || old(self).nodes@[old(self).root as int].right
                == NIL) ==> final(self).root == old(self).root && (old(self).inv_rb()
                ==> final(self).inv_rb()),
    {
        let ghost orig = self.nodes@;
        let ghost q = old(self).list();
        let ghost ipos = q.index_of(p as int);
        let _arena_len = self.nodes.len();
        proof {
            lemma_chain_props(orig, self.first as int, orig.len() as nat);
            assert(0 <= ipos < q.len() && q[ipos] == p as int);
            assert((p as int) < orig.len());
        }
        let next = self.nodes[p].node.next;
        let prev = self.nodes[p].prev;
        proof {
            assert(prev as int == if ipos == 0 {
                NIL as int
            } else {
                q[ipos - 1]
            });
            if ipos + 1 < q.len() {
                assert(orig[q[ipos]].node.next as int == q[ipos + 1]);
            } else {
                assert(q.last() == q[ipos]);
                assert(next == NIL);
            }
        }
        if prev == NIL {
            self.first = next;
        } else {
            set_next(&mut self.nodes, prev, next);
        }
        if next != NIL {
            set_prev(&mut self.nodes, next, prev);
        }
        let ghost s = q.remove(ipos);
        proof {
            q.remove_ensures(ipos);
            let b = self.nodes@;
            let nf = self.first as int;
            assert forall|k: int| 0 <= k < s.len() implies 0 <= #[trigger] s[k] < b.len() by {
                if k < ipos {
                    assert(s[k] == q[k]);
                } else {
                    assert(s[k] == q[k + 1]);
                }
            }
            assert forall|k1: int, k2: int| 0 <= k1 < k2 < s.len() implies s[k1] != s[k2] by {
                let j1 = if k1 < ipos {
                    k1
                } else {
                    k1 + 1
                };
                let j2 = if k2 < ipos {
                    k2
                } else {
                    k2 + 1
                };
                assert(s[k1] == q[j1] && s[k2] == q[j2]);
                if q[j1] == q[j2] {
                    assert(!q.no_duplicates());
                }
            }
            // `next` fields: only the predecessor of `p` changed, to skip it.
            assert forall|k: int| 0 <= k < s.len() - 1 implies b[#[trigger] s[k]].node.next as int
                == s[k + 1] by {
                if k < ipos - 1 {
                    assert(s[k] == q[k] && s[k + 1] == q[k + 1]);
                    assert(b[q[k]].node.next == orig[q[k]].node.next);
                } else if k == ipos - 1 {
                    assert(s[k] == q[ipos - 1] && s[k + 1] == q[ipos + 1]);
                    assert(b[q[ipos - 1]].node.next == next);
                } else {
                    assert(s[k] == q[k + 1] && s[k + 1] == q[k + 2]);
                    assert(b[q[k + 1]].node.next == orig[q[k + 1]].node.next);
                }
            }
            if s.len() > 0 {
                assert(b[s.last()].node.next == NIL) by {
                    if ipos == q.len() - 1 {
                        assert(s.last() == q[ipos - 1]);
                        assert(b[q[ipos - 1]].node.next == next);
                    } else {
                        assert(s.last() == q.last());
                        assert(b[q.last()].node.next == orig[q.last()].node.next);
                    }
                }
                assert(s[0] == nf) by {
                    if ipos == 0 {
                        assert(s[0] == q[1]);
                    } else {
                        assert(s[0] == q[0]);
                        assert(q[0] == old(self).first as int);
                    }
                }
            } else {
                assert(q.len() == 1 && ipos == 0);
                assert(nf == NIL as int);
            }
            lemma_chain_char(b, nf, b.len() as nat, s);
            assert(list_of(b, nf) == s);
            // `prev` fields: only the successor of `p` changed, to skip it.
            assert forall|k: int| 0 <= k < s.len() implies (#[trigger] b[s[k]].prev) as int == if k
                == 0 {
                NIL as int
            } else {
                s[k - 1]
            } by {
                let j = if k < ipos {
                    k
                } else {
                    k + 1
                };
                assert(s[k] == q[j]);
                if j == ipos + 1 {
                    assert(b[q[j]].prev == prev);
                } else {
                    assert(b[q[j]].prev == orig[q[j]].prev);
                }
                if k > 0 {
                    assert(s[k - 1] == if k - 1 < ipos {
                        q[k - 1]
                    } else {
                        q[k]
                    });
                }
            }
            assert forall|k1: int, k2: int| 0 <= k1 < k2 < s.len() implies !((#[trigger] b[s[k1]]).node.hash
                == (#[trigger] b[s[k2]]).node.hash && b[s[k1]].node.key == b[s[k2]].node.key) by {
                let j1 = if k1 < ipos {
                    k1
                } else {
                    k1 + 1
                };
                let j2 = if k2 < ipos {
                    k2
                } else {
                    k2 + 1
                };
                assert(s[k1] == q[j1] && s[k2] == q[j2]);
                assert(!(orig[q[j1]].node.hash == orig[q[j2]].node.hash && orig[q[j1]].node.key
                    == orig[q[j2]].node.key));
            }
            assert(list_wf(b, nf));
        }
        if self.first == NIL {
            self.root = NIL;
            proof {
                assert(self.inv_rb());
            }
            return true;
        }
        proof {
            assert(s.len() > 0);
        }
        let mut root = self.root;
        if root == NIL || self.nodes[root].right == NIL {
            // A trivially small tree needs no surgery; the bin stays as it
            // is and has not collapsed. Only list links moved, so the
            // red-black state is exactly what it was.
            proof {
                crate::model::lemma_rb_frame(orig, self.nodes@, root as int, self.fuel());
            }
            return false;
        }
        self.lock_root(guard);
        let ghost mid = self.nodes@;
        let new_root = Self::unlink_from_tree(&mut self.nodes, root, p, guard);
        self.root = new_root;
        self.unlock_root();
        // Deferred destruction: the unlinked node, and its value whether or
        // not `drop_value` asked for it now, are reclaimed with the arena
        // once the bin goes, never while a reader can still hold an index.
        let _ = drop_value;
        proof {
            crate::model::lemma_list_frame(mid, self.nodes@, self.first as int);
        }
        false
    }


    /// Unlink `p` from the tree under the writer lock: splice its in-order
    /// successor into its structural place when it has two children, relink
    /// the replacement into `p`'s parent, rebalance when the unlinked node
    /// was black, and clear the dangling link when no child was promoted.
    /// Returns the new root. Purely structural: entries and list links never
    /// move.
    #[verifier::rlimit(100)]
    #[verifier::spinoff_prover]
    fn unlink_from_tree(
        nodes: &mut Vec<TreeNode>,
        root: usize,
        p: usize,
        guard: &crossbeam_epoch::Guard,
    ) -> (r: usize)
        requires
            arena_ok(old(nodes)@),
            (root as int) < old(nodes)@.len(),
            (p as int) < old(nodes)@.len(),
        ensures
            arena_ok(final(nodes)@),
            same_data(old(nodes)@, final(nodes)@),
            same_list_links(old(nodes)@, final(nodes)@),
            valid_or_nil(r, final(nodes)@.len() as nat),
    {
        let mut root = root;
        let p_left = nodes[p].left;
        let p_right = nodes[p].right;
        let replacement: usize;
        if p_left != NIL && p_right != NIL {
            let spliced = Self::splice_successor(nodes, root, p, guard);
            root = spliced.0;
            replacement = spliced.1;
        } else if p_left != NIL {
            replacement = p_left;
        } else if p_right != NIL {
            replacement = p_right;
        } else {
            replacement = p;
        }
        if replacement != p {
            let p_parent = nodes[p].parent;
            set_parent(nodes, replacement, p_parent);
            if p_parent == NIL {
                root = replacement;
            } else {
                if p == nodes[p_parent].left {
                    set_left(nodes, p_parent, replacement);
                } else {
                    set_right(nodes, p_parent, replacement);
                }
            }
            set_parent(nodes, p, NIL);
            set_left(nodes, p, NIL);
            set_right(nodes, p, NIL);
        }
        let new_root = if nodes[p].red {
            root
        } else {
            TreeNode::balance_deletion(nodes, root, replacement, guard)
        };
        if p == replacement {
            let p_parent = nodes[p].parent;
            if p_parent != NIL {
                if p == nodes[p_parent].left {
                    set_left(nodes, p_parent, NIL);
                } else if p == nodes[p_parent].right {
                    set_right(nodes, p_parent, NIL);
                }
                set_parent(nodes, p, NIL);
            }
        }
        new_root
    }


    /// Splice the in-order successor of `p` — the leftmost node of its right
    /// subtree — into `p`'s structural position, swapping their colors, for
    /// a `p` with two children. Returns the possibly changed root and the
    /// replacement that now holds `p`'s old place: the successor's former
    /// right child, or `p` itself when the successor was a leaf. Purely
    /// structural: entries and list links never move.
    #[verifier::rlimit(100)]
    #[verifier::spinoff_prover]
    fn splice_successor(
        nodes: &mut Vec<TreeNode>,
        root: usize,
        p: usize,
        guard: &crossbeam_epoch::Guard,
    ) -> (r: (usize, usize))
        requires
            arena_ok(old(nodes)@),
            (root as int) < old(nodes)@.len(),
            (p as int) < old(nodes)@.len(),
            old(nodes)@[p as int].right != NIL,
        ensures
            arena_ok(final(nodes)@),
            same_data(old(nodes)@, final(nodes)@),
            same_list_links(old(nodes)@, final(nodes)@),
            (r.0 as int) < final(nodes)@.len(),
            (r.1 as int) < final(nodes)@.len(),
    {
        let len = nodes.len();
        let mut root = root;
        let p_left = nodes[p].left;
        let p_right = nodes[p].right;
        // Walk to the in-order successor, the leftmost node of the right
        // subtree. The budget only bounds the walk for the verifier; a sound
        // tree finishes well within it.
        let mut succ = p_right;
        let mut budget = len;
        loop
            invariant
                arena_ok(nodes@),
                succ != NIL && (succ as int) < nodes@.len(),
            ensures
                arena_ok(nodes@),
                nodes@ == old(nodes)@,
                succ != NIL && (succ as int) < nodes@.len(),
            decreases budget,
        {
            if budget == 0 {
                break ;
            }
            budget = budget - 1;
            let succ_left = nodes[succ].left;
            if succ_left == NIL {
                break ;
            }
            succ = succ_left;
        }
        let color = nodes[succ].red;
        let p_red_now = nodes[p].red;
        set_red(nodes, succ, p_red_now);
        set_red(nodes, p, color);
        let succ_right = nodes[succ].right;
        let p_parent = nodes[p].parent;
        Self::swap_into_successor(nodes, p, succ, p_right);
        set_left(nodes, p, NIL);
        set_right(nodes, p, succ_right);
        if succ_right != NIL {
            set_parent(nodes, succ_right, p);
        }
        set_left(nodes, succ, p_left);
        if p_left != NIL {
            set_parent(nodes, p_left, succ);
        }
        set_parent(nodes, succ, p_parent);
        if p_parent == NIL {
            root = succ;
        } else if p == nodes[p_parent].left {
            set_left(nodes, p_parent, succ);
        } else {
            set_right(nodes, p_parent, succ);
        }
        if succ_right != NIL {
            (root, succ_right)
        } else {
            (root, p)
        }
    }


    /// Exchange `p` with its in-order successor in the tree links: hang `p`
    /// where the successor was — directly under it when the successor is
    /// `p`'s own right child — and give the successor `p`'s right subtree.
    /// Purely structural: entries and list links never move.
    #[verifier::rlimit(100)]
    #[verifier::spinoff_prover]
    fn swap_into_successor(nodes: &mut Vec<TreeNode>, p: usize, succ: usize, p_right: usize)
        requires
            arena_ok(old(nodes)@),
            (p as int) < old(nodes)@.len(),
            (succ as int) < old(nodes)@.len(),
            (p_right as int) < old(nodes)@.len(),
        ensures
            arena_ok(final(nodes)@),
            same_data(old(nodes)@, final(nodes)@),
            same_list_links(old(nodes)@, final(nodes)@),
    {
        if succ == p_right {
            set_parent(nodes, p, succ);
            set_right(nodes, succ, p);
        } else {
            let succ_parent = nodes[succ].parent;
            set_parent(nodes, p, succ_parent);
            if succ_parent != NIL {
                if succ == nodes[succ_parent].left {
                    set_left(nodes, succ_parent, p);
                } else {
                    set_right(nodes, succ_parent, p);
                }
            }
            set_right(nodes, succ, p_right);
            if p_right != NIL {
                set_parent(nodes, p_right, succ);
            }
        }
    }

    /// Remember `handle` as the one parked thread awaiting the writer lock.
    /// At most one thread may be registered at a time: a second registration
    /// is a concurrency bug, which this contract makes impossible for
    /// verified callers and the concurrent runner must check and abort on.
    pub fn register_waiter(&mut self, handle: u64)
        requires
            old(self).waiter is None,
        ensures
            *final(self) == (TreeBin { waiter: Some(handle), ..*old(self) }),
    {
        self.waiter = Some(handle);
    }

    /// Retire the remembered waiter handle, returning it for deferred
    /// destruction once the registered thread has acquired the lock.
    pub fn take_waiter(&mut self) -> (h: Option<u64>)
        ensures
            *final(self) == (TreeBin { waiter: None, ..*old(self) }),
            h == old(self).waiter,
    {
        let h = self.waiter;
        self.waiter = None;
        h
    }

    /// Decide whether the red-black invariants hold on the bin's tree view:
    /// the root black, no red node with a red child, and every root-to-null
    /// path carrying the same count of black nodes. The answer is exactly
    /// `inv_rb`, so a run of this check is a run of the stated invariant.
    pub fn check_red_black(&self) -> (b: bool)
        requires
            self.inv_basic(),
        ensures
            b <==> self.inv_rb(),
    {
        let len = self.nodes.len();
        if self.root == NIL {
            return true;
        }
        let c = rb_check(&self.nodes, self.root, len);
        c.0 && !self.nodes[self.root].red
    }

    /// Look up `(hash, key)` without demanding anything of the tree view:
    /// validate it first with the verified decider, and take `find`'s
    /// two-path protocol when it holds — so a forced waiter or writer bit
    /// goes through the tree search legitimately — or walk the list directly
    /// when it does not. Either way the answer is exactly the list's: the
    /// one entry carrying the pair, or null. This is how a caller regains
    /// the fallback path after structural changes whose contracts do not
    /// carry the tree view.
    pub fn find_validated(bin: &crate::bin_entry::BinEntry, hash: u64, key: u64, guard: &crossbeam_epoch::Guard)
        -> (r: usize)
        requires
            bin matches crate::bin_entry::BinEntry::Tree(tb) && tb.inv_basic() && tb.inv_list(),
        ensures
            (match bin {
                crate::bin_entry::BinEntry::Tree(tb) => {
                    &&& r as int == list_find(tb.nodes@, tb.list(), hash, key)
                    &&& (r != NIL ==> (r as int) < tb.nodes@.len() && tb.nodes@[r as int].node.hash
                        == hash && tb.nodes@[r as int].node.key == key)
                },
                _ => false,
            }),
    {
        let tb = if let crate::bin_entry::BinEntry::Tree(tb) = bin {
            tb
        } else {
            proof {
                assert(false);
            }
            return NIL;
        };
        if tb.check_tree_invariants() {
            Self::find(bin, hash, key, guard)
        } else {
            tb.list_scan(hash, key)
        }
    }

    /// The plain list walk for `(hash, key)`: the quiescent form of the fast
    /// path, used when the tree view cannot be vouched for.
    fn list_scan(&self, hash: u64, key: u64) -> (r: usize)
        requires
            self.inv_basic(),
            self.inv_list(),
        ensures
            r as int == list_find(self.nodes@, self.list(), hash, key),
            r != NIL ==> (r as int) < self.nodes@.len() && self.nodes@[r as int].node.hash == hash
                && self.nodes@[r as int].node.key == key,
    {
        let _arena_len = self.nodes.len();
        let ghost q = self.list();
        proof {
            lemma_chain_props(self.nodes@, self.first as int, self.nodes@.len() as nat);
            lemma_list_find(self.nodes@, q, hash, key);
        }
        let mut element = self.first;
        let ghost mut pos: nat = 0;
        loop
            invariant
                self.inv_basic(),
                self.inv_list(),
                fits(self.nodes@),
                q == self.list(),
                pos <= q.len(),
                pos < q.len() ==> element as int == q[pos as int],
                pos >= q.len() ==> element == NIL,
                valid_or_nil(element, self.nodes@.len() as nat),
                forall|m: int|
                    0 <= m < pos ==> !((#[trigger] self.nodes@[q[m]]).node.hash == hash
                        && self.nodes@[q[m]].node.key == key),
            decreases q.len() - pos,
        {
            proof {
                lemma_chain_props(self.nodes@, self.first as int, self.nodes@.len() as nat);
            }
            if element == NIL {
                proof {
                    lemma_list_find(self.nodes@, q, hash, key);
                    if list_find(self.nodes@, q, hash, key) != NIL as int {
                        let m = choose|m: int|
                            0 <= m < q.len() && (#[trigger] self.nodes@[q[m]]).node.hash == hash
                                && self.nodes@[q[m]].node.key == key;
                        assert(false);
                    }
                }
                return NIL;
            }
            let e = TreeNode::get_tree_node(&self.nodes, element);
            if e.node.hash == hash && e.node.key == key {
                proof {
                    crate::model::lemma_list_find_unique(self.nodes@, q, pos as int);
                }
                return element;
            }
            element = e.node.next;
            proof {
                if pos + 1 < q.len() {
                    assert(self.nodes@[q[pos as int]].node.next as int == q[pos as int + 1]);
                } else {
                    assert(q.last() == q[pos as int]);
                }
                pos = pos + 1;
            }
        }
    }

    /// Decide the whole tree view of the bin: sound links from a parentless
    /// root, a duplicate-free, strictly ascending in-order walk, a walk that
    /// covers exactly the list's entries, and the red-black color rules. A
    /// `true` answer establishes `inv_tree` and `inv_rb`, so after any
    /// structural change a caller can run this check and regain, with proof,
    /// every right those invariants grant — in particular the fallback tree
    /// search of `find`.
    pub fn check_tree_invariants(&self) -> (b: bool)
        requires
            self.inv_basic(),
            self.inv_list(),
        ensures
            b ==> self.inv_tree() && self.inv_rb(),
    {
        let len = self.nodes.len();
        let root_parent_ok = self.root == NIL || self.nodes[self.root].parent == NIL;
        let links = links_check(&self.nodes, self.root, len);
        let mut ord: Vec<usize> = Vec::new();
        in_order_idxs(&self.nodes, self.root, len, &mut ord);
        let distinct = distinct_check(&ord);
        let sorted = sorted_check(&self.nodes, &ord);
        let lst = self.list_idxs();
        let consistent = contained_check(&ord, &lst) && contained_check(&lst, &ord);
        let rb = self.check_red_black();
        let ok = root_parent_ok && links && distinct && sorted && consistent && rb;
        proof {
            if ok {
                let nodes = self.nodes@;
                let full = self.fuel();
                let rt = self.root as int;
                let s = in_order_seq(nodes, rt, full);
                let q = self.list();
                assert(ord@.map_values(|u: usize| u as int) =~= s);
                assert(s.len() == ord@.len());
                assert forall|a: int, c: int|
                    0 <= a < s.len() && 0 <= c < s.len() && a != c implies s[a] != s[c] by {
                    assert(s[a] == ord@[a] as int && s[c] == ord@[c] as int);
                    assert(ord@[a] != ord@[c]);
                }
                crate::model::lemma_tree_wf_from_links(nodes, rt, full);
                assert forall|a: int, c: int| 0 <= a < c < s.len() implies pair_lt(
                    (#[trigger] nodes[s[a]]).node.hash,
                    nodes[s[a]].node.key,
                    (#[trigger] nodes[s[c]]).node.hash,
                    nodes[s[c]].node.key,
                ) by {
                    assert(s[a] == ord@[a] as int && s[c] == ord@[c] as int);
                    assert(pair_lt(
                        nodes[ord@[a] as int].node.hash,
                        nodes[ord@[a] as int].node.key,
                        nodes[ord@[c] as int].node.hash,
                        nodes[ord@[c] as int].node.key,
                    ));
                }
                crate::model::lemma_bst_from_sorted(nodes, rt, full);
                crate::model::lemma_in_order_covers_tree(nodes, rt, full);
                lemma_chain_props(nodes, self.first as int, nodes.len() as nat);
                assert(tree_idxs(nodes, rt, full) =~= q.to_set()) by {
                    assert forall|y: int| tree_idxs(nodes, rt, full).contains(y) implies q.to_set(
                    ).contains(y) by {
                        assert(s.to_set().contains(y));
                        let a = choose|a: int| 0 <= a < s.len() && s[a] == y;
                        assert(ord@[a] as int == y);
                        assert(lst@.contains(ord@[a]));
                        let m = choose|m: int| 0 <= m < lst@.len() && lst@[m] == ord@[a];
                        assert(q[m] == lst@[m] as int);
                        assert(q.contains(y));
                    }
                    assert forall|y: int| q.to_set().contains(y) implies tree_idxs(
                        nodes,
                        rt,
                        full,
                    ).contains(y) by {
                        let m = choose|m: int| 0 <= m < q.len() && q[m] == y;
                        assert(lst@[m] as int == y);
                        assert(ord@.contains(lst@[m]));
                        let a = choose|a: int| 0 <= a < ord@.len() && ord@[a] == lst@[m];
                        assert(s[a] == y);
                        assert(s.to_set().contains(y));
                    }
                }
            }
        }
        ok
    }

    /// The hashes of the bin's entries in symmetric (in-order) tree order:
    /// on an ordered tree, ascending pair order. The tree view must be
    /// structurally sound.
    pub fn in_order_hashes(&self) -> (r: Vec<u64>)
        requires
            self.inv_basic(),
            tree_wf(self.nodes@, self.root as int, self.fuel()),
        ensures
            r@ == in_order_seq(self.nodes@, self.root as int, self.fuel()).map_values(
                |j: int| self.nodes@[j].node.hash,
            ),
    {
        let _arena_len = self.nodes.len();
        let mut out: Vec<u64> = Vec::new();
        in_order_into(&self.nodes, self.root, &mut out, Ghost(self.fuel()));
        proof {
            assert(out@ =~= in_order_seq(self.nodes@, self.root as int, self.fuel()).map_values(
                |j: int| self.nodes@[j].node.hash,
            ));
        }
        out
    }

    /// The indices of the bin's entries in list order.
    fn list_idxs(&self) -> (r: Vec<usize>)
        requires
            self.inv_basic(),
            self.inv_list(),
        ensures
            r@.map_values(|u: usize| u as int) == self.list(),
            forall|m: int| 0 <= m < r@.len() ==> (#[trigger] r@[m] as int) < self.nodes@.len(),
    {
        let ghost q = self.list();
        proof {
            lemma_chain_props(self.nodes@, self.first as int, self.nodes@.len() as nat);
        }
        let _arena_len = self.nodes.len();
        let mut out: Vec<usize> = Vec::new();
        let mut element = self.first;
        let ghost mut pos: nat = 0;
        loop
            invariant
                self.inv_basic(),
                self.inv_list(),
                fits(self.nodes@),
                q == self.list(),
                pos <= q.len(),
                pos < q.len() ==> element as int == q[pos as int],
                pos >= q.len() ==> element == NIL,
                valid_or_nil(element, self.nodes@.len() as nat),
                out@.map_values(|u: usize| u as int) == q.subrange(0, pos as int),
                forall|m: int| 0 <= m < out@.len() ==> (#[trigger] out@[m] as int)
                    < self.nodes@.len(),
            ensures
                out@.map_values(|u: usize| u as int) == q,
                forall|m: int| 0 <= m < out@.len() ==> (#[trigger] out@[m] as int)
                    < self.nodes@.len(),
            decreases q.len() - pos,
        {
            proof {
                lemma_chain_props(self.nodes@, self.first as int, self.nodes@.len() as nat);
            }
            if element == NIL {
                proof {
                    assert(q.subrange(0, pos as int) =~= q);
                }
                break ;
            }
            let ghost out0 = out@;
            let ghost eu = element;
            out.push(element);
            element = self.nodes[element].node.next;
            proof {
                if pos + 1 < q.len() {
                    assert(self.nodes@[q[pos as int]].node.next as int == q[pos as int + 1]);
                } else {
                    assert(q.last() == q[pos as int]);
                }
                pos = pos + 1;
                assert(out@ == out0.push(eu));
                assert(out0.map_values(|u: usize| u as int).len() == out0.len());
                assert(out0.len() == pos - 1);
                assert(out@.len() == pos);
                assert(eu as int == q[pos - 1]);
                assert forall|m: int| 0 <= m < pos implies out@[m] as int == #[trigger] q[m] by {
                    if m < pos - 1 {
                        assert(out@[m] == out0[m]);
                        assert(out0.map_values(|u: usize| u as int)[m] == q.subrange(
                            0,
                            pos - 1,
                        )[m]);
                    } else {
                        assert(out@[m] == eu);
                    }
                }
                assert(out@.map_values(|u: usize| u as int) =~= q.subrange(0, pos as int));
            }
        }
        out
    }

    /// The hashes of the bin's entries in list order: the insertion order
    /// the chain was handed over in.
    pub fn list_hashes(&self) -> (r: Vec<u64>)
        requires
            self.inv_basic(),
            self.inv_list(),
        ensures
            r@ == self.list().map_values(|j: int| self.nodes@[j].node.hash),
    {
        let ghost q = self.list();
        proof {
            lemma_chain_props(self.nodes@, self.first as int, self.nodes@.len() as nat);
        }
        let _arena_len = self.nodes.len();
        let mut out: Vec<u64> = Vec::new();
        let mut element = self.first;
        let ghost mut pos: nat = 0;
        loop
            invariant
                self.inv_basic(),
                self.inv_list(),
                fits(self.nodes@),
                q == self.list(),
                pos <= q.len(),
                pos < q.len() ==> element as int == q[pos as int],
                pos >= q.len() ==> element == NIL,
                valid_or_nil(element, self.nodes@.len() as nat),
                out@ == q.subrange(0, pos as int).map_values(|j: int| self.nodes@[j].node.hash),
            ensures
                out@ == q.map_values(|j: int| self.nodes@[j].node.hash),
            decreases q.len() - pos,
        {
            proof {
                lemma_chain_props(self.nodes@, self.first as int, self.nodes@.len() as nat);
            }
            if element == NIL {
                proof {
                    assert(q.subrange(0, pos as int) =~= q);
                }
                break ;
            }
            out.push(self.nodes[element].node.hash);
            element = self.nodes[element].node.next;
            proof {
                if pos + 1 < q.len() {
                    assert(self.nodes@[q[pos as int]].node.next as int == q[pos as int + 1]);
                } else {
                    assert(q.last() == q[pos as int]);
                }
                pos = pos + 1;
                assert(out@ =~= q.subrange(0, pos as int).map_values(
                    |j: int| self.nodes@[j].node.hash,
                ));
            }
        }
        out
    }

    /// Take the writer lock. Sequentially the uncontended compare-and-swap
    /// from free to writer-held always succeeds when the word shows at most
    /// the waiter bit; the contended protocol behind it is the step relation
    /// of `crate::state`.
    fn lock_root(&mut self, _guard: &crossbeam_epoch::Guard)
        requires
            old(self).lock_available(),
        ensures
            *final(self) == (TreeBin { lock_state: WRITER_BIT, ..*old(self) }),
    {
        self.lock_state = State::Writer.bits();
    }

    /// Release the writer lock unconditionally: the word returns to free,
    /// clearing the waiter bit with it; a leaving reader, not the writer, is
    /// responsible for unparking a waiter.
    fn unlock_root(&mut self)
        ensures
            *final(self) == (TreeBin { lock_state: 0, ..*old(self) }),
    {
        self.lock_state = State::Free.bits();
    }
}

/// Append the indices of the subtree at `i` in symmetric order, within
/// `budget` levels: the executable mirror of `in_order_seq`. Linear on a
/// well-formed tree; on arbitrary links it may revisit nodes, which the
/// duplicate check then rejects.
fn in_order_idxs(nodes: &Vec<TreeNode>, i: usize, budget: usize, out: &mut Vec<usize>)
    requires
        arena_ok(nodes@),
        fits(nodes@),
        valid_or_nil(i, nodes@.len() as nat),
        forall|m: int| 0 <= m < old(out)@.len() ==> (#[trigger] old(out)@[m] as int) < nodes@.len(),
    ensures
        final(out)@.map_values(|u: usize| u as int) == old(out)@.map_values(|u: usize| u as int)
            + in_order_seq(nodes@, i as int, budget as nat),
        forall|m: int| 0 <= m < final(out)@.len() ==> (#[trigger] final(out)@[m] as int)
            < nodes@.len(),
    decreases budget,
{
    if i == NIL || budget == 0 {
        proof {
            assert(final(out)@.map_values(|u: usize| u as int) =~= old(out)@.map_values(
                |u: usize| u as int,
            ) + in_order_seq(nodes@, i as int, budget as nat));
        }
        return ;
    }
    let l = nodes[i].left;
    let r = nodes[i].right;
    in_order_idxs(nodes, l, budget - 1, out);
    out.push(i);
    proof {
        assert(out@.map_values(|u: usize| u as int) =~= old(out)@.map_values(|u: usize| u as int)
            + in_order_seq(nodes@, l as int, (budget - 1) as nat) + seq![i as int]);
    }
    in_order_idxs(nodes, r, budget - 1, out);
    proof {
        assert(out@.map_values(|u: usize| u as int) =~= old(out)@.map_values(|u: usize| u as int)
            + in_order_seq(nodes@, i as int, budget as nat));
    }
}

/// Decide the link-local soundness of the subtree at `i` within `budget`
/// levels: the executable mirror of `tree_links_wf`.
fn links_check(nodes: &Vec<TreeNode>, i: usize, budget: usize) -> (b: bool)
    requires
        arena_ok(nodes@),
        fits(nodes@),
        valid_or_nil(i, nodes@.len() as nat),
    ensures
        b <==> crate::model::tree_links_wf(nodes@, i as int, budget as nat),
    decreases budget,
{
    if i == NIL {
        return true;
    }
    if budget == 0 {
        return false;
    }
    let l = nodes[i].left;
    let r = nodes[i].right;
    let mut ok = true;
    if l != NIL && nodes[l].parent != i {
        ok = false;
    }
    if r != NIL && nodes[r].parent != i {
        ok = false;
    }
    let bl = links_check(nodes, l, budget - 1);
    let br = links_check(nodes, r, budget - 1);
    ok && bl && br
}

/// Decide that a vector of indices has no repeats.
fn distinct_check(ord: &Vec<usize>) -> (b: bool)
    ensures
        b ==> ord@.no_duplicates(),
{
    let n = ord.len();
    let mut k: usize = 0;
    while k < n
        invariant
            k <= n,
            n == ord@.len(),
            forall|a: int, c: int| 0 <= a < c < k ==> ord@[a] != ord@[c],
        decreases n - k,
    {
        let mut j: usize = 0;
        while j < k
            invariant
                j <= k,
                k < n,
                n == ord@.len(),
                forall|a: int| 0 <= a < j ==> ord@[a] != ord@[k as int],
            decreases k - j,
        {
            if ord[j] == ord[k] {
                return false;
            }
            j = j + 1;
        }
        k = k + 1;
    }
    true
}

/// Decide that the entries named by `ord` are strictly ascending in the
/// placement order: adjacent comparisons suffice, the order being total.
fn sorted_check(nodes: &Vec<TreeNode>, ord: &Vec<usize>) -> (b: bool)
    requires
        forall|m: int| 0 <= m < ord@.len() ==> (#[trigger] ord@[m] as int) < nodes@.len(),
    ensures
        b ==> forall|a: int, c: int|
            0 <= a < c < ord@.len() ==> pair_lt(
                (#[trigger] nodes@[ord@[a] as int]).node.hash,
                nodes@[ord@[a] as int].node.key,
                (#[trigger] nodes@[ord@[c] as int]).node.hash,
                nodes@[ord@[c] as int].node.key,
            ),
{
    let n = ord.len();
    if n == 0 {
        return true;
    }
    let mut k: usize = 1;
    while k < n
        invariant
            1 <= k <= n,
            n == ord@.len(),
            forall|m: int| 0 <= m < ord@.len() ==> (#[trigger] ord@[m] as int) < nodes@.len(),
            forall|a: int, c: int|
                0 <= a < c < k ==> pair_lt(
                    (#[trigger] nodes@[ord@[a] as int]).node.hash,
                    nodes@[ord@[a] as int].node.key,
                    (#[trigger] nodes@[ord@[c] as int]).node.hash,
                    nodes@[ord@[c] as int].node.key,
                ),
        decreases n - k,
    {
        let x = ord[k - 1];
        let y = ord[k];
        let xh = nodes[x].node.hash;
        let xk = nodes[x].node.key;
        let yh = nodes[y].node.hash;
        let yk = nodes[y].node.key;
        if !(xh < yh || (xh == yh && xk < yk)) {
            return false;
        }
        k = k + 1;
    }
    true
}

/// Decide that `x` occurs in `v`.
fn contains_val(v: &Vec<usize>, x: usize) -> (b: bool)
    ensures
        b <==> v@.contains(x),
{
    let n = v.len();
    let mut j: usize = 0;
    while j < n
        invariant
            j <= n,
            n == v@.len(),
            forall|m: int| 0 <= m < j ==> v@[m] != x,
        decreases n - j,
    {
        if v[j] == x {
            return true;
        }
        j = j + 1;
    }
    false
}

/// Decide that every entry of `a` occurs in `b`.
fn contained_check(a: &Vec<usize>, b: &Vec<usize>) -> (r: bool)
    ensures
        r ==> forall|m: int| 0 <= m < a@.len() ==> b@.contains(#[trigger] a@[m]),
{
    let n = a.len();
    let mut k: usize = 0;
    while k < n
        invariant
            k <= n,
            n == a@.len(),
            forall|m: int| 0 <= m < k ==> b@.contains(#[trigger] a@[m]),
        decreases n - k,
    {
        if !contains_val(b, a[k]) {
            return false;
        }
        k = k + 1;
    }
    true
}

/// Decide the color conditions of the subtree at `i` within `budget` levels,
/// and compute its black height: the executable mirror of `no_red_red`,
/// `bh_wf` and `black_height`.
fn rb_check(nodes: &Vec<TreeNode>, i: usize, budget: usize) -> (r: (bool, u64))
    requires
        arena_ok(nodes@),
        fits(nodes@),
        valid_or_nil(i, nodes@.len() as nat),
    ensures
        r.0 <==> (crate::model::no_red_red(nodes@, i as int, budget as nat) && crate::model::bh_wf(
            nodes@,
            i as int,
            budget as nat,
        )),
        r.1 == crate::model::black_height(nodes@, i as int, budget as nat),
        r.1 <= budget,
    decreases budget,
{
    if i == NIL || budget == 0 {
        return (true, 0);
    }
    let l = nodes[i].left;
    let rgt = nodes[i].right;
    let cl = rb_check(nodes, l, budget - 1);
    let cr = rb_check(nodes, rgt, budget - 1);
    let mut ok = cl.0 && cr.0 && cl.1 == cr.1;
    if nodes[i].red {
        if l != NIL && nodes[l].red {
            ok = false;
        }
        if rgt != NIL && nodes[rgt].red {
            ok = false;
        }
    }
    let bh = if nodes[i].red {
        cl.1
    } else {
        cl.1 + 1
    };
    (ok, bh)
}

/// Append the hashes of the subtree at `i` in symmetric order.
fn in_order_into(nodes: &Vec<TreeNode>, i: usize, out: &mut Vec<u64>, Ghost(fuel): Ghost<nat>)
    requires
        arena_ok(nodes@),
        fits(nodes@),
        valid_or_nil(i, nodes@.len() as nat),
        tree_wf(nodes@, i as int, fuel),
    ensures
        final(out)@ == old(out)@ + in_order_seq(nodes@, i as int, fuel).map_values(
            |j: int| nodes@[j].node.hash,
        ),
    decreases fuel,
{
    if i == NIL {
        proof {
            assert(final(out)@ =~= old(out)@ + in_order_seq(nodes@, i as int, fuel).map_values(
                |j: int| nodes@[j].node.hash,
            ));
        }
        return ;
    }
    let l = nodes[i].left;
    let r = nodes[i].right;
    in_order_into(nodes, l, out, Ghost((fuel - 1) as nat));
    out.push(nodes[i].node.hash);
    in_order_into(nodes, r, out, Ghost((fuel - 1) as nat));
    proof {
        assert(final(out)@ =~= old(out)@ + in_order_seq(nodes@, i as int, fuel).map_values(
            |j: int| nodes@[j].node.hash,
        ));
    }
}

/// The entries reachable through the doubly linked list are exactly the
/// entries an in-order walk of the tree visits: the two views of a
/// consistent bin cover the same node set, at any point where no writer is
/// midway through a structural change.
pub proof fn lemma_list_tree_consistency(bin: TreeBin)
    requires
        bin.inv_tree(),
    ensures
        in_order_seq(bin.nodes@, bin.root as int, bin.fuel()).to_set() == bin.list().to_set(),
{
    crate::model::lemma_in_order_covers_tree(bin.nodes@, bin.root as int, bin.fuel());
}

/// What a lookup's answer means for membership: it is null exactly when no
/// entry of the bin carries the pair, and otherwise it is an entry of the
/// bin carrying exactly that pair — so a pair never inserted, or already
/// removed from the list, is answered with null.
pub proof fn lemma_lookup_membership(bin: TreeBin, h: u64, k: u64)
    requires
        fits(bin.nodes@),
        bin.inv_basic(),
        bin.inv_list(),
    ensures
        (list_find(bin.nodes@, bin.list(), h, k) == NIL as int) <==> !crate::model::list_has(
            bin.nodes@,
            bin.list(),
            h,
            k,
        ),
        list_find(bin.nodes@, bin.list(), h, k) != NIL as int ==> bin.list().contains(
            list_find(bin.nodes@, bin.list(), h, k),
        ) && bin.nodes@[list_find(bin.nodes@, bin.list(), h, k)].node.hash == h && bin.nodes@[
            list_find(bin.nodes@, bin.list(), h, k)
        ].node.key == k,
{
    lemma_chain_props(bin.nodes@, bin.first as int, bin.nodes@.len() as nat);
    lemma_list_find(bin.nodes@, bin.list(), h, k);
}

} // verus!
