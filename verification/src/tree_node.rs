use vstd::prelude::*;
use crate::model::{
    arena_ok, bst_wf, fits, lemma_tree_has_empty, lemma_tree_has_step, pair_lt,
    rotate_left_spec, rotate_right_spec, same_data, same_list_links, tree_has, tree_idxs,
    tree_wf, valid_or_nil, with_left, with_next, with_parent, with_prev, with_red, with_right,
    NIL,
};
use crate::node::Node;

verus! {

/// A node that is part of a tree bin: a chain entry extended with the
/// red-black links `parent`, `left`, `right`, the predecessor `prev` of the
/// doubly linked list threaded through all nodes of the bin, and the color
/// bit. The list (`prev`/`node.next`) and the tree links are two independent
/// views over the same node set.
#[derive(Clone, Copy, Debug)]
pub struct TreeNode {
    pub node: Node,
    pub parent: usize,
    pub left: usize,
    pub right: usize,
    pub prev: usize,
    pub red: bool,
}

impl TreeNode {
    pub fn new(hash: u64, key: u64, value: u64, next: usize, parent: usize) -> (t: TreeNode)
        ensures
            t == (TreeNode {
                node: Node { hash, key, value, next },
                parent,
                left: NIL,
                right: NIL,
                prev: NIL,
                red: false,
            }),
    {
        TreeNode {
            node: Node::new(hash, key, value, next),
            parent,
            left: NIL,
            right: NIL,
            prev: NIL,
            red: false,
        }
    }

    /// The arena entry at `i`: the checked form of following a link that is
    /// known to be non-null.
    pub fn get_tree_node(nodes: &Vec<TreeNode>, i: usize) -> (n: &TreeNode)
        requires
            i < nodes@.len(),
        ensures
            *n == nodes@[i as int],
    {
        &nodes[i]
    }

    /// Tree-search descent from `from` for the entry carrying exactly
    /// `(hash, key)`: descend purely on hash while it differs; once the hash
    /// matches, check the key, and use key order to pick a branch only when
    /// both children are present — with a single child, descend into it
    /// regardless of order, which stays correct under residual hash
    /// collisions. On an ordered subtree the result is the matching index
    /// exactly when the subtree holds the pair, and null otherwise.
    pub fn find_tree_node(
        nodes: &Vec<TreeNode>,
        from: usize,
        hash: u64,
        key: u64,
        _guard: &crossbeam_epoch::Guard,
    ) -> (r: usize)
        requires
            arena_ok(nodes@),
            valid_or_nil(from, nodes@.len() as nat),
            tree_wf(nodes@, from as int, nodes@.len() as nat),
            bst_wf(nodes@, from as int, nodes@.len() as nat),
        ensures
            valid_or_nil(r, nodes@.len() as nat),
            r != NIL ==> tree_idxs(nodes@, from as int, nodes@.len() as nat).contains(r as int)
                && nodes@[r as int].node.hash == hash && nodes@[r as int].node.key == key,
            (r != NIL) <==> tree_has(nodes@, from as int, nodes@.len() as nat, hash, key),
    {
        let ghost full: nat = nodes@.len() as nat;
        // Reading the length pins the arena as machine-sized, which the view
        // facts rest on: a valid index is never the null sentinel.
        let _arena_len = nodes.len();
        let mut p = from;
        let ghost mut fuel: nat = nodes@.len() as nat;
        loop
            invariant
                arena_ok(nodes@),
                fits(nodes@),
                full == nodes@.len(),
                valid_or_nil(p, nodes@.len() as nat),
                tree_wf(nodes@, p as int, fuel),
                bst_wf(nodes@, p as int, fuel),
                tree_idxs(nodes@, p as int, fuel).subset_of(
                    tree_idxs(nodes@, from as int, full),
                ),
                tree_has(nodes@, from as int, full, hash, key) <==> tree_has(
                    nodes@,
                    p as int,
                    fuel,
                    hash,
                    key,
                ),
            decreases fuel,
        {
            if p == NIL {
                proof {
                    lemma_tree_has_empty(nodes@, p as int, fuel, hash, key);
                }
                return NIL;
            }
            let ghost sub: nat = (fuel - 1) as nat;
            let p_hash = nodes[p].node.hash;
            let p_left = nodes[p].left;
            let p_right = nodes[p].right;
            proof {
                lemma_tree_has_step(nodes@, p as int, fuel, hash, key);
                assert forall|j: int|
                    tree_idxs(nodes@, p_left as int, sub).contains(j) || tree_idxs(
                        nodes@,
                        p_right as int,
                        sub,
                    ).contains(j) implies tree_idxs(nodes@, from as int, full).contains(j) by {
                    assert(tree_idxs(nodes@, p as int, fuel).contains(j));
                }
            }
            if p_hash > hash {
                proof {
                    assert(!tree_has(nodes@, p_right as int, sub, hash, key)) by {
                        if tree_has(nodes@, p_right as int, sub, hash, key) {
                            let j = choose|j: int|
                                tree_idxs(nodes@, p_right as int, sub).contains(j) && (
                                #[trigger] nodes@[j]).node.hash == hash && nodes@[j].node.key
                                    == key;
                            assert(pair_lt(
                                nodes@[p as int].node.hash,
                                nodes@[p as int].node.key,
                                nodes@[j].node.hash,
                                nodes@[j].node.key,
                            ));
                        }
                    }
                }
                p = p_left;
                proof {
                    fuel = sub;
                }
                continue ;
            }
            if p_hash < hash {
                proof {
                    assert(!tree_has(nodes@, p_left as int, sub, hash, key)) by {
                        if tree_has(nodes@, p_left as int, sub, hash, key) {
                            let j = choose|j: int|
                                tree_idxs(nodes@, p_left as int, sub).contains(j) && (
                                #[trigger] nodes@[j]).node.hash == hash && nodes@[j].node.key
                                    == key;
                            assert(pair_lt(
                                nodes@[j].node.hash,
                                nodes@[j].node.key,
                                nodes@[p as int].node.hash,
                                nodes@[p as int].node.key,
                            ));
                        }
                    }
                }
                p = p_right;
                proof {
                    fuel = sub;
                }
                continue ;
            }
            let p_key = nodes[p].node.key;
            if p_key == key {
                proof {
                    assert(tree_idxs(nodes@, p as int, fuel).contains(p as int));
                }
                return p;
            }
            if p_left == NIL || p_right == NIL {
                let child = if p_left == NIL {
                    p_right
                } else {
                    p_left
                };
                proof {
                    if p_left == NIL {
                        lemma_tree_has_empty(nodes@, p_left as int, sub, hash, key);
                    } else {
                        lemma_tree_has_empty(nodes@, p_right as int, sub, hash, key);
                    }
                }
                p = child;
                proof {
                    fuel = sub;
                }
                continue ;
            }
            if p_key > key {
                proof {
                    assert(!tree_has(nodes@, p_right as int, sub, hash, key)) by {
                        if tree_has(nodes@, p_right as int, sub, hash, key) {
                            let j = choose|j: int|
                                tree_idxs(nodes@, p_right as int, sub).contains(j) && (
                                #[trigger] nodes@[j]).node.hash == hash && nodes@[j].node.key
                                    == key;
                            assert(pair_lt(
                                nodes@[p as int].node.hash,
                                nodes@[p as int].node.key,
                                nodes@[j].node.hash,
                                nodes@[j].node.key,
                            ));
                        }
                    }
                }
                p = p_left;
                proof {
                    fuel = sub;
                }
            } else {
                proof {
                    assert(!tree_has(nodes@, p_left as int, sub, hash, key)) by {
                        if tree_has(nodes@, p_left as int, sub, hash, key) {
                            let j = choose|j: int|
                                tree_idxs(nodes@, p_left as int, sub).contains(j) && (
                                #[trigger] nodes@[j]).node.hash == hash && nodes@[j].node.key
                                    == key;
                            assert(pair_lt(
                                nodes@[j].node.hash,
                                nodes@[j].node.key,
                                nodes@[p as int].node.hash,
                                nodes@[p as int].node.key,
                            ));
                        }
                    }
                }
                p = p_right;
                proof {
                    fuel = sub;
                }
            }
        }
    }

    /// Rotate the subtree at `p` to the left: `p`'s right child takes `p`'s
    /// place, `p` becomes its left child, and the child's former left subtree
    /// moves under `p`. A no-op when `p` or its right child is null. Purely
    /// structural: it moves tree links and colors, never an entry or a list
    /// link, and returns the root, updated if the pivot was the root.
    #[verifier::rlimit(100)]
    #[verifier::spinoff_prover]
    pub(crate) fn rotate_left(
        nodes: &mut Vec<TreeNode>,
        root: usize,
        p: usize,
        _guard: &crossbeam_epoch::Guard,
    ) -> (r: usize)
        requires
            arena_ok(old(nodes)@),
            valid_or_nil(root, old(nodes)@.len() as nat),
            valid_or_nil(p, old(nodes)@.len() as nat),
        ensures
            arena_ok(final(nodes)@),
            same_data(old(nodes)@, final(nodes)@),
            same_list_links(old(nodes)@, final(nodes)@),
            valid_or_nil(r, final(nodes)@.len() as nat),
            root != NIL ==> r != NIL,
            p == NIL || old(nodes)@[p as int].right == NIL ==> final(nodes)@ == old(nodes)@ && r
                == root,
            (final(nodes)@, r) == rotate_left_spec(old(nodes)@, root, p),
    {
        proof {
            reveal(crate::model::rotate_left_spec);
        }
        if p == NIL {
            return root;
        }
        let right = nodes[p].right;
        if right == NIL {
            return root;
        }
        let right_left = nodes[right].left;
        set_right(nodes, p, right_left);
        if right_left != NIL {
            set_parent(nodes, right_left, p);
        }
        let p_parent = nodes[p].parent;
        set_parent(nodes, right, p_parent);
        let mut new_root = root;
        if p_parent == NIL {
            new_root = right;
            set_red(nodes, right, false);
        } else {
            if nodes[p_parent].left == p {
                set_left(nodes, p_parent, right);
            } else {
                set_right(nodes, p_parent, right);
            }
        }
        set_left(nodes, right, p);
        set_parent(nodes, p, right);
        new_root
    }

    /// Rotate the subtree at `p` to the right: the mirror image of
    /// `rotate_left`, promoting `p`'s left child.
    #[verifier::rlimit(100)]
    #[verifier::spinoff_prover]
    pub(crate) fn rotate_right(
        nodes: &mut Vec<TreeNode>,
        root: usize,
        p: usize,
        _guard: &crossbeam_epoch::Guard,
    ) -> (r: usize)
        requires
            arena_ok(old(nodes)@),
            valid_or_nil(root, old(nodes)@.len() as nat),
            valid_or_nil(p, old(nodes)@.len() as nat),
        ensures
            arena_ok(final(nodes)@),
            same_data(old(nodes)@, final(nodes)@),
            same_list_links(old(nodes)@, final(nodes)@),
            valid_or_nil(r, final(nodes)@.len() as nat),
            root != NIL ==> r != NIL,
            p == NIL || old(nodes)@[p as int].left == NIL ==> final(nodes)@ == old(nodes)@ && r
                == root,
            (final(nodes)@, r) == rotate_right_spec(old(nodes)@, root, p),
    {
        proof {
            reveal(crate::model::rotate_right_spec);
        }
        if p == NIL {
            return root;
        }
        let left = nodes[p].left;
        if left == NIL {
            return root;
        }
        let left_right = nodes[left].right;
        set_left(nodes, p, left_right);
        if left_right != NIL {
            set_parent(nodes, left_right, p);
        }
        let p_parent = nodes[p].parent;
        set_parent(nodes, left, p_parent);
        let mut new_root = root;
        if p_parent == NIL {
            new_root = left;
            set_red(nodes, left, false);
        } else {
            if nodes[p_parent].right == p {
                set_right(nodes, p_parent, left);
            } else {
                set_left(nodes, p_parent, left);
            }
        }
        set_right(nodes, left, p);
        set_parent(nodes, p, left);
        new_root
    }

    /// Restore the red-black invariants after linking the fresh node `x`
    /// under a leaf position: color `x` red, then walk up recoloring while
    /// the uncle is red, and finish with at most two rotations once it is
    /// black. Returns the possibly changed root. Purely structural: entries
    /// and list links never move. The contract pins the two terminal cases
    /// exactly — a parentless `x` becomes the black root, and under a black
    /// parent only `x`'s color changes — while the walk's full red-black
    /// restoration is decided after the fact by the bin's
    /// `check_tree_invariants`.
    #[verifier::rlimit(100)]
    #[verifier::spinoff_prover]
    #[verifier::loop_isolation(false)]
    pub fn balance_insertion(
        nodes: &mut Vec<TreeNode>,
        root: usize,
        x: usize,
        _guard: &crossbeam_epoch::Guard,
    ) -> (r: usize)
        requires
            arena_ok(old(nodes)@),
            (root as int) < old(nodes)@.len(),
            (x as int) < old(nodes)@.len(),
        ensures
            arena_ok(final(nodes)@),
            same_data(old(nodes)@, final(nodes)@),
            same_list_links(old(nodes)@, final(nodes)@),
            r != NIL && (r as int) < final(nodes)@.len(),
            (old(nodes)@[x as int].parent != NIL && old(nodes)@[x as int].parent != x && !old(
                nodes,
            )@[old(nodes)@[x as int].parent as int].red) ==> (final(nodes)@ == old(
                nodes,
            )@.update(x as int, with_red(old(nodes)@[x as int], true)) && r == root),
            old(nodes)@[x as int].parent == NIL ==> (final(nodes)@ == old(nodes)@.update(
                x as int,
                with_red(old(nodes)@[x as int], false),
            ) && r == x),
    {
        let ghost x0: int = x as int;
        let ghost root0: int = root as int;
        set_red(nodes, x, true);
        let mut x = x;
        let mut root = root;
        // The walk up traverses distinct ancestors, so on any tree the arena
        // can hold it takes fewer steps than the arena has nodes; the budget
        // only bounds the loop for the verifier.
        let mut budget = nodes.len();
        loop
            invariant
                arena_ok(nodes@),
                same_data(old(nodes)@, nodes@),
                same_list_links(old(nodes)@, nodes@),
                x != NIL && (x as int) < nodes@.len(),
                root != NIL && (root as int) < nodes@.len(),
                (old(nodes)@[x0].parent != NIL && old(nodes)@[x0].parent as int != x0 && !old(
                    nodes,
                )@[old(nodes)@[x0].parent as int].red) ==> (nodes@ == old(nodes)@.update(
                    x0,
                    with_red(old(nodes)@[x0], true),
                ) && x as int == x0 && root as int == root0 && budget >= 1),
                old(nodes)@[x0].parent == NIL ==> (nodes@ == old(nodes)@.update(
                    x0,
                    with_red(old(nodes)@[x0], true),
                ) && x as int == x0 && root as int == root0 && budget >= 1),
            decreases budget,
        {
            if budget == 0 {
                return root;
            }
            budget = budget - 1;
            let mut x_parent = nodes[x].parent;
            if x_parent == NIL {
                set_red(nodes, x, false);
                proof {
                    if old(nodes)@[x0].parent == NIL {
                        assert(nodes@ =~= old(nodes)@.update(x0, with_red(old(nodes)@[x0], false)));
                    }
                }
                return x;
            }
            let mut x_parent_parent = nodes[x_parent].parent;
            if !nodes[x_parent].red || x_parent_parent == NIL {
                return root;
            }
            let x_parent_parent_left = nodes[x_parent_parent].left;
            if x_parent == x_parent_parent_left {
                let x_parent_parent_right = nodes[x_parent_parent].right;
                if x_parent_parent_right != NIL && nodes[x_parent_parent_right].red {
                    set_red(nodes, x_parent_parent_right, false);
                    set_red(nodes, x_parent, false);
                    set_red(nodes, x_parent_parent, true);
                    x = x_parent_parent;
                } else {
                    if x == nodes[x_parent].right {
                        x = x_parent;
                        root = Self::rotate_left(nodes, root, x, _guard);
                        x_parent = nodes[x].parent;
                        x_parent_parent = if x_parent == NIL {
                            NIL
                        } else {
                            nodes[x_parent].parent
                        };
                    }
                    if x_parent != NIL {
                        set_red(nodes, x_parent, false);
                        if x_parent_parent != NIL {
                            set_red(nodes, x_parent_parent, true);
                            root = Self::rotate_right(nodes, root, x_parent_parent, _guard);
                        }
                    }
                }
            } else if x_parent_parent_left != NIL && nodes[x_parent_parent_left].red {
                set_red(nodes, x_parent_parent_left, false);
                set_red(nodes, x_parent, false);
                set_red(nodes, x_parent_parent, true);
                x = x_parent_parent;
            } else {
                if x == nodes[x_parent].left {
                    x = x_parent;
                    root = Self::rotate_right(nodes, root, x, _guard);
                    x_parent = nodes[x].parent;
                    x_parent_parent = if x_parent == NIL {
                        NIL
                    } else {
                        nodes[x_parent].parent
                    };
                }
                if x_parent != NIL {
                    set_red(nodes, x_parent, false);
                    if x_parent_parent != NIL {
                        set_red(nodes, x_parent_parent, true);
                        root = Self::rotate_left(nodes, root, x_parent_parent, _guard);
                    }
                }
            }
        }
    }

    /// Restore the red-black invariants after unlinking a black node whose
    /// place `x` now holds: walk up while `x` is a black non-root, handling
    /// the four sibling cases per side — red sibling (rotate the parent),
    /// black sibling with two black children (recolor and ascend), black
    /// sibling with a red near child (rotate the sibling first), black
    /// sibling with a red far child (recolor and rotate the parent, done) —
    /// and finish by coloring the final `x` black. Returns the possibly
    /// changed root. Purely structural: entries and list links never move.
    /// The contract pins the three terminal cases exactly — a null or root
    /// `x` leaves everything untouched, and a parentless or red `x` is only
    /// blackened — while the sibling cases' full red-black restoration is
    /// decided after the fact by the bin's `check_tree_invariants`.
    #[verifier::loop_isolation(false)]
    pub fn balance_deletion(
        nodes: &mut Vec<TreeNode>,
        root: usize,
        x: usize,
        _guard: &crossbeam_epoch::Guard,
    ) -> (r: usize)
        requires
            arena_ok(old(nodes)@),
            valid_or_nil(root, old(nodes)@.len() as nat),
            valid_or_nil(x, old(nodes)@.len() as nat),
        ensures
            arena_ok(final(nodes)@),
            same_data(old(nodes)@, final(nodes)@),
            same_list_links(old(nodes)@, final(nodes)@),
            valid_or_nil(r, final(nodes)@.len() as nat),
            x == NIL || x == root ==> final(nodes)@ == old(nodes)@ && r == root,
            x != NIL && x != root && old(nodes)@[x as int].parent == NIL ==> (final(nodes)@ == old(
                nodes,
            )@.update(x as int, with_red(old(nodes)@[x as int], false)) && r == x),
            x != NIL && x != root && old(nodes)@[x as int].parent != NIL && old(nodes)@[x
                as int].red ==> (final(nodes)@ == old(nodes)@.update(
                x as int,
                with_red(old(nodes)@[x as int], false),
            ) && r == root),
    {
        let ghost x0: int = x as int;
        let ghost root0: int = root as int;
        let mut x = x;
        let mut root = root;
        // As in `balance_insertion`, the budget only bounds the walk up for
        // the verifier; a well-formed tree finishes well within it.
        let mut budget = nodes.len();
        loop
            invariant
                arena_ok(nodes@),
                same_data(old(nodes)@, nodes@),
                same_list_links(old(nodes)@, nodes@),
                valid_or_nil(x, nodes@.len() as nat),
                valid_or_nil(root, nodes@.len() as nat),
                x0 == NIL as int || x0 == root0 ==> (nodes@ == old(nodes)@ && x as int == x0
                    && root as int == root0),
                x0 != NIL as int && x0 != root0 && (old(nodes)@[x0].parent == NIL || old(
                    nodes,
                )@[x0].red) ==> (nodes@ == old(nodes)@ && x as int == x0 && root as int == root0
                    && budget >= 1),
            decreases budget,
        {
            if budget == 0 {
                return root;
            }
            budget = budget - 1;
            if x == NIL || x == root {
                return root;
            }
            let x_parent = nodes[x].parent;
            if x_parent == NIL {
                set_red(nodes, x, false);
                proof {
                    if x0 != NIL as int && x0 != root0 && old(nodes)@[x0].parent == NIL {
                        assert(nodes@ =~= old(nodes)@.update(x0, with_red(old(nodes)@[x0], false)));
                    }
                }
                return x;
            }
            if nodes[x].red {
                set_red(nodes, x, false);
                proof {
                    if x0 != NIL as int && x0 != root0 && old(nodes)@[x0].red {
                        assert(nodes@ =~= old(nodes)@.update(x0, with_red(old(nodes)@[x0], false)));
                    }
                }
                return root;
            }
            if nodes[x_parent].left == x {
                let step = Self::deletion_step_left(nodes, root, x, _guard);
                x = step.0;
                root = step.1;
            } else {
                let step = Self::deletion_step_right(nodes, root, x, _guard);
                x = step.0;
                root = step.1;
            }
        }
    }

    /// One step of `balance_deletion` with `x` a left child: the four
    /// sibling cases through `x`'s parent, returning the node to continue
    /// from and the possibly changed root.
    #[verifier::rlimit(100)]
    #[verifier::spinoff_prover]
    fn deletion_step_left(
        nodes: &mut Vec<TreeNode>,
        root: usize,
        x: usize,
        _guard: &crossbeam_epoch::Guard,
    ) -> (r: (usize, usize))
        requires
            arena_ok(old(nodes)@),
            valid_or_nil(root, old(nodes)@.len() as nat),
            (x as int) < old(nodes)@.len(),
            old(nodes)@[x as int].parent != NIL,
        ensures
            arena_ok(final(nodes)@),
            same_data(old(nodes)@, final(nodes)@),
            same_list_links(old(nodes)@, final(nodes)@),
            valid_or_nil(r.0, final(nodes)@.len() as nat),
            valid_or_nil(r.1, final(nodes)@.len() as nat),
    {
        let mut x_parent = nodes[x].parent;
        let mut root = root;
        let mut x_parent_right = nodes[x_parent].right;
        if x_parent_right != NIL && nodes[x_parent_right].red {
            set_red(nodes, x_parent_right, false);
            set_red(nodes, x_parent, true);
            root = Self::rotate_left(nodes, root, x_parent, _guard);
            x_parent = nodes[x].parent;
            x_parent_right = if x_parent == NIL {
                NIL
            } else {
                nodes[x_parent].right
            };
        }
        if x_parent_right == NIL {
            return (x_parent, root);
        }
        let sl = nodes[x_parent_right].left;
        let mut sr = nodes[x_parent_right].right;
        if (sr == NIL || !nodes[sr].red) && (sl == NIL || !nodes[sl].red) {
            set_red(nodes, x_parent_right, true);
            return (x_parent, root);
        }
        if sr == NIL || !nodes[sr].red {
            if sl != NIL {
                set_red(nodes, sl, false);
            }
            set_red(nodes, x_parent_right, true);
            root = Self::rotate_right(nodes, root, x_parent_right, _guard);
            x_parent = nodes[x].parent;
            x_parent_right = if x_parent == NIL {
                NIL
            } else {
                nodes[x_parent].right
            };
        }
        if x_parent_right != NIL {
            let c = if x_parent == NIL {
                false
            } else {
                nodes[x_parent].red
            };
            set_red(nodes, x_parent_right, c);
            sr = nodes[x_parent_right].right;
            if sr != NIL {
                set_red(nodes, sr, false);
            }
        }
        if x_parent != NIL {
            set_red(nodes, x_parent, false);
            root = Self::rotate_left(nodes, root, x_parent, _guard);
        }
        (root, root)
    }

    /// The mirror image of `deletion_step_left`, for `x` a right child.
    #[verifier::rlimit(100)]
    #[verifier::spinoff_prover]
    fn deletion_step_right(
        nodes: &mut Vec<TreeNode>,
        root: usize,
        x: usize,
        _guard: &crossbeam_epoch::Guard,
    ) -> (r: (usize, usize))
        requires
            arena_ok(old(nodes)@),
            valid_or_nil(root, old(nodes)@.len() as nat),
            (x as int) < old(nodes)@.len(),
            old(nodes)@[x as int].parent != NIL,
        ensures
            arena_ok(final(nodes)@),
            same_data(old(nodes)@, final(nodes)@),
            same_list_links(old(nodes)@, final(nodes)@),
            valid_or_nil(r.0, final(nodes)@.len() as nat),
            valid_or_nil(r.1, final(nodes)@.len() as nat),
    {
        let mut x_parent = nodes[x].parent;
        let mut root = root;
        let mut x_parent_left = nodes[x_parent].left;
        if x_parent_left != NIL && nodes[x_parent_left].red {
            set_red(nodes, x_parent_left, false);
            set_red(nodes, x_parent, true);
            root = Self::rotate_right(nodes, root, x_parent, _guard);
            x_parent = nodes[x].parent;
            x_parent_left = if x_parent == NIL {
                NIL
            } else {
                nodes[x_parent].left
            };
        }
        if x_parent_left == NIL {
            return (x_parent, root);
        }
        let mut sl = nodes[x_parent_left].left;
        let sr = nodes[x_parent_left].right;
        if (sl == NIL || !nodes[sl].red) && (sr == NIL || !nodes[sr].red) {
            set_red(nodes, x_parent_left, true);
            return (x_parent, root);
        }
        if sl == NIL || !nodes[sl].red {
            if sr != NIL {
                set_red(nodes, sr, false);
            }
            set_red(nodes, x_parent_left, true);
            root = Self::rotate_left(nodes, root, x_parent_left, _guard);
            x_parent = nodes[x].parent;
            x_parent_left = if x_parent == NIL {
                NIL
            } else {
                nodes[x_parent].left
            };
        }
        if x_parent_left != NIL {
            let c = if x_parent == NIL {
                false
            } else {
                nodes[x_parent].red
            };
            set_red(nodes, x_parent_left, c);
            sl = nodes[x_parent_left].left;
            if sl != NIL {
                set_red(nodes, sl, false);
            }
        }
        if x_parent != NIL {
            set_red(nodes, x_parent, false);
            root = Self::rotate_right(nodes, root, x_parent, _guard);
        }
        (root, root)
    }
}

pub(crate) fn set_parent(nodes: &mut Vec<TreeNode>, i: usize, v: usize)
    requires
        i < old(nodes)@.len(),
    ensures
        final(nodes)@ == old(nodes)@.update(i as int, with_parent(old(nodes)@[i as int], v)),
        same_data(old(nodes)@, final(nodes)@),
        same_list_links(old(nodes)@, final(nodes)@),
        arena_ok(old(nodes)@) && valid_or_nil(v, old(nodes)@.len() as nat) ==> arena_ok(
            final(nodes)@,
        ),
{
    let mut n = nodes[i];
    n.parent = v;
    nodes[i] = n;
}

pub(crate) fn set_left(nodes: &mut Vec<TreeNode>, i: usize, v: usize)
    requires
        i < old(nodes)@.len(),
    ensures
        final(nodes)@ == old(nodes)@.update(i as int, with_left(old(nodes)@[i as int], v)),
        same_data(old(nodes)@, final(nodes)@),
        same_list_links(old(nodes)@, final(nodes)@),
        arena_ok(old(nodes)@) && valid_or_nil(v, old(nodes)@.len() as nat) ==> arena_ok(
            final(nodes)@,
        ),
{
    let mut n = nodes[i];
    n.left = v;
    nodes[i] = n;
}

pub(crate) fn set_right(nodes: &mut Vec<TreeNode>, i: usize, v: usize)
    requires
        i < old(nodes)@.len(),
    ensures
        final(nodes)@ == old(nodes)@.update(i as int, with_right(old(nodes)@[i as int], v)),
        same_data(old(nodes)@, final(nodes)@),
        same_list_links(old(nodes)@, final(nodes)@),
        arena_ok(old(nodes)@) && valid_or_nil(v, old(nodes)@.len() as nat) ==> arena_ok(
            final(nodes)@,
        ),
{
    let mut n = nodes[i];
    n.right = v;
    nodes[i] = n;
}

pub(crate) fn set_prev(nodes: &mut Vec<TreeNode>, i: usize, v: usize)
    requires
        i < old(nodes)@.len(),
    ensures
        final(nodes)@ == old(nodes)@.update(i as int, with_prev(old(nodes)@[i as int], v)),
        same_data(old(nodes)@, final(nodes)@),
        arena_ok(old(nodes)@) && valid_or_nil(v, old(nodes)@.len() as nat) ==> arena_ok(
            final(nodes)@,
        ),
{
    let mut n = nodes[i];
    n.prev = v;
    nodes[i] = n;
}

pub(crate) fn set_next(nodes: &mut Vec<TreeNode>, i: usize, v: usize)
    requires
        i < old(nodes)@.len(),
    ensures
        final(nodes)@ == old(nodes)@.update(i as int, with_next(old(nodes)@[i as int], v)),
        same_data(old(nodes)@, final(nodes)@),
        arena_ok(old(nodes)@) && valid_or_nil(v, old(nodes)@.len() as nat) ==> arena_ok(
            final(nodes)@,
        ),
{
    let mut n = nodes[i];
    n.node.next = v;
    nodes[i] = n;
}

pub(crate) fn set_red(nodes: &mut Vec<TreeNode>, i: usize, v: bool)
    requires
        i < old(nodes)@.len(),
    ensures
        final(nodes)@ == old(nodes)@.update(i as int, with_red(old(nodes)@[i as int], v)),
        same_data(old(nodes)@, final(nodes)@),
        same_list_links(old(nodes)@, final(nodes)@),
        arena_ok(old(nodes)@) ==> arena_ok(final(nodes)@),
{
    let mut n = nodes[i];
    n.red = v;
    nodes[i] = n;
}

} // verus!
