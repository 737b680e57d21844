use vstd::prelude::*;
use crate::tree_node::TreeNode;

verus! {

/// Sentinel index standing for a null link in the arena.
pub const NIL: usize = usize::MAX;

/// The placement order of the tree: lexicographic on `(hash, key)`. Equal
/// hashes fall back to key order; hash and key both equal identifies one
/// entry.
pub open spec fn pair_lt(h1: u64, k1: u64, h2: u64, k2: u64) -> bool {
    h1 < h2 || (h1 == h2 && k1 < k2)
}

/// A link is either the null sentinel or a valid arena index.
pub open spec fn valid_or_nil(i: usize, len: nat) -> bool {
    i == NIL || (i as nat) < len
}

/// A spec-level arena that an executable `Vec` can realize: its length fits
/// a `usize`, so a valid index is never the null sentinel.
pub open spec fn fits(nodes: Seq<TreeNode>) -> bool {
    nodes.len() <= usize::MAX as nat
}

/// All five links of a node are null or in range for an arena of `len` nodes.
pub open spec fn links_ok(n: TreeNode, len: nat) -> bool {
    &&& valid_or_nil(n.node.next, len)
    &&& valid_or_nil(n.parent, len)
    &&& valid_or_nil(n.left, len)
    &&& valid_or_nil(n.right, len)
    &&& valid_or_nil(n.prev, len)
}

/// Every node of the arena has its links null or in range: the property that
/// keeps every traversal of the bin in bounds.
pub open spec fn arena_ok(nodes: Seq<TreeNode>) -> bool {
    forall|j: int| 0 <= j < nodes.len() ==> links_ok(#[trigger] nodes[j], nodes.len())
}

/// The hash, key and value of every node agree between two arenas: the
/// footprint of a purely structural operation, which moves links and colors
/// but never the entries themselves.
pub open spec fn same_data(a: Seq<TreeNode>, b: Seq<TreeNode>) -> bool {
    &&& b.len() == a.len()
    &&& forall|j: int|
        0 <= j < a.len() ==> {
            &&& (#[trigger] b[j]).node.hash == a[j].node.hash
            &&& b[j].node.key == a[j].node.key
            &&& b[j].node.value == a[j].node.value
        }
}

/// The list links (`next`, `prev`) of every node agree between two arenas:
/// tree surgery never reorders the doubly linked list.
pub open spec fn same_list_links(a: Seq<TreeNode>, b: Seq<TreeNode>) -> bool {
    &&& b.len() == a.len()
    &&& forall|j: int|
        0 <= j < a.len() ==> {
            &&& (#[trigger] b[j]).node.next == a[j].node.next
            &&& b[j].prev == a[j].prev
        }
}

// ---------------------------------------------------------------------------
// The list view: the singly linked `next` chain from `first`, with `prev`
// pointers mirroring it.
// ---------------------------------------------------------------------------

/// The indices of the `next` chain starting at `i`, cut off after `fuel`
/// entries. With `fuel == nodes.len()` this captures any terminating,
/// duplicate-free chain in full.
pub open spec fn chain_from(nodes: Seq<TreeNode>, i: int, fuel: nat) -> Seq<int>
    decreases fuel,
{
    if fuel == 0 || i == NIL as int || i < 0 || i >= nodes.len() {
        Seq::empty()
    } else {
        seq![i] + chain_from(nodes, nodes[i].node.next as int, (fuel - 1) as nat)
    }
}

/// The list view of a bin: the chain of `next` links from `first`.
pub open spec fn list_of(nodes: Seq<TreeNode>, first: int) -> Seq<int> {
    chain_from(nodes, first, nodes.len() as nat)
}

/// The `next` chain from `first` is a well-formed doubly linked list:
/// duplicate-free, closed (its last `next` is null), with each `prev` naming
/// the predecessor and the head's `prev` null, and no two entries sharing
/// both hash and key.
pub open spec fn list_wf(nodes: Seq<TreeNode>, first: int) -> bool {
    let q = list_of(nodes, first);
    &&& first == NIL as int || (0 <= first < nodes.len())
    &&& q.no_duplicates()
    &&& (q.len() > 0 ==> nodes[q.last()].node.next == NIL)
    &&& forall|k: int|
        0 <= k < q.len() ==> (#[trigger] nodes[q[k]].prev) as int == if k == 0 {
            NIL as int
        } else {
            q[k - 1]
        }
    &&& forall|k1: int, k2: int|
        0 <= k1 < k2 < q.len() ==> !((#[trigger] nodes[q[k1]]).node.hash == (
        #[trigger] nodes[q[k2]]).node.hash && nodes[q[k1]].node.key == nodes[q[k2]].node.key)
}

/// The first entry of `q` whose hash and key are exactly `(h, k)`, or the
/// null sentinel: what a lookup owes its caller.
pub open spec fn list_find(nodes: Seq<TreeNode>, q: Seq<int>, h: u64, k: u64) -> int
    decreases q.len(),
{
    if q.len() == 0 {
        NIL as int
    } else if nodes[q[0]].node.hash == h && nodes[q[0]].node.key == k {
        q[0]
    } else {
        list_find(nodes, q.drop_first(), h, k)
    }
}

/// Some entry of `q` carries exactly `(h, k)`.
pub open spec fn list_has(nodes: Seq<TreeNode>, q: Seq<int>, h: u64, k: u64) -> bool {
    exists|m: int|
        0 <= m < q.len() && (#[trigger] nodes[q[m]]).node.hash == h && nodes[q[m]].node.key == k
}

// ---------------------------------------------------------------------------
// The tree view: `left`/`right` links from the root, `parent` links back.
// ---------------------------------------------------------------------------

/// The indices reachable through `left`/`right` from `i` within `fuel`
/// levels.
pub open spec fn tree_idxs(nodes: Seq<TreeNode>, i: int, fuel: nat) -> Set<int>
    decreases fuel,
{
    if fuel == 0 || i == NIL as int || i < 0 || i >= nodes.len() {
        Set::empty()
    } else {
        tree_idxs(nodes, nodes[i].left as int, (fuel - 1) as nat).union(
            tree_idxs(nodes, nodes[i].right as int, (fuel - 1) as nat),
        ).insert(i)
    }
}

/// The subtree rooted at `i` is structurally sound within `fuel` levels:
/// indices in range, each child's `parent` pointing back, the two child
/// subtrees disjoint and neither containing the node itself.
pub open spec fn tree_wf(nodes: Seq<TreeNode>, i: int, fuel: nat) -> bool
    decreases fuel,
{
    i == NIL as int || {
        &&& 0 <= i < nodes.len()
        &&& fuel > 0
        &&& valid_or_nil(nodes[i].left, nodes.len() as nat)
        &&& valid_or_nil(nodes[i].right, nodes.len() as nat)
        &&& (nodes[i].left != NIL ==> nodes[nodes[i].left as int].parent == i)
        &&& (nodes[i].right != NIL ==> nodes[nodes[i].right as int].parent == i)
        &&& tree_wf(nodes, nodes[i].left as int, (fuel - 1) as nat)
        &&& tree_wf(nodes, nodes[i].right as int, (fuel - 1) as nat)
        &&& tree_idxs(nodes, nodes[i].left as int, (fuel - 1) as nat).disjoint(
            tree_idxs(nodes, nodes[i].right as int, (fuel - 1) as nat),
        )
        &&& !tree_idxs(nodes, nodes[i].left as int, (fuel - 1) as nat).contains(i)
        &&& !tree_idxs(nodes, nodes[i].right as int, (fuel - 1) as nat).contains(i)
    }
}

/// The subtree rooted at `i` is ordered: everything left of a node is
/// `pair_lt`-below it, everything right of it above it.
pub open spec fn bst_wf(nodes: Seq<TreeNode>, i: int, fuel: nat) -> bool
    decreases fuel,
{
    if fuel == 0 || i == NIL as int || i < 0 || i >= nodes.len() {
        true
    } else {
        &&& forall|j: int|
            tree_idxs(nodes, nodes[i].left as int, (fuel - 1) as nat).contains(j) ==> pair_lt(
                (#[trigger] nodes[j]).node.hash,
                nodes[j].node.key,
                nodes[i].node.hash,
                nodes[i].node.key,
            )
        &&& forall|j: int|
            tree_idxs(nodes, nodes[i].right as int, (fuel - 1) as nat).contains(j) ==> pair_lt(
                nodes[i].node.hash,
                nodes[i].node.key,
                (#[trigger] nodes[j]).node.hash,
                nodes[j].node.key,
            )
        &&& bst_wf(nodes, nodes[i].left as int, (fuel - 1) as nat)
        &&& bst_wf(nodes, nodes[i].right as int, (fuel - 1) as nat)
    }
}

/// Some node of the subtree rooted at `i` carries exactly `(h, k)`.
pub open spec fn tree_has(nodes: Seq<TreeNode>, i: int, fuel: nat, h: u64, k: u64) -> bool {
    exists|j: int|
        tree_idxs(nodes, i, fuel).contains(j) && (#[trigger] nodes[j]).node.hash == h
            && nodes[j].node.key == k
}

/// No red node of the subtree rooted at `i` has a red child.
pub open spec fn no_red_red(nodes: Seq<TreeNode>, i: int, fuel: nat) -> bool
    decreases fuel,
{
    if fuel == 0 || i == NIL as int || i < 0 || i >= nodes.len() {
        true
    } else {
        &&& (nodes[i].red ==> !red_at(nodes, nodes[i].left as int) && !red_at(
            nodes,
            nodes[i].right as int,
        ))
        &&& no_red_red(nodes, nodes[i].left as int, (fuel - 1) as nat)
        &&& no_red_red(nodes, nodes[i].right as int, (fuel - 1) as nat)
    }
}

/// A null link counts as black.
pub open spec fn red_at(nodes: Seq<TreeNode>, i: int) -> bool {
    0 <= i < nodes.len() && nodes[i].red
}

/// The count of black nodes on the leftmost path from `i` down to a null
/// leaf.
pub open spec fn black_height(nodes: Seq<TreeNode>, i: int, fuel: nat) -> nat
    decreases fuel,
{
    if fuel == 0 || i == NIL as int || i < 0 || i >= nodes.len() {
        0
    } else {
        black_height(nodes, nodes[i].left as int, (fuel - 1) as nat) + if nodes[i].red {
            0nat
        } else {
            1nat
        }
    }
}

/// Every path from `i` to a null leaf carries the same count of black nodes.
pub open spec fn bh_wf(nodes: Seq<TreeNode>, i: int, fuel: nat) -> bool
    decreases fuel,
{
    if fuel == 0 || i == NIL as int || i < 0 || i >= nodes.len() {
        true
    } else {
        &&& black_height(nodes, nodes[i].left as int, (fuel - 1) as nat) == black_height(
            nodes,
            nodes[i].right as int,
            (fuel - 1) as nat,
        )
        &&& bh_wf(nodes, nodes[i].left as int, (fuel - 1) as nat)
        &&& bh_wf(nodes, nodes[i].right as int, (fuel - 1) as nat)
    }
}

/// The red-black invariants on the tree rooted at `root`: the root is black,
/// no red node has a red child, and all root-to-null paths carry the same
/// count of black nodes.
pub open spec fn rb_wf(nodes: Seq<TreeNode>, root: int, fuel: nat) -> bool {
    &&& !red_at(nodes, root)
    &&& no_red_red(nodes, root, fuel)
    &&& bh_wf(nodes, root, fuel)
}

/// The indices of the subtree rooted at `i` in symmetric (in-order) order.
pub open spec fn in_order_seq(nodes: Seq<TreeNode>, i: int, fuel: nat) -> Seq<int>
    decreases fuel,
{
    if fuel == 0 || i == NIL as int || i < 0 || i >= nodes.len() {
        Seq::empty()
    } else {
        in_order_seq(nodes, nodes[i].left as int, (fuel - 1) as nat) + seq![i] + in_order_seq(
            nodes,
            nodes[i].right as int,
            (fuel - 1) as nat,
        )
    }
}

// ---------------------------------------------------------------------------
// Node updates: the building blocks of the structural operations' contracts.
// ---------------------------------------------------------------------------

pub open spec fn with_parent(n: TreeNode, v: usize) -> TreeNode {
    TreeNode { parent: v, ..n }
}

pub open spec fn with_left(n: TreeNode, v: usize) -> TreeNode {
    TreeNode { left: v, ..n }
}

pub open spec fn with_right(n: TreeNode, v: usize) -> TreeNode {
    TreeNode { right: v, ..n }
}

pub open spec fn with_prev(n: TreeNode, v: usize) -> TreeNode {
    TreeNode { prev: v, ..n }
}

pub open spec fn with_next(n: TreeNode, v: usize) -> TreeNode {
    TreeNode { node: crate::node::Node { next: v, ..n.node }, ..n }
}

pub open spec fn with_red(n: TreeNode, v: bool) -> TreeNode {
    TreeNode { red: v, ..n }
}

/// The exact outcome of a left rotation at `p` on an arena with root `root`:
/// the arena after the relinks, and the resulting root. `p`'s right child
/// takes `p`'s place — reparented to `p`'s old parent, whose child slot (or
/// the root, then blackened) now names it — `p` becomes its left child, and
/// the child's former left subtree moves under `p` as its right. The
/// statement is total over arbitrary arenas, so it fixes the operation's
/// behaviour field by field even where no tree shape holds; on an ordered
/// tree it is the standard pivot promotion, and a no-op when `p` or its
/// right child is null.
#[verifier::opaque]
pub open spec fn rotate_left_spec(nodes: Seq<TreeNode>, root: usize, p: usize) -> (Seq<
    TreeNode,
>, usize) {
    if p == NIL || nodes[p as int].right == NIL {
        (nodes, root)
    } else {
        let c = nodes[p as int].right;
        let cl = nodes[c as int].left;
        let a1 = nodes.update(p as int, with_right(nodes[p as int], cl));
        let a2 = if cl != NIL {
            a1.update(cl as int, with_parent(a1[cl as int], p))
        } else {
            a1
        };
        let pp = a2[p as int].parent;
        let a3 = a2.update(c as int, with_parent(a2[c as int], pp));
        let a4 = if pp == NIL {
            a3.update(c as int, with_red(a3[c as int], false))
        } else if a3[pp as int].left == p {
            a3.update(pp as int, with_left(a3[pp as int], c))
        } else {
            a3.update(pp as int, with_right(a3[pp as int], c))
        };
        let new_root = if pp == NIL {
            c
        } else {
            root
        };
        let a5 = a4.update(c as int, with_left(a4[c as int], p));
        let a6 = a5.update(p as int, with_parent(a5[p as int], c));
        (a6, new_root)
    }
}

/// The exact outcome of a right rotation at `p`: the mirror image of
/// `rotate_left_spec`, promoting `p`'s left child.
#[verifier::opaque]
pub open spec fn rotate_right_spec(nodes: Seq<TreeNode>, root: usize, p: usize) -> (Seq<
    TreeNode,
>, usize) {
    if p == NIL || nodes[p as int].left == NIL {
        (nodes, root)
    } else {
        let c = nodes[p as int].left;
        let cr = nodes[c as int].right;
        let a1 = nodes.update(p as int, with_left(nodes[p as int], cr));
        let a2 = if cr != NIL {
            a1.update(cr as int, with_parent(a1[cr as int], p))
        } else {
            a1
        };
        let pp = a2[p as int].parent;
        let a3 = a2.update(c as int, with_parent(a2[c as int], pp));
        let a4 = if pp == NIL {
            a3.update(c as int, with_red(a3[c as int], false))
        } else if a3[pp as int].right == p {
            a3.update(pp as int, with_right(a3[pp as int], c))
        } else {
            a3.update(pp as int, with_left(a3[pp as int], c))
        };
        let new_root = if pp == NIL {
            c
        } else {
            root
        };
        let a5 = a4.update(c as int, with_right(a4[c as int], p));
        let a6 = a5.update(p as int, with_parent(a5[p as int], c));
        (a6, new_root)
    }
}

// ---------------------------------------------------------------------------
// Facts about the list view.
// ---------------------------------------------------------------------------

/// Every entry of a chain is a valid index, the chain starts at its head,
/// consecutive entries are linked by `next`, and the chain is no longer than
/// its fuel.
pub proof fn lemma_chain_props(nodes: Seq<TreeNode>, i: int, fuel: nat)
    ensures
        ({
            let q = chain_from(nodes, i, fuel);
            &&& forall|k: int| 0 <= k < q.len() ==> 0 <= #[trigger] q[k] < nodes.len()
            &&& (q.len() > 0 ==> q[0] == i)
            &&& forall|k: int|
                0 <= k < q.len() - 1 ==> nodes[#[trigger] q[k]].node.next as int == q[k + 1]
            &&& q.len() <= fuel
        }),
    decreases fuel,
{
    if !(fuel == 0 || i == NIL as int || i < 0 || i >= nodes.len()) {
        let q = chain_from(nodes, i, fuel);
        let rest = chain_from(nodes, nodes[i].node.next as int, (fuel - 1) as nat);
        lemma_chain_props(nodes, nodes[i].node.next as int, (fuel - 1) as nat);
        assert forall|k: int| 0 <= k < q.len() - 1 implies nodes[#[trigger] q[k]].node.next as int
            == q[k + 1] by {
            if k > 0 {
                assert(q[k] == rest[k - 1]);
                assert(q[k + 1] == rest[k]);
            } else {
                if rest.len() > 0 {
                    assert(q[1] == rest[0]);
                }
            }
        }
    }
}

/// A chain is determined by its links: any duplicate-free description that
/// starts at the head, follows `next`, ends on a null link and fits in the
/// fuel is the chain.
pub proof fn lemma_chain_char(nodes: Seq<TreeNode>, i: int, fuel: nat, s: Seq<int>)
    requires
        fits(nodes),
        s.len() <= fuel,
        s.len() == 0 ==> i == NIL as int || i < 0 || i >= nodes.len(),
        s.len() > 0 ==> s[0] == i,
        forall|k: int| 0 <= k < s.len() ==> 0 <= #[trigger] s[k] < nodes.len(),
        forall|k: int| 0 <= k < s.len() - 1 ==> nodes[#[trigger] s[k]].node.next as int == s[k + 1],
        s.len() > 0 ==> nodes[s.last()].node.next == NIL,
    ensures
        chain_from(nodes, i, fuel) == s,
    decreases fuel,
{
    if s.len() == 0 {
        assert(chain_from(nodes, i, fuel) =~= s);
    } else {
        let nxt = nodes[i].node.next as int;
        let rest = s.drop_first();
        assert forall|k: int| 0 <= k < rest.len() - 1 implies nodes[#[trigger] rest[k]].node.next
            as int == rest[k + 1] by {
            assert(rest[k] == s[k + 1]);
            assert(rest[k + 1] == s[k + 2]);
        }
        if rest.len() == 0 {
            assert(nodes[i].node.next == NIL);
            assert(nxt == NIL as int);
        } else {
            assert(rest[0] == s[1]);
            assert(rest.last() == s.last());
        }
        lemma_chain_char(nodes, nxt, (fuel - 1) as nat, rest);
        assert(chain_from(nodes, i, fuel) =~= s);
    }
}

/// A structural operation leaves the list view untouched: if two arenas
/// agree on every `next` and `prev` link and on every entry's data, a
/// well-formed list of one is the same well-formed list of the other.
pub proof fn lemma_list_frame(a: Seq<TreeNode>, b: Seq<TreeNode>, first: int)
    requires
        fits(a),
        same_data(a, b),
        same_list_links(a, b),
        list_wf(a, first),
    ensures
        list_of(b, first) == list_of(a, first),
        list_wf(b, first),
{
    let q = list_of(a, first);
    lemma_chain_props(a, first, a.len() as nat);
    lemma_chain_char(b, first, b.len() as nat, q);
}

/// What `list_find` returns: null exactly when no entry matches, otherwise a
/// matching entry of the list.
pub proof fn lemma_list_find(nodes: Seq<TreeNode>, q: Seq<int>, h: u64, k: u64)
    requires
        fits(nodes),
        forall|m: int| 0 <= m < q.len() ==> 0 <= #[trigger] q[m] < nodes.len(),
    ensures
        (list_find(nodes, q, h, k) == NIL as int) <==> !list_has(nodes, q, h, k),
        list_find(nodes, q, h, k) != NIL as int ==> q.contains(list_find(nodes, q, h, k))
            && nodes[list_find(nodes, q, h, k)].node.hash == h && nodes[list_find(
            nodes,
            q,
            h,
            k,
        )].node.key == k,
    decreases q.len(),
{
    if q.len() > 0 {
        if nodes[q[0]].node.hash == h && nodes[q[0]].node.key == k {
            assert(list_has(nodes, q, h, k));
        } else {
            let rest = q.drop_first();
            lemma_list_find(nodes, rest, h, k);
            assert(list_has(nodes, rest, h, k) ==> list_has(nodes, q, h, k)) by {
                if list_has(nodes, rest, h, k) {
                    let m = choose|m: int|
                        0 <= m < rest.len() && (#[trigger] nodes[rest[m]]).node.hash == h
                            && nodes[rest[m]].node.key == k;
                    assert(q[m + 1] == rest[m]);
                    assert(nodes[q[m + 1]].node.hash == h && nodes[q[m + 1]].node.key == k);
                }
            }
            assert(list_has(nodes, q, h, k) ==> list_has(nodes, rest, h, k)) by {
                if list_has(nodes, q, h, k) {
                    let m = choose|m: int|
                        0 <= m < q.len() && (#[trigger] nodes[q[m]]).node.hash == h
                            && nodes[q[m]].node.key == k;
                    assert(m != 0);
                    assert(rest[m - 1] == q[m]);
                    assert(nodes[rest[m - 1]].node.hash == h && nodes[rest[m - 1]].node.key == k);
                }
            }
            if list_find(nodes, q, h, k) != NIL as int {
                assert(rest.contains(list_find(nodes, rest, h, k)) ==> q.contains(
                    list_find(nodes, rest, h, k),
                )) by {
                    if rest.contains(list_find(nodes, rest, h, k)) {
                        let m = choose|m: int|
                            0 <= m < rest.len() && rest[m] == list_find(nodes, rest, h, k);
                        assert(q[m + 1] == rest[m]);
                    }
                }
            }
        }
    }
}

/// In a list without repeated `(hash, key)` pairs, `list_find` returns the
/// one entry that carries the pair it was asked for.
pub proof fn lemma_list_find_unique(nodes: Seq<TreeNode>, q: Seq<int>, m: int)
    requires
        fits(nodes),
        forall|j: int| 0 <= j < q.len() ==> 0 <= #[trigger] q[j] < nodes.len(),
        forall|k1: int, k2: int|
            0 <= k1 < k2 < q.len() ==> !((#[trigger] nodes[q[k1]]).node.hash == (
            #[trigger] nodes[q[k2]]).node.hash && nodes[q[k1]].node.key == nodes[q[k2]].node.key),
        0 <= m < q.len(),
    ensures
        list_find(nodes, q, nodes[q[m]].node.hash, nodes[q[m]].node.key) == q[m],
    decreases q.len(),
{
    let h = nodes[q[m]].node.hash;
    let k = nodes[q[m]].node.key;
    if nodes[q[0]].node.hash == h && nodes[q[0]].node.key == k {
        assert(m == 0);
    } else {
        let rest = q.drop_first();
        assert(m > 0);
        assert(rest[m - 1] == q[m]);
        assert forall|k1: int, k2: int| 0 <= k1 < k2 < rest.len() implies !((
        #[trigger] nodes[rest[k1]]).node.hash == (#[trigger] nodes[rest[k2]]).node.hash
            && nodes[rest[k1]].node.key == nodes[rest[k2]].node.key) by {
            assert(rest[k1] == q[k1 + 1]);
            assert(rest[k2] == q[k2 + 1]);
        }
        lemma_list_find_unique(nodes, rest, m - 1);
    }
}

// ---------------------------------------------------------------------------
// Facts about the tree view.
// ---------------------------------------------------------------------------

/// Every index a tree view collects is in range.
pub proof fn lemma_tree_idxs_valid(nodes: Seq<TreeNode>, i: int, fuel: nat)
    ensures
        forall|j: int| tree_idxs(nodes, i, fuel).contains(j) ==> 0 <= j < nodes.len(),
    decreases fuel,
{
    if !(fuel == 0 || i == NIL as int || i < 0 || i >= nodes.len()) {
        let l = nodes[i].left as int;
        let r = nodes[i].right as int;
        let sub = (fuel - 1) as nat;
        lemma_tree_idxs_valid(nodes, l, sub);
        lemma_tree_idxs_valid(nodes, r, sub);
        assert forall|j: int| tree_idxs(nodes, i, fuel).contains(j) implies 0 <= j
            < nodes.len() by {
            if j != i {
                assert(tree_idxs(nodes, l, sub).contains(j) || tree_idxs(nodes, r, sub).contains(
                    j,
                ));
            }
        }
    }
}

/// A subtree holds a pair exactly when its root carries it or one of the two
/// child subtrees holds it.
pub proof fn lemma_tree_has_step(nodes: Seq<TreeNode>, i: int, fuel: nat, h: u64, k: u64)
    requires
        fits(nodes),
        fuel > 0,
        0 <= i < nodes.len(),
    ensures
        tree_has(nodes, i, fuel, h, k) <==> ((nodes[i].node.hash == h && nodes[i].node.key == k)
            || tree_has(nodes, nodes[i].left as int, (fuel - 1) as nat, h, k) || tree_has(
            nodes,
            nodes[i].right as int,
            (fuel - 1) as nat,
            h,
            k,
        )),
{
    let l = nodes[i].left as int;
    let r = nodes[i].right as int;
    let sub = (fuel - 1) as nat;
    assert(tree_idxs(nodes, i, fuel) == tree_idxs(nodes, l, sub).union(
        tree_idxs(nodes, r, sub),
    ).insert(i));
    if tree_has(nodes, i, fuel, h, k) {
        let j = choose|j: int|
            tree_idxs(nodes, i, fuel).contains(j) && (#[trigger] nodes[j]).node.hash == h
                && nodes[j].node.key == k;
        if j != i {
            assert(tree_idxs(nodes, l, sub).contains(j) || tree_idxs(nodes, r, sub).contains(j));
        }
    }
    if tree_has(nodes, l, sub, h, k) {
        let j = choose|j: int|
            tree_idxs(nodes, l, sub).contains(j) && (#[trigger] nodes[j]).node.hash == h
                && nodes[j].node.key == k;
        assert(tree_idxs(nodes, i, fuel).contains(j));
    }
    if tree_has(nodes, r, sub, h, k) {
        let j = choose|j: int|
            tree_idxs(nodes, r, sub).contains(j) && (#[trigger] nodes[j]).node.hash == h
                && nodes[j].node.key == k;
        assert(tree_idxs(nodes, i, fuel).contains(j));
    }
    if nodes[i].node.hash == h && nodes[i].node.key == k {
        assert(tree_idxs(nodes, i, fuel).contains(i));
    }
}

/// The placement order is a strict total order on `(hash, key)` pairs: of
/// two distinct pairs exactly one is below the other, no pair is below
/// itself, and the order composes — what lookups and placement rely on, and
/// what a key type must supply.
pub proof fn lemma_pair_order_total(
    h1: u64,
    k1: u64,
    h2: u64,
    k2: u64,
    h3: u64,
    k3: u64,
)
    ensures
        !pair_lt(h1, k1, h1, k1),
        (h1, k1) != (h2, k2) ==> (pair_lt(h1, k1, h2, k2) <==> !pair_lt(h2, k2, h1, k1)),
        pair_lt(h1, k1, h2, k2) && pair_lt(h2, k2, h3, k3) ==> pair_lt(h1, k1, h3, k3),
{
}

/// An empty subtree holds nothing.
pub proof fn lemma_tree_has_empty(nodes: Seq<TreeNode>, i: int, fuel: nat, h: u64, k: u64)
    requires
        fuel == 0 || i == NIL as int || i < 0 || i >= nodes.len(),
    ensures
        !tree_has(nodes, i, fuel, h, k),
{
    if tree_has(nodes, i, fuel, h, k) {
        let j = choose|j: int|
            tree_idxs(nodes, i, fuel).contains(j) && (#[trigger] nodes[j]).node.hash == h
                && nodes[j].node.key == k;
        assert(Set::<int>::empty().contains(j));
    }
}

/// The in-order traversal of a subtree visits exactly the indices of that
/// subtree.
pub proof fn lemma_in_order_covers_tree(nodes: Seq<TreeNode>, i: int, fuel: nat)
    ensures
        in_order_seq(nodes, i, fuel).to_set() == tree_idxs(nodes, i, fuel),
    decreases fuel,
{
    if fuel == 0 || i == NIL as int || i < 0 || i >= nodes.len() {
        assert(in_order_seq(nodes, i, fuel).to_set() =~= tree_idxs(nodes, i, fuel));
    } else {
        let l = nodes[i].left as int;
        let r = nodes[i].right as int;
        let sub = (fuel - 1) as nat;
        lemma_in_order_covers_tree(nodes, l, sub);
        lemma_in_order_covers_tree(nodes, r, sub);
        let s = in_order_seq(nodes, i, fuel);
        let sl = in_order_seq(nodes, l, sub);
        let sr = in_order_seq(nodes, r, sub);
        assert forall|x: int| s.contains(x) implies tree_idxs(nodes, i, fuel).contains(x) by {
            let m = choose|m: int| 0 <= m < s.len() && s[m] == x;
            if m < sl.len() {
                assert(sl[m] == x);
                assert(sl.contains(x));
            } else if m == sl.len() {
                assert(x == i);
            } else {
                assert(sr[m - sl.len() - 1] == x);
                assert(sr.contains(x));
            }
        }
        assert forall|x: int| tree_idxs(nodes, i, fuel).contains(x) implies s.contains(x) by {
            if x == i {
                assert(s[sl.len() as int] == x);
            } else if sl.to_set().contains(x) {
                let m = choose|m: int| 0 <= m < sl.len() && sl[m] == x;
                assert(s[m] == x);
            } else {
                assert(sr.to_set().contains(x));
                let m = choose|m: int| 0 <= m < sr.len() && sr[m] == x;
                assert(s[m + sl.len() + 1] == x);
            }
        }
        assert(s.to_set() =~= tree_idxs(nodes, i, fuel));
    }
}

/// The tree links and colors of every node agree between two arenas: the
/// footprint of an operation that only relinks the list.
pub open spec fn same_tree_links(a: Seq<TreeNode>, b: Seq<TreeNode>) -> bool {
    &&& b.len() == a.len()
    &&& forall|j: int|
        0 <= j < a.len() ==> {
            &&& (#[trigger] b[j]).left == a[j].left
            &&& b[j].right == a[j].right
            &&& b[j].parent == a[j].parent
            &&& b[j].red == a[j].red
        }
}

/// A list-only operation leaves every color condition of the tree view as it
/// was: the red-black state depends on the tree links and colors alone.
pub proof fn lemma_rb_frame(a: Seq<TreeNode>, b: Seq<TreeNode>, i: int, fuel: nat)
    requires
        same_tree_links(a, b),
    ensures
        red_at(a, i) == red_at(b, i),
        black_height(a, i, fuel) == black_height(b, i, fuel),
        no_red_red(a, i, fuel) == no_red_red(b, i, fuel),
        bh_wf(a, i, fuel) == bh_wf(b, i, fuel),
    decreases fuel,
{
    if !(fuel == 0 || i == NIL as int || i < 0 || i >= a.len()) {
        lemma_rb_frame(a, b, a[i].left as int, (fuel - 1) as nat);
        lemma_rb_frame(a, b, a[i].right as int, (fuel - 1) as nat);
    }
}

/// The link-local half of `tree_wf`: indices in range, each child's `parent`
/// pointing back, depth within fuel — everything but the disjointness of the
/// subtrees, which `lemma_tree_wf_from_links` recovers from a duplicate-free
/// in-order walk.
pub open spec fn tree_links_wf(nodes: Seq<TreeNode>, i: int, fuel: nat) -> bool
    decreases fuel,
{
    i == NIL as int || {
        &&& 0 <= i < nodes.len()
        &&& fuel > 0
        &&& valid_or_nil(nodes[i].left, nodes.len() as nat)
        &&& valid_or_nil(nodes[i].right, nodes.len() as nat)
        &&& (nodes[i].left != NIL ==> nodes[nodes[i].left as int].parent == i)
        &&& (nodes[i].right != NIL ==> nodes[nodes[i].right as int].parent == i)
        &&& tree_links_wf(nodes, nodes[i].left as int, (fuel - 1) as nat)
        &&& tree_links_wf(nodes, nodes[i].right as int, (fuel - 1) as nat)
    }
}

/// Sound links plus a duplicate-free in-order walk give full structural
/// soundness: the walk visits exactly the subtree's indices, so if it never
/// repeats one, the two child subtrees are disjoint and neither contains its
/// parent, at every node.
pub proof fn lemma_tree_wf_from_links(nodes: Seq<TreeNode>, i: int, fuel: nat)
    requires
        fits(nodes),
        tree_links_wf(nodes, i, fuel),
        in_order_seq(nodes, i, fuel).no_duplicates(),
    ensures
        tree_wf(nodes, i, fuel),
    decreases fuel,
{
    if i != NIL as int {
        let l = nodes[i].left as int;
        let r = nodes[i].right as int;
        let sub = (fuel - 1) as nat;
        let s = in_order_seq(nodes, i, fuel);
        let sl = in_order_seq(nodes, l, sub);
        let sr = in_order_seq(nodes, r, sub);
        let m = sl.len() as int;
        assert(s == sl + seq![i] + sr);
        assert forall|a: int, b: int|
            0 <= a < sl.len() && 0 <= b < sl.len() && a != b implies sl[a] != sl[b] by {
            assert(s[a] == sl[a] && s[b] == sl[b]);
        }
        assert forall|a: int, b: int|
            0 <= a < sr.len() && 0 <= b < sr.len() && a != b implies sr[a] != sr[b] by {
            assert(s[m + 1 + a] == sr[a] && s[m + 1 + b] == sr[b]);
        }
        lemma_tree_wf_from_links(nodes, l, sub);
        lemma_tree_wf_from_links(nodes, r, sub);
        lemma_in_order_covers_tree(nodes, l, sub);
        lemma_in_order_covers_tree(nodes, r, sub);
        assert forall|y: int|
            tree_idxs(nodes, l, sub).contains(y) implies !tree_idxs(nodes, r, sub).contains(y)
            && y != i by {
            let a = choose|a: int| 0 <= a < sl.len() && sl[a] == y;
            assert(s[a] == y);
            if tree_idxs(nodes, r, sub).contains(y) {
                let b = choose|b: int| 0 <= b < sr.len() && sr[b] == y;
                assert(s[m + 1 + b] == y);
            }
            assert(s[m] == i);
        }
        assert forall|y: int| tree_idxs(nodes, r, sub).contains(y) implies y != i by {
            let b = choose|b: int| 0 <= b < sr.len() && sr[b] == y;
            assert(s[m + 1 + b] == y);
            assert(s[m] == i);
        }
    }
}

/// A strictly ascending in-order walk over sound links gives the search
/// order: every entry left of a node is below it, every entry right of it
/// above it — the converse of `lemma_in_order_sorted`.
pub proof fn lemma_bst_from_sorted(nodes: Seq<TreeNode>, i: int, fuel: nat)
    requires
        fits(nodes),
        tree_links_wf(nodes, i, fuel),
        ({
            let s = in_order_seq(nodes, i, fuel);
            forall|a: int, b: int|
                0 <= a < b < s.len() ==> pair_lt(
                    (#[trigger] nodes[s[a]]).node.hash,
                    nodes[s[a]].node.key,
                    (#[trigger] nodes[s[b]]).node.hash,
                    nodes[s[b]].node.key,
                )
        }),
    ensures
        bst_wf(nodes, i, fuel),
    decreases fuel,
{
    if !(fuel == 0 || i == NIL as int || i < 0 || i >= nodes.len()) {
        let l = nodes[i].left as int;
        let r = nodes[i].right as int;
        let sub = (fuel - 1) as nat;
        let s = in_order_seq(nodes, i, fuel);
        let sl = in_order_seq(nodes, l, sub);
        let sr = in_order_seq(nodes, r, sub);
        let m = sl.len() as int;
        assert(s == sl + seq![i] + sr);
        assert(s[m] == i);
        lemma_in_order_covers_tree(nodes, l, sub);
        lemma_in_order_covers_tree(nodes, r, sub);
        assert forall|j: int| tree_idxs(nodes, l, sub).contains(j) implies pair_lt(
            (#[trigger] nodes[j]).node.hash,
            nodes[j].node.key,
            nodes[i].node.hash,
            nodes[i].node.key,
        ) by {
            let a = choose|a: int| 0 <= a < sl.len() && sl[a] == j;
            assert(s[a] == j);
        }
        assert forall|j: int| tree_idxs(nodes, r, sub).contains(j) implies pair_lt(
            nodes[i].node.hash,
            nodes[i].node.key,
            (#[trigger] nodes[j]).node.hash,
            nodes[j].node.key,
        ) by {
            let b = choose|b: int| 0 <= b < sr.len() && sr[b] == j;
            assert(s[m + 1 + b] == j);
        }
        assert forall|a: int, b: int|
            0 <= a < b < sl.len() implies pair_lt(
            (#[trigger] nodes[sl[a]]).node.hash,
            nodes[sl[a]].node.key,
            (#[trigger] nodes[sl[b]]).node.hash,
            nodes[sl[b]].node.key,
        ) by {
            assert(s[a] == sl[a] && s[b] == sl[b]);
        }
        assert forall|a: int, b: int|
            0 <= a < b < sr.len() implies pair_lt(
            (#[trigger] nodes[sr[a]]).node.hash,
            nodes[sr[a]].node.key,
            (#[trigger] nodes[sr[b]]).node.hash,
            nodes[sr[b]].node.key,
        ) by {
            assert(s[m + 1 + a] == sr[a] && s[m + 1 + b] == sr[b]);
        }
        lemma_bst_from_sorted(nodes, l, sub);
        lemma_bst_from_sorted(nodes, r, sub);
    }
}

/// The in-order traversal of an ordered subtree is strictly ascending in the
/// placement order: whatever shape rotations leave the tree in, walking it
/// symmetrically lists the entries sorted by `(hash, key)`.
pub proof fn lemma_in_order_sorted(nodes: Seq<TreeNode>, i: int, fuel: nat)
    requires
        tree_wf(nodes, i, fuel),
        bst_wf(nodes, i, fuel),
    ensures
        ({
            let s = in_order_seq(nodes, i, fuel);
            forall|a: int, b: int|
                0 <= a < b < s.len() ==> pair_lt(
                    (#[trigger] nodes[s[a]]).node.hash,
                    nodes[s[a]].node.key,
                    (#[trigger] nodes[s[b]]).node.hash,
                    nodes[s[b]].node.key,
                )
        }),
    decreases fuel,
{
    if !(fuel == 0 || i == NIL as int || i < 0 || i >= nodes.len()) {
        let l = nodes[i].left as int;
        let r = nodes[i].right as int;
        let sub = (fuel - 1) as nat;
        let s = in_order_seq(nodes, i, fuel);
        let sl = in_order_seq(nodes, l, sub);
        let sr = in_order_seq(nodes, r, sub);
        lemma_in_order_sorted(nodes, l, sub);
        lemma_in_order_sorted(nodes, r, sub);
        lemma_in_order_covers_tree(nodes, l, sub);
        lemma_in_order_covers_tree(nodes, r, sub);
        assert forall|a: int, b: int| 0 <= a < b < s.len() implies pair_lt(
            (#[trigger] nodes[s[a]]).node.hash,
            nodes[s[a]].node.key,
            (#[trigger] nodes[s[b]]).node.hash,
            nodes[s[b]].node.key,
        ) by {
            let m = sl.len() as int;
            if a < m {
                assert(s[a] == sl[a]);
                assert(sl.contains(sl[a]));
                assert(tree_idxs(nodes, l, sub).contains(s[a]));
            }
            if a == m {
                assert(s[a] == i);
            }
            if a > m {
                assert(s[a] == sr[a - m - 1]);
                assert(sr.contains(sr[a - m - 1]));
                assert(tree_idxs(nodes, r, sub).contains(s[a]));
            }
            if b < m {
                assert(s[b] == sl[b]);
                assert(sl.contains(sl[b]));
                assert(tree_idxs(nodes, l, sub).contains(s[b]));
            }
            if b == m {
                assert(s[b] == i);
            }
            if b > m {
                assert(s[b] == sr[b - m - 1]);
                assert(sr.contains(sr[b - m - 1]));
                assert(tree_idxs(nodes, r, sub).contains(s[b]));
            }
        }
    }
}

} // verus!
