use tree_bin::bin_entry::BinEntry;
use tree_bin::state::{
    contended_lock_step, reader_enter, reader_exit, use_fast_path, LockAction, State, READER_UNIT,
    WAITER_BIT, WRITER_BIT,
};
use tree_bin::model::NIL;
use tree_bin::node::Node;
use tree_bin::tree_bin::TreeBin;
use tree_bin::tree_node::TreeNode;

/// Build a doubly linked chain arena from hashes, with key == hash and
/// value == 10 * hash, in the given order.
fn chain(hashes: &[u64]) -> (Vec<TreeNode>, usize) {
    let mut nodes = Vec::new();
    let n = hashes.len();
    for (i, &h) in hashes.iter().enumerate() {
        let next = if i + 1 < n { i + 1 } else { NIL };
        let mut t = TreeNode::new(h, h, h * 10, next, NIL);
        t.prev = if i == 0 { NIL } else { i - 1 };
        nodes.push(t);
    }
    (nodes, if n == 0 { NIL } else { 0 })
}

fn bin_from(hashes: &[u64]) -> TreeBin {
    let guard = crossbeam_epoch::pin();
    let (nodes, first) = chain(hashes);
    TreeBin::new(nodes, first, &guard)
}

/// Walk one root-to-leaf spine checking the red-black rules, returning the
/// black height; panics on a red-red edge or unequal black heights.
fn black_height_checked(nodes: &Vec<TreeNode>, i: usize) -> u64 {
    if i == NIL {
        return 1;
    }
    if nodes[i].red {
        if nodes[i].left != NIL {
            assert!(!nodes[nodes[i].left].red, "red node with red left child");
        }
        if nodes[i].right != NIL {
            assert!(!nodes[nodes[i].right].red, "red node with red right child");
        }
    }
    let l = black_height_checked(nodes, nodes[i].left);
    let r = black_height_checked(nodes, nodes[i].right);
    assert_eq!(l, r, "unequal black heights");
    if nodes[i].red {
        l
    } else {
        l + 1
    }
}

fn assert_red_black(bin: &TreeBin) {
    // The library's verified decision procedures — the full tree view
    // (sound links, order, consistency with the list) and the red-black
    // rules — and an independent walk must all accept the tree.
    assert!(bin.check_tree_invariants());
    assert!(bin.check_red_black());
    if bin.root == NIL {
        return;
    }
    assert!(!bin.nodes[bin.root].red, "root must be black");
    black_height_checked(&bin.nodes, bin.root);
}

fn find_in(bin: &BinEntry, hash: u64, key: u64) -> usize {
    let guard = crossbeam_epoch::pin();
    TreeBin::find(bin, hash, key, &guard)
}

#[test]
fn construction_from_chain() {
    let bin = bin_from(&[5, 3, 8, 1, 4, 7, 9]);
    assert_eq!(bin.first, 0);
    assert_eq!(bin.list_hashes(), vec![5, 3, 8, 1, 4, 7, 9]);
    assert_eq!(bin.in_order_hashes(), vec![1, 3, 4, 5, 7, 8, 9]);
    assert_red_black(&bin);
}

#[test]
fn construction_single_node() {
    let bin = bin_from(&[42]);
    assert_eq!(bin.root, 0);
    assert_eq!(bin.first, 0);
    assert_eq!(bin.in_order_hashes(), vec![42]);
    assert!(!bin.nodes[0].red);
}

#[test]
fn construction_two_nodes_both_orders() {
    for pair in [[1u64, 2], [2, 1]] {
        let bin = bin_from(&pair);
        assert_eq!(bin.in_order_hashes(), vec![1, 2]);
        assert_eq!(bin.list_hashes(), pair.to_vec());
        assert_red_black(&bin);
    }
}

#[test]
fn construction_sorted_and_reversed_inputs() {
    let asc: Vec<u64> = (0..32).collect();
    let bin = bin_from(&asc);
    assert_eq!(bin.in_order_hashes(), asc);
    assert_eq!(bin.list_hashes(), asc);
    assert_red_black(&bin);
    let desc: Vec<u64> = (0..32).rev().collect();
    let bin = bin_from(&desc);
    assert_eq!(bin.in_order_hashes(), asc);
    assert_eq!(bin.list_hashes(), desc);
    assert_red_black(&bin);
}

#[test]
fn find_fast_path() {
    let bin = bin_from(&[5, 3, 8, 1, 4, 7, 9]);
    let be = BinEntry::Tree(bin);
    for &h in &[5u64, 3, 8, 1, 4, 7, 9] {
        let r = find_in(&be, h, h);
        assert_ne!(r, NIL);
        if let BinEntry::Tree(tb) = &be {
            assert_eq!(tb.nodes[r].node.hash, h);
            assert_eq!(tb.nodes[r].node.key, h);
            assert_eq!(tb.nodes[r].node.value, h * 10);
        }
    }
    assert_eq!(find_in(&be, 6, 6), NIL);
    assert_eq!(find_in(&be, 100, 100), NIL);
    // same hash, different key: no match
    assert_eq!(find_in(&be, 5, 6), NIL);
}

#[test]
fn find_fallback_path_matches_fast_path() {
    // Force the waiter bit, then the writer bit: the fallback tree search
    // must answer exactly as the fast list walk does.
    for bit in [
        WAITER_BIT,
        WRITER_BIT,
        WAITER_BIT | WRITER_BIT,
    ] {
        let mut bin = bin_from(&[5, 3, 8, 1, 4, 7, 9]);
        bin.lock_state = bit;
        let be = BinEntry::Tree(bin);
        for &h in &[5u64, 3, 8, 1, 4, 7, 9] {
            let r = find_in(&be, h, h);
            assert_ne!(r, NIL);
            if let BinEntry::Tree(tb) = &be {
                assert_eq!(tb.nodes[r].node.hash, h);
                assert_eq!(tb.nodes[r].node.key, h);
            }
        }
        assert_eq!(find_in(&be, 6, 6), NIL);
        assert_eq!(find_in(&be, 5, 4), NIL);
    }
}

#[test]
fn collapse_on_last_node() {
    let guard = crossbeam_epoch::pin();
    let mut bin = bin_from(&[7]);
    let collapsed = bin.remove_tree_node(0, true, &guard);
    assert!(collapsed);
    assert_eq!(bin.root, NIL);
    assert_eq!(bin.first, NIL);
    assert_eq!(bin.list_hashes(), Vec::<u64>::new());
}

#[test]
fn no_collapse_with_survivors() {
    let guard = crossbeam_epoch::pin();
    let mut bin = bin_from(&[5, 3, 8, 1, 4, 7, 9]);
    let be = BinEntry::Tree(bin);
    let idx = find_in(&be, 4, 4);
    let mut bin = if let BinEntry::Tree(b) = be { b } else { unreachable!() };
    let collapsed = bin.remove_tree_node(idx, true, &guard);
    assert!(!collapsed);
    assert_eq!(bin.lock_state, 0, "writer lock must be released");
    assert_eq!(bin.list_hashes(), vec![5, 3, 8, 1, 7, 9]);
    assert_eq!(bin.in_order_hashes(), vec![1, 3, 5, 7, 8, 9]);
    assert_red_black(&bin);
}

#[test]
fn trivial_tree_removal_keeps_colors() {
    let guard = crossbeam_epoch::pin();
    let bin = bin_from(&[2, 1]);
    // The root has no right child, so removal skips the tree surgery, does
    // not collapse the bin, and the lock word stays untouched.
    let be = BinEntry::Tree(bin);
    let idx = find_in(&be, 1, 1);
    let mut bin = if let BinEntry::Tree(b) = be { b } else { unreachable!() };
    let collapsed = bin.remove_tree_node(idx, false, &guard);
    assert!(!collapsed);
    assert!(bin.check_red_black());
    assert_eq!(bin.lock_state, 0);
    assert_eq!(bin.list_hashes(), vec![2]);
    let be = BinEntry::Tree(bin);
    assert_eq!(find_in(&be, 1, 1), NIL);
    assert_ne!(find_in(&be, 2, 2), NIL);
}

#[test]
fn empty_bin_views_after_collapse() {
    let guard = crossbeam_epoch::pin();
    let mut bin = bin_from(&[9]);
    assert!(bin.remove_tree_node(0, false, &guard));
    assert!(bin.check_tree_invariants());
    assert!(bin.check_red_black());
    assert_eq!(bin.in_order_hashes(), Vec::<u64>::new());
    assert_eq!(bin.lock_state, 0);
    let be = BinEntry::Tree(bin);
    assert_eq!(find_in(&be, 9, 9), NIL);
}

#[test]
fn removal_until_empty_signals_once() {
    let guard = crossbeam_epoch::pin();
    let mut bin = bin_from(&[2, 1, 3]);
    // Removing with two or more survivors never signals collapse.
    assert!(!bin.remove_tree_node(0, false, &guard));
    assert!(!bin.remove_tree_node(1, false, &guard));
    // The last entry collapses the bin.
    assert!(bin.remove_tree_node(2, true, &guard));
    assert_eq!(bin.first, NIL);
    assert_eq!(bin.root, NIL);
}

#[test]
fn removal_stress_sequential() {
    // Keys 0..64 with identity hash: one writer removes the even keys, then
    // every lookup answers null for removed keys and the right node for the
    // rest, on the fast path and on the forced fallback path alike.
    let n: u64 = 64;
    let keys: Vec<u64> = (0..n).collect();
    let guard = crossbeam_epoch::pin();
    let mut bin = bin_from(&keys);
    assert_red_black(&bin);
    for k in (0..n).step_by(2) {
        let be = BinEntry::Tree(bin);
        let idx = find_in(&be, k, k);
        assert_ne!(idx, NIL);
        bin = if let BinEntry::Tree(b) = be { b } else { unreachable!() };
        let collapsed = bin.remove_tree_node(idx, true, &guard);
        assert!(!collapsed);
        // Every one of these removals takes the real surgery path; the
        // verified decider witnesses that the whole tree view survived it.
        assert_red_black(&bin);
    }
    let expect: Vec<u64> = (0..n).filter(|k| k % 2 == 1).collect();
    assert_eq!(bin.in_order_hashes(), expect);
    assert_eq!(bin.list_hashes(), expect);
    for forced in [0u64, WRITER_BIT] {
        bin.lock_state = forced;
        let be = BinEntry::Tree(bin);
        for k in 0..n {
            let r = find_in(&be, k, k);
            if k % 2 == 0 {
                assert_eq!(r, NIL, "removed key {k} still found");
            } else {
                assert_ne!(r, NIL, "retained key {k} lost");
                if let BinEntry::Tree(tb) = &be {
                    assert_eq!(tb.nodes[r].node.key, k);
                }
            }
        }
        bin = if let BinEntry::Tree(b) = be { b } else { unreachable!() };
    }
}

#[test]
fn removal_in_shuffled_order_until_empty() {
    let guard = crossbeam_epoch::pin();
    let keys = [5u64, 3, 8, 1, 4, 7, 9];
    let order = [8u64, 1, 5, 9, 4, 3, 7];
    let mut bin = bin_from(&keys);
    let mut removed: Vec<u64> = Vec::new();
    for (step, &k) in order.iter().enumerate() {
        let be = BinEntry::Tree(bin);
        let idx = find_in(&be, k, k);
        assert_ne!(idx, NIL);
        bin = if let BinEntry::Tree(b) = be { b } else { unreachable!() };
        let collapsed = bin.remove_tree_node(idx, step % 2 == 0, &guard);
        assert_eq!(collapsed, step == order.len() - 1, "collapse only on the last entry");
        removed.push(k);
        assert!(bin.check_red_black());
        let be = BinEntry::Tree(bin);
        for &j in &keys {
            let r = find_in(&be, j, j);
            if removed.contains(&j) {
                assert_eq!(r, NIL, "removed key {j} still found");
            } else {
                assert_ne!(r, NIL, "retained key {j} lost");
            }
        }
        bin = if let BinEntry::Tree(b) = be { b } else { unreachable!() };
    }
    assert_eq!(bin.first, NIL);
    assert_eq!(bin.root, NIL);
}

#[test]
fn validated_lookup_agrees_everywhere() {
    let guard = crossbeam_epoch::pin();
    // Fresh bin, forced lock bits, and bins after real surgery and after a
    // trivial-shape removal (whose tree view is deliberately stale): the
    // validated lookup answers from the list exactly in every case.
    for bits in [0u64, WAITER_BIT, WRITER_BIT] {
        let mut bin = bin_from(&[5, 3, 8, 1, 4, 7, 9]);
        bin.lock_state = bits;
        let be = BinEntry::Tree(bin);
        for &h in &[5u64, 3, 8, 1, 4, 7, 9] {
            let r = TreeBin::find_validated(&be, h, h, &guard);
            assert_ne!(r, NIL);
            if let BinEntry::Tree(tb) = &be {
                assert_eq!(tb.nodes[r].node.key, h);
            }
        }
        assert_eq!(TreeBin::find_validated(&be, 6, 6, &guard), NIL);
    }
    let bin = bin_from(&[2, 1]);
    let be = BinEntry::Tree(bin);
    let idx = TreeBin::find_validated(&be, 1, 1, &guard);
    let mut bin = if let BinEntry::Tree(b) = be { b } else { unreachable!() };
    assert!(!bin.remove_tree_node(idx, false, &guard));
    // The skipped surgery left the tree view stale: the decider rejects it
    // and the validated lookup still answers from the list.
    assert!(!bin.check_tree_invariants());
    bin.lock_state = WRITER_BIT;
    let be = BinEntry::Tree(bin);
    assert_eq!(TreeBin::find_validated(&be, 1, 1, &guard), NIL);
    assert_ne!(TreeBin::find_validated(&be, 2, 2, &guard), NIL);
}

#[test]
fn lock_state_bits_do_not_alias() {
    assert_eq!(State::Free.bits(), 0);
    assert_eq!(State::Writer.bits(), WRITER_BIT);
    assert_eq!(State::Waiter.bits(), WAITER_BIT);
    assert_eq!(State::Reader.bits(), READER_UNIT);
    assert_eq!(WRITER_BIT & WAITER_BIT, 0);
    for readers in [1u64, 2, 3, 1000] {
        let word = readers * READER_UNIT;
        assert_eq!(word & WRITER_BIT, 0);
        assert_eq!(word & WAITER_BIT, 0);
        assert_eq!(word >> 2, readers);
    }
}

#[test]
fn contended_lock_decision_table() {
    assert_eq!(contended_lock_step(0, false), LockAction::Acquire);
    assert_eq!(contended_lock_step(WAITER_BIT, true), LockAction::Acquire);
    assert_eq!(
        contended_lock_step(READER_UNIT, false),
        LockAction::RegisterWaiter
    );
    assert_eq!(
        contended_lock_step(READER_UNIT | WAITER_BIT, false),
        LockAction::RegisterWaiter
    );
    assert_eq!(contended_lock_step(WRITER_BIT, true), LockAction::Park);
    assert_eq!(
        contended_lock_step(WRITER_BIT | WAITER_BIT, true),
        LockAction::Park
    );
    assert_eq!(contended_lock_step(WRITER_BIT, false), LockAction::Spin);
}

#[test]
fn reader_protocol_words() {
    assert!(use_fast_path(0));
    assert!(use_fast_path(3 * READER_UNIT));
    assert!(!use_fast_path(WAITER_BIT));
    assert!(!use_fast_path(WRITER_BIT));
    assert_eq!(reader_enter(WRITER_BIT), WRITER_BIT + READER_UNIT);
    // The last reader out while exactly one writer waits must unpark it.
    assert_eq!(reader_exit(READER_UNIT | WRITER_BIT), (WRITER_BIT, true));
    assert_eq!(
        reader_exit(2 * READER_UNIT | WRITER_BIT),
        (READER_UNIT | WRITER_BIT, false)
    );
    assert_eq!(reader_exit(READER_UNIT), (0, false));
    assert_eq!(
        reader_exit(READER_UNIT | WRITER_BIT | WAITER_BIT),
        (WRITER_BIT | WAITER_BIT, false)
    );
}

#[test]
fn waiter_slot_registration() {
    let mut bin = bin_from(&[1, 2]);
    assert_eq!(bin.waiter, None);
    bin.register_waiter(77);
    assert_eq!(bin.waiter, Some(77));
    assert_eq!(bin.take_waiter(), Some(77));
    assert_eq!(bin.waiter, None);
    assert_eq!(bin.take_waiter(), None);
}

#[test]
fn bin_entry_accessors() {
    let node_entry = BinEntry::Node(Node::new(9, 9, 90, NIL));
    assert!(node_entry.as_node().is_some());
    assert!(node_entry.as_tree_node().is_none());
    assert!(node_entry.as_tree_bin().is_none());
    let tree_entry = BinEntry::Tree(bin_from(&[1]));
    assert!(tree_entry.as_tree_bin().is_some());
    assert!(tree_entry.as_node().is_none());
    let tn_entry = BinEntry::TreeNode(TreeNode::new(4, 4, 40, NIL, NIL));
    assert!(tn_entry.as_tree_node().is_some());
    assert!(tn_entry.as_tree_bin().is_none());
    let moved = BinEntry::Moved;
    assert!(moved.as_node().is_none());
    assert!(moved.as_tree_node().is_none());
    assert!(moved.as_tree_bin().is_none());
}

#[test]
fn node_constructors() {
    let n = Node::new(3, 4, 5, 6);
    assert_eq!((n.hash, n.key, n.value, n.next), (3, 4, 5, 6));
    let t = TreeNode::new(3, 4, 5, 6, 7);
    assert_eq!(t.node.hash, 3);
    assert_eq!(t.node.key, 4);
    assert_eq!(t.node.value, 5);
    assert_eq!(t.node.next, 6);
    assert_eq!(t.parent, 7);
    assert_eq!(t.left, NIL);
    assert_eq!(t.right, NIL);
    assert_eq!(t.prev, NIL);
    assert!(!t.red);
}

#[test]
fn hash_collisions_resolved_by_key() {
    // Several keys sharing one hash: placement falls back to key order and
    // lookups still tell the entries apart.
    let guard = crossbeam_epoch::pin();
    let mut nodes = Vec::new();
    let pairs = [(7u64, 1u64), (7, 5), (7, 3), (2, 2), (9, 9)];
    let n = pairs.len();
    for (i, &(h, k)) in pairs.iter().enumerate() {
        let next = if i + 1 < n { i + 1 } else { NIL };
        let mut t = TreeNode::new(h, k, h + k, next, NIL);
        t.prev = if i == 0 { NIL } else { i - 1 };
        nodes.push(t);
    }
    let bin = TreeBin::new(nodes, 0, &guard);
    assert_red_black(&bin);
    let be = BinEntry::Tree(bin);
    for &(h, k) in &pairs {
        let r = find_in(&be, h, k);
        assert_ne!(r, NIL);
        if let BinEntry::Tree(tb) = &be {
            assert_eq!(tb.nodes[r].node.hash, h);
            assert_eq!(tb.nodes[r].node.key, k);
        }
    }
    assert_eq!(find_in(&be, 7, 2), NIL);
    assert_eq!(find_in(&be, 8, 1), NIL);
}
