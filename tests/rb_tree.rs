use balanced_trees::{Color, Node, RBTree, RedBlackTreeRoot};

fn sample() -> RBTree {
    let mut t = RBTree::new();
    for k in [10u64, 5, 20, 1, 6, 15, 25] {
        assert!(t.insert(k));
    }
    t
}

/// Checks the coloring from the diagram rows (prefix order with depths):
/// rebuilds each node's children, then walks every root-to-empty path.
fn check_colors(t: &RBTree) {
    let rows = t.print_tree();
    if rows.is_empty() {
        return;
    }
    assert_eq!(rows[0].1, Color::Black);
    assert_eq!(rows[0].2, 0);
    // children[i] = indices of the rows whose parent is row i.
    let mut children: Vec<Vec<usize>> = vec![Vec::new(); rows.len()];
    let mut stack: Vec<usize> = Vec::new();
    for (i, row) in rows.iter().enumerate() {
        while let Some(&top) = stack.last() {
            if rows[top].2 + 1 == row.2 {
                break;
            }
            stack.pop();
        }
        if let Some(&parent) = stack.last() {
            children[parent].push(i);
        }
        stack.push(i);
    }
    fn black_height(rows: &[(u64, Color, usize)], children: &[Vec<usize>], i: usize) -> usize {
        let own = if rows[i].1 == Color::Black { 1 } else { 0 };
        let mut below: Option<usize> = None;
        let kids = &children[i];
        // A missing child is an empty position with black height zero.
        let mut heights: Vec<usize> = kids.iter().map(|&c| black_height(rows, children, c)).collect();
        if kids.len() < 2 {
            heights.push(0);
        }
        for &c in kids {
            if rows[i].1 == Color::Red {
                assert_eq!(rows[c].1, Color::Black, "red node {} has a red child", rows[i].0);
            }
        }
        for h in heights {
            match below {
                None => below = Some(h),
                Some(b) => assert_eq!(b, h, "unequal black heights below {}", rows[i].0),
            }
        }
        below.unwrap() + own
    }
    black_height(&rows, &children, 0);
}

fn height_bound_holds(height: usize, n: usize) -> bool {
    // 2^height <= (n + 1)^2
    let lhs: u128 = 1u128 << height;
    let rhs: u128 = ((n as u128) + 1) * ((n as u128) + 1);
    lhs <= rhs
}

#[test]
fn sample_inorder_root_and_height() {
    let t = sample();
    assert_eq!(t.inorder(), vec![1, 5, 6, 10, 15, 20, 25]);
    assert_eq!(t.print_tree()[0].1, Color::Black);
    assert!(t.height() <= 4);
    assert_eq!(t.count(), 7);
    check_colors(&t);
}

#[test]
fn sample_after_three_deletes() {
    let mut t = sample();
    assert!(t.delete(10));
    check_colors(&t);
    assert!(t.delete(5));
    check_colors(&t);
    assert!(t.delete(20));
    check_colors(&t);
    assert_eq!(t.count(), 4);
    assert!(!t.search(10));
    assert!(!t.search(5));
    assert!(!t.search(20));
    assert!(t.search(1));
    assert!(t.search(6));
    assert!(t.search(15));
    assert!(t.search(25));
    assert_eq!(t.inorder(), vec![1, 6, 15, 25]);
}

#[test]
fn increasing_run_stays_balanced() {
    let mut t = RBTree::new();
    for k in 1u64..=64 {
        t.insert(k);
        check_colors(&t);
        assert!(height_bound_holds(t.height(), t.count()));
    }
    assert_eq!(t.count(), 64);
    assert!(t.height() <= 12);
    assert_eq!(t.inorder(), (1u64..=64).collect::<Vec<u64>>());
}

#[test]
fn insert_twice_counts_once() {
    let mut t = sample();
    assert!(t.insert(42));
    assert_eq!(t.count(), 8);
    assert!(t.search(42));
    assert!(!t.insert(42));
    assert_eq!(t.count(), 8);
    assert!(t.search(42));
}

#[test]
fn insert_search_delete_round_trip() {
    let mut t = sample();
    assert!(t.insert(7));
    assert!(t.search(7));
    assert_eq!(t.count(), 8);
    assert!(t.delete(7));
    assert!(!t.search(7));
    assert_eq!(t.count(), 7);
    assert!(!t.delete(7));
    assert_eq!(t.count(), 7);
}

#[test]
fn empty_tree_reports_agree() {
    let mut t = RBTree::new();
    assert!(t.is_empty());
    assert_eq!(t.count(), 0);
    assert_eq!(t.min(), None);
    assert_eq!(t.max(), None);
    assert_eq!(t.height(), 0);
    assert_eq!(t.leaves(), 0);
    assert!(t.inorder().is_empty());
    t.insert(3);
    assert!(!t.is_empty());
    assert_eq!(t.min(), Some(3));
    assert_eq!(t.max(), Some(3));
    t.delete(3);
    assert!(t.is_empty());
    assert_eq!(t.min(), None);
}

#[test]
fn min_max_and_leaves() {
    let t = sample();
    assert_eq!(t.min(), Some(1));
    assert_eq!(t.max(), Some(25));
    assert_eq!(t.leaves(), 4);
    assert_eq!(t.height(), 3);
}

#[test]
fn traversal_orders() {
    let t = sample();
    assert_eq!(t.preorder(), vec![10, 5, 1, 6, 20, 15, 25]);
    assert_eq!(t.levelorder(), vec![10, 5, 20, 1, 6, 15, 25]);
    assert!(t.search_element(6));
    assert!(!t.search_element(7));
}

#[test]
fn mixed_inserts_and_deletes_keep_invariants() {
    let mut t = RBTree::new();
    let mut x: u64 = 7;
    let mut present = std::collections::BTreeSet::new();
    for _ in 0..400 {
        x = x.wrapping_mul(6364136223846793005).wrapping_add(1442695040888963407);
        let k = (x >> 33) % 97;
        if (x >> 20) % 3 == 0 {
            assert_eq!(t.delete(k), present.remove(&k));
        } else {
            assert_eq!(t.insert(k), present.insert(k));
        }
        check_colors(&t);
        assert_eq!(t.count(), present.len());
        assert!(height_bound_holds(t.height(), t.count()));
    }
    assert_eq!(t.inorder(), present.iter().copied().collect::<Vec<u64>>());
}

#[test]
fn node_new_and_height() {
    let n = Node::new(9);
    assert_eq!(n.key, 9);
    assert_eq!(n.color, Color::Red);
    assert_eq!(n.height(), 1);
}

#[test]
fn red_black_root_operations() {
    let mut t = RedBlackTreeRoot::new();
    assert!(t.is_empty());
    for k in [10u64, 5, 20, 1, 6, 15, 25] {
        t.insert(k);
    }
    assert!(!t.is_empty());
    assert_eq!(t.count_leaves(), 4);
    assert_eq!(t.height(), 3);
    let rows = t.print_custom_format();
    assert_eq!(rows[0], (10, Color::Black, 0));
    t.delete(10);
    t.delete(5);
    t.delete(20);
    assert_eq!(t.print_custom_format().len(), 4);
}
