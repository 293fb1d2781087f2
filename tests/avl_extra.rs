use balanced_trees::{AVLNode, AVLTree, AvlTree, Side};

#[test]
fn duplicate_insert_keeps_count() {
    let mut x = AvlTree::new();
    assert!(x.insert(4));
    assert!(!x.insert(4));
    assert_eq!(x.count(), 1);
    assert!(x.delete(4));
    assert!(!x.delete(4));
    assert_eq!(x.count(), 0);
    assert!(x.is_empty());
}

#[test]
fn avl_traversals_and_shape_data() {
    let mut x = AvlTree::new();
    for k in [2u64, 1, 3] {
        x.insert(k);
    }
    assert_eq!(x.inorder(), vec![1, 2, 3]);
    assert_eq!(x.preorder(), vec![2, 1, 3]);
    assert_eq!(x.levelorder(), vec![2, 1, 3]);
    assert_eq!(x.leaves(), 2);
    assert_eq!(x.edges(), vec![(2, 1, Side::Left), (2, 3, Side::Right)]);
    assert_eq!(x.sideways_rows(), vec![(3, 1), (2, 0), (1, 1)]);
    assert_eq!(x.key_at(&vec![Side::Left, Side::Left]), None);
    assert_eq!(x.height_at(&vec![Side::Right]), 1);
    assert_eq!(x.min(), Some(1));
    assert_eq!(x.max(), Some(3));
}

#[test]
fn avl_increasing_run_is_balanced() {
    let mut x = AvlTree::new();
    for k in 1u64..=100 {
        x.insert(k);
    }
    assert_eq!(x.count(), 100);
    assert_eq!(x.height(), 7);
    assert_eq!(x.inorder(), (1u64..=100).collect::<Vec<u64>>());
}

#[test]
fn avl_front_end_names() {
    let mut t = AVLTree::new();
    assert!(t.is_empty());
    assert!(t.check_empty());
    t.insert(5);
    t.Insert(3);
    t.Insert(8);
    assert_eq!(t.count(), 3);
    assert!(t.search(3));
    assert!(!t.search(4));
    assert_eq!(t.inorder_traversal(), vec![3, 5, 8]);
    assert_eq!(t.print_in_order(), vec![3, 5, 8]);
    assert_eq!(t.print_preorder(), vec![5, 3, 8]);
    assert_eq!(t.print_levelorder(), vec![5, 3, 8]);
    assert_eq!(t.count_leaves(), 2);
    assert_eq!(t.height(), 2);
    assert_eq!(t.tree_height(), 2);
    assert_eq!(t.print_tree(), vec![(8, 1), (5, 0), (3, 1)]);
    assert_eq!(t.to_dot(), vec![(5, 3, Side::Left), (5, 8, Side::Right)]);
    t.delete(3);
    t.Delete(8);
    assert_eq!(t.inorder_traversal(), vec![5]);
}

#[test]
fn avl_node_new_and_update_height() {
    let mut n = AVLNode::new(4);
    assert_eq!(n.height, 1);
    n.left = Some(Box::new(AVLNode::new(2)));
    n.update_height();
    assert_eq!(n.height, 2);
}
