//! Ordered key indexes over `u64` keys: a red-black tree and an AVL tree,
//! each with contracts stated over the set of stored keys.
use vstd::prelude::*;

pub mod avl;
pub mod avltree;
pub mod laws;
pub mod rbtree;
pub mod redblack;

pub use avl::{AVLNode, AvlTree, Side};
pub use avltree::AVLTree;
pub use rbtree::{Color, Node, RBTree};
pub use redblack::RedBlackTreeRoot;

verus! {

} // verus!
