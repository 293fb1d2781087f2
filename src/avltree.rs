//! `AVLTree`: the AVL index under the method names of its command-line
//! front end, with each drawing handed out as data.
use vstd::prelude::*;

use crate::avl::{
    edges, height, inorder, leaf_count, levelorder, preorder, rows_view, sideways,
    strictly_ascending, AvlTree, Side,
};

verus! {

/// An ordered index of distinct `u64` keys, kept as an AVL tree.
pub struct AVLTree {
    tree: AvlTree,
}

impl View for AVLTree {
    type V = Set<u64>;

    closed spec fn view(&self) -> Set<u64> {
        self.tree@
    }
}

impl AVLTree {
    pub closed spec fn wf(self) -> bool {
        self.tree.wf()
    }

    /// The underlying AVL tree, for reasoning about its shape.
    pub closed spec fn inner(self) -> AvlTree {
        self.tree
    }

    /// An empty tree.
    pub fn new() -> (r: Self)
        ensures
            r.wf(),
            r@ == Set::<u64>::empty(),
    {
        AVLTree { tree: AvlTree::new() }
    }

    /// Whether no key is stored.
    pub fn is_empty(&self) -> (r: bool)
        requires
            self.wf(),
        ensures
            r == (self@ == Set::<u64>::empty()),
    {
        self.tree.is_empty()
    }

    /// Whether no key is stored (the same question as `is_empty`).
    pub fn check_empty(&self) -> (r: bool)
        requires
            self.wf(),
        ensures
            r == (self@ == Set::<u64>::empty()),
    {
        self.tree.is_empty()
    }

    /// Number of stored keys.
    pub fn count(&self) -> (r: usize)
        requires
            self.wf(),
        ensures
            r == self@.len(),
    {
        self.tree.count()
    }

    /// Adds `key`; a key already present leaves the tree unchanged.
    pub fn insert(&mut self, key: u64)
        requires
            old(self).wf(),
            old(self)@.len() < usize::MAX,
        ensures
            final(self).wf(),
            final(self)@ == old(self)@.insert(key),
    {
        self.tree.insert(key);
    }

    /// Adds `key` (the same operation as `insert`).
    #[allow(non_snake_case)]
    pub fn Insert(&mut self, key: u64)
        requires
            old(self).wf(),
            old(self)@.len() < usize::MAX,
        ensures
            final(self).wf(),
            final(self)@ == old(self)@.insert(key),
    {
        self.tree.insert(key);
    }

    /// Removes `key`; an absent key leaves the tree unchanged.
    pub fn delete(&mut self, key: u64)
        requires
            old(self).wf(),
        ensures
            final(self).wf(),
            final(self)@ == old(self)@.remove(key),
    {
        self.tree.delete(key);
    }

    /// Removes `key` (the same operation as `delete`).
    #[allow(non_snake_case)]
    pub fn Delete(&mut self, key: u64)
        requires
            old(self).wf(),
        ensures
            final(self).wf(),
            final(self)@ == old(self)@.remove(key),
    {
        self.tree.delete(key);
    }

    /// Whether `key` is stored.
    pub fn search(&self, key: u64) -> (r: bool)
        requires
            self.wf(),
        ensures
            r == self@.contains(key),
    {
        self.tree.search(key).is_some()
    }

    /// Number of nodes without children.
    pub fn count_leaves(&self) -> (r: usize)
        requires
            self.wf(),
        ensures
            r == leaf_count(self.inner().root_link()),
    {
        self.tree.leaves()
    }

    /// The height of the tree.
    pub fn height(&self) -> (r: usize)
        requires
            self.wf(),
        ensures
            r == height(self.inner().root_link()),
    {
        self.tree.height()
    }

    /// The height of the tree (the same value as `height`).
    pub fn tree_height(&self) -> (r: usize)
        requires
            self.wf(),
        ensures
            r == height(self.inner().root_link()),
    {
        self.tree.height()
    }

    /// The keys in ascending order.
    pub fn inorder_traversal(&self) -> (r: Vec<u64>)
        requires
            self.wf(),
        ensures
            r@ == inorder(self.inner().root_link()),
            strictly_ascending(r@),
            forall|k: u64| r@.contains(k) <==> self@.contains(k),
    {
        self.tree.inorder()
    }

    /// The keys in ascending order, for printing (the same sequence as
    /// `inorder_traversal`).
    pub fn print_in_order(&self) -> (r: Vec<u64>)
        requires
            self.wf(),
        ensures
            r@ == inorder(self.inner().root_link()),
            strictly_ascending(r@),
    {
        self.tree.inorder()
    }

    /// The keys in prefix order, for printing.
    pub fn print_preorder(&self) -> (r: Vec<u64>)
        requires
            self.wf(),
        ensures
            r@ == preorder(self.inner().root_link()),
    {
        self.tree.preorder()
    }

    /// The keys level by level, for printing.
    pub fn print_levelorder(&self) -> (r: Vec<u64>)
        requires
            self.wf(),
        ensures
            r@ == levelorder(self.inner().root_link()),
    {
        self.tree.levelorder()
    }

    /// The rows of a sideways drawing, right subtree first, each key with its
    /// depth: the caller indents each row by its depth.
    pub fn print_tree(&self) -> (r: Vec<(u64, usize)>)
        requires
            self.wf(),
        ensures
            rows_view(r@) == sideways(self.inner().root_link(), 0),
    {
        self.tree.sideways_rows()
    }

    /// The labelled parent-to-child links of a DOT drawing, in prefix order.
    pub fn to_dot(&self) -> (r: Vec<(u64, u64, Side)>)
        requires
            self.wf(),
        ensures
            r@ == edges(self.inner().root_link()),
    {
        self.tree.edges()
    }
}

} // verus!
