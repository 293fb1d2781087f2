//! `RedBlackTreeRoot`: the red-black index under the method names of its
//! demonstration program.
use vstd::prelude::*;

use crate::rbtree::{diagram, height, leaf_count, rows_view, Color, RBTree};

verus! {

/// An ordered index of distinct `u64` keys, kept as a red-black tree.
pub struct RedBlackTreeRoot {
    tree: RBTree,
}

impl View for RedBlackTreeRoot {
    type V = Set<u64>;

    closed spec fn view(&self) -> Set<u64> {
        self.tree@
    }
}

impl RedBlackTreeRoot {
    pub closed spec fn wf(self) -> bool {
        self.tree.wf()
    }

    /// The underlying red-black tree, for reasoning about its shape.
    pub closed spec fn inner(self) -> RBTree {
        self.tree
    }

    /// An empty tree.
    pub fn new() -> (r: Self)
        ensures
            r.wf(),
            r@ == Set::<u64>::empty(),
    {
        RedBlackTreeRoot { tree: RBTree::new() }
    }

    /// Adds `key`; a key already present leaves the tree unchanged.
    pub fn insert(&mut self, key: u64)
        requires
            old(self).wf(),
            old(self)@.len() < usize::MAX,
        ensures
            final(self).wf(),
            final(self)@ == old(self)@.insert(key),
    {
        self.tree.insert(key);
    }

    /// Removes `key`; an absent key leaves the tree unchanged.
    pub fn delete(&mut self, key: u64)
        requires
            old(self).wf(),
        ensures
            final(self).wf(),
            final(self)@ == old(self)@.remove(key),
    {
        self.tree.delete(key);
    }

    /// Whether no key is stored.
    pub fn is_empty(&self) -> (r: bool)
        requires
            self.wf(),
        ensures
            r == (self@ == Set::<u64>::empty()),
    {
        self.tree.is_empty()
    }

    /// Number of nodes without children.
    pub fn count_leaves(&self) -> (r: usize)
        requires
            self.wf(),
        ensures
            r == leaf_count(self.inner().root_link()),
    {
        self.tree.leaves()
    }

    /// The height of the tree.
    pub fn height(&self) -> (r: usize)
        requires
            self.wf(),
        ensures
            r == height(self.inner().root_link()),
    {
        self.tree.height()
    }

    /// The rows of a tree diagram in prefix order, each node's key, color and
    /// depth.
    pub fn print_custom_format(&self) -> (r: Vec<(u64, Color, usize)>)
        requires
            self.wf(),
        ensures
            rows_view(r@) == diagram(self.inner().root_link(), 0),
    {
        self.tree.print_tree()
    }
}

} // verus!
