//! Laws of the red-black and AVL indexes, stated over the views and spec
//! functions that the operations' own contracts use.
use vstd::arithmetic::power2::{
    lemma_pow2_adds, lemma_pow2_pos, lemma_pow2_strictly_increases, lemma_pow2_unfold, pow2,
};
use vstd::prelude::*;

use crate::avl::{self, balanced, AvlTree};
use crate::rbtree::{
    black_balanced, black_height, colored, height, inorder, is_red, lemma_inorder_ascending,
    no_red_red, size, strictly_ascending, Color, RBTree,
};

verus! {

/// Every well-formed tree, and so every tree that a sequence of insertions
/// and deletions produces, lists its keys in strictly ascending symmetric
/// order, one entry per key.
pub proof fn law_inorder_ascending(t: RBTree)
    requires
        t.wf(),
    ensures
        strictly_ascending(inorder(t.root_link())),
        inorder(t.root_link()).len() == t@.len(),
{
    t.lemma_wf();
    lemma_inorder_ascending(t.root_link());
}

/// Inserting the same key twice in a row changes the set once: the count
/// grows by one when the key was new and not at all when it was present, and
/// the key is found after each insertion.
pub proof fn law_insert_twice(s: Set<u64>, k: u64)
    requires
        s.finite(),
    ensures
        s.insert(k).insert(k) == s.insert(k),
        s.insert(k).contains(k),
        !s.contains(k) ==> s.insert(k).insert(k).len() == s.len() + 1,
        s.contains(k) ==> s.insert(k).insert(k).len() == s.len(),
{
    assert(s.insert(k).insert(k) =~= s.insert(k));
    if s.contains(k) {
        assert(s.insert(k) =~= s);
    }
}

/// The coloring discipline holds in every well-formed tree: the root is not
/// red, no red node has a red child, and all paths from a node down to an
/// empty position meet the same number of black nodes.
pub proof fn law_color_invariants(t: RBTree)
    requires
        t.wf(),
    ensures
        !is_red(t.root_link()),
        no_red_red(t.root_link()),
        black_balanced(t.root_link()),
{
    t.lemma_wf();
}

proof fn lemma_size_black_height(t: Option<Box<crate::rbtree::Node>>)
    requires
        colored(t),
    ensures
        pow2(black_height(t)) <= size(t) + 1,
    decreases t,
{
    match t {
        None => {
            lemma_pow2_pos(0);
            assert(pow2(0) == 1) by {
                vstd::arithmetic::power2::lemma2_to64();
            }
        },
        Some(n) => {
            assert(colored(n.left) && colored(n.right));
            lemma_size_black_height(n.left);
            lemma_size_black_height(n.right);
            let b = black_height(n.left);
            if n.color == Color::Black {
                lemma_pow2_unfold(b + 1);
            } else {
                lemma_pow2_pos(b);
            }
        },
    }
}

proof fn lemma_height_black_height(t: Option<Box<crate::rbtree::Node>>)
    requires
        colored(t),
    ensures
        height(t) <= 2 * black_height(t) + if is_red(t) {
            1int
        } else {
            0int
        },
    decreases t,
{
    if let Some(n) = t {
        assert(colored(n.left) && colored(n.right));
        lemma_height_black_height(n.left);
        lemma_height_black_height(n.right);
    }
}

/// The red-black height bound: a tree of `n` keys has a height `h` with
/// `2^h <= (n + 1)^2`, that is `h <= 2 * log2(n + 1)`.
pub proof fn law_height_bound(t: RBTree)
    requires
        t.wf(),
    ensures
        pow2(height(t.root_link())) <= (t@.len() + 1) * (t@.len() + 1),
{
    t.lemma_wf();
    let r = t.root_link();
    let b = black_height(r);
    let h = height(r);
    lemma_size_black_height(r);
    lemma_height_black_height(r);
    lemma_pow2_adds(b, b);
    if h < 2 * b {
        lemma_pow2_strictly_increases(h, 2 * b);
    }
    let n = size(r) + 1;
    assert(pow2(b) * pow2(b) <= n * n) by (nonlinear_arith)
        requires
            pow2(b) <= n,
    ;
}

/// Inserting a key makes it present; deleting it then makes it absent and
/// brings the count back down by exactly one.
pub proof fn law_insert_delete_round_trip(s: Set<u64>, k: u64)
    requires
        s.finite(),
    ensures
        s.insert(k).contains(k),
        !s.insert(k).remove(k).contains(k),
        s.insert(k).remove(k).len() + 1 == s.insert(k).len(),
        !s.contains(k) ==> s.insert(k).remove(k) == s,
{
    assert(s.insert(k).contains(k));
    if !s.contains(k) {
        assert(s.insert(k).remove(k) =~= s);
    }
}

/// A tree is empty exactly when its count is zero, and exactly then it has
/// no smallest and no largest key.
pub proof fn law_empty_iff_count_zero(s: Set<u64>)
    requires
        s.finite(),
    ensures
        (s.len() == 0) == (s == Set::<u64>::empty()),
{
    if s.len() == 0 {
        vstd::set_lib::lemma_set_empty_equivalency_len(s);
    }
}

proof fn lemma_avl_size_height(t: Option<Box<avl::AVLNode>>)
    requires
        balanced(t),
    ensures
        pow2(avl::height(t) / 2) <= avl::size(t) + 1,
    decreases t,
{
    lemma_pow2_pos(0);
    assert(pow2(0) == 1) by {
        vstd::arithmetic::power2::lemma2_to64();
    }
    if let Some(n) = t {
        lemma_avl_size_height(n.left);
        lemma_avl_size_height(n.right);
        let h = avl::height(t);
        if h >= 2 {
            let k = ((h - 2) / 2) as nat;
            assert(h / 2 == k + 1);
            let hl = avl::height(n.left);
            let hr = avl::height(n.right);
            assert(hl >= h - 2 && hr >= h - 2);
            assert(hl / 2 >= k && hr / 2 >= k);
            if hl / 2 > k {
                lemma_pow2_strictly_increases(k, hl / 2);
            }
            if hr / 2 > k {
                lemma_pow2_strictly_increases(k, hr / 2);
            }
            lemma_pow2_unfold(k + 1);
        }
    }
}

/// The AVL height bound: a tree of `n` keys has a height `h` with
/// `2^h <= 2 * (n + 1)^2`, that is `h <= 2 * log2(n + 1) + 1`.
pub proof fn law_avl_height_bound(t: AvlTree)
    requires
        t.wf(),
    ensures
        pow2(avl::height(t.root_link())) <= 2 * (t@.len() + 1) * (t@.len() + 1),
{
    t.lemma_wf();
    let r = t.root_link();
    let h = avl::height(r);
    let b = h / 2;
    lemma_avl_size_height(r);
    lemma_pow2_adds(b, b);
    let n = avl::size(r) + 1;
    assert(pow2(b) * pow2(b) <= n * n) by (nonlinear_arith)
        requires
            pow2(b) <= n,
    ;
    let m = pow2(b) * pow2(b);
    if h == 2 * b {
        assert(pow2(h) == m);
    } else {
        assert(h == 2 * b + 1);
        lemma_pow2_unfold(h);
        assert(((h - 1) as nat) == 2 * b);
        assert(pow2(h) == 2 * m);
    }
    assert(2 * m <= 2 * n * n) by (nonlinear_arith)
        requires
            m <= n * n,
    ;
}

} // verus!
