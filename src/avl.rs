//! An AVL tree over `u64` keys. Each node stores the height of its subtree;
//! after every insertion or removal below a node, the node's height is
//! recomputed and a subtree whose sides differ in height by more than one is
//! rotated back into balance.
use vstd::prelude::*;

verus! {

/// A node of the AVL tree: its key, the height of its subtree, and the two
/// subtrees it owns.
pub struct AVLNode {
    pub key: u64,
    pub height: usize,
    pub left: Option<Box<AVLNode>>,
    pub right: Option<Box<AVLNode>>,
}

/// A step from a node to one of its children.
#[derive(PartialEq, Eq, Structural, Clone, Copy, Debug)]
pub enum Side {
    Left,
    Right,
}

/// The keys stored in a subtree.
pub open spec fn keys(t: Option<Box<AVLNode>>) -> Set<u64>
    decreases t,
{
    match t {
        None => Set::empty(),
        Some(n) => keys(n.left).union(keys(n.right)).insert(n.key),
    }
}

/// Binary-search-tree order.
pub open spec fn ordered(t: Option<Box<AVLNode>>) -> bool
    decreases t,
{
    match t {
        None => true,
        Some(n) => {
            &&& ordered(n.left)
            &&& ordered(n.right)
            &&& forall|k: u64| keys(n.left).contains(k) ==> k < n.key
            &&& forall|k: u64| keys(n.right).contains(k) ==> n.key < k
        },
    }
}

pub open spec fn size(t: Option<Box<AVLNode>>) -> nat
    decreases t,
{
    match t {
        None => 0,
        Some(n) => size(n.left) + size(n.right) + 1,
    }
}

pub open spec fn max_nat(a: nat, b: nat) -> nat {
    if a >= b {
        a
    } else {
        b
    }
}

/// Number of nodes on the longest path from the root to an empty position.
pub open spec fn height(t: Option<Box<AVLNode>>) -> nat
    decreases t,
{
    match t {
        None => 0,
        Some(n) => 1 + max_nat(height(n.left), height(n.right)),
    }
}

/// Every node stores the height of its own subtree.
pub open spec fn heights_ok(t: Option<Box<AVLNode>>) -> bool
    decreases t,
{
    match t {
        None => true,
        Some(n) => {
            &&& heights_ok(n.left)
            &&& heights_ok(n.right)
            &&& n.height == height(t)
        },
    }
}

/// The AVL balance condition: at every node the heights of the two subtrees
/// differ by at most one.
pub open spec fn balanced(t: Option<Box<AVLNode>>) -> bool
    decreases t,
{
    match t {
        None => true,
        Some(n) => {
            &&& balanced(n.left)
            &&& balanced(n.right)
            &&& height(n.left) <= height(n.right) + 1
            &&& height(n.right) <= height(n.left) + 1
        },
    }
}

pub open spec fn leaf_count(t: Option<Box<AVLNode>>) -> nat
    decreases t,
{
    match t {
        None => 0,
        Some(n) => if n.left is None && n.right is None {
            1
        } else {
            leaf_count(n.left) + leaf_count(n.right)
        },
    }
}

pub open spec fn inorder(t: Option<Box<AVLNode>>) -> Seq<u64>
    decreases t,
{
    match t {
        None => Seq::empty(),
        Some(n) => inorder(n.left).push(n.key) + inorder(n.right),
    }
}

pub open spec fn preorder(t: Option<Box<AVLNode>>) -> Seq<u64>
    decreases t,
{
    match t {
        None => Seq::empty(),
        Some(n) => seq![n.key] + preorder(n.left) + preorder(n.right),
    }
}

/// Keys at depth `d`, from left to right.
pub open spec fn level(t: Option<Box<AVLNode>>, d: nat) -> Seq<u64>
    decreases t,
{
    match t {
        None => Seq::empty(),
        Some(n) => if d == 0 {
            seq![n.key]
        } else {
            level(n.left, (d - 1) as nat) + level(n.right, (d - 1) as nat)
        },
    }
}

pub open spec fn levels_upto(t: Option<Box<AVLNode>>, h: nat) -> Seq<u64>
    decreases h,
{
    if h == 0 {
        Seq::empty()
    } else {
        levels_upto(t, (h - 1) as nat) + level(t, (h - 1) as nat)
    }
}

/// Keys in breadth-first order.
pub open spec fn levelorder(t: Option<Box<AVLNode>>) -> Seq<u64> {
    levels_upto(t, height(t))
}

/// The subtree reached from `t` by following `path`, if every step exists.
pub open spec fn subtree_at(t: Option<Box<AVLNode>>, path: Seq<Side>) -> Option<Box<AVLNode>>
    decreases path.len(),
{
    if path.len() == 0 {
        t
    } else {
        match t {
            None => None,
            Some(n) => subtree_at(
                if path[0] == Side::Left {
                    n.left
                } else {
                    n.right
                },
                path.drop_first(),
            ),
        }
    }
}

pub open spec fn is_least(s: Set<u64>, k: u64) -> bool {
    s.contains(k) && forall|j: u64| s.contains(j) ==> k <= j
}

pub open spec fn is_greatest(s: Set<u64>, k: u64) -> bool {
    s.contains(k) && forall|j: u64| s.contains(j) ==> j <= k
}

pub open spec fn strictly_ascending(s: Seq<u64>) -> bool {
    forall|i: int, j: int| 0 <= i < j < s.len() ==> s[i] < s[j]
}

pub proof fn lemma_size_is_key_count(t: Option<Box<AVLNode>>)
    requires
        ordered(t),
    ensures
        keys(t).finite(),
        keys(t).len() == size(t),
    decreases t,
{
    if let Some(n) = t {
        lemma_size_is_key_count(n.left);
        lemma_size_is_key_count(n.right);
        assert(keys(n.left).disjoint(keys(n.right))) by {
            assert forall|k: u64| keys(n.left).contains(k) implies !keys(n.right).contains(k) by {}
        }
        vstd::set_lib::lemma_set_disjoint_lens(keys(n.left), keys(n.right));
        assert(!keys(n.left).union(keys(n.right)).contains(n.key));
    }
}

pub proof fn lemma_height_le_size(t: Option<Box<AVLNode>>)
    ensures
        height(t) <= size(t),
        leaf_count(t) <= size(t),
    decreases t,
{
    if let Some(n) = t {
        lemma_height_le_size(n.left);
        lemma_height_le_size(n.right);
    }
}

pub proof fn lemma_inorder_keys(t: Option<Box<AVLNode>>)
    ensures
        forall|k: u64| inorder(t).contains(k) <==> keys(t).contains(k),
    decreases t,
{
    if let Some(n) = t {
        lemma_inorder_keys(n.left);
        lemma_inorder_keys(n.right);
        let l = inorder(n.left);
        let r = inorder(n.right);
        assert forall|k: u64| inorder(t).contains(k) <==> keys(t).contains(k) by {
            let s = l.push(n.key) + r;
            if s.contains(k) {
                let i = choose|i: int| 0 <= i < s.len() && s[i] == k;
                if i < l.len() {
                    assert(l.contains(k));
                } else if i > l.len() {
                    assert(r[i - l.len() - 1] == k);
                    assert(r.contains(k));
                }
            }
            if keys(n.left).contains(k) {
                let i = choose|i: int| 0 <= i < l.len() && l[i] == k;
                assert(s[i] == k);
            }
            if keys(n.right).contains(k) {
                let i = choose|i: int| 0 <= i < r.len() && r[i] == k;
                assert(s[l.len() + 1 + i] == k);
            }
            if k == n.key {
                assert(s[l.len() as int] == k);
            }
        }
    }
}

pub proof fn lemma_inorder_ascending(t: Option<Box<AVLNode>>)
    requires
        ordered(t),
    ensures
        strictly_ascending(inorder(t)),
        inorder(t).len() == size(t),
    decreases t,
{
    if let Some(n) = t {
        lemma_inorder_ascending(n.left);
        lemma_inorder_ascending(n.right);
        lemma_inorder_keys(n.left);
        lemma_inorder_keys(n.right);
        let l = inorder(n.left);
        let r = inorder(n.right);
        let s = l.push(n.key) + r;
        assert forall|i: int, j: int| 0 <= i < j < s.len() implies s[i] < s[j] by {
            if i < l.len() {
                assert(l.contains(l[i]));
            }
            if j > l.len() {
                assert(r.contains(r[j - l.len() - 1]));
            }
        }
    }
}

impl AVLNode {
    /// A leaf holding `key`, of height one.
    pub fn new(key: u64) -> (r: Self)
        ensures
            r.key == key,
            r.height == 1,
            r.left is None,
            r.right is None,
    {
        AVLNode { key, height: 1, left: None, right: None }
    }

    /// Recomputes the stored height from the children's stored heights.
    pub fn update_height(&mut self)
        requires
            heights_ok(old(self).left),
            heights_ok(old(self).right),
            size(old(self).left) + size(old(self).right) < usize::MAX,
        ensures
            final(self).key == old(self).key,
            final(self).left == old(self).left,
            final(self).right == old(self).right,
            final(self).height == 1 + max_nat(height(old(self).left), height(old(self).right)),
    {
        proof {
            lemma_height_le_size(self.left);
            lemma_height_le_size(self.right);
        }
        let hl = node_height(&self.left);
        let hr = node_height(&self.right);
        self.height = if hl >= hr {
            1 + hl
        } else {
            1 + hr
        };
    }
}

/// The stored height of a subtree, zero for an empty one.
fn node_height(t: &Option<Box<AVLNode>>) -> (r: usize)
    requires
        heights_ok(*t),
    ensures
        r == height(*t),
{
    match t {
        None => 0,
        Some(n) => n.height,
    }
}

/// The invariant that the rebalancing steps keep for a subtree.
pub open spec fn avl_ok(t: Option<Box<AVLNode>>) -> bool {
    ordered(t) && heights_ok(t) && size(t) <= usize::MAX
}

proof fn lemma_children(n: Box<AVLNode>)
    ensures
        keys(Some(n)) == keys(n.left).union(keys(n.right)).insert(n.key),
        size(Some(n)) == size(n.left) + size(n.right) + 1,
        ordered(Some(n)) ==> ordered(n.left) && ordered(n.right),
        heights_ok(Some(n)) ==> heights_ok(n.left) && heights_ok(n.right),
{
}

/// Right rotation: the left child takes the node's place; both heights are
/// recomputed.
fn rotate_right(mut x: Box<AVLNode>) -> (r: Box<AVLNode>)
    requires
        x.left is Some,
        heights_ok(x.left),
        heights_ok(x.right),
        size(Some(x)) <= usize::MAX,
    ensures
        heights_ok(Some(r)),
        keys(Some(r)) == keys(Some(x)),
        size(Some(r)) == size(Some(x)),
        ordered(Some(x)) ==> ordered(Some(r)),
        r.left == x.left.unwrap().left,
        r.right is Some,
        r.right.unwrap().left == x.left.unwrap().right,
        r.right.unwrap().right == x.right,
{
    let ghost gx = x;
    let mut y = x.left.take().unwrap();
    let ghost gy = y;
    proof {
        lemma_children(gx);
        lemma_children(gy);
    }
    x.left = y.right.take();
    (&mut *x).update_height();
    y.right = Some(x);
    proof {
        lemma_children(x);
    }
    (&mut *y).update_height();
    proof {
        let a = gy.left;
        let b = gy.right;
        let xr = gx.right;
        let nx = y.right;
        assert(keys(nx) == keys(b).union(keys(xr)).insert(gx.key));
        assert(keys(Some(y)) == keys(a).union(keys(nx)).insert(gy.key));
        assert(keys(Some(y)) =~= keys(Some(gx)));
        assert(size(nx) == size(b) + size(xr) + 1);
        assert(size(Some(y)) == size(a) + size(nx) + 1);
        assert(heights_ok(nx));
        if ordered(Some(gx)) {
            assert(ordered(Some(gy)));
            assert(keys(Some(gy)).contains(gy.key));
            assert(gy.key < gx.key);
            assert forall|k: u64| keys(b).contains(k) implies k < gx.key by {
                assert(keys(Some(gy)).contains(k));
            }
            assert(ordered(nx));
            assert forall|k: u64| keys(nx).contains(k) implies gy.key < k by {
                if keys(xr).contains(k) {
                    assert(gx.key < k);
                }
            }
        }
    }
    y
}

/// Left rotation, the mirror of `rotate_right`.
fn rotate_left(mut x: Box<AVLNode>) -> (r: Box<AVLNode>)
    requires
        x.right is Some,
        heights_ok(x.left),
        heights_ok(x.right),
        size(Some(x)) <= usize::MAX,
    ensures
        heights_ok(Some(r)),
        keys(Some(r)) == keys(Some(x)),
        size(Some(r)) == size(Some(x)),
        ordered(Some(x)) ==> ordered(Some(r)),
        r.right == x.right.unwrap().right,
        r.left is Some,
        r.left.unwrap().right == x.right.unwrap().left,
        r.left.unwrap().left == x.left,
{
    let ghost gx = x;
    let mut y = x.right.take().unwrap();
    let ghost gy = y;
    proof {
        lemma_children(gx);
        lemma_children(gy);
    }
    x.right = y.left.take();
    (&mut *x).update_height();
    y.left = Some(x);
    proof {
        lemma_children(x);
    }
    (&mut *y).update_height();
    proof {
        let c = gy.right;
        let b = gy.left;
        let xl = gx.left;
        let nx = y.left;
        assert(keys(nx) == keys(xl).union(keys(b)).insert(gx.key));
        assert(keys(Some(y)) == keys(nx).union(keys(c)).insert(gy.key));
        assert(keys(Some(y)) =~= keys(Some(gx)));
        assert(size(nx) == size(xl) + size(b) + 1);
        assert(size(Some(y)) == size(nx) + size(c) + 1);
        assert(heights_ok(nx));
        if ordered(Some(gx)) {
            assert(ordered(Some(gy)));
            assert(keys(Some(gy)).contains(gy.key));
            assert(gx.key < gy.key);
            assert forall|k: u64| keys(b).contains(k) implies gx.key < k by {
                assert(keys(Some(gy)).contains(k));
            }
            assert(ordered(nx));
            assert forall|k: u64| keys(nx).contains(k) implies k < gy.key by {
                if keys(xl).contains(k) {
                    assert(k < gx.key);
                }
            }
        }
    }
    y
}

/// Left-right double rotation: a left rotation at the left child, then a
/// right rotation at the node.
fn rotate_lr(mut x: Box<AVLNode>) -> (r: Box<AVLNode>)
    requires
        x.left is Some,
        x.left.unwrap().right is Some,
        heights_ok(x.left),
        heights_ok(x.right),
        size(Some(x)) <= usize::MAX,
    ensures
        heights_ok(Some(r)),
        keys(Some(r)) == keys(Some(x)),
        size(Some(r)) == size(Some(x)),
        ordered(Some(x)) ==> ordered(Some(r)),
        ({
            let l = x.left.unwrap();
            let c = l.right.unwrap();
            &&& r.left is Some
            &&& r.left.unwrap().left == l.left
            &&& r.left.unwrap().right == c.left
            &&& r.right is Some
            &&& r.right.unwrap().left == c.right
            &&& r.right.unwrap().right == x.right
        }),
{
    let ghost gx = x;
    let l = x.left.take().unwrap();
    proof {
        lemma_children(gx);
        lemma_children(l);
    }
    x.left = Some(rotate_left(l));
    proof {
        assert(keys(Some(x)) =~= keys(Some(gx)));
        assert(size(Some(x)) == size(Some(gx)));
        if ordered(Some(gx)) {
            assert(ordered(Some(x)));
        }
    }
    rotate_right(x)
}

/// Right-left double rotation, the mirror of `rotate_lr`.
fn rotate_rl(mut x: Box<AVLNode>) -> (r: Box<AVLNode>)
    requires
        x.right is Some,
        x.right.unwrap().left is Some,
        heights_ok(x.left),
        heights_ok(x.right),
        size(Some(x)) <= usize::MAX,
    ensures
        heights_ok(Some(r)),
        keys(Some(r)) == keys(Some(x)),
        size(Some(r)) == size(Some(x)),
        ordered(Some(x)) ==> ordered(Some(r)),
        ({
            let rt = x.right.unwrap();
            let c = rt.left.unwrap();
            &&& r.right is Some
            &&& r.right.unwrap().right == rt.right
            &&& r.right.unwrap().left == c.right
            &&& r.left is Some
            &&& r.left.unwrap().right == c.left
            &&& r.left.unwrap().left == x.left
        }),
{
    let ghost gx = x;
    let rt = x.right.take().unwrap();
    proof {
        lemma_children(gx);
        lemma_children(rt);
    }
    x.right = Some(rotate_right(rt));
    proof {
        assert(keys(Some(x)) =~= keys(Some(gx)));
        assert(size(Some(x)) == size(Some(gx)));
        if ordered(Some(gx)) {
            assert(ordered(Some(x)));
        }
    }
    rotate_left(x)
}

/// Restores balance at a node whose children are balanced AVL subtrees: a
/// side more than one level taller than the other is rotated down, by a
/// single rotation when its outer grandchild is at least as tall as the inner
/// one, else by a double rotation.
fn balance_tree(n: Box<AVLNode>) -> (r: Box<AVLNode>)
    requires
        avl_ok(Some(n)),
        balanced(n.left),
        balanced(n.right),
        height(n.left) <= height(n.right) + 2,
        height(n.right) <= height(n.left) + 2,
    ensures
        avl_ok(Some(r)),
        keys(Some(r)) == keys(Some(n)),
        size(Some(r)) == size(Some(n)),
        balanced(Some(r)),
        ({
            let m = max_nat(height(n.left), height(n.right));
            &&& m <= height(Some(r)) <= m + 1
            &&& height(n.left) <= height(n.right) + 1 && height(n.right) <= height(n.left) + 1
                ==> height(Some(r)) == m + 1
        }),
{
    proof {
        lemma_children(n);
    }
    let ghost lt = n.left;
    let ghost rt0 = n.right;
    let hl = node_height(&n.left);
    let hr = node_height(&n.right);
    if hl > hr + 1 {
        let ghost ln = lt.unwrap();
        let (lh_outer, lh_inner) = match &n.left {
            Some(l) => {
                proof {
                    lemma_children(*l);
                }
                (node_height(&l.left), node_height(&l.right))
            },
            None => (0, 0),
        };
        proof {
            assert(balanced(ln.left) && balanced(ln.right));
            assert(height(lt) == 1 + max_nat(height(ln.left), height(ln.right)));
        }
        if lh_outer >= lh_inner {
            let r = rotate_right(n);
            proof {
                let x2 = r.right.unwrap();
                assert(height(r.right) == 1 + max_nat(height(x2.left), height(x2.right)));
                assert(balanced(r.right));
                assert(balanced(Some(r)));
            }
            r
        } else {
            let ghost c = ln.right.unwrap();
            proof {
                assert(height(ln.right) == 1 + max_nat(height(c.left), height(c.right)));
                assert(balanced(c.left) && balanced(c.right));
            }
            let r = rotate_lr(n);
            proof {
                let a = r.left.unwrap();
                let b = r.right.unwrap();
                assert(height(r.left) == 1 + max_nat(height(a.left), height(a.right)));
                assert(height(r.right) == 1 + max_nat(height(b.left), height(b.right)));
                assert(balanced(r.left));
                assert(balanced(r.right));
                assert(balanced(Some(r)));
            }
            r
        }
    } else if hr > hl + 1 {
        let ghost rn = rt0.unwrap();
        let (rh_inner, rh_outer) = match &n.right {
            Some(rt) => {
                proof {
                    lemma_children(*rt);
                }
                (node_height(&rt.left), node_height(&rt.right))
            },
            None => (0, 0),
        };
        proof {
            assert(balanced(rn.left) && balanced(rn.right));
            assert(height(rt0) == 1 + max_nat(height(rn.left), height(rn.right)));
        }
        if rh_inner <= rh_outer {
            let r = rotate_left(n);
            proof {
                let x2 = r.left.unwrap();
                assert(height(r.left) == 1 + max_nat(height(x2.left), height(x2.right)));
                assert(balanced(r.left));
                assert(balanced(Some(r)));
            }
            r
        } else {
            let ghost c = rn.left.unwrap();
            proof {
                assert(height(rn.left) == 1 + max_nat(height(c.left), height(c.right)));
                assert(balanced(c.left) && balanced(c.right));
            }
            let r = rotate_rl(n);
            proof {
                let a = r.left.unwrap();
                let b = r.right.unwrap();
                assert(height(r.left) == 1 + max_nat(height(a.left), height(a.right)));
                assert(height(r.right) == 1 + max_nat(height(b.left), height(b.right)));
                assert(balanced(r.left));
                assert(balanced(r.right));
                assert(balanced(Some(r)));
            }
            r
        }
    } else {
        proof {
            assert(balanced(Some(n)));
        }
        n
    }
}

/// Inserts `key` below `t` and rebalances each node on the way back up. A
/// key that is already present leaves the subtree as it is.
fn insert_link(t: Option<Box<AVLNode>>, key: u64) -> (r: Box<AVLNode>)
    requires
        avl_ok(t),
        balanced(t),
        size(t) < usize::MAX,
    ensures
        avl_ok(Some(r)),
        balanced(Some(r)),
        height(t) <= height(Some(r)) + 1,
        height(Some(r)) <= height(t) + 1,
        keys(Some(r)) == keys(t).insert(key),
        size(Some(r)) == size(t) + if keys(t).contains(key) {
            0nat
        } else {
            1nat
        },
    decreases t,
{
    match t {
        None => {
            let r = Box::new(AVLNode::new(key));
            proof {
                assert(keys(Some(r)) =~= keys(t).insert(key));
                assert(heights_ok(Some(r)));
                assert(ordered(Some(r)));
                assert(balanced(Some(r)));
            }
            r
        },
        Some(mut n) => {
            let ghost n0 = n;
            proof {
                lemma_children(n0);
                lemma_size_is_key_count(n0.left);
                lemma_size_is_key_count(n0.right);
                assert(balanced(n0.left) && balanced(n0.right));
            }
            if key == n.key {
                proof {
                    assert(keys(t).insert(key) =~= keys(t));
                }
                n
            } else if key < n.key {
                let l = n.left.take();
                let nl = insert_link(l, key);
                n.left = Some(nl);
                proof {
                    assert(!keys(n0.right).contains(key));
                    assert(keys(Some(n)) =~= keys(t).insert(key));
                }
                (&mut *n).update_height();
                proof {
                    assert(keys(Some(n)) =~= keys(t).insert(key));
                    assert(ordered(Some(n)));
                }
                balance_tree(n)
            } else {
                let rt = n.right.take();
                let nr = insert_link(rt, key);
                n.right = Some(nr);
                proof {
                    assert(!keys(n0.left).contains(key));
                }
                (&mut *n).update_height();
                proof {
                    assert(keys(Some(n)) =~= keys(t).insert(key));
                    assert(ordered(Some(n)));
                }
                balance_tree(n)
            }
        },
    }
}

/// The smallest key of a non-empty subtree.
fn find_min(t: &Box<AVLNode>) -> (r: u64)
    requires
        ordered(Some(*t)),
    ensures
        is_least(keys(Some(*t)), r),
    decreases *t,
{
    proof {
        lemma_children(*t);
    }
    match &t.left {
        None => {
            proof {
                assert forall|j: u64| keys(Some(*t)).contains(j) implies t.key <= j by {}
            }
            t.key
        },
        Some(l) => {
            let m = find_min(l);
            proof {
                assert forall|j: u64| keys(Some(*t)).contains(j) implies m <= j by {
                    if keys(t.right).contains(j) {
                        assert(keys(t.left).contains(m));
                    }
                }
            }
            m
        },
    }
}

/// The largest key of a non-empty subtree.
fn find_max(t: &Box<AVLNode>) -> (r: u64)
    requires
        ordered(Some(*t)),
    ensures
        is_greatest(keys(Some(*t)), r),
    decreases *t,
{
    proof {
        lemma_children(*t);
    }
    match &t.right {
        None => {
            proof {
                assert forall|j: u64| keys(Some(*t)).contains(j) implies j <= t.key by {}
            }
            t.key
        },
        Some(rt) => {
            let m = find_max(rt);
            proof {
                assert forall|j: u64| keys(Some(*t)).contains(j) implies j <= m by {
                    if keys(t.left).contains(j) {
                        assert(keys(t.right).contains(m));
                    }
                }
            }
            m
        },
    }
}

/// Removes `key` from below `t` and rebalances on the way back up. A node
/// with one empty side is replaced by its other side; a node with two
/// children takes the smallest key of its right subtree, which is then
/// removed from there.
fn delete_link(t: Option<Box<AVLNode>>, key: u64) -> (r: Option<Box<AVLNode>>)
    requires
        avl_ok(t),
        balanced(t),
    ensures
        avl_ok(r),
        balanced(r),
        height(t) <= height(r) + 1,
        height(r) <= height(t) + 1,
        keys(r) == keys(t).remove(key),
        size(r) + if keys(t).contains(key) {
            1nat
        } else {
            0nat
        } == size(t),
    decreases t,
{
    match t {
        None => {
            proof {
                assert(keys(t).remove(key) =~= keys(t));
            }
            None
        },
        Some(mut n) => {
            let ghost n0 = n;
            proof {
                lemma_children(n0);
                assert(balanced(n0.left) && balanced(n0.right));
                assert(height(t) == 1 + max_nat(height(n0.left), height(n0.right)));
            }
            if key < n.key {
                let l = n.left.take();
                let nl = delete_link(l, key);
                n.left = nl;
                proof {
                    assert(!keys(n0.right).contains(key));
                }
                (&mut *n).update_height();
                proof {
                    assert(keys(Some(n)) =~= keys(t).remove(key));
                    assert(ordered(Some(n)));
                }
                Some(balance_tree(n))
            } else if n.key < key {
                let rt = n.right.take();
                let nr = delete_link(rt, key);
                n.right = nr;
                proof {
                    assert(!keys(n0.left).contains(key));
                }
                (&mut *n).update_height();
                proof {
                    assert(keys(Some(n)) =~= keys(t).remove(key));
                    assert(ordered(Some(n)));
                }
                Some(balance_tree(n))
            } else if n.left.is_none() {
                proof {
                    assert(keys(n0.right) =~= keys(t).remove(key));
                }
                n.right
            } else if n.right.is_none() {
                proof {
                    assert(keys(n0.left) =~= keys(t).remove(key));
                }
                n.left
            } else {
                let m = match &n.right {
                    Some(rt) => find_min(rt),
                    None => n.key,
                };
                let rt = n.right.take();
                let nr = delete_link(rt, m);
                n.key = m;
                n.right = nr;
                proof {
                    assert(keys(n0.right).contains(m));
                    assert(keys(Some(n)) =~= keys(t).remove(key));
                }
                (&mut *n).update_height();
                proof {
                    assert(keys(Some(n)) =~= keys(t).remove(key));
                    assert(ordered(Some(n)));
                }
                Some(balance_tree(n))
            }
        },
    }
}

fn search_link(t: &Option<Box<AVLNode>>, key: u64) -> (r: bool)
    requires
        ordered(*t),
    ensures
        r == keys(*t).contains(key),
    decreases *t,
{
    match t {
        None => false,
        Some(n) => {
            proof {
                lemma_children(*n);
            }
            if key == n.key {
                true
            } else if key < n.key {
                search_link(&n.left, key)
            } else {
                search_link(&n.right, key)
            }
        },
    }
}

fn leaves_link(t: &Option<Box<AVLNode>>) -> (r: usize)
    requires
        size(*t) <= usize::MAX,
    ensures
        r == leaf_count(*t),
    decreases *t,
{
    proof {
        lemma_height_le_size(*t);
    }
    match t {
        None => 0,
        Some(n) => {
            if n.left.is_none() && n.right.is_none() {
                1
            } else {
                proof {
                    lemma_height_le_size(n.left);
                    lemma_height_le_size(n.right);
                }
                leaves_link(&n.left) + leaves_link(&n.right)
            }
        },
    }
}

fn inorder_into(t: &Option<Box<AVLNode>>, out: &mut Vec<u64>)
    ensures
        final(out)@ == old(out)@ + inorder(*t),
    decreases *t,
{
    match t {
        None => {
            assert(old(out)@ + inorder(*t) =~= old(out)@);
        },
        Some(n) => {
            inorder_into(&n.left, out);
            out.push(n.key);
            inorder_into(&n.right, out);
            assert(final(out)@ =~= old(out)@ + inorder(*t));
        },
    }
}

fn preorder_into(t: &Option<Box<AVLNode>>, out: &mut Vec<u64>)
    ensures
        final(out)@ == old(out)@ + preorder(*t),
    decreases *t,
{
    match t {
        None => {
            assert(old(out)@ + preorder(*t) =~= old(out)@);
        },
        Some(n) => {
            out.push(n.key);
            preorder_into(&n.left, out);
            preorder_into(&n.right, out);
            assert(final(out)@ =~= old(out)@ + preorder(*t));
        },
    }
}

fn level_into(t: &Option<Box<AVLNode>>, d: usize, out: &mut Vec<u64>)
    ensures
        final(out)@ == old(out)@ + level(*t, d as nat),
    decreases *t,
{
    match t {
        None => {
            assert(old(out)@ + level(*t, d as nat) =~= old(out)@);
        },
        Some(n) => {
            if d == 0 {
                out.push(n.key);
                assert(final(out)@ =~= old(out)@ + level(*t, d as nat));
            } else {
                level_into(&n.left, d - 1, out);
                level_into(&n.right, d - 1, out);
                assert(final(out)@ =~= old(out)@ + level(*t, d as nat));
            }
        },
    }
}

fn subtree_ref<'a>(t: &'a Option<Box<AVLNode>>, path: &Vec<Side>, i: usize) -> (r: &'a Option<
    Box<AVLNode>,
>)
    requires
        i <= path@.len(),
    ensures
        *r == subtree_at(*t, path@.subrange(i as int, path@.len() as int)),
    decreases path@.len() - i,
{
    let ghost rest = path@.subrange(i as int, path@.len() as int);
    if i == path.len() {
        t
    } else {
        match t {
            None => &None,
            Some(n) => {
                proof {
                    assert(rest.drop_first() =~= path@.subrange(i + 1, path@.len() as int));
                }
                if path[i] == Side::Left {
                    subtree_ref(&n.left, path, i + 1)
                } else {
                    subtree_ref(&n.right, path, i + 1)
                }
            },
        }
    }
}

/// An ordered index of distinct `u64` keys, kept as an AVL tree.
pub struct AvlTree {
    root: Option<Box<AVLNode>>,
    count: usize,
}

impl View for AvlTree {
    type V = Set<u64>;

    closed spec fn view(&self) -> Set<u64> {
        keys(self.root)
    }
}

impl AvlTree {
    /// Order, correct stored heights, the AVL balance condition, and the
    /// count of nodes kept beside them.
    pub closed spec fn wf(self) -> bool {
        &&& avl_ok(self.root)
        &&& balanced(self.root)
        &&& self.count == size(self.root)
    }

    /// The tree's root node, for reasoning about its shape.
    pub closed spec fn root_link(self) -> Option<Box<AVLNode>> {
        self.root
    }

    pub proof fn lemma_wf(self)
        requires
            self.wf(),
        ensures
            self@.finite(),
            ordered(self.root_link()),
            heights_ok(self.root_link()),
            balanced(self.root_link()),
            keys(self.root_link()) == self@,
            self@.len() == size(self.root_link()),
    {
        lemma_size_is_key_count(self.root);
    }

    /// An empty tree.
    pub fn new() -> (r: Self)
        ensures
            r.wf(),
            r@ == Set::<u64>::empty(),
    {
        AvlTree { root: None, count: 0 }
    }

    /// Number of stored keys.
    pub fn count(&self) -> (r: usize)
        requires
            self.wf(),
        ensures
            r == self@.len(),
    {
        proof {
            lemma_size_is_key_count(self.root);
        }
        self.count
    }

    /// Whether no key is stored.
    pub fn is_empty(&self) -> (r: bool)
        requires
            self.wf(),
        ensures
            r == (self@.len() == 0),
            r == (self@ == Set::<u64>::empty()),
    {
        proof {
            lemma_size_is_key_count(self.root);
            if self.root is Some {
                lemma_children(self.root.unwrap());
                assert(self@.contains(self.root.unwrap().key));
            }
        }
        self.root.is_none()
    }

    /// The height of the tree: nodes on its longest root-to-empty path.
    pub fn height(&self) -> (r: usize)
        requires
            self.wf(),
        ensures
            r == height(self.root_link()),
    {
        node_height(&self.root)
    }

    /// Number of nodes without children.
    pub fn leaves(&self) -> (r: usize)
        requires
            self.wf(),
        ensures
            r == leaf_count(self.root_link()),
    {
        leaves_link(&self.root)
    }

    /// Adds `key`; a key already present leaves the tree unchanged. Returns
    /// whether the key was added.
    pub fn insert(&mut self, key: u64) -> (r: bool)
        requires
            old(self).wf(),
            old(self)@.len() < usize::MAX,
        ensures
            final(self).wf(),
            r == !old(self)@.contains(key),
            final(self)@ == old(self)@.insert(key),
    {
        proof {
            lemma_size_is_key_count(self.root);
        }
        let present = search_link(&self.root, key);
        let root = self.root.take();
        self.root = Some(insert_link(root, key));
        if !present {
            self.count = self.count + 1;
        }
        !present
    }

    /// Removes `key`; an absent key leaves the tree unchanged. Returns whether
    /// the key was removed.
    pub fn delete(&mut self, key: u64) -> (r: bool)
        requires
            old(self).wf(),
        ensures
            final(self).wf(),
            r == old(self)@.contains(key),
            final(self)@ == old(self)@.remove(key),
    {
        let present = search_link(&self.root, key);
        let root = self.root.take();
        self.root = delete_link(root, key);
        if present {
            self.count = self.count - 1;
        }
        present
    }

    /// The stored key equal to `key`, or `None` when it is absent.
    pub fn search(&self, key: u64) -> (r: Option<u64>)
        requires
            self.wf(),
        ensures
            r == (if self@.contains(key) {
                Some(key)
            } else {
                None
            }),
    {
        if search_link(&self.root, key) {
            Some(key)
        } else {
            None
        }
    }

    /// The smallest stored key, or `None` on an empty tree.
    pub fn min(&self) -> (r: Option<u64>)
        requires
            self.wf(),
        ensures
            r is None <==> self@ == Set::<u64>::empty(),
            r matches Some(k) ==> is_least(self@, k),
    {
        match &self.root {
            None => None,
            Some(n) => Some(find_min(n)),
        }
    }

    /// The largest stored key, or `None` on an empty tree.
    pub fn max(&self) -> (r: Option<u64>)
        requires
            self.wf(),
        ensures
            r is None <==> self@ == Set::<u64>::empty(),
            r matches Some(k) ==> is_greatest(self@, k),
    {
        match &self.root {
            None => None,
            Some(n) => Some(find_max(n)),
        }
    }

    /// The keys in ascending order.
    pub fn inorder(&self) -> (r: Vec<u64>)
        requires
            self.wf(),
        ensures
            r@ == inorder(self.root_link()),
            strictly_ascending(r@),
            r@.len() == self@.len(),
            forall|k: u64| r@.contains(k) <==> self@.contains(k),
    {
        let mut out: Vec<u64> = Vec::new();
        inorder_into(&self.root, &mut out);
        proof {
            assert(out@ =~= inorder(self.root));
            lemma_inorder_ascending(self.root);
            lemma_inorder_keys(self.root);
            lemma_size_is_key_count(self.root);
        }
        out
    }

    /// The keys in prefix order: each node before its left and right subtrees.
    pub fn preorder(&self) -> (r: Vec<u64>)
        requires
            self.wf(),
        ensures
            r@ == preorder(self.root_link()),
    {
        let mut out: Vec<u64> = Vec::new();
        preorder_into(&self.root, &mut out);
        assert(out@ =~= preorder(self.root));
        out
    }

    /// The keys level by level from the root down, each level from left to right.
    pub fn levelorder(&self) -> (r: Vec<u64>)
        requires
            self.wf(),
        ensures
            r@ == levelorder(self.root_link()),
    {
        let h = node_height(&self.root);
        let mut out: Vec<u64> = Vec::new();
        let mut d: usize = 0;
        while d < h
            invariant
                d <= h,
                h == height(self.root),
                out@ == levels_upto(self.root, d as nat),
            decreases h - d,
        {
            level_into(&self.root, d, &mut out);
            d = d + 1;
        }
        out
    }

    /// The key of the node reached from the root by following `path`, or
    /// `None` when the path leaves the tree.
    pub fn key_at(&self, path: &Vec<Side>) -> (r: Option<u64>)
        requires
            self.wf(),
        ensures
            r == (match subtree_at(self.root_link(), path@) {
                Some(n) => Some(n.key),
                None => None,
            }),
    {
        let sub = subtree_ref(&self.root, path, 0);
        proof {
            assert(path@.subrange(0, path@.len() as int) =~= path@);
        }
        match sub {
            Some(n) => Some(n.key),
            None => None,
        }
    }

    /// The height of the subtree reached from the root by following `path`;
    /// zero when the path leaves the tree.
    pub fn height_at(&self, path: &Vec<Side>) -> (r: usize)
        requires
            self.wf(),
        ensures
            r == height(subtree_at(self.root_link(), path@)),
    {
        let sub = subtree_ref(&self.root, path, 0);
        proof {
            assert(path@.subrange(0, path@.len() as int) =~= path@);
            lemma_heights_at(self.root, path@);
        }
        node_height(sub)
    }
}

proof fn lemma_heights_at(t: Option<Box<AVLNode>>, path: Seq<Side>)
    requires
        heights_ok(t),
    ensures
        heights_ok(subtree_at(t, path)),
    decreases path.len(),
{
    if path.len() > 0 {
        if let Some(n) = t {
            lemma_heights_at(if path[0] == Side::Left {
                n.left
            } else {
                n.right
            }, path.drop_first());
        }
    }
}

/// The parent-to-child links of a subtree in prefix order, each with the
/// side of the child.
pub open spec fn edges(t: Option<Box<AVLNode>>) -> Seq<(u64, u64, Side)>
    decreases t,
{
    match t {
        None => Seq::empty(),
        Some(n) => {
            let l = match n.left {
                None => Seq::empty(),
                Some(c) => seq![(n.key, c.key, Side::Left)] + edges(n.left),
            };
            let r = match n.right {
                None => Seq::empty(),
                Some(c) => seq![(n.key, c.key, Side::Right)] + edges(n.right),
            };
            l + r
        },
    }
}

/// Rows of a sideways drawing: right subtree, node, left subtree, each key
/// with its depth below a subtree whose root stands at depth `d`.
pub open spec fn sideways(t: Option<Box<AVLNode>>, d: nat) -> Seq<(u64, nat)>
    decreases t,
{
    match t {
        None => Seq::empty(),
        Some(n) => sideways(n.right, d + 1) + seq![(n.key, d)] + sideways(n.left, d + 1),
    }
}

/// Sideways rows with their depths read as natural numbers.
pub open spec fn rows_view(s: Seq<(u64, usize)>) -> Seq<(u64, nat)> {
    s.map_values(|r: (u64, usize)| (r.0, r.1 as nat))
}

fn edges_into(t: &Option<Box<AVLNode>>, out: &mut Vec<(u64, u64, Side)>)
    ensures
        final(out)@ == old(out)@ + edges(*t),
    decreases *t,
{
    match t {
        None => {
            assert(old(out)@ + edges(*t) =~= old(out)@);
        },
        Some(n) => {
            let ghost o0 = out@;
            match &n.left {
                None => {
                    assert(out@ =~= o0 + Seq::<(u64, u64, Side)>::empty());
                },
                Some(c) => {
                    out.push((n.key, c.key, Side::Left));
                    edges_into(&n.left, out);
                },
            }
            let ghost o1 = out@;
            match &n.right {
                None => {},
                Some(c) => {
                    out.push((n.key, c.key, Side::Right));
                    edges_into(&n.right, out);
                },
            }
            assert(out@ =~= o0 + edges(*t));
        },
    }
}

fn sideways_into(t: &Option<Box<AVLNode>>, d: usize, out: &mut Vec<(u64, usize)>)
    requires
        d + height(*t) <= usize::MAX,
    ensures
        rows_view(final(out)@) == rows_view(old(out)@) + sideways(*t, d as nat),
    decreases *t,
{
    match t {
        None => {
            assert(rows_view(out@) =~= rows_view(out@) + sideways(*t, d as nat));
        },
        Some(n) => {
            let ghost o0 = out@;
            sideways_into(&n.right, d + 1, out);
            let ghost o1 = out@;
            out.push((n.key, d));
            assert(rows_view(out@) =~= rows_view(o1) + seq![(n.key, d as nat)]);
            sideways_into(&n.left, d + 1, out);
            assert(rows_view(out@) =~= rows_view(o0) + sideways(*t, d as nat));
        },
    }
}

impl AvlTree {
    /// The parent-to-child links of the tree in prefix order, each labelled
    /// with the side of the child: the edges of a DOT drawing.
    pub fn edges(&self) -> (r: Vec<(u64, u64, Side)>)
        requires
            self.wf(),
        ensures
            r@ == edges(self.root_link()),
    {
        let mut out: Vec<(u64, u64, Side)> = Vec::new();
        edges_into(&self.root, &mut out);
        assert(out@ =~= edges(self.root));
        out
    }

    /// Rows of a sideways drawing: for each node its key and depth, the right
    /// subtree listed before the node and the left subtree after it.
    pub fn sideways_rows(&self) -> (r: Vec<(u64, usize)>)
        requires
            self.wf(),
        ensures
            rows_view(r@) == sideways(self.root_link(), 0),
    {
        proof {
            lemma_height_le_size(self.root);
        }
        let mut out: Vec<(u64, usize)> = Vec::new();
        sideways_into(&self.root, 0, &mut out);
        assert(rows_view(out@) =~= sideways(self.root, 0));
        out
    }
}

} // verus!
