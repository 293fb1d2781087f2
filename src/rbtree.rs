//! A red-black tree that owns its nodes top-down. The insertion and deletion
//! fix-ups run while the recursion unwinds, so the parent of a node is always
//! the caller's frame and needs no stored back-reference.
use vstd::prelude::*;

verus! {

/// The color tag of a node.
#[derive(PartialEq, Eq, Structural, Clone, Copy, Debug)]
pub enum Color {
    Red,
    Black,
}

/// A node of the red-black tree; it owns both of its children.
pub struct Node {
    pub key: u64,
    pub color: Color,
    pub left: Option<Box<Node>>,
    pub right: Option<Box<Node>>,
}

/// The keys stored in a subtree.
pub open spec fn keys(t: Option<Box<Node>>) -> Set<u64>
    decreases t,
{
    match t {
        None => Set::empty(),
        Some(n) => keys(n.left).union(keys(n.right)).insert(n.key),
    }
}

/// Binary-search-tree order: every key of a left subtree is below the node's
/// key and every key of a right subtree above it.
pub open spec fn ordered(t: Option<Box<Node>>) -> bool
    decreases t,
{
    match t {
        None => true,
        Some(n) => {
            &&& ordered(n.left)
            &&& ordered(n.right)
            &&& forall|k: u64| keys(n.left).contains(k) ==> k < n.key
            &&& forall|k: u64| keys(n.right).contains(k) ==> n.key < k
        },
    }
}

/// Number of nodes in a subtree.
pub open spec fn size(t: Option<Box<Node>>) -> nat
    decreases t,
{
    match t {
        None => 0,
        Some(n) => size(n.left) + size(n.right) + 1,
    }
}

/// Number of nodes on the longest path from the subtree's root to an empty
/// position.
pub open spec fn height(t: Option<Box<Node>>) -> nat
    decreases t,
{
    match t {
        None => 0,
        Some(n) => 1 + if height(n.left) >= height(n.right) {
            height(n.left)
        } else {
            height(n.right)
        },
    }
}

/// Number of nodes without children.
pub open spec fn leaf_count(t: Option<Box<Node>>) -> nat
    decreases t,
{
    match t {
        None => 0,
        Some(n) => if n.left is None && n.right is None {
            1
        } else {
            leaf_count(n.left) + leaf_count(n.right)
        },
    }
}

/// Keys in symmetric order: left subtree, node, right subtree.
pub open spec fn inorder(t: Option<Box<Node>>) -> Seq<u64>
    decreases t,
{
    match t {
        None => Seq::empty(),
        Some(n) => inorder(n.left).push(n.key) + inorder(n.right),
    }
}

/// Keys in prefix order: node, left subtree, right subtree.
pub open spec fn preorder(t: Option<Box<Node>>) -> Seq<u64>
    decreases t,
{
    match t {
        None => Seq::empty(),
        Some(n) => seq![n.key] + preorder(n.left) + preorder(n.right),
    }
}

/// Keys at depth `d` (the root is at depth 0), from left to right.
pub open spec fn level(t: Option<Box<Node>>, d: nat) -> Seq<u64>
    decreases t,
{
    match t {
        None => Seq::empty(),
        Some(n) => if d == 0 {
            seq![n.key]
        } else {
            level(n.left, (d - 1) as nat) + level(n.right, (d - 1) as nat)
        },
    }
}

/// Keys level by level, from depth 0 down to depth `h - 1`.
pub open spec fn levels_upto(t: Option<Box<Node>>, h: nat) -> Seq<u64>
    decreases h,
{
    if h == 0 {
        Seq::empty()
    } else {
        levels_upto(t, (h - 1) as nat) + level(t, (h - 1) as nat)
    }
}

/// Keys in breadth-first order.
pub open spec fn levelorder(t: Option<Box<Node>>) -> Seq<u64> {
    levels_upto(t, height(t))
}

/// The smallest key of a non-empty subtree (its leftmost node).
pub open spec fn leftmost(t: Option<Box<Node>>) -> u64
    decreases t,
{
    match t {
        None => 0,
        Some(n) => match n.left {
            None => n.key,
            Some(_) => leftmost(n.left),
        },
    }
}

/// The largest key of a non-empty subtree (its rightmost node).
pub open spec fn rightmost(t: Option<Box<Node>>) -> u64
    decreases t,
{
    match t {
        None => 0,
        Some(n) => match n.right {
            None => n.key,
            Some(_) => rightmost(n.right),
        },
    }
}

/// A sequence in strictly ascending order.
pub open spec fn strictly_ascending(s: Seq<u64>) -> bool {
    forall|i: int, j: int| 0 <= i < j < s.len() ==> s[i] < s[j]
}

/// In an ordered subtree each node holds a distinct key, so the number of
/// keys is the number of nodes.
pub proof fn lemma_size_is_key_count(t: Option<Box<Node>>)
    requires
        ordered(t),
    ensures
        keys(t).finite(),
        keys(t).len() == size(t),
    decreases t,
{
    if let Some(n) = t {
        lemma_size_is_key_count(n.left);
        lemma_size_is_key_count(n.right);
        assert(keys(n.left).disjoint(keys(n.right))) by {
            assert forall|k: u64| keys(n.left).contains(k) implies !keys(n.right).contains(k) by {}
        }
        vstd::set_lib::lemma_set_disjoint_lens(keys(n.left), keys(n.right));
        assert(!keys(n.left).union(keys(n.right)).contains(n.key));
    }
}

pub proof fn lemma_height_le_size(t: Option<Box<Node>>)
    ensures
        height(t) <= size(t),
        leaf_count(t) <= size(t),
    decreases t,
{
    if let Some(n) = t {
        lemma_height_le_size(n.left);
        lemma_height_le_size(n.right);
    }
}

/// The keys in symmetric order are exactly the stored keys.
pub proof fn lemma_inorder_keys(t: Option<Box<Node>>)
    ensures
        forall|k: u64| inorder(t).contains(k) <==> keys(t).contains(k),
    decreases t,
{
    if let Some(n) = t {
        lemma_inorder_keys(n.left);
        lemma_inorder_keys(n.right);
        let l = inorder(n.left);
        let r = inorder(n.right);
        assert forall|k: u64| inorder(t).contains(k) <==> keys(t).contains(k) by {
            let s = l.push(n.key) + r;
            if s.contains(k) {
                let i = choose|i: int| 0 <= i < s.len() && s[i] == k;
                if i < l.len() {
                    assert(l.contains(k));
                } else if i > l.len() {
                    assert(r[i - l.len() - 1] == k);
                    assert(r.contains(k));
                }
            }
            if keys(n.left).contains(k) {
                let i = choose|i: int| 0 <= i < l.len() && l[i] == k;
                assert(s[i] == k);
            }
            if keys(n.right).contains(k) {
                let i = choose|i: int| 0 <= i < r.len() && r[i] == k;
                assert(s[l.len() + 1 + i] == k);
            }
            if k == n.key {
                assert(s[l.len() as int] == k);
            }
        }
    }
}

/// Symmetric order of an ordered subtree lists its keys strictly ascending.
pub proof fn lemma_inorder_ascending(t: Option<Box<Node>>)
    requires
        ordered(t),
    ensures
        strictly_ascending(inorder(t)),
        inorder(t).len() == size(t),
    decreases t,
{
    if let Some(n) = t {
        lemma_inorder_ascending(n.left);
        lemma_inorder_ascending(n.right);
        lemma_inorder_keys(n.left);
        lemma_inorder_keys(n.right);
        let l = inorder(n.left);
        let r = inorder(n.right);
        let s = l.push(n.key) + r;
        assert forall|i: int, j: int| 0 <= i < j < s.len() implies s[i] < s[j] by {
            if i < l.len() {
                assert(l.contains(l[i]));
            }
            if j > l.len() {
                assert(r.contains(r[j - l.len() - 1]));
            }
        }
    }
}

pub open spec fn is_red(t: Option<Box<Node>>) -> bool {
    match t {
        None => false,
        Some(n) => n.color == Color::Red,
    }
}

/// No red node has a red child.
pub open spec fn no_red_red(t: Option<Box<Node>>) -> bool
    decreases t,
{
    match t {
        None => true,
        Some(n) => {
            &&& no_red_red(n.left)
            &&& no_red_red(n.right)
            &&& n.color == Color::Red ==> !is_red(n.left) && !is_red(n.right)
        },
    }
}

/// Black nodes on the path from the subtree's root down its left spine,
/// the root included.
pub open spec fn black_height(t: Option<Box<Node>>) -> nat
    decreases t,
{
    match t {
        None => 0,
        Some(n) => black_height(n.left) + if n.color == Color::Black {
            1nat
        } else {
            0nat
        },
    }
}

/// Every path from a node to an empty position below it meets the same number
/// of black nodes.
pub open spec fn black_balanced(t: Option<Box<Node>>) -> bool
    decreases t,
{
    match t {
        None => true,
        Some(n) => {
            &&& black_balanced(n.left)
            &&& black_balanced(n.right)
            &&& black_height(n.left) == black_height(n.right)
        },
    }
}

/// The red-black coloring discipline below (and including) a subtree's root.
pub open spec fn colored(t: Option<Box<Node>>) -> bool {
    no_red_red(t) && black_balanced(t)
}

/// A whole red-black tree: ordered, colored, with a root that is not red.
pub open spec fn red_black(t: Option<Box<Node>>) -> bool {
    ordered(t) && colored(t) && !is_red(t)
}

/// `k` is the smallest element of `s`.
pub open spec fn is_least(s: Set<u64>, k: u64) -> bool {
    s.contains(k) && forall|j: u64| s.contains(j) ==> k <= j
}

/// `k` is the largest element of `s`.
pub open spec fn is_greatest(s: Set<u64>, k: u64) -> bool {
    s.contains(k) && forall|j: u64| s.contains(j) ==> j <= k
}

/// An ordered index of distinct `u64` keys, kept as a red-black tree.
pub struct RBTree {
    root: Option<Box<Node>>,
    count: usize,
}

impl View for RBTree {
    type V = Set<u64>;

    closed spec fn view(&self) -> Set<u64> {
        keys(self.root)
    }
}

impl RBTree {
    /// The tree's invariant: order, coloring, a black root, and the count of
    /// nodes kept beside them.
    pub closed spec fn wf(self) -> bool {
        &&& red_black(self.root)
        &&& self.count == size(self.root)
    }

    /// The tree's root node, for reasoning about its shape.
    pub closed spec fn root_link(self) -> Option<Box<Node>> {
        self.root
    }

    pub proof fn lemma_wf(self)
        requires
            self.wf(),
        ensures
            self@.finite(),
            red_black(self.root_link()),
            keys(self.root_link()) == self@,
            self@.len() == size(self.root_link()),
            size(self.root_link()) <= usize::MAX,
    {
        lemma_size_is_key_count(self.root);
    }
}

fn is_red_link(t: &Option<Box<Node>>) -> (r: bool)
    ensures
        r == is_red(*t),
{
    match t {
        None => false,
        Some(n) => n.color == Color::Red,
    }
}

fn search_link(t: &Option<Box<Node>>, key: u64) -> (r: bool)
    requires
        ordered(*t),
    ensures
        r == keys(*t).contains(key),
    decreases *t,
{
    match t {
        None => false,
        Some(n) => {
            assert(keys(*t) == keys(n.left).union(keys(n.right)).insert(n.key));
            if key == n.key {
                true
            } else if key < n.key {
                search_link(&n.left, key)
            } else {
                search_link(&n.right, key)
            }
        },
    }
}

proof fn lemma_leftmost_least(t: Option<Box<Node>>)
    requires
        ordered(t),
        t is Some,
    ensures
        is_least(keys(t), leftmost(t)),
    decreases t,
{
    let n = t.unwrap();
    if n.left is Some {
        lemma_leftmost_least(n.left);
    }
    assert(keys(t) == keys(n.left).union(keys(n.right)).insert(n.key));
    assert forall|j: u64| keys(t).contains(j) implies leftmost(t) <= j by {
        if keys(n.right).contains(j) {
        }
    }
}

proof fn lemma_rightmost_greatest(t: Option<Box<Node>>)
    requires
        ordered(t),
        t is Some,
    ensures
        is_greatest(keys(t), rightmost(t)),
    decreases t,
{
    let n = t.unwrap();
    if n.right is Some {
        lemma_rightmost_greatest(n.right);
    }
    assert(keys(t) == keys(n.left).union(keys(n.right)).insert(n.key));
    assert forall|j: u64| keys(t).contains(j) implies j <= rightmost(t) by {
        if keys(n.left).contains(j) {
        }
    }
}

fn find_min(t: &Box<Node>) -> (r: u64)
    ensures
        r == leftmost(Some(*t)),
    decreases *t,
{
    match &t.left {
        None => t.key,
        Some(l) => find_min(l),
    }
}

fn find_max(t: &Box<Node>) -> (r: u64)
    ensures
        r == rightmost(Some(*t)),
    decreases *t,
{
    match &t.right {
        None => t.key,
        Some(r) => find_max(r),
    }
}

fn height_link(t: &Option<Box<Node>>) -> (r: usize)
    requires
        size(*t) <= usize::MAX,
    ensures
        r == height(*t),
    decreases *t,
{
    proof {
        lemma_height_le_size(*t);
    }
    match t {
        None => 0,
        Some(n) => {
            let hl = height_link(&n.left);
            let hr = height_link(&n.right);
            if hl >= hr {
                1 + hl
            } else {
                1 + hr
            }
        },
    }
}

fn leaves_link(t: &Option<Box<Node>>) -> (r: usize)
    requires
        size(*t) <= usize::MAX,
    ensures
        r == leaf_count(*t),
    decreases *t,
{
    proof {
        lemma_height_le_size(*t);
    }
    match t {
        None => 0,
        Some(n) => {
            if n.left.is_none() && n.right.is_none() {
                1
            } else {
                proof {
                    lemma_height_le_size(n.left);
                    lemma_height_le_size(n.right);
                }
                leaves_link(&n.left) + leaves_link(&n.right)
            }
        },
    }
}

fn inorder_into(t: &Option<Box<Node>>, out: &mut Vec<u64>)
    ensures
        final(out)@ == old(out)@ + inorder(*t),
    decreases *t,
{
    match t {
        None => {
            assert(old(out)@ + inorder(*t) =~= old(out)@);
        },
        Some(n) => {
            inorder_into(&n.left, out);
            out.push(n.key);
            inorder_into(&n.right, out);
            assert(final(out)@ =~= old(out)@ + inorder(*t));
        },
    }
}

fn preorder_into(t: &Option<Box<Node>>, out: &mut Vec<u64>)
    ensures
        final(out)@ == old(out)@ + preorder(*t),
    decreases *t,
{
    match t {
        None => {
            assert(old(out)@ + preorder(*t) =~= old(out)@);
        },
        Some(n) => {
            out.push(n.key);
            preorder_into(&n.left, out);
            preorder_into(&n.right, out);
            assert(final(out)@ =~= old(out)@ + preorder(*t));
        },
    }
}

fn level_into(t: &Option<Box<Node>>, d: usize, out: &mut Vec<u64>)
    ensures
        final(out)@ == old(out)@ + level(*t, d as nat),
    decreases *t,
{
    match t {
        None => {
            assert(old(out)@ + level(*t, d as nat) =~= old(out)@);
        },
        Some(n) => {
            if d == 0 {
                out.push(n.key);
                assert(final(out)@ =~= old(out)@ + level(*t, d as nat));
            } else {
                level_into(&n.left, d - 1, out);
                level_into(&n.right, d - 1, out);
                assert(final(out)@ =~= old(out)@ + level(*t, d as nat));
            }
        },
    }
}

fn levelorder_link(t: &Option<Box<Node>>) -> (r: Vec<u64>)
    requires
        size(*t) <= usize::MAX,
    ensures
        r@ == levelorder(*t),
{
    let h = height_link(t);
    let mut out: Vec<u64> = Vec::new();
    let mut d: usize = 0;
    while d < h
        invariant
            d <= h,
            h == height(*t),
            out@ == levels_upto(*t, d as nat),
        decreases h - d,
    {
        level_into(t, d, &mut out);
        d = d + 1;
    }
    out
}

/// Left rotation: `x.right` takes `x`'s place and `x` becomes its left child,
/// taking over the former left subtree of `x.right` as its right subtree.
/// Colors are unchanged.
fn rotate_left(mut x: Box<Node>) -> (r: Box<Node>)
    requires
        x.right is Some,
    ensures
        ({
            let y = x.right.unwrap();
            &&& r.key == y.key
            &&& r.color == y.color
            &&& r.right == y.right
            &&& r.left is Some
            &&& r.left.unwrap().key == x.key
            &&& r.left.unwrap().color == x.color
            &&& r.left.unwrap().left == x.left
            &&& r.left.unwrap().right == y.left
        }),
        keys(Some(r)) == keys(Some(x)),
        size(Some(r)) == size(Some(x)),
        ordered(Some(x)) ==> ordered(Some(r)),
{
    let ghost gx = x;
    let mut y = x.right.take().unwrap();
    let ghost gy = y;
    x.right = y.left.take();
    y.left = Some(x);
    proof {
        let xl = gx.left;
        let b = gy.left;
        let c = gy.right;
        let nx = y.left;
        assert(keys(Some(gx)) == keys(xl).union(keys(Some(gy))).insert(gx.key));
        assert(keys(Some(gy)) == keys(b).union(keys(c)).insert(gy.key));
        assert(keys(nx) == keys(xl).union(keys(b)).insert(gx.key));
        assert(keys(Some(y)) == keys(nx).union(keys(c)).insert(gy.key));
        assert(keys(Some(y)) =~= keys(Some(gx)));
        assert(size(Some(gx)) == size(xl) + size(Some(gy)) + 1);
        assert(size(Some(gy)) == size(b) + size(c) + 1);
        assert(size(nx) == size(xl) + size(b) + 1);
        assert(size(Some(y)) == size(nx) + size(c) + 1);
        if ordered(Some(gx)) {
            assert(gx.right == Some(gy));
            assert(ordered(Some(gy)));
            assert(ordered(b) && ordered(c) && ordered(xl));
            assert forall|k: u64| keys(b).contains(k) implies gx.key < k by {
                assert(keys(Some(gy)).contains(k));
            }
            assert(keys(Some(gy)).contains(gy.key));
            assert(gx.key < gy.key);
            assert(ordered(nx));
            assert forall|k: u64| keys(nx).contains(k) implies k < gy.key by {
                if keys(xl).contains(k) {
                    assert(k < gx.key);
                } else if keys(b).contains(k) {
                    assert(gy.left == b);
                }
            }
        }
    }
    y
}

/// Right rotation, the mirror of `rotate_left`.
fn rotate_right(mut x: Box<Node>) -> (r: Box<Node>)
    requires
        x.left is Some,
    ensures
        ({
            let y = x.left.unwrap();
            &&& r.key == y.key
            &&& r.color == y.color
            &&& r.left == y.left
            &&& r.right is Some
            &&& r.right.unwrap().key == x.key
            &&& r.right.unwrap().color == x.color
            &&& r.right.unwrap().right == x.right
            &&& r.right.unwrap().left == y.right
        }),
        keys(Some(r)) == keys(Some(x)),
        size(Some(r)) == size(Some(x)),
        ordered(Some(x)) ==> ordered(Some(r)),
{
    let ghost gx = x;
    let mut y = x.left.take().unwrap();
    let ghost gy = y;
    x.left = y.right.take();
    y.right = Some(x);
    proof {
        let xr = gx.right;
        let b = gy.right;
        let a = gy.left;
        let nx = y.right;
        assert(keys(Some(gx)) == keys(Some(gy)).union(keys(xr)).insert(gx.key));
        assert(keys(Some(gy)) == keys(a).union(keys(b)).insert(gy.key));
        assert(keys(nx) == keys(b).union(keys(xr)).insert(gx.key));
        assert(keys(Some(y)) == keys(a).union(keys(nx)).insert(gy.key));
        assert(keys(Some(y)) =~= keys(Some(gx)));
        assert(size(Some(gx)) == size(Some(gy)) + size(xr) + 1);
        assert(size(Some(gy)) == size(a) + size(b) + 1);
        assert(size(nx) == size(b) + size(xr) + 1);
        assert(size(Some(y)) == size(a) + size(nx) + 1);
        if ordered(Some(gx)) {
            assert(gx.left == Some(gy));
            assert(ordered(Some(gy)));
            assert(ordered(b) && ordered(a) && ordered(xr));
            assert forall|k: u64| keys(b).contains(k) implies k < gx.key by {
                assert(keys(Some(gy)).contains(k));
            }
            assert(keys(Some(gy)).contains(gy.key));
            assert(gy.key < gx.key);
            assert(ordered(nx));
            assert forall|k: u64| keys(nx).contains(k) implies gy.key < k by {
                if keys(xr).contains(k) {
                    assert(gx.key < k);
                } else if keys(b).contains(k) {
                    assert(gy.right == b);
                }
            }
        }
    }
    y
}

/// The precondition of the insertion fix-up at a black grandparent `g` whose
/// child on one side, the parent `p`, is red with exactly one red child.
spec fn red_red_below(g: Box<Node>, p: Option<Box<Node>>, u: Option<Box<Node>>) -> bool {
    &&& g.color == Color::Black
    &&& ordered(Some(g))
    &&& p is Some
    &&& p.unwrap().color == Color::Red
    &&& no_red_red(p.unwrap().left)
    &&& no_red_red(p.unwrap().right)
    &&& !(is_red(p.unwrap().left) && is_red(p.unwrap().right))
    &&& (is_red(p.unwrap().left) || is_red(p.unwrap().right))
    &&& black_balanced(p)
    &&& black_balanced(u)
    &&& black_height(p) == black_height(u)
    &&& no_red_red(u)
}

/// What the insertion fix-up leaves at the grandparent's position.
spec fn fixed_up(r: Box<Node>, g: Box<Node>) -> bool {
    &&& ordered(Some(r))
    &&& keys(Some(r)) == keys(Some(g))
    &&& size(Some(r)) == size(Some(g))
    &&& black_balanced(Some(r))
    &&& black_height(Some(r)) == black_height(Some(g))
    &&& no_red_red(Some(r))
}

fn set_color(n: Box<Node>, c: Color) -> (r: Box<Node>)
    ensures
        r.key == n.key,
        r.left == n.left,
        r.right == n.right,
        r.color == c,
        keys(Some(r)) == keys(Some(n)),
        size(Some(r)) == size(Some(n)),
        ordered(Some(r)) == ordered(Some(n)),
        black_balanced(Some(r)) == black_balanced(Some(n)),
{
    let mut n = n;
    n.color = c;
    n
}

/// Insertion fix-up with the red parent on the left of the grandparent `g`.
/// A red uncle: parent and uncle turn black and `g` red, pushing the
/// violation two levels up. A black or absent uncle: a zig-zag is first
/// straightened by a rotation at the parent, then the parent turns black,
/// `g` red, and `g` is rotated right.
fn insert_fix_left(mut g: Box<Node>) -> (r: Box<Node>)
    requires
        red_red_below(g, g.left, g.right),
    ensures
        fixed_up(r, g),
{
    let ghost g0 = g;
    if is_red_link(&g.right) {
        let p = g.left.take().unwrap();
        g.left = Some(set_color(p, Color::Black));
        let u = g.right.take().unwrap();
        g.right = Some(set_color(u, Color::Black));
        g.color = Color::Red;
        proof {
            assert(keys(Some(g)) =~= keys(Some(g0)));
            assert(ordered(g0.left) && ordered(g0.right));
            assert(black_height(g.left) == black_height(g0.left) + 1);
            assert(black_height(g.right) == black_height(g0.right) + 1);
            assert(no_red_red(g.left));
            assert(no_red_red(g.right));
        }
        g
    } else {
        let mut p = g.left.take().unwrap();
        let ghost p0 = p;
        proof {
            assert(ordered(Some(p0)));
            assert(black_balanced(Some(p0)));
        }
        if is_red_link(&p.right) {
            p = rotate_left(p);
            proof {
                let c = p0.right.unwrap();
                assert(no_red_red(p0.right));
                assert(!is_red(c.left) && !is_red(c.right));
                assert(black_balanced(p0.right));
                assert(no_red_red(p.left.unwrap().left));
                assert(no_red_red(p.left));
                assert(black_balanced(p.left));
                assert(black_balanced(Some(p)));
            }
        }
        proof {
            assert(is_red(p.left) && !is_red(p.right));
            assert(no_red_red(p.left) && no_red_red(p.right));
            assert(black_balanced(Some(p)));
            assert(ordered(Some(p)));
            assert(keys(Some(p)) == keys(Some(p0)));
            assert(size(Some(p)) == size(Some(p0)));
            assert(black_height(Some(p)) == black_height(Some(p0)));
        }
        let ghost p1 = p;
        p.color = Color::Black;
        g.left = Some(p);
        g.color = Color::Red;
        proof {
            assert(keys(Some(p)) == keys(Some(p1)));
            assert(size(Some(p)) == size(Some(p1)));
            assert(keys(Some(g)) =~= keys(Some(g0)));
            assert(size(Some(g)) == size(Some(g0)));
            assert(ordered(g.left));
            assert(ordered(Some(g)));
        }
        let r = rotate_right(g);
        proof {
            assert(black_balanced(r.right));
            assert(no_red_red(r.right));
            assert(no_red_red(r.left));
        }
        r
    }
}

/// Mirror of `insert_fix_left`: the red parent is the right child of `g`.
fn insert_fix_right(mut g: Box<Node>) -> (r: Box<Node>)
    requires
        red_red_below(g, g.right, g.left),
    ensures
        fixed_up(r, g),
{
    let ghost g0 = g;
    if is_red_link(&g.left) {
        let p = g.right.take().unwrap();
        g.right = Some(set_color(p, Color::Black));
        let u = g.left.take().unwrap();
        g.left = Some(set_color(u, Color::Black));
        g.color = Color::Red;
        proof {
            assert(keys(Some(g)) =~= keys(Some(g0)));
            assert(ordered(g0.right) && ordered(g0.left));
            assert(black_height(g.right) == black_height(g0.right) + 1);
            assert(black_height(g.left) == black_height(g0.left) + 1);
            assert(no_red_red(g.right));
            assert(no_red_red(g.left));
        }
        g
    } else {
        let mut p = g.right.take().unwrap();
        let ghost p0 = p;
        proof {
            assert(ordered(Some(p0)));
            assert(black_balanced(Some(p0)));
        }
        if is_red_link(&p.left) {
            p = rotate_right(p);
            proof {
                let c = p0.left.unwrap();
                assert(no_red_red(p0.left));
                assert(!is_red(c.left) && !is_red(c.right));
                assert(black_balanced(p0.left));
                assert(no_red_red(p.right.unwrap().left));
                assert(no_red_red(p.right));
                assert(black_balanced(p.right));
                assert(black_balanced(Some(p)));
            }
        }
        proof {
            assert(is_red(p.right) && !is_red(p.left));
            assert(no_red_red(p.right) && no_red_red(p.left));
            assert(black_balanced(Some(p)));
            assert(ordered(Some(p)));
            assert(keys(Some(p)) == keys(Some(p0)));
            assert(size(Some(p)) == size(Some(p0)));
            assert(black_height(Some(p)) == black_height(Some(p0)));
        }
        let ghost p1 = p;
        p.color = Color::Black;
        g.right = Some(p);
        g.color = Color::Red;
        proof {
            assert(keys(Some(p)) == keys(Some(p1)));
            assert(size(Some(p)) == size(Some(p1)));
            assert(keys(Some(g)) =~= keys(Some(g0)));
            assert(size(Some(g)) == size(Some(g0)));
            assert(ordered(g.right));
            assert(ordered(Some(g)));
        }
        let r = rotate_left(g);
        proof {
            assert(black_balanced(r.left));
            assert(no_red_red(r.left));
            assert(no_red_red(r.right));
            let gl = r.left.unwrap();
            assert(black_height(Some(p1)) == black_height(p1.left));
            assert(black_height(p1.left) == black_height(p1.right));
            assert(black_height(r.left) == black_height(gl.left));
            assert(black_height(Some(r)) == black_height(r.left) + 1);
            assert(black_balanced(Some(r)));
            assert(black_height(Some(r)) == black_height(Some(g0)));
            assert(fixed_up(r, g0));
        }
        r
    }
}

/// Places `key` as a new red leaf and repairs red-red violations on the way
/// back up. A red subtree root may come back red with one red child; the
/// caller one level up repairs that.
fn insert_link(t: Option<Box<Node>>, key: u64) -> (r: Box<Node>)
    requires
        ordered(t),
        colored(t),
        !keys(t).contains(key),
    ensures
        ordered(Some(r)),
        keys(Some(r)) == keys(t).insert(key),
        size(Some(r)) == size(t) + 1,
        black_balanced(Some(r)),
        black_height(Some(r)) == black_height(t),
        !is_red(t) ==> no_red_red(Some(r)),
        is_red(t) ==> {
            &&& r.color == Color::Red
            &&& no_red_red(r.left)
            &&& no_red_red(r.right)
            &&& !(is_red(r.left) && is_red(r.right))
        },
    decreases t,
{
    match t {
        None => {
            let r = Box::new(Node { key, color: Color::Red, left: None, right: None });
            proof {
                assert(keys(Some(r)) =~= keys(t).insert(key));
                assert(no_red_red(r.left) && no_red_red(r.right));
            }
            r
        },
        Some(mut n) => {
            let ghost n0 = n;
            proof {
                assert(keys(t) == keys(n0.left).union(keys(n0.right)).insert(n0.key));
            }
            if key < n.key {
                let l = n.left.take();
                let nl = insert_link(l, key);
                let red_red = nl.color == Color::Red && (is_red_link(&nl.left) || is_red_link(
                    &nl.right,
                ));
                n.left = Some(nl);
                proof {
                    assert(keys(Some(n)) =~= keys(t).insert(key));
                    assert(ordered(Some(n)));
                }
                proof {
                    assert(no_red_red(n0.left) && no_red_red(n0.right));
                    assert(black_balanced(n0.left) && black_balanced(n0.right));
                }
                if red_red {
                    insert_fix_left(n)
                } else {
                    proof {
                        assert(no_red_red(n.left));
                        assert(no_red_red(n.right));
                    }
                    n
                }
            } else {
                let rt = n.right.take();
                let nr = insert_link(rt, key);
                let red_red = nr.color == Color::Red && (is_red_link(&nr.left) || is_red_link(
                    &nr.right,
                ));
                n.right = Some(nr);
                proof {
                    assert(keys(Some(n)) =~= keys(t).insert(key));
                    assert(ordered(Some(n)));
                }
                proof {
                    assert(no_red_red(n0.left) && no_red_red(n0.right));
                    assert(black_balanced(n0.left) && black_balanced(n0.right));
                }
                if red_red {
                    insert_fix_right(n)
                } else {
                    proof {
                        assert(no_red_red(n.left));
                        assert(no_red_red(n.right));
                    }
                    n
                }
            }
        },
    }
}

/// Black nodes a subtree rooted at `p` must count, from its children's side:
/// its right child's black height plus one for `p` itself when black.
spec fn own_black(c: Color) -> nat {
    if c == Color::Black {
        1
    } else {
        0
    }
}

/// The precondition of the deletion fix-up at `p` whose child `d` lost one
/// unit of black height (the double-black position) while its sibling `s`
/// kept it.
spec fn double_black_below(p: Box<Node>, d: Option<Box<Node>>, s: Option<Box<Node>>) -> bool {
    &&& ordered(Some(p))
    &&& colored(d)
    &&& colored(s)
    &&& !is_red(d)
    &&& p.color == Color::Red ==> !is_red(s)
    &&& black_height(d) + 1 == black_height(s)
}

/// What the deletion fix-up at `p` leaves: the same keys, the coloring
/// restored, and a flag that says whether the whole subtree is now one black
/// node short.
spec fn deficit_resolved(r: Box<Node>, shorter: bool, p: Box<Node>, s: Option<Box<Node>>) -> bool {
    &&& ordered(Some(r))
    &&& keys(Some(r)) == keys(Some(p))
    &&& size(Some(r)) == size(Some(p))
    &&& colored(Some(r))
    &&& black_height(Some(r)) + (if shorter {
        1nat
    } else {
        0nat
    }) == black_height(s) + own_black(p.color)
    &&& r.color == Color::Red ==> p.color == Color::Red
    &&& shorter ==> r.color == Color::Black
    &&& p.color == Color::Red ==> !shorter
}

/// Deletion fix-up at `p` whose left subtree is one black node short; the
/// sibling `s` is the right child. A red sibling is rotated up first, which
/// leaves a black sibling under a red `p`. A black sibling with two black
/// children turns red and the shortage moves up to `p` (or ends there when
/// `p` was red, by turning it black). Otherwise a red far child is ensured,
/// by a rotation at the sibling when only the near child is red, and a
/// rotation at `p` ends the repair.
fn delete_fix_left(mut p: Box<Node>) -> (r: (Box<Node>, bool))
    requires
        double_black_below(p, p.left, p.right),
    ensures
        deficit_resolved(r.0, r.1, p, p.right),
    decreases 1nat + own_black(p.color),
{
    let ghost p0 = p;
    proof {
        assert(ordered(p0.left) && ordered(p0.right));
        assert(black_height(p0.right) >= 1);
    }
    let mut s = p.right.take().unwrap();
    let ghost s0 = s;
    proof {
        assert(ordered(s0.left) && ordered(s0.right));
        assert(colored(s0.left) && colored(s0.right));
        assert(keys(Some(p0)) == keys(p0.left).union(keys(Some(s0))).insert(p0.key));
        assert(keys(Some(s0)) == keys(s0.left).union(keys(s0.right)).insert(s0.key));
    }
    if s.color == Color::Red {
        s.color = Color::Black;
        p.color = Color::Red;
        let ghost s1 = s;
        p.right = Some(s);
        let ghost p1 = p;
        proof {
            assert(keys(Some(s1)) == keys(Some(s0)));
            assert(keys(Some(p1)) =~= keys(Some(p0)));
            assert(size(Some(s1)) == size(Some(s0)));
            assert(size(Some(p1)) == size(Some(p0)));
            assert(ordered(Some(s1)));
            assert(ordered(Some(p1)));
        }
        let mut top = rotate_left(p);
        let ghost top0 = top;
        let inner = top.left.take().unwrap();
        proof {
            assert(ordered(Some(top0)));
            assert(ordered(Some(inner)));
            assert(!is_red(s0.left) && !is_red(s0.right));
            assert(black_height(s0.left) == black_height(Some(s0)));
        }
        let (fixed, _sh) = delete_fix_left(inner);
        top.left = Some(fixed);
        proof {
            assert(keys(Some(top)) =~= keys(Some(top0)));
            assert(size(Some(top)) == size(Some(top0)));
            assert(ordered(Some(top)));
            assert(black_height(Some(fixed)) == black_height(s0.left));
            assert(colored(top.right));
            assert(colored(Some(top)));
        }
        (top, false)
    } else if !is_red_link(&s.left) && !is_red_link(&s.right) {
        s.color = Color::Red;
        let ghost s1 = s;
        p.right = Some(s);
        proof {
            assert(keys(Some(s1)) == keys(Some(s0)));
            assert(size(Some(s1)) == size(Some(s0)));
            assert(ordered(Some(s1)));
            assert(keys(Some(p)) =~= keys(Some(p0)));
            assert(size(Some(p)) == size(Some(p0)));
            assert(ordered(Some(p)));
            assert(colored(Some(s1)));
            assert(black_height(Some(s1)) + 1 == black_height(Some(s0)));
        }
        if p.color == Color::Red {
            p.color = Color::Black;
            proof {
                assert(keys(Some(p)) =~= keys(Some(p0)));
                assert(colored(Some(p)));
            }
            (p, false)
        } else {
            proof {
                assert(colored(Some(p)));
            }
            (p, true)
        }
    } else {
        if !is_red_link(&s.right) {
            let mut near = s.left.take().unwrap();
            let ghost near0 = near;
            near.color = Color::Black;
            s.left = Some(near);
            s.color = Color::Red;
            let ghost s1 = s;
            proof {
                assert(keys(Some(near)) == keys(Some(near0)));
                assert(size(Some(near)) == size(Some(near0)));
                assert(keys(Some(s1)) =~= keys(Some(s0)));
                assert(size(Some(s1)) == size(Some(s0)));
                assert(ordered(Some(near0)));
                assert(ordered(Some(near)));
                assert(ordered(Some(s1)));
                assert(colored(Some(near0)));
                assert(!is_red(near0.left) && !is_red(near0.right));
            }
            s = rotate_right(s);
            proof {
                assert(colored(s.right));
                assert(colored(Some(s)));
            }
        }
        proof {
            assert(s.color == Color::Black);
            assert(is_red(s.right));
            assert(colored(Some(s)));
            assert(ordered(Some(s)));
            assert(keys(Some(s)) == keys(Some(s0)));
            assert(size(Some(s)) == size(Some(s0)));
            assert(black_height(Some(s)) == black_height(Some(s0)));
        }
        let ghost s2 = s;
        s.color = p.color;
        p.color = Color::Black;
        let mut far = s.right.take().unwrap();
        let ghost far0 = far;
        far.color = Color::Black;
        s.right = Some(far);
        let ghost s3 = s;
        p.right = Some(s);
        proof {
            assert(colored(s2.left) && colored(s2.right));
            assert(ordered(s2.left) && ordered(s2.right));
            assert(keys(Some(far)) == keys(Some(far0)));
            assert(size(Some(far)) == size(Some(far0)));
            assert(keys(Some(s3)) =~= keys(Some(s2)));
            assert(size(Some(s3)) == size(Some(s2)));
            assert(ordered(Some(far0)));
            assert(ordered(Some(far)));
            assert(ordered(Some(s3)));
            assert(keys(Some(p)) =~= keys(Some(p0)));
            assert(size(Some(p)) == size(Some(p0)));
            assert(ordered(Some(p)));
            assert(colored(Some(far0)));
            assert(colored(Some(far)));
        }
        let top = rotate_left(p);
        proof {
            assert(colored(top.left));
            assert(colored(top.right));
            assert(colored(Some(top)));
        }
        (top, false)
    }
}

/// Mirror of `delete_fix_left`: the right subtree of `p` is one black node
/// short and the sibling `s` is the left child.
fn delete_fix_right(mut p: Box<Node>) -> (r: (Box<Node>, bool))
    requires
        double_black_below(p, p.right, p.left),
    ensures
        deficit_resolved(r.0, r.1, p, p.left),
    decreases 1nat + own_black(p.color),
{
    let ghost p0 = p;
    proof {
        assert(ordered(p0.right) && ordered(p0.left));
        assert(black_height(p0.left) >= 1);
    }
    let mut s = p.left.take().unwrap();
    let ghost s0 = s;
    proof {
        assert(ordered(s0.right) && ordered(s0.left));
        assert(colored(s0.right) && colored(s0.left));
        assert(keys(Some(p0)) == keys(Some(s0)).union(keys(p0.right)).insert(p0.key));
        assert(keys(Some(s0)) == keys(s0.left).union(keys(s0.right)).insert(s0.key));
    }
    if s.color == Color::Red {
        s.color = Color::Black;
        p.color = Color::Red;
        let ghost s1 = s;
        p.left = Some(s);
        let ghost p1 = p;
        proof {
            assert(keys(Some(s1)) == keys(Some(s0)));
            assert(keys(Some(p1)) =~= keys(Some(p0)));
            assert(size(Some(s1)) == size(Some(s0)));
            assert(size(Some(p1)) == size(Some(p0)));
            assert(ordered(Some(s1)));
            assert(ordered(Some(p1)));
        }
        let mut top = rotate_right(p);
        let ghost top0 = top;
        let inner = top.right.take().unwrap();
        proof {
            assert(ordered(Some(top0)));
            assert(ordered(Some(inner)));
            assert(!is_red(s0.right) && !is_red(s0.left));
            assert(black_height(s0.right) == black_height(Some(s0)));
        }
        let (fixed, _sh) = delete_fix_right(inner);
        top.right = Some(fixed);
        proof {
            assert(keys(Some(top)) =~= keys(Some(top0)));
            assert(size(Some(top)) == size(Some(top0)));
            assert(ordered(Some(top)));
            assert(black_height(Some(fixed)) == black_height(s0.right));
            assert(colored(top.left));
            assert(colored(Some(top)));
        }
        (top, false)
    } else if !is_red_link(&s.right) && !is_red_link(&s.left) {
        s.color = Color::Red;
        let ghost s1 = s;
        p.left = Some(s);
        proof {
            assert(keys(Some(s1)) == keys(Some(s0)));
            assert(size(Some(s1)) == size(Some(s0)));
            assert(ordered(Some(s1)));
            assert(keys(Some(p)) =~= keys(Some(p0)));
            assert(size(Some(p)) == size(Some(p0)));
            assert(ordered(Some(p)));
            assert(colored(Some(s1)));
            assert(black_height(Some(s1)) + 1 == black_height(Some(s0)));
        }
        if p.color == Color::Red {
            p.color = Color::Black;
            proof {
                assert(keys(Some(p)) =~= keys(Some(p0)));
                assert(colored(Some(p)));
            }
            (p, false)
        } else {
            proof {
                assert(colored(Some(p)));
            }
            (p, true)
        }
    } else {
        if !is_red_link(&s.left) {
            let mut near = s.right.take().unwrap();
            let ghost near0 = near;
            near.color = Color::Black;
            s.right = Some(near);
            s.color = Color::Red;
            let ghost s1 = s;
            proof {
                assert(keys(Some(near)) == keys(Some(near0)));
                assert(size(Some(near)) == size(Some(near0)));
                assert(keys(Some(s1)) =~= keys(Some(s0)));
                assert(size(Some(s1)) == size(Some(s0)));
                assert(ordered(Some(near0)));
                assert(ordered(Some(near)));
                assert(ordered(Some(s1)));
                assert(colored(Some(near0)));
                assert(!is_red(near0.right) && !is_red(near0.left));
            }
            s = rotate_left(s);
            proof {
                assert(colored(s.left));
                assert(colored(Some(s)));
            }
        }
        proof {
            assert(s.color == Color::Black);
            assert(is_red(s.left));
            assert(colored(Some(s)));
            assert(ordered(Some(s)));
            assert(keys(Some(s)) == keys(Some(s0)));
            assert(size(Some(s)) == size(Some(s0)));
            assert(black_height(Some(s)) == black_height(Some(s0)));
        }
        let ghost s2 = s;
        s.color = p.color;
        p.color = Color::Black;
        let mut far = s.left.take().unwrap();
        let ghost far0 = far;
        far.color = Color::Black;
        s.left = Some(far);
        let ghost s3 = s;
        p.left = Some(s);
        proof {
            assert(colored(s2.right) && colored(s2.left));
            assert(ordered(s2.right) && ordered(s2.left));
            assert(keys(Some(far)) == keys(Some(far0)));
            assert(size(Some(far)) == size(Some(far0)));
            assert(keys(Some(s3)) =~= keys(Some(s2)));
            assert(size(Some(s3)) == size(Some(s2)));
            assert(ordered(Some(far0)));
            assert(ordered(Some(far)));
            assert(ordered(Some(s3)));
            assert(keys(Some(p)) =~= keys(Some(p0)));
            assert(size(Some(p)) == size(Some(p0)));
            assert(ordered(Some(p)));
            assert(colored(Some(far0)));
            assert(colored(Some(far)));
        }
        let top = rotate_right(p);
        proof {
            assert(colored(top.right));
            assert(colored(top.left));
            assert(colored(Some(top)));
        }
        (top, false)
    }
}

/// Puts `child` in the place of a removed node of color `removed`. Removing
/// a black node over a red child is repaired on the spot by turning the child
/// black; removing a black node over an empty position leaves the position
/// one black node short, which the flag reports.
fn splice(child: Option<Box<Node>>, removed: Color) -> (r: (Option<Box<Node>>, bool))
    requires
        colored(child),
        ordered(child),
        removed == Color::Red ==> !is_red(child),
    ensures
        ordered(r.0),
        keys(r.0) == keys(child),
        size(r.0) == size(child),
        colored(r.0),
        !is_red(r.0),
        black_height(r.0) + (if r.1 {
            1nat
        } else {
            0nat
        }) == black_height(child) + own_black(removed),
{
    match child {
        Some(mut c) => {
            if c.color == Color::Red {
                let ghost c0 = c;
                c.color = Color::Black;
                proof {
                    assert(keys(Some(c)) == keys(Some(c0)));
                    assert(size(Some(c)) == size(Some(c0)));
                    assert(ordered(Some(c)));
                    assert(colored(Some(c)));
                }
                (Some(c), false)
            } else {
                (Some(c), removed == Color::Black)
            }
        },
        None => (None, removed == Color::Black),
    }
}

/// Removes the smallest key of a non-empty subtree and hands it back.
fn remove_min(mut t: Box<Node>) -> (r: (Option<Box<Node>>, u64, bool))
    requires
        ordered(Some(t)),
        colored(Some(t)),
    ensures
        is_least(keys(Some(t)), r.1),
        ordered(r.0),
        keys(r.0) == keys(Some(t)).remove(r.1),
        size(r.0) + 1 == size(Some(t)),
        colored(r.0),
        is_red(r.0) ==> t.color == Color::Red,
        r.2 ==> !is_red(r.0),
        t.color == Color::Red ==> !r.2,
        black_height(r.0) + (if r.2 {
            1nat
        } else {
            0nat
        }) == black_height(Some(t)),
    decreases t,
{
    let ghost t0 = t;
    proof {
        assert(keys(Some(t0)) == keys(t0.left).union(keys(t0.right)).insert(t0.key));
        assert(size(Some(t0)) == size(t0.left) + size(t0.right) + 1);
        assert(ordered(t0.left) && ordered(t0.right));
        assert(colored(t0.left) && colored(t0.right));
    }
    match t.left.take() {
        None => {
            let right = t.right.take();
            proof {
                assert(keys(right) =~= keys(Some(t0)).remove(t0.key));
                assert forall|j: u64| keys(Some(t0)).contains(j) implies t0.key <= j by {}
            }
            let (r, sh) = splice(right, t.color);
            (r, t.key, sh)
        },
        Some(l) => {
            let (nl, m, sh) = remove_min(l);
            t.left = nl;
            proof {
                assert(keys(Some(t)) =~= keys(Some(t0)).remove(m));
                assert(size(Some(t)) + 1 == size(Some(t0)));
                assert forall|j: u64| keys(Some(t0)).contains(j) implies m <= j by {
                    if keys(t0.right).contains(j) {
                        assert(keys(t0.left).contains(m));
                    }
                }
                assert(ordered(Some(t)));
            }
            if sh {
                let (f, sh2) = delete_fix_left(t);
                (Some(f), m, sh2)
            } else {
                proof {
                    assert(colored(Some(t)));
                }
                (Some(t), m, false)
            }
        },
    }
}

/// Removes `key`, which the subtree holds. The flag reports whether the
/// subtree lost one unit of black height; the caller repairs that.
fn delete_link(t: Option<Box<Node>>, key: u64) -> (r: (Option<Box<Node>>, bool))
    requires
        ordered(t),
        colored(t),
        keys(t).contains(key),
    ensures
        ordered(r.0),
        keys(r.0) == keys(t).remove(key),
        size(r.0) + 1 == size(t),
        colored(r.0),
        is_red(r.0) ==> is_red(t),
        r.1 ==> !is_red(r.0),
        is_red(t) ==> !r.1,
        black_height(r.0) + (if r.1 {
            1nat
        } else {
            0nat
        }) == black_height(t),
    decreases t,
{
    let mut n = t.unwrap();
    let ghost n0 = n;
    proof {
        assert(keys(t) == keys(n0.left).union(keys(n0.right)).insert(n0.key));
        assert(size(t) == size(n0.left) + size(n0.right) + 1);
        assert(ordered(n0.left) && ordered(n0.right));
        assert(colored(n0.left) && colored(n0.right));
    }
    if key < n.key {
        let l = n.left.take();
        let (nl, sh) = delete_link(l, key);
        n.left = nl;
        proof {
            assert(keys(Some(n)) =~= keys(t).remove(key));
            assert(ordered(Some(n)));
        }
        if sh {
            let (f, sh2) = delete_fix_left(n);
            (Some(f), sh2)
        } else {
            proof {
                assert(colored(Some(n)));
            }
            (Some(n), false)
        }
    } else if n.key < key {
        let rt = n.right.take();
        let (nr, sh) = delete_link(rt, key);
        n.right = nr;
        proof {
            assert(keys(Some(n)) =~= keys(t).remove(key));
            assert(ordered(Some(n)));
        }
        if sh {
            let (f, sh2) = delete_fix_right(n);
            (Some(f), sh2)
        } else {
            proof {
                assert(colored(Some(n)));
            }
            (Some(n), false)
        }
    } else if n.left.is_none() {
        proof {
            assert(keys(n0.right) =~= keys(t).remove(key));
        }
        splice(n.right, n.color)
    } else if n.right.is_none() {
        proof {
            assert(keys(n0.left) =~= keys(t).remove(key));
        }
        splice(n.left, n.color)
    } else {
        let rt = n.right.take().unwrap();
        let (nr, m, sh) = remove_min(rt);
        n.key = m;
        n.right = nr;
        proof {
            assert(keys(n0.right).contains(m));
            assert(keys(Some(n)) =~= keys(t).remove(key));
            assert(ordered(Some(n)));
        }
        if sh {
            let (f, sh2) = delete_fix_right(n);
            (Some(f), sh2)
        } else {
            proof {
                assert(colored(Some(n)));
            }
            (Some(n), false)
        }
    }
}

/// Rows of the tree diagram in prefix order: each node's key and color with
/// its depth below a subtree whose root stands at depth `d`.
pub open spec fn diagram(t: Option<Box<Node>>, d: nat) -> Seq<(u64, Color, nat)>
    decreases t,
{
    match t {
        None => Seq::empty(),
        Some(n) => seq![(n.key, n.color, d)] + diagram(n.left, d + 1) + diagram(n.right, d + 1),
    }
}

/// Diagram rows with their depths read as natural numbers.
pub open spec fn rows_view(s: Seq<(u64, Color, usize)>) -> Seq<(u64, Color, nat)> {
    s.map_values(|r: (u64, Color, usize)| (r.0, r.1, r.2 as nat))
}

fn diagram_into(t: &Option<Box<Node>>, d: usize, out: &mut Vec<(u64, Color, usize)>)
    requires
        d + height(*t) <= usize::MAX,
    ensures
        rows_view(final(out)@) == rows_view(old(out)@) + diagram(*t, d as nat),
    decreases *t,
{
    match t {
        None => {
            assert(rows_view(out@) =~= rows_view(out@) + diagram(*t, d as nat));
        },
        Some(n) => {
            let ghost o0 = out@;
            out.push((n.key, n.color, d));
            assert(rows_view(out@) =~= rows_view(o0) + seq![(n.key, n.color, d as nat)]);
            diagram_into(&n.left, d + 1, out);
            diagram_into(&n.right, d + 1, out);
            assert(rows_view(out@) =~= rows_view(o0) + diagram(*t, d as nat));
        },
    }
}

impl Node {
    /// A red leaf holding `key`: the shape in which a key enters the tree.
    pub fn new(key: u64) -> (r: Self)
        ensures
            r.key == key,
            r.color == Color::Red,
            r.left is None,
            r.right is None,
    {
        Node { key, color: Color::Red, left: None, right: None }
    }

    /// Number of nodes on the longest path from this node down to an empty
    /// position, this node included.
    pub fn height(&self) -> (r: usize)
        requires
            size(self.left) + size(self.right) < usize::MAX,
        ensures
            r == 1 + if height(self.left) >= height(self.right) {
                height(self.left)
            } else {
                height(self.right)
            },
    {
        proof {
            lemma_height_le_size(self.left);
            lemma_height_le_size(self.right);
        }
        let hl = height_link(&self.left);
        let hr = height_link(&self.right);
        if hl >= hr {
            1 + hl
        } else {
            1 + hr
        }
    }
}

impl RBTree {
    /// An empty tree.
    pub fn new() -> (r: Self)
        ensures
            r.wf(),
            r@ == Set::<u64>::empty(),
    {
        RBTree { root: None, count: 0 }
    }

    /// Number of stored keys.
    pub fn count(&self) -> (r: usize)
        requires
            self.wf(),
        ensures
            r == self@.len(),
    {
        proof {
            lemma_size_is_key_count(self.root);
        }
        self.count
    }

    /// Whether no key is stored.
    pub fn is_empty(&self) -> (r: bool)
        requires
            self.wf(),
        ensures
            r == (self@.len() == 0),
            r == (self@ == Set::<u64>::empty()),
    {
        proof {
            lemma_size_is_key_count(self.root);
            if self.root is Some {
                assert(self@.contains(self.root.unwrap().key));
            }
        }
        self.root.is_none()
    }

    /// Adds `key`. A key already present is left alone and `false` comes
    /// back; otherwise the key is added, the count grows by one, and `true`
    /// comes back.
    pub fn insert(&mut self, key: u64) -> (r: bool)
        requires
            old(self).wf(),
            old(self)@.len() < usize::MAX,
        ensures
            final(self).wf(),
            r == !old(self)@.contains(key),
            final(self)@ == old(self)@.insert(key),
    {
        if search_link(&self.root, key) {
            return false;
        }
        proof {
            lemma_size_is_key_count(self.root);
        }
        let root = self.root.take();
        let mut r = insert_link(root, key);
        r.color = Color::Black;
        self.root = Some(r);
        self.count = self.count + 1;
        true
    }

    /// Removes `key`. An absent key is left alone and `false` comes back;
    /// otherwise the key is removed, the count drops by one, and `true` comes
    /// back.
    pub fn delete(&mut self, key: u64) -> (r: bool)
        requires
            old(self).wf(),
        ensures
            final(self).wf(),
            r == old(self)@.contains(key),
            final(self)@ == old(self)@.remove(key),
    {
        if !search_link(&self.root, key) {
            proof {
                assert(old(self)@.remove(key) =~= old(self)@);
            }
            return false;
        }
        let root = self.root.take();
        let (r, _shorter) = delete_link(root, key);
        self.root = match r {
            None => None,
            Some(mut n) => {
                let ghost n0 = n;
                n.color = Color::Black;
                proof {
                    assert(keys(Some(n)) == keys(Some(n0)));
                    assert(size(Some(n)) == size(Some(n0)));
                    assert(ordered(Some(n)));
                    assert(colored(Some(n)));
                }
                Some(n)
            },
        };
        self.count = self.count - 1;
        true
    }

    /// The rows of a tree diagram: every node's key, color and depth (the
    /// root at depth zero), each node before its left and right subtrees.
    pub fn print_tree(&self) -> (r: Vec<(u64, Color, usize)>)
        requires
            self.wf(),
        ensures
            rows_view(r@) == diagram(self.root_link(), 0),
    {
        proof {
            lemma_height_le_size(self.root);
        }
        let mut out: Vec<(u64, Color, usize)> = Vec::new();
        diagram_into(&self.root, 0, &mut out);
        assert(rows_view(out@) =~= diagram(self.root, 0));
        out
    }

    /// Whether `key` is stored.
    pub fn search(&self, key: u64) -> (r: bool)
        requires
            self.wf(),
        ensures
            r == self@.contains(key),
    {
        search_link(&self.root, key)
    }

    /// Whether `key` is stored (the same question as `search`).
    pub fn search_element(&self, key: u64) -> (r: bool)
        requires
            self.wf(),
        ensures
            r == self@.contains(key),
    {
        search_link(&self.root, key)
    }

    /// The smallest stored key, or `None` on an empty tree.
    pub fn min(&self) -> (r: Option<u64>)
        requires
            self.wf(),
        ensures
            r is None <==> self@ == Set::<u64>::empty(),
            r matches Some(k) ==> is_least(self@, k),
    {
        match &self.root {
            None => None,
            Some(n) => {
                proof {
                    lemma_leftmost_least(self.root);
                }
                Some(find_min(n))
            },
        }
    }

    /// The largest stored key, or `None` on an empty tree.
    pub fn max(&self) -> (r: Option<u64>)
        requires
            self.wf(),
        ensures
            r is None <==> self@ == Set::<u64>::empty(),
            r matches Some(k) ==> is_greatest(self@, k),
    {
        match &self.root {
            None => None,
            Some(n) => {
                proof {
                    lemma_rightmost_greatest(self.root);
                }
                Some(find_max(n))
            },
        }
    }

    /// Number of nodes on the longest path from the root to an empty position.
    pub fn height(&self) -> (r: usize)
        requires
            self.wf(),
        ensures
            r == height(self.root_link()),
    {
        height_link(&self.root)
    }

    /// Number of nodes without children.
    pub fn leaves(&self) -> (r: usize)
        requires
            self.wf(),
        ensures
            r == leaf_count(self.root_link()),
    {
        leaves_link(&self.root)
    }

    /// The keys in ascending order.
    pub fn inorder(&self) -> (r: Vec<u64>)
        requires
            self.wf(),
        ensures
            r@ == inorder(self.root_link()),
            strictly_ascending(r@),
            r@.len() == self@.len(),
            forall|k: u64| r@.contains(k) <==> self@.contains(k),
    {
        let mut out: Vec<u64> = Vec::new();
        inorder_into(&self.root, &mut out);
        proof {
            assert(out@ =~= inorder(self.root));
            lemma_inorder_ascending(self.root);
            lemma_inorder_keys(self.root);
            lemma_size_is_key_count(self.root);
        }
        out
    }

    /// The keys in prefix order: each node before its left and right subtrees.
    pub fn preorder(&self) -> (r: Vec<u64>)
        requires
            self.wf(),
        ensures
            r@ == preorder(self.root_link()),
    {
        let mut out: Vec<u64> = Vec::new();
        preorder_into(&self.root, &mut out);
        assert(out@ =~= preorder(self.root));
        out
    }

    /// The keys level by level from the root down, each level from left to right.
    pub fn levelorder(&self) -> (r: Vec<u64>)
        requires
            self.wf(),
        ensures
            r@ == levelorder(self.root_link()),
    {
        levelorder_link(&self.root)
    }
}

} // verus!
