//! Red-black tree.
//!
//! An ordered map from keys with a [`TotalOrder`] to values, kept balanced
//! as a red-black tree: the root is black, no red node has a red child,
//! and every path from the root to a leaf crosses the same number of black
//! nodes. The abstract view of a tree is a [`Map`]; every operation's
//! contract is stated against that view.

use vstd::prelude::*;

use crate::order::{lt, Cmp, TotalOrder};

verus! {

/// Colour of a tree node.
#[derive(Debug, Clone, Copy, PartialEq, Eq, Structural)]
pub enum Color {
    Red,
    Black,
}

/// A binary tree with coloured nodes; the empty tree is `Leaf`.
pub(crate) enum Tree<K, V> {
    Leaf,
    Node { c: Color, l: Box<Tree<K, V>>, k: K, v: V, r: Box<Tree<K, V>> },
}

/// Every key of `m` comes strictly before `b`.
pub open spec fn keys_lt<K: TotalOrder, V>(m: Map<K, V>, b: K) -> bool {
    forall|x: K| #[trigger] m.dom().contains(x) ==> lt(x, b)
}

/// Every key of `m` comes strictly after `b`.
pub open spec fn keys_gt<K: TotalOrder, V>(m: Map<K, V>, b: K) -> bool {
    forall|x: K| #[trigger] m.dom().contains(x) ==> lt(b, x)
}

/// The map of a node with subtree maps `m1` and `m2` around the binding
/// `k -> v`.
pub open spec fn node_map<K: TotalOrder, V>(m1: Map<K, V>, k: K, v: V, m2: Map<K, V>) -> Map<
    K,
    V,
> {
    m1.union_prefer_right(m2).insert(k, v)
}

/// Rotation preserves the represented map: re-associating
/// `(x, k1, (y, k2, z))` into `((x, k1, y), k2, z)` changes nothing, as
/// long as the keys are layered `x < k1 < y < k2 < z`.
pub proof fn lemma_rotation<K: TotalOrder, V>(
    x: Map<K, V>,
    k1: K,
    v1: V,
    y: Map<K, V>,
    k2: K,
    v2: V,
    z: Map<K, V>,
)
    requires
        keys_lt(x, k1),
        keys_gt(y, k1),
        keys_lt(y, k2),
        keys_gt(z, k2),
        lt(k1, k2),
    ensures
        node_map(x, k1, v1, node_map(y, k2, v2, z)) =~= node_map(node_map(x, k1, v1, y), k2, v2, z),
{
    assert(!x.dom().contains(k2)) by {
        if x.dom().contains(k2) {
            TotalOrder::antisymmetric(k1, k2);
        }
    }
    assert(!z.dom().contains(k1)) by {
        if z.dom().contains(k1) {
            TotalOrder::antisymmetric(k1, k2);
        }
    }
    assert forall|q: K| #[trigger] x.dom().contains(q) implies !y.dom().contains(q)
        && !z.dom().contains(q) by {
        if y.dom().contains(q) {
            TotalOrder::antisymmetric(q, k1);
        }
        if z.dom().contains(q) {
            TotalOrder::transitive(q, k1, k2);
            TotalOrder::antisymmetric(q, k2);
        }
    }
    assert forall|q: K| #[trigger] y.dom().contains(q) implies !z.dom().contains(q) by {
        if z.dom().contains(q) {
            TotalOrder::antisymmetric(q, k2);
        }
    }
}


/// A node map's keys sit below `b` when both subtrees' keys and the node
/// key do.
pub proof fn lemma_node_map_keys_lt<K: TotalOrder, V>(
    m1: Map<K, V>,
    k: K,
    v: V,
    m2: Map<K, V>,
    b: K,
)
    requires
        keys_lt(m1, b),
        keys_lt(m2, b),
        lt(k, b),
    ensures
        keys_lt(node_map(m1, k, v, m2), b),
{
    assert forall|q: K| #[trigger] node_map(m1, k, v, m2).dom().contains(q) implies lt(q, b) by {
        if q != k {
            assert(m1.dom().contains(q) || m2.dom().contains(q));
        }
    }
}

/// Mirror image of `lemma_node_map_keys_lt`.
pub proof fn lemma_node_map_keys_gt<K: TotalOrder, V>(
    m1: Map<K, V>,
    k: K,
    v: V,
    m2: Map<K, V>,
    b: K,
)
    requires
        keys_gt(m1, b),
        keys_gt(m2, b),
        lt(b, k),
    ensures
        keys_gt(node_map(m1, k, v, m2), b),
{
    assert forall|q: K| #[trigger] node_map(m1, k, v, m2).dom().contains(q) implies lt(b, q) by {
        if q != k {
            assert(m1.dom().contains(q) || m2.dom().contains(q));
        }
    }
}

/// If every key of a node map sits below `b`, so do the subtree keys and
/// the node key.
pub proof fn lemma_node_map_keys_lt_parts<K: TotalOrder, V>(
    m1: Map<K, V>,
    k: K,
    v: V,
    m2: Map<K, V>,
    b: K,
)
    requires
        keys_lt(node_map(m1, k, v, m2), b),
    ensures
        keys_lt(m1, b),
        keys_lt(m2, b),
        lt(k, b),
{
    assert(node_map(m1, k, v, m2).dom().contains(k));
    assert forall|q: K| #[trigger] m1.dom().contains(q) implies lt(q, b) by {
        if q != k {
            assert(node_map(m1, k, v, m2).dom().contains(q));
        }
    }
    assert forall|q: K| #[trigger] m2.dom().contains(q) implies lt(q, b) by {
        if q != k {
            assert(node_map(m1, k, v, m2).dom().contains(q));
        }
    }
}

/// Mirror image of `lemma_node_map_keys_lt_parts`.
pub proof fn lemma_node_map_keys_gt_parts<K: TotalOrder, V>(
    m1: Map<K, V>,
    k: K,
    v: V,
    m2: Map<K, V>,
    b: K,
)
    requires
        keys_gt(node_map(m1, k, v, m2), b),
    ensures
        keys_gt(m1, b),
        keys_gt(m2, b),
        lt(b, k),
{
    assert(node_map(m1, k, v, m2).dom().contains(k));
    assert forall|q: K| #[trigger] m1.dom().contains(q) implies lt(b, q) by {
        if q != k {
            assert(node_map(m1, k, v, m2).dom().contains(q));
        }
    }
    assert forall|q: K| #[trigger] m2.dom().contains(q) implies lt(b, q) by {
        if q != k {
            assert(node_map(m1, k, v, m2).dom().contains(q));
        }
    }
}

/// Keys below `a` are below anything above `a`.
pub proof fn lemma_keys_lt_trans<K: TotalOrder, V>(m: Map<K, V>, a: K, b: K)
    requires
        keys_lt(m, a),
        lt(a, b),
    ensures
        keys_lt(m, b),
{
    assert forall|q: K| #[trigger] m.dom().contains(q) implies lt(q, b) by {
        TotalOrder::transitive(q, a, b);
        if q == b {
            TotalOrder::antisymmetric(a, b);
        }
    }
}

/// Keys above `a` are above anything below `a`.
pub proof fn lemma_keys_gt_trans<K: TotalOrder, V>(m: Map<K, V>, a: K, b: K)
    requires
        keys_gt(m, a),
        lt(b, a),
    ensures
        keys_gt(m, b),
{
    assert forall|q: K| #[trigger] m.dom().contains(q) implies lt(b, q) by {
        TotalOrder::transitive(b, a, q);
        if q == b {
            TotalOrder::antisymmetric(b, a);
        }
    }
}

/// Every key of `m1` comes strictly before every key of `m2`.
pub open spec fn maps_lt<K: TotalOrder, V>(m1: Map<K, V>, m2: Map<K, V>) -> bool {
    forall|x: K, y: K|
        #[trigger] m1.dom().contains(x) && #[trigger] m2.dom().contains(y) ==> lt(x, y)
}

/// `union_prefer_right` nests to the left unchanged: the right bias keeps
/// every binding in place.
pub proof fn lemma_union_into_left<K: TotalOrder, V>(
    m1: Map<K, V>,
    m2: Map<K, V>,
    k: K,
    v: V,
    m3: Map<K, V>,
)
    ensures
        m1.union_prefer_right(node_map(m2, k, v, m3)) =~= node_map(
            m1.union_prefer_right(m2),
            k,
            v,
            m3,
        ),
{
}

/// A node map absorbs a further map on the right when the node key stays
/// below it.
pub proof fn lemma_union_into_right<K: TotalOrder, V>(
    m1: Map<K, V>,
    k: K,
    v: V,
    m2: Map<K, V>,
    m3: Map<K, V>,
)
    requires
        keys_gt(m3, k),
    ensures
        node_map(m1, k, v, m2).union_prefer_right(m3) =~= node_map(
            m1,
            k,
            v,
            m2.union_prefer_right(m3),
        ),
{
    assert(!m3.dom().contains(k));
}

/// A union's keys stay below `b` when both sides' keys do.
pub proof fn lemma_union_keys_lt<K: TotalOrder, V>(m1: Map<K, V>, m2: Map<K, V>, b: K)
    requires
        keys_lt(m1, b),
        keys_lt(m2, b),
    ensures
        keys_lt(m1.union_prefer_right(m2), b),
{
    assert forall|q: K| #[trigger] m1.union_prefer_right(m2).dom().contains(q) implies lt(q, b) by {
        assert(m1.dom().contains(q) || m2.dom().contains(q));
    }
}

/// A union's keys stay above `b` when both sides' keys do.
pub proof fn lemma_union_keys_gt<K: TotalOrder, V>(m1: Map<K, V>, m2: Map<K, V>, b: K)
    requires
        keys_gt(m1, b),
        keys_gt(m2, b),
    ensures
        keys_gt(m1.union_prefer_right(m2), b),
{
    assert forall|q: K| #[trigger] m1.union_prefer_right(m2).dom().contains(q) implies lt(b, q) by {
        assert(m1.dom().contains(q) || m2.dom().contains(q));
    }
}

impl<K: TotalOrder, V> Tree<K, V> {
    /// The map this tree represents.
    pub(crate) open spec fn as_map(self) -> Map<K, V>
        decreases self,
    {
        match self {
            Tree::Leaf => Map::empty(),
            Tree::Node { c, l, k, v, r } => l.as_map().union_prefer_right(r.as_map()).insert(
                k,
                v,
            ),
        }
    }

    /// Number of nodes.
    pub(crate) open spec fn size(self) -> nat
        decreases self,
    {
        match self {
            Tree::Leaf => 0,
            Tree::Node { c, l, k, v, r } => l.size() + r.size() + 1,
        }
    }

    /// The pairs of the tree, in ascending key order.
    pub(crate) open spec fn inorder(self) -> Seq<(K, V)>
        decreases self,
    {
        match self {
            Tree::Leaf => Seq::empty(),
            Tree::Node { c, l, k, v, r } => l.inorder() + seq![(k, v)] + r.inorder(),
        }
    }

    /// Search-tree order: keys on the left come before the node's key,
    /// keys on the right after it.
    pub(crate) open spec fn bst(self) -> bool
        decreases self,
    {
        match self {
            Tree::Leaf => true,
            Tree::Node { c, l, k, v, r } => {
                &&& keys_lt(l.as_map(), k)
                &&& keys_gt(r.as_map(), k)
                &&& l.bst()
                &&& r.bst()
            },
        }
    }

    /// The root is a red node.
    pub(crate) open spec fn is_red(self) -> bool {
        match self {
            Tree::Leaf => false,
            Tree::Node { c, l, k, v, r } => c == Color::Red,
        }
    }

    /// No red node has a red child.
    pub(crate) open spec fn no_red_red(self) -> bool
        decreases self,
    {
        match self {
            Tree::Leaf => true,
            Tree::Node { c, l, k, v, r } => {
                &&& (c == Color::Red ==> !l.is_red() && !r.is_red())
                &&& l.no_red_red()
                &&& r.no_red_red()
            },
        }
    }

    /// Weakened colour soundness: both subtrees are sound, but the root may
    /// be red with a red child.
    pub(crate) open spec fn almost_no_red_red(self) -> bool {
        match self {
            Tree::Leaf => true,
            Tree::Node { c, l, k, v, r } => l.no_red_red() && r.no_red_red(),
        }
    }

    /// Number of black nodes on the path to the leftmost leaf.
    pub(crate) open spec fn bh(self) -> nat
        decreases self,
    {
        match self {
            Tree::Leaf => 0,
            Tree::Node { c, l, k, v, r } => l.bh() + if c == Color::Black {
                1nat
            } else {
                0nat
            },
        }
    }

    /// Every path from here to a leaf crosses the same number of black
    /// nodes.
    pub(crate) open spec fn bh_ok(self) -> bool
        decreases self,
    {
        match self {
            Tree::Leaf => true,
            Tree::Node { c, l, k, v, r } => {
                &&& l.bh() == r.bh()
                &&& l.bh_ok()
                &&& r.bh_ok()
            },
        }
    }

    /// Build a node, carrying every structural fact through the contract.
    fn node(c: Color, l: Tree<K, V>, k: K, v: V, r: Tree<K, V>) -> (t: Tree<K, V>)
        ensures
            t == (Tree::Node { c, l: Box::new(l), k, v, r: Box::new(r) }),
            t.as_map() =~= node_map(l.as_map(), k, v, r.as_map()),
            t.size() == l.size() + r.size() + 1,
            t.is_red() == (c == Color::Red),
            t.bh() == l.bh() + if c == Color::Black {
                1int
            } else {
                0int
            },
            (l.bst() && r.bst() && keys_lt(l.as_map(), k) && keys_gt(r.as_map(), k)) ==> t.bst(),
            (l.bh() == r.bh() && l.bh_ok() && r.bh_ok()) ==> t.bh_ok(),
            (l.no_red_red() && r.no_red_red() && (c == Color::Red ==> !l.is_red() && !r.is_red()))
                ==> t.no_red_red(),
            (l.no_red_red() && r.no_red_red()) ==> t.almost_no_red_red(),
    {
        Tree::Node { c, l: Box::new(l), k, v, r: Box::new(r) }
    }

    /// Rebuild the node `(l, k, v, r)` that is about to become black after
    /// an insertion into `l`, repairing a red-red violation at the top of
    /// `l` by a rotation.
    fn bali_l(l: Tree<K, V>, k: K, v: V, r: Tree<K, V>) -> (t: Tree<K, V>)
        requires
            l.bst(),
            r.bst(),
            keys_lt(l.as_map(), k),
            keys_gt(r.as_map(), k),
            l.bh_ok(),
            r.bh_ok(),
            l.bh() == r.bh(),
            l.almost_no_red_red(),
            r.no_red_red(),
        ensures
            t.as_map() =~= node_map(l.as_map(), k, v, r.as_map()),
            t.bst(),
            t.size() == l.size() + r.size() + 1,
            t.no_red_red(),
            t.bh_ok(),
            t.bh() == l.bh() + 1,
    {
        let ghost l0 = l;
        let ghost r0 = r;
        let ghost k0 = k;
        let ghost v0 = v;
        match l {
            Tree::Node { c: Color::Red, l: ll, k: lk, v: lv, r: lr } => {
                let ghost ll0 = *ll;
                let ghost lr0 = *lr;
                let ghost lk0 = lk;
                let ghost lv0 = lv;
                proof {
                    assert(ll0.bst());
                    assert(lr0.bst());
                    assert(keys_lt(ll0.as_map(), lk0));
                    assert(keys_gt(lr0.as_map(), lk0));
                    assert(ll0.no_red_red());
                    assert(lr0.no_red_red());
                    assert(ll0.bh_ok());
                    assert(lr0.bh_ok());
                    assert(ll0.bh() == lr0.bh());
                    assert(l0.size() == ll0.size() + lr0.size() + 1);
                    lemma_node_map_keys_lt_parts(ll0.as_map(), lk0, lv0, lr0.as_map(), k0);
                }
                match *ll {
                    Tree::Node { c: Color::Red, l: a, k: ak, v: av, r: b } => {
                        // (R (R a ak b) lk lr) k r  ->  R (B a ak b) lk (B lr k r)
                        proof {
                            assert(ll0 == (Tree::Node { c: Color::Red, l: a, k: ak, v: av, r: b }));
                            assert(a.bst() && b.bst());
                            assert(keys_lt(a.as_map(), ak) && keys_gt(b.as_map(), ak));
                            assert(a.no_red_red() && b.no_red_red());
                            assert(a.bh_ok() && b.bh_ok() && a.bh() == b.bh());
                            assert(ll0.size() == a.size() + b.size() + 1);
                        }
                        let left_sub = Tree::node(Color::Black, *a, ak, av, *b);
                        let right_sub = Tree::node(Color::Black, *lr, k, v, r);
                        proof {
                            lemma_rotation(
                                ll0.as_map(),
                                lk0,
                                lv0,
                                lr0.as_map(),
                                k0,
                                v0,
                                r0.as_map(),
                            );
                            lemma_keys_gt_trans(r0.as_map(), k0, lk0);
                            lemma_node_map_keys_gt(lr0.as_map(), k0, v0, r0.as_map(), lk0);
                        }
                        Tree::node(Color::Red, left_sub, lk, lv, right_sub)
                    },
                    ll_other => {
                        proof {
                            assert(ll0 == ll_other);
                        }
                        match *lr {
                            Tree::Node { c: Color::Red, l: b, k: bk, v: bv, r: cc } => {
                                // (R ll lk (R b bk cc)) k r -> R (B ll lk b) bk (B cc k r)
                                let ghost b0 = *b;
                                let ghost cc0 = *cc;
                                let ghost bk0 = bk;
                                let ghost bv0 = bv;
                                proof {
                                    assert(lr0 == (Tree::Node {
                                        c: Color::Red,
                                        l: b,
                                        k: bk,
                                        v: bv,
                                        r: cc,
                                    }));
                                    assert(b0.bst() && cc0.bst());
                                    assert(keys_lt(b0.as_map(), bk0));
                                    assert(keys_gt(cc0.as_map(), bk0));
                                    assert(b0.no_red_red() && cc0.no_red_red());
                                    assert(b0.bh_ok() && cc0.bh_ok() && b0.bh() == cc0.bh());
                                    assert(lr0.size() == b0.size() + cc0.size() + 1);
                                    lemma_node_map_keys_lt_parts(
                                        b0.as_map(),
                                        bk0,
                                        bv0,
                                        cc0.as_map(),
                                        k0,
                                    );
                                    lemma_node_map_keys_gt_parts(
                                        b0.as_map(),
                                        bk0,
                                        bv0,
                                        cc0.as_map(),
                                        lk0,
                                    );
                                }
                                let left_sub = Tree::node(Color::Black, ll_other, lk, lv, *b);
                                let right_sub = Tree::node(Color::Black, *cc, k, v, r);
                                proof {
                                    // Re-associate twice: first inside the old left
                                    // subtree, then at the node being rebuilt.
                                    lemma_rotation(
                                        ll0.as_map(),
                                        lk0,
                                        lv0,
                                        b0.as_map(),
                                        bk0,
                                        bv0,
                                        cc0.as_map(),
                                    );
                                    lemma_keys_lt_trans(ll0.as_map(), lk0, bk0);
                                    lemma_node_map_keys_lt(
                                        ll0.as_map(),
                                        lk0,
                                        lv0,
                                        b0.as_map(),
                                        bk0,
                                    );
                                    lemma_rotation(
                                        node_map(ll0.as_map(), lk0, lv0, b0.as_map()),
                                        bk0,
                                        bv0,
                                        cc0.as_map(),
                                        k0,
                                        v0,
                                        r0.as_map(),
                                    );
                                    lemma_keys_gt_trans(r0.as_map(), k0, bk0);
                                    lemma_node_map_keys_gt(
                                        cc0.as_map(),
                                        k0,
                                        v0,
                                        r0.as_map(),
                                        bk0,
                                    );
                                }
                                Tree::node(Color::Red, left_sub, bk, bv, right_sub)
                            },
                            lr_other => {
                                proof {
                                    assert(lr0 == lr_other);
                                }
                                let left_sub = Tree::node(Color::Red, ll_other, lk, lv, lr_other);
                                Tree::node(Color::Black, left_sub, k, v, r)
                            },
                        }
                    },
                }
            },
            other => {
                proof {
                    assert(l0 == other);
                }
                Tree::node(Color::Black, other, k, v, r)
            },
        }
    }

    /// Mirror image of `bali_l`: repair after an insertion into `r`.
    fn bali_r(l: Tree<K, V>, k: K, v: V, r: Tree<K, V>) -> (t: Tree<K, V>)
        requires
            l.bst(),
            r.bst(),
            keys_lt(l.as_map(), k),
            keys_gt(r.as_map(), k),
            l.bh_ok(),
            r.bh_ok(),
            l.bh() == r.bh(),
            l.no_red_red(),
            r.almost_no_red_red(),
        ensures
            t.as_map() =~= node_map(l.as_map(), k, v, r.as_map()),
            t.bst(),
            t.size() == l.size() + r.size() + 1,
            t.no_red_red(),
            t.bh_ok(),
            t.bh() == l.bh() + 1,
    {
        let ghost l0 = l;
        let ghost r0 = r;
        let ghost k0 = k;
        let ghost v0 = v;
        match r {
            Tree::Node { c: Color::Red, l: rl, k: rk, v: rv, r: rr } => {
                let ghost rl0 = *rl;
                let ghost rr0 = *rr;
                let ghost rk0 = rk;
                let ghost rv0 = rv;
                proof {
                    assert(rl0.bst());
                    assert(rr0.bst());
                    assert(keys_lt(rl0.as_map(), rk0));
                    assert(keys_gt(rr0.as_map(), rk0));
                    assert(rl0.no_red_red());
                    assert(rr0.no_red_red());
                    assert(rl0.bh_ok());
                    assert(rr0.bh_ok());
                    assert(rl0.bh() == rr0.bh());
                    assert(r0.size() == rl0.size() + rr0.size() + 1);
                    lemma_node_map_keys_gt_parts(rl0.as_map(), rk0, rv0, rr0.as_map(), k0);
                }
                match *rr {
                    Tree::Node { c: Color::Red, l: b, k: bk, v: bv, r: cc } => {
                        // l k (R rl rk (R b bk cc)) -> R (B l k rl) rk (B b bk cc)
                        proof {
                            assert(rr0 == (Tree::Node { c: Color::Red, l: b, k: bk, v: bv, r: cc }));
                            assert(b.bst() && cc.bst());
                            assert(keys_lt(b.as_map(), bk) && keys_gt(cc.as_map(), bk));
                            assert(b.no_red_red() && cc.no_red_red());
                            assert(b.bh_ok() && cc.bh_ok() && b.bh() == cc.bh());
                            assert(rr0.size() == b.size() + cc.size() + 1);
                        }
                        let left_sub = Tree::node(Color::Black, l, k, v, *rl);
                        let right_sub = Tree::node(Color::Black, *b, bk, bv, *cc);
                        proof {
                            lemma_rotation(
                                l0.as_map(),
                                k0,
                                v0,
                                rl0.as_map(),
                                rk0,
                                rv0,
                                rr0.as_map(),
                            );
                            lemma_keys_lt_trans(l0.as_map(), k0, rk0);
                            lemma_node_map_keys_lt(l0.as_map(), k0, v0, rl0.as_map(), rk0);
                        }
                        Tree::node(Color::Red, left_sub, rk, rv, right_sub)
                    },
                    rr_other => {
                        proof {
                            assert(rr0 == rr_other);
                        }
                        match *rl {
                            Tree::Node { c: Color::Red, l: a, k: ak, v: av, r: b } => {
                                // l k (R (R a ak b) rk rr) -> R (B l k a) ak (B b rk rr)
                                let ghost a0 = *a;
                                let ghost b0 = *b;
                                let ghost ak0 = ak;
                                let ghost av0 = av;
                                proof {
                                    assert(rl0 == (Tree::Node {
                                        c: Color::Red,
                                        l: a,
                                        k: ak,
                                        v: av,
                                        r: b,
                                    }));
                                    assert(a0.bst() && b0.bst());
                                    assert(keys_lt(a0.as_map(), ak0));
                                    assert(keys_gt(b0.as_map(), ak0));
                                    assert(a0.no_red_red() && b0.no_red_red());
                                    assert(a0.bh_ok() && b0.bh_ok() && a0.bh() == b0.bh());
                                    assert(rl0.size() == a0.size() + b0.size() + 1);
                                    lemma_node_map_keys_gt_parts(
                                        a0.as_map(),
                                        ak0,
                                        av0,
                                        b0.as_map(),
                                        k0,
                                    );
                                    lemma_node_map_keys_lt_parts(
                                        a0.as_map(),
                                        ak0,
                                        av0,
                                        b0.as_map(),
                                        rk0,
                                    );
                                }
                                let left_sub = Tree::node(Color::Black, l, k, v, *a);
                                let right_sub = Tree::node(Color::Black, *b, rk, rv, rr_other);
                                proof {
                                    // Two re-associations, mirroring `bali_l`: pull
                                    // the pivot `ak` up in two steps.
                                    lemma_rotation(
                                        a0.as_map(),
                                        ak0,
                                        av0,
                                        b0.as_map(),
                                        rk0,
                                        rv0,
                                        rr0.as_map(),
                                    );
                                    lemma_keys_gt_trans(rr0.as_map(), rk0, ak0);
                                    lemma_node_map_keys_gt(
                                        b0.as_map(),
                                        rk0,
                                        rv0,
                                        rr0.as_map(),
                                        ak0,
                                    );
                                    lemma_rotation(
                                        l0.as_map(),
                                        k0,
                                        v0,
                                        a0.as_map(),
                                        ak0,
                                        av0,
                                        node_map(b0.as_map(), rk0, rv0, rr0.as_map()),
                                    );
                                    lemma_keys_lt_trans(l0.as_map(), k0, ak0);
                                    lemma_node_map_keys_lt(
                                        l0.as_map(),
                                        k0,
                                        v0,
                                        a0.as_map(),
                                        ak0,
                                    );
                                }
                                Tree::node(Color::Red, left_sub, ak, av, right_sub)
                            },
                            rl_other => {
                                proof {
                                    assert(rl0 == rl_other);
                                }
                                let right_sub = Tree::node(Color::Red, rl_other, rk, rv, rr_other);
                                Tree::node(Color::Black, l, k, v, right_sub)
                            },
                        }
                    },
                }
            },
            other => {
                proof {
                    assert(r0 == other);
                }
                Tree::node(Color::Black, l, k, v, other)
            },
        }
    }

    /// Paint a black root red, losing one unit of black height.
    fn paint_red(t: Tree<K, V>) -> (res: Tree<K, V>)
        requires
            t.bst(),
            t.no_red_red(),
            t.bh_ok(),
            !t.is_red(),
            t.bh() >= 1,
        ensures
            res.as_map() =~= t.as_map(),
            res.bst(),
            res.size() == t.size(),
            res.bh_ok(),
            res.bh() + 1 == t.bh(),
            res.almost_no_red_red(),
            res.is_red(),
    {
        match t {
            Tree::Leaf => {
                proof {
                    assert(false);
                }
                Tree::Leaf
            },
            Tree::Node { c, l, k, v, r } => {
                let ghost l0 = *l;
                let ghost r0 = *r;
                proof {
                    assert(l0.bst() && r0.bst());
                    assert(l0.no_red_red() && r0.no_red_red());
                    assert(l0.bh_ok() && r0.bh_ok() && l0.bh() == r0.bh());
                }
                Tree::node(Color::Red, *l, k, v, *r)
            },
        }
    }

    /// Rebuild the node `(l, k, v, r)` after a deletion in `l` left it one
    /// unit short in black height.
    fn bald_l(l: Tree<K, V>, k: K, v: V, r: Tree<K, V>) -> (t: Tree<K, V>)
        requires
            l.bst(),
            r.bst(),
            keys_lt(l.as_map(), k),
            keys_gt(r.as_map(), k),
            l.bh_ok(),
            r.bh_ok(),
            l.bh() + 1 == r.bh(),
            l.almost_no_red_red(),
            r.no_red_red(),
        ensures
            t.as_map() =~= node_map(l.as_map(), k, v, r.as_map()),
            t.bst(),
            t.size() == l.size() + r.size() + 1,
            t.bh_ok(),
            t.bh() == r.bh(),
            t.almost_no_red_red(),
            !r.is_red() ==> t.no_red_red(),
    {
        let ghost l0 = l;
        let ghost r0 = r;
        let ghost k0 = k;
        let ghost v0 = v;
        match l {
            Tree::Node { c: Color::Red, l: t1, k: a, v: va, r: t2 } => {
                // The red left root absorbs the deficit by turning black.
                proof {
                    assert(t1.bst() && t2.bst());
                    assert(keys_lt(t1.as_map(), a) && keys_gt(t2.as_map(), a));
                    assert(t1.no_red_red() && t2.no_red_red());
                    assert(t1.bh_ok() && t2.bh_ok() && t1.bh() == t2.bh());
                    assert(l0.size() == t1.size() + t2.size() + 1);
                }
                let left_sub = Tree::node(Color::Black, *t1, a, va, *t2);
                Tree::node(Color::Red, left_sub, k, v, r)
            },
            other => {
                let ghost lo0 = other;
                proof {
                    assert(lo0.no_red_red());
                }
                match r {
                    Tree::Node { c: Color::Black, l: t2, k: b, v: vb, r: t3 } => {
                        // Lend the deficit side a red sibling and rebalance.
                        let ghost t20 = *t2;
                        let ghost t30 = *t3;
                        let ghost b0 = b;
                        proof {
                            assert(t20.bst() && t30.bst());
                            assert(keys_lt(t20.as_map(), b0) && keys_gt(t30.as_map(), b0));
                            assert(t20.no_red_red() && t30.no_red_red());
                            assert(t20.bh_ok() && t30.bh_ok() && t20.bh() == t30.bh());
                            assert(r0.size() == t20.size() + t30.size() + 1);
                            lemma_node_map_keys_gt_parts(
                                t20.as_map(),
                                b0,
                                vb,
                                t30.as_map(),
                                k0,
                            );
                        }
                        let red_sib = Tree::node(Color::Red, *t2, b, vb, *t3);
                        Tree::bali_r(other, k, v, red_sib)
                    },
                    Tree::Node { c: Color::Red, l: rl, k: b, v: vb, r: t4 } => {
                        let ghost rl0 = *rl;
                        let ghost t40 = *t4;
                        let ghost b0 = b;
                        let ghost vb0 = vb;
                        proof {
                            assert(rl0.bst() && t40.bst());
                            assert(keys_lt(rl0.as_map(), b0) && keys_gt(t40.as_map(), b0));
                            assert(rl0.no_red_red() && t40.no_red_red());
                            assert(rl0.bh_ok() && t40.bh_ok() && rl0.bh() == t40.bh());
                            assert(r0.size() == rl0.size() + t40.size() + 1);
                            assert(!rl0.is_red() && !t40.is_red());
                            lemma_node_map_keys_gt_parts(
                                rl0.as_map(),
                                b0,
                                vb0,
                                t40.as_map(),
                                k0,
                            );
                        }
                        match *rl {
                            Tree::Node { c: Color::Black, l: t2, k: bb, v: vbb, r: t3 } => {
                                let ghost t20 = *t2;
                                let ghost t30 = *t3;
                                let ghost bb0 = bb;
                                let ghost vbb0 = vbb;
                                proof {
                                    assert(rl0 == (Tree::Node {
                                        c: Color::Black,
                                        l: t2,
                                        k: bb,
                                        v: vbb,
                                        r: t3,
                                    }));
                                    assert(t20.bst() && t30.bst());
                                    assert(keys_lt(t20.as_map(), bb0));
                                    assert(keys_gt(t30.as_map(), bb0));
                                    assert(t20.no_red_red() && t30.no_red_red());
                                    assert(t20.bh_ok() && t30.bh_ok() && t20.bh() == t30.bh());
                                    assert(rl0.size() == t20.size() + t30.size() + 1);
                                    lemma_node_map_keys_lt_parts(
                                        t20.as_map(),
                                        bb0,
                                        vbb0,
                                        t30.as_map(),
                                        b0,
                                    );
                                }
                                proof {
                                    assert(lo0.no_red_red());
                                    lemma_node_map_keys_gt_parts(
                                        t20.as_map(),
                                        bb0,
                                        vbb0,
                                        t30.as_map(),
                                        k0,
                                    );
                                }
                                let left_sub = Tree::node(Color::Black, other, k, v, *t2);
                                let painted = Tree::paint_red(*t4);
                                let right_sub = Tree::bali_r(*t3, b, vb, painted);
                                proof {
                                    // Two re-associations: the old red right child
                                    // splits around its left grandchild's key.
                                    lemma_rotation(
                                        t20.as_map(),
                                        bb0,
                                        vbb0,
                                        t30.as_map(),
                                        b0,
                                        vb0,
                                        t40.as_map(),
                                    );
                                    lemma_keys_gt_trans(t40.as_map(), b0, bb0);
                                    lemma_node_map_keys_gt(
                                        t30.as_map(),
                                        b0,
                                        vb0,
                                        t40.as_map(),
                                        bb0,
                                    );
                                    lemma_rotation(
                                        lo0.as_map(),
                                        k0,
                                        v0,
                                        t20.as_map(),
                                        bb0,
                                        vbb0,
                                        node_map(t30.as_map(), b0, vb0, t40.as_map()),
                                    );
                                    lemma_keys_lt_trans(lo0.as_map(), k0, bb0);
                                    lemma_node_map_keys_lt(
                                        lo0.as_map(),
                                        k0,
                                        v0,
                                        t20.as_map(),
                                        bb0,
                                    );
                                }
                                Tree::node(Color::Red, left_sub, bb, vbb, right_sub)
                            },
                            rl_other => {
                                proof {
                                    assert(rl0 == rl_other);
                                    assert(rl0.bh() == l0.bh());
                                    assert(false);
                                }
                                rl_other
                            },
                        }
                    },
                    Tree::Leaf => {
                        proof {
                            assert(r0.bh() == 0);
                            assert(false);
                        }
                        other
                    },
                }
            },
        }
    }

    /// Mirror image of `bald_l`: rebuild after a deletion in `r` left it
    /// one unit short in black height.
    fn bald_r(l: Tree<K, V>, k: K, v: V, r: Tree<K, V>) -> (t: Tree<K, V>)
        requires
            l.bst(),
            r.bst(),
            keys_lt(l.as_map(), k),
            keys_gt(r.as_map(), k),
            l.bh_ok(),
            r.bh_ok(),
            r.bh() + 1 == l.bh(),
            l.no_red_red(),
            r.almost_no_red_red(),
        ensures
            t.as_map() =~= node_map(l.as_map(), k, v, r.as_map()),
            t.bst(),
            t.size() == l.size() + r.size() + 1,
            t.bh_ok(),
            t.bh() == l.bh(),
            t.almost_no_red_red(),
            !l.is_red() ==> t.no_red_red(),
    {
        let ghost l0 = l;
        let ghost r0 = r;
        let ghost k0 = k;
        let ghost v0 = v;
        match r {
            Tree::Node { c: Color::Red, l: t2, k: b, v: vb, r: t3 } => {
                // The red right root absorbs the deficit by turning black.
                proof {
                    assert(t2.bst() && t3.bst());
                    assert(keys_lt(t2.as_map(), b) && keys_gt(t3.as_map(), b));
                    assert(t2.no_red_red() && t3.no_red_red());
                    assert(t2.bh_ok() && t3.bh_ok() && t2.bh() == t3.bh());
                    assert(r0.size() == t2.size() + t3.size() + 1);
                }
                let right_sub = Tree::node(Color::Black, *t2, b, vb, *t3);
                Tree::node(Color::Red, l, k, v, right_sub)
            },
            other => {
                let ghost ro0 = other;
                proof {
                    assert(ro0.no_red_red());
                }
                match l {
                    Tree::Node { c: Color::Black, l: t1, k: a, v: va, r: t2 } => {
                        // Lend the deficit side a red sibling and rebalance.
                        let ghost t10 = *t1;
                        let ghost t20 = *t2;
                        let ghost a0 = a;
                        proof {
                            assert(t10.bst() && t20.bst());
                            assert(keys_lt(t10.as_map(), a0) && keys_gt(t20.as_map(), a0));
                            assert(t10.no_red_red() && t20.no_red_red());
                            assert(t10.bh_ok() && t20.bh_ok() && t10.bh() == t20.bh());
                            assert(l0.size() == t10.size() + t20.size() + 1);
                            lemma_node_map_keys_lt_parts(
                                t10.as_map(),
                                a0,
                                va,
                                t20.as_map(),
                                k0,
                            );
                        }
                        let red_sib = Tree::node(Color::Red, *t1, a, va, *t2);
                        Tree::bali_l(red_sib, k, v, other)
                    },
                    Tree::Node { c: Color::Red, l: t1, k: a, v: va, r: lr } => {
                        let ghost t10 = *t1;
                        let ghost lr0 = *lr;
                        let ghost a0 = a;
                        let ghost va0 = va;
                        proof {
                            assert(t10.bst() && lr0.bst());
                            assert(keys_lt(t10.as_map(), a0) && keys_gt(lr0.as_map(), a0));
                            assert(t10.no_red_red() && lr0.no_red_red());
                            assert(t10.bh_ok() && lr0.bh_ok() && t10.bh() == lr0.bh());
                            assert(l0.size() == t10.size() + lr0.size() + 1);
                            assert(!t10.is_red() && !lr0.is_red());
                            lemma_node_map_keys_lt_parts(
                                t10.as_map(),
                                a0,
                                va0,
                                lr0.as_map(),
                                k0,
                            );
                        }
                        match *lr {
                            Tree::Node { c: Color::Black, l: t2, k: b, v: vb, r: t3 } => {
                                let ghost t20 = *t2;
                                let ghost t30 = *t3;
                                let ghost b0 = b;
                                let ghost vb0 = vb;
                                proof {
                                    assert(lr0 == (Tree::Node {
                                        c: Color::Black,
                                        l: t2,
                                        k: b,
                                        v: vb,
                                        r: t3,
                                    }));
                                    assert(t20.bst() && t30.bst());
                                    assert(keys_lt(t20.as_map(), b0));
                                    assert(keys_gt(t30.as_map(), b0));
                                    assert(t20.no_red_red() && t30.no_red_red());
                                    assert(t20.bh_ok() && t30.bh_ok() && t20.bh() == t30.bh());
                                    assert(lr0.size() == t20.size() + t30.size() + 1);
                                    lemma_node_map_keys_gt_parts(
                                        t20.as_map(),
                                        b0,
                                        vb0,
                                        t30.as_map(),
                                        a0,
                                    );
                                    lemma_node_map_keys_lt_parts(
                                        t20.as_map(),
                                        b0,
                                        vb0,
                                        t30.as_map(),
                                        k0,
                                    );
                                }
                                let painted = Tree::paint_red(*t1);
                                let left_sub = Tree::bali_l(painted, a, va, *t2);
                                let right_sub = Tree::node(Color::Black, *t3, k, v, other);
                                proof {
                                    // Two re-associations: the old red left child
                                    // splits around its right grandchild's key.
                                    lemma_rotation(
                                        t10.as_map(),
                                        a0,
                                        va0,
                                        t20.as_map(),
                                        b0,
                                        vb0,
                                        t30.as_map(),
                                    );
                                    lemma_keys_lt_trans(t10.as_map(), a0, b0);
                                    lemma_node_map_keys_lt(
                                        t10.as_map(),
                                        a0,
                                        va0,
                                        t20.as_map(),
                                        b0,
                                    );
                                    lemma_keys_gt_trans(r0.as_map(), k0, b0);
                                    lemma_rotation(
                                        node_map(t10.as_map(), a0, va0, t20.as_map()),
                                        b0,
                                        vb0,
                                        t30.as_map(),
                                        k0,
                                        v0,
                                        r0.as_map(),
                                    );
                                    lemma_node_map_keys_gt(
                                        t30.as_map(),
                                        k0,
                                        v0,
                                        r0.as_map(),
                                        b0,
                                    );
                                }
                                Tree::node(Color::Red, left_sub, b, vb, right_sub)
                            },
                            lr_other => {
                                proof {
                                    assert(lr0 == lr_other);
                                    assert(false);
                                }
                                lr_other
                            },
                        }
                    },
                    Tree::Leaf => {
                        proof {
                            assert(l0.bh() == 0);
                            assert(false);
                        }
                        other
                    },
                }
            },
        }
    }

    /// Concatenate two trees of equal black height whose key ranges do
    /// not overlap: every key of `l` comes before every key of `r`.
    #[verifier::spinoff_prover]
    #[verifier::rlimit(100)]
    fn join(l: Tree<K, V>, r: Tree<K, V>) -> (t: Tree<K, V>)
        requires
            l.bst(),
            r.bst(),
            maps_lt(l.as_map(), r.as_map()),
            l.bh_ok(),
            r.bh_ok(),
            l.bh() == r.bh(),
            l.no_red_red(),
            r.no_red_red(),
        ensures
            t.as_map() =~= l.as_map().union_prefer_right(r.as_map()),
            t.bst(),
            t.size() == l.size() + r.size(),
            t.bh_ok(),
            t.bh() == l.bh(),
            t.almost_no_red_red(),
            (!l.is_red() && !r.is_red()) ==> t.no_red_red(),
        decreases l.size() + r.size(),
    {
        let ghost l0 = l;
        let ghost r0 = r;
        match l {
            Tree::Leaf => r,
            Tree::Node { c: lc, l: t1, k: ka, v: va, r: t2 } => {
                let ghost t10 = *t1;
                let ghost t20 = *t2;
                let ghost ka0 = ka;
                let ghost va0 = va;
                proof {
                    assert(t10.bst() && t20.bst());
                    assert(keys_lt(t10.as_map(), ka0) && keys_gt(t20.as_map(), ka0));
                    assert(t10.no_red_red() && t20.no_red_red());
                    assert(t10.bh_ok() && t20.bh_ok() && t10.bh() == t20.bh());
                    assert(l0.size() == t10.size() + t20.size() + 1);
                    assert(l0.as_map().dom().contains(ka0));
                }
                match r {
                    Tree::Leaf => {
                        proof {
                            assert(r0.as_map() =~= Map::<K, V>::empty());
                            assert(l0.as_map().union_prefer_right(r0.as_map()) =~= l0.as_map());
                        }
                        Tree::node(lc, *t1, ka, va, *t2)
                    },
                    Tree::Node { c: rc, l: t3, k: kc, v: vc, r: t4 } => {
                        let ghost t30 = *t3;
                        let ghost t40 = *t4;
                        let ghost kc0 = kc;
                        let ghost vc0 = vc;
                        proof {
                            assert(t30.bst() && t40.bst());
                            assert(keys_lt(t30.as_map(), kc0) && keys_gt(t40.as_map(), kc0));
                            assert(t30.no_red_red() && t40.no_red_red());
                            assert(t30.bh_ok() && t40.bh_ok() && t30.bh() == t40.bh());
                            assert(r0.size() == t30.size() + t40.size() + 1);
                            assert(r0.as_map().dom().contains(kc0));
                            // Everything on the left sits below everything on the
                            // right; instantiate that for the pieces in play.
                            assert forall|q: K| #[trigger] t30.as_map().dom().contains(q) implies lt(
                                ka0,
                                q,
                            ) && q != kc0 by {
                                assert(r0.as_map().dom().contains(q));
                            }
                            assert forall|q: K| #[trigger] t20.as_map().dom().contains(q) implies lt(
                                q,
                                kc0,
                            ) by {
                                assert(l0.as_map().dom().contains(q));
                            }
                            assert(lt(ka0, kc0));
                            assert forall|x: K, y: K|
                                #[trigger] t20.as_map().dom().contains(x) && #[trigger] t30.as_map().dom().contains(
                                    y,
                                ) implies lt(x, y) by {
                                assert(l0.as_map().dom().contains(x));
                                assert(r0.as_map().dom().contains(y));
                            }
                            lemma_union_keys_gt(t20.as_map(), t30.as_map(), ka0);
                            lemma_union_keys_lt(t20.as_map(), t30.as_map(), kc0);
                            assert forall|q: K| #[trigger] t40.as_map().dom().contains(q) implies lt(
                                ka0,
                                q,
                            ) by {
                                assert(r0.as_map().dom().contains(q));
                            }
                            lemma_node_map_keys_gt(t30.as_map(), kc0, vc0, t40.as_map(), ka0);
                        }
                        match (lc, rc) {
                            (Color::Red, Color::Red) => {
                                let j = Tree::join(*t2, *t3);
                                let ghost j0 = j;
                                match j {
                                    Tree::Node { c: Color::Red, l: u2, k: kb, v: vb, r: u3 } => {
                                        let ghost u20 = *u2;
                                        let ghost u30 = *u3;
                                        let ghost kb0 = kb;
                                        let ghost vb0 = vb;
                                        proof {
                                            assert(j0 == (Tree::Node {
                                                c: Color::Red,
                                                l: u2,
                                                k: kb,
                                                v: vb,
                                                r: u3,
                                            }));
                                            assert(u20.bst() && u30.bst());
                                            assert(keys_lt(u20.as_map(), kb0));
                                            assert(keys_gt(u30.as_map(), kb0));
                                            assert(u20.no_red_red() && u30.no_red_red());
                                            assert(!u20.is_red() && !u30.is_red());
                                            assert(u20.bh_ok() && u30.bh_ok() && u20.bh()
                                                == u30.bh());
                                            assert(j0.size() == u20.size() + u30.size() + 1);
                                            assert(j0.as_map() == node_map(
                                                u20.as_map(),
                                                kb0,
                                                vb0,
                                                u30.as_map(),
                                            ));
                                            lemma_node_map_keys_gt_parts(
                                                u20.as_map(),
                                                kb0,
                                                vb0,
                                                u30.as_map(),
                                                ka0,
                                            );
                                            lemma_node_map_keys_lt_parts(
                                                u20.as_map(),
                                                kb0,
                                                vb0,
                                                u30.as_map(),
                                                kc0,
                                            );
                                        }
                                        let left_sub = Tree::node(Color::Red, *t1, ka, va, *u2);
                                        let right_sub = Tree::node(Color::Red, *u3, kc, vc, *t4);
                                        proof {
                                            lemma_keys_lt_trans(t10.as_map(), ka0, kb0);
                                            lemma_keys_gt_trans(t40.as_map(), kc0, kb0);
                                            lemma_node_map_keys_gt(
                                                u30.as_map(),
                                                kc0,
                                                vc0,
                                                t40.as_map(),
                                                kb0,
                                            );
                                            lemma_rotation(
                                                t10.as_map(),
                                                ka0,
                                                va0,
                                                u20.as_map(),
                                                kb0,
                                                vb0,
                                                node_map(u30.as_map(), kc0, vc0, t40.as_map()),
                                            );
                                            lemma_rotation(
                                                u20.as_map(),
                                                kb0,
                                                vb0,
                                                u30.as_map(),
                                                kc0,
                                                vc0,
                                                t40.as_map(),
                                            );
                                            lemma_union_into_right(
                                                t10.as_map(),
                                                ka0,
                                                va0,
                                                t20.as_map(),
                                                node_map(t30.as_map(), kc0, vc0, t40.as_map()),
                                            );
                                            lemma_union_into_left(
                                                t20.as_map(),
                                                t30.as_map(),
                                                kc0,
                                                vc0,
                                                t40.as_map(),
                                            );
                                        }
                                        Tree::node(Color::Red, left_sub, kb, vb, right_sub)
                                    },
                                    j_other => {
                                        let ghost jo0 = j_other;
                                        proof {
                                            assert(jo0 == j0);
                                            assert(jo0.no_red_red());
                                        }
                                        let right_sub = Tree::node(Color::Red, j_other, kc, vc, *t4);
                                        proof {
                                            lemma_union_into_right(
                                                t10.as_map(),
                                                ka0,
                                                va0,
                                                t20.as_map(),
                                                node_map(t30.as_map(), kc0, vc0, t40.as_map()),
                                            );
                                            lemma_union_into_left(
                                                t20.as_map(),
                                                t30.as_map(),
                                                kc0,
                                                vc0,
                                                t40.as_map(),
                                            );
                                        }
                                        Tree::node(Color::Red, *t1, ka, va, right_sub)
                                    },
                                }
                            },
                            (Color::Black, Color::Black) => {
                                let j = Tree::join(*t2, *t3);
                                let ghost j0 = j;
                                match j {
                                    Tree::Node { c: Color::Red, l: u2, k: kb, v: vb, r: u3 } => {
                                        let ghost u20 = *u2;
                                        let ghost u30 = *u3;
                                        let ghost kb0 = kb;
                                        let ghost vb0 = vb;
                                        proof {
                                            assert(j0 == (Tree::Node {
                                                c: Color::Red,
                                                l: u2,
                                                k: kb,
                                                v: vb,
                                                r: u3,
                                            }));
                                            assert(u20.bst() && u30.bst());
                                            assert(keys_lt(u20.as_map(), kb0));
                                            assert(keys_gt(u30.as_map(), kb0));
                                            assert(u20.no_red_red() && u30.no_red_red());
                                            assert(u20.bh_ok() && u30.bh_ok() && u20.bh()
                                                == u30.bh());
                                            assert(j0.size() == u20.size() + u30.size() + 1);
                                            assert(j0.as_map() == node_map(
                                                u20.as_map(),
                                                kb0,
                                                vb0,
                                                u30.as_map(),
                                            ));
                                            lemma_node_map_keys_gt_parts(
                                                u20.as_map(),
                                                kb0,
                                                vb0,
                                                u30.as_map(),
                                                ka0,
                                            );
                                            lemma_node_map_keys_lt_parts(
                                                u20.as_map(),
                                                kb0,
                                                vb0,
                                                u30.as_map(),
                                                kc0,
                                            );
                                        }
                                        let left_sub = Tree::node(Color::Black, *t1, ka, va, *u2);
                                        let right_sub = Tree::node(
                                            Color::Black,
                                            *u3,
                                            kc,
                                            vc,
                                            *t4,
                                        );
                                        proof {
                                            lemma_keys_lt_trans(t10.as_map(), ka0, kb0);
                                            lemma_keys_gt_trans(t40.as_map(), kc0, kb0);
                                            lemma_node_map_keys_gt(
                                                u30.as_map(),
                                                kc0,
                                                vc0,
                                                t40.as_map(),
                                                kb0,
                                            );
                                            lemma_rotation(
                                                t10.as_map(),
                                                ka0,
                                                va0,
                                                u20.as_map(),
                                                kb0,
                                                vb0,
                                                node_map(u30.as_map(), kc0, vc0, t40.as_map()),
                                            );
                                            lemma_rotation(
                                                u20.as_map(),
                                                kb0,
                                                vb0,
                                                u30.as_map(),
                                                kc0,
                                                vc0,
                                                t40.as_map(),
                                            );
                                            lemma_union_into_right(
                                                t10.as_map(),
                                                ka0,
                                                va0,
                                                t20.as_map(),
                                                node_map(t30.as_map(), kc0, vc0, t40.as_map()),
                                            );
                                            lemma_union_into_left(
                                                t20.as_map(),
                                                t30.as_map(),
                                                kc0,
                                                vc0,
                                                t40.as_map(),
                                            );
                                        }
                                        Tree::node(Color::Red, left_sub, kb, vb, right_sub)
                                    },
                                    j_other => {
                                        let ghost jo0 = j_other;
                                        proof {
                                            assert(jo0 == j0);
                                            assert(jo0.no_red_red());
                                        }
                                        let right_sub = Tree::node(
                                            Color::Black,
                                            j_other,
                                            kc,
                                            vc,
                                            *t4,
                                        );
                                        proof {
                                            lemma_union_into_right(
                                                t10.as_map(),
                                                ka0,
                                                va0,
                                                t20.as_map(),
                                                node_map(t30.as_map(), kc0, vc0, t40.as_map()),
                                            );
                                            lemma_union_into_left(
                                                t20.as_map(),
                                                t30.as_map(),
                                                kc0,
                                                vc0,
                                                t40.as_map(),
                                            );
                                        }
                                        Tree::bald_l(*t1, ka, va, right_sub)
                                    },
                                }
                            },
                            (Color::Red, Color::Black) => {
                                let rb = Tree::node(Color::Black, *t3, kc, vc, *t4);
                                proof {
                                    assert forall|x: K, y: K|
                                        #[trigger] t20.as_map().dom().contains(x)
                                            && #[trigger] rb.as_map().dom().contains(y) implies lt(
                                        x,
                                        y,
                                    ) by {
                                        assert(l0.as_map().dom().contains(x));
                                        assert(r0.as_map().dom().contains(y));
                                    }
                                }
                                let j = Tree::join(*t2, rb);
                                proof {
                                    lemma_union_into_right(
                                        t10.as_map(),
                                        ka0,
                                        va0,
                                        t20.as_map(),
                                        node_map(t30.as_map(), kc0, vc0, t40.as_map()),
                                    );
                                    lemma_union_keys_gt(
                                        t20.as_map(),
                                        node_map(t30.as_map(), kc0, vc0, t40.as_map()),
                                        ka0,
                                    );
                                }
                                Tree::node(Color::Red, *t1, ka, va, j)
                            },
                            (Color::Black, Color::Red) => {
                                let lb = Tree::node(Color::Black, *t1, ka, va, *t2);
                                proof {
                                    assert forall|x: K, y: K|
                                        #[trigger] lb.as_map().dom().contains(x)
                                            && #[trigger] t30.as_map().dom().contains(y) implies lt(
                                        x,
                                        y,
                                    ) by {
                                        assert(l0.as_map().dom().contains(x));
                                        assert(r0.as_map().dom().contains(y));
                                    }
                                }
                                let j = Tree::join(lb, *t3);
                                proof {
                                    lemma_union_into_left(
                                        l0.as_map(),
                                        t30.as_map(),
                                        kc0,
                                        vc0,
                                        t40.as_map(),
                                    );
                                    lemma_union_keys_lt(l0.as_map(), t30.as_map(), kc0);
                                }
                                Tree::node(Color::Red, j, kc, vc, *t4)
                            },
                        }
                    },
                }
            },
        }
    }

    /// Insert `key -> value`, replacing the value if the key is present.
    /// Returns the new tree and the replaced value, if any. Keeps the
    /// black height; the root may come back red, or red with one red
    /// child when it was red before.
    fn ins(t: Tree<K, V>, key: K, value: V) -> (res: (Tree<K, V>, Option<V>))
        requires
            t.bst(),
            t.no_red_red(),
            t.bh_ok(),
        ensures
            res.0.as_map() =~= t.as_map().insert(key, value),
            res.0.bst(),
            match res.1 {
                Some(ov) => t.as_map().dom().contains(key) && ov == t.as_map()[key],
                None => !t.as_map().dom().contains(key),
            },
            res.0.size() == t.size() + if res.1.is_none() {
                1int
            } else {
                0int
            },
            res.0.bh() == t.bh(),
            res.0.bh_ok(),
            res.0.almost_no_red_red(),
            !t.is_red() ==> res.0.no_red_red(),
        decreases t,
    {
        match t {
            Tree::Leaf => {
                (
                    Tree::Node {
                        c: Color::Red,
                        l: Box::new(Tree::Leaf),
                        k: key,
                        v: value,
                        r: Box::new(Tree::Leaf),
                    },
                    None,
                )
            },
            Tree::Node { c, l, k, v, r } => {
                match key.compare(&k) {
                    Cmp::Eq => {
                        proof {
                            assert(!l.as_map().dom().contains(key));
                            assert(!r.as_map().dom().contains(key));
                        }
                        (Tree::Node { c, l, k, v: value, r }, Some(v))
                    },
                    Cmp::Lt => {
                        proof {
                            if r.as_map().dom().contains(key) {
                                TotalOrder::antisymmetric(k, key);
                                assert(false);
                            }
                        }
                        let (nl, grew) = Tree::ins(*l, key, value);
                        if c == Color::Black {
                            (Tree::bali_l(nl, k, v, *r), grew)
                        } else {
                            (
                                Tree::Node { c: Color::Red, l: Box::new(nl), k, v, r },
                                grew,
                            )
                        }
                    },
                    Cmp::Gt => {
                        proof {
                            if l.as_map().dom().contains(key) {
                                TotalOrder::antisymmetric(key, k);
                                assert(false);
                            }
                        }
                        let (nr, grew) = Tree::ins(*r, key, value);
                        if c == Color::Black {
                            (Tree::bali_r(*l, k, v, nr), grew)
                        } else {
                            (
                                Tree::Node { c: Color::Red, l, k, v, r: Box::new(nr) },
                                grew,
                            )
                        }
                    },
                }
            },
        }
    }

    /// Remove `key`, returning its value. The result loses one unit of
    /// black height exactly when the root was black and the key was found;
    /// a red root keeps both height and colour soundness.
    fn del(t: Tree<K, V>, key: &K) -> (res: (Tree<K, V>, Option<V>))
        requires
            t.bst(),
            t.no_red_red(),
            t.bh_ok(),
        ensures
            res.0.as_map() =~= t.as_map().remove(*key),
            res.0.bst(),
            match res.1 {
                Some(v) => t.as_map().dom().contains(*key) && v == t.as_map()[*key],
                None => !t.as_map().dom().contains(*key),
            },
            t.size() == res.0.size() + if res.1.is_some() {
                1int
            } else {
                0int
            },
            res.0.bh_ok(),
            res.0.almost_no_red_red(),
            res.1.is_none() ==> res.0 == t,
            (res.1.is_some() && t.is_red()) ==> (res.0.bh() == t.bh() && res.0.no_red_red()),
            (res.1.is_some() && !t.is_red()) ==> res.0.bh() + 1 == t.bh(),
        decreases t,
    {
        match t {
            Tree::Leaf => (Tree::Leaf, None),
            Tree::Node { c, l, k, v, r } => {
                let ghost l0 = *l;
                let ghost r0 = *r;
                let ghost k0 = k;
                let ghost v0 = v;
                let ghost c0 = c;
                proof {
                    assert(l0.bst() && r0.bst());
                    assert(keys_lt(l0.as_map(), k0) && keys_gt(r0.as_map(), k0));
                    assert(l0.no_red_red() && r0.no_red_red());
                    assert(l0.bh_ok() && r0.bh_ok() && l0.bh() == r0.bh());
                    assert(t.size() == l0.size() + r0.size() + 1);
                    assert(!l0.as_map().dom().contains(k0));
                    assert(!r0.as_map().dom().contains(k0));
                }
                match key.compare(&k) {
                    Cmp::Eq => {
                        proof {
                            assert forall|x: K, y: K|
                                #[trigger] l0.as_map().dom().contains(x)
                                    && #[trigger] r0.as_map().dom().contains(y) implies lt(
                                x,
                                y,
                            ) by {
                                TotalOrder::transitive(x, k0, y);
                                if x == y {
                                    TotalOrder::antisymmetric(x, k0);
                                }
                            }
                        }
                        let joined = Tree::join(*l, *r);
                        proof {
                            assert(joined.as_map() =~= t.as_map().remove(k0));
                        }
                        (joined, Some(v))
                    },
                    Cmp::Lt => {
                        proof {
                            if r0.as_map().dom().contains(*key) {
                                TotalOrder::antisymmetric(k0, *key);
                                assert(false);
                            }
                        }
                        let l_black = match &*l {
                            Tree::Node { c: Color::Black, .. } => true,
                            _ => false,
                        };
                        let (nl, got) = Tree::del(*l, key);
                        match got {
                            None => {
                                proof {
                                    assert(t.as_map().remove(*key) =~= t.as_map());
                                }
                                (Tree::node(c, nl, k, v, *r), None)
                            },
                            Some(vv) => {
                                proof {
                                    assert(t.as_map().remove(*key) =~= node_map(
                                        l0.as_map().remove(*key),
                                        k0,
                                        v0,
                                        r0.as_map(),
                                    ));
                                }
                                if l_black {
                                    (Tree::bald_l(nl, k, v, *r), Some(vv))
                                } else {
                                    proof {
                                        assert(l0.is_red());
                                        assert(c0 == Color::Black);
                                    }
                                    (Tree::node(Color::Red, nl, k, v, *r), Some(vv))
                                }
                            },
                        }
                    },
                    Cmp::Gt => {
                        proof {
                            if l0.as_map().dom().contains(*key) {
                                TotalOrder::antisymmetric(*key, k0);
                                assert(false);
                            }
                        }
                        let r_black = match &*r {
                            Tree::Node { c: Color::Black, .. } => true,
                            _ => false,
                        };
                        let (nr, got) = Tree::del(*r, key);
                        match got {
                            None => {
                                proof {
                                    assert(t.as_map().remove(*key) =~= t.as_map());
                                }
                                (Tree::node(c, *l, k, v, nr), None)
                            },
                            Some(vv) => {
                                proof {
                                    assert(t.as_map().remove(*key) =~= node_map(
                                        l0.as_map(),
                                        k0,
                                        v0,
                                        r0.as_map().remove(*key),
                                    ));
                                }
                                if r_black {
                                    (Tree::bald_r(*l, k, v, nr), Some(vv))
                                } else {
                                    proof {
                                        assert(r0.is_red());
                                        assert(c0 == Color::Black);
                                    }
                                    (Tree::node(Color::Red, *l, k, v, nr), Some(vv))
                                }
                            },
                        }
                    },
                }
            },
        }
    }

    /// The in-order sequence of a search tree lists exactly the map's
    /// bindings, in strictly ascending key order, one per node.
    pub(crate) proof fn lemma_inorder(t: Tree<K, V>)
        requires
            t.bst(),
        ensures
            t.inorder().len() == t.size(),
            forall|i: int|
                0 <= i < t.inorder().len() ==> t.as_map().dom().contains(
                    (#[trigger] t.inorder()[i]).0,
                ) && t.as_map()[t.inorder()[i].0] == t.inorder()[i].1,
            forall|i: int, j: int|
                0 <= i < j < t.inorder().len() ==> lt(
                    (#[trigger] t.inorder()[i]).0,
                    (#[trigger] t.inorder()[j]).0,
                ),
            forall|q: K|
                #[trigger] t.as_map().dom().contains(q) ==> exists|i: int|
                    0 <= i < t.inorder().len() && (#[trigger] t.inorder()[i]).0 == q,
        decreases t,
    {
        match t {
            Tree::Leaf => {
                assert(t.as_map() =~= Map::<K, V>::empty());
            },
            Tree::Node { c, l, k, v, r } => {
                let lm = l.as_map();
                let rm = r.as_map();
                let li = l.inorder();
                let ri = r.inorder();
                let n = li.len() as int;
                Tree::lemma_inorder(*l);
                Tree::lemma_inorder(*r);
                assert(t.inorder() == li + seq![(k, v)] + ri);
                assert(!lm.dom().contains(k));
                assert(!rm.dom().contains(k));
                assert forall|q: K| #[trigger] lm.dom().contains(q) implies !rm.dom().contains(q)
                    && t.as_map().dom().contains(q) && t.as_map()[q] == lm[q] by {
                    if rm.dom().contains(q) {
                        TotalOrder::antisymmetric(q, k);
                    }
                }
                assert forall|q: K| #[trigger] rm.dom().contains(q) implies t.as_map().dom().contains(
                    q,
                ) && t.as_map()[q] == rm[q] by {}
                assert(t.as_map().dom().contains(k) && t.as_map()[k] == v);
                // Elements: left part, the node, right part.
                assert forall|i: int|
                    0 <= i < t.inorder().len() implies t.as_map().dom().contains(
                    (#[trigger] t.inorder()[i]).0,
                ) && t.as_map()[t.inorder()[i].0] == t.inorder()[i].1 by {
                    if i < n {
                        assert(t.inorder()[i] == li[i]);
                    } else if i == n {
                        assert(t.inorder()[i] == (k, v));
                    } else {
                        assert(t.inorder()[i] == ri[i - n - 1]);
                    }
                }
                // Order: within a side by induction, across sides through
                // the node key.
                assert forall|i: int, j: int|
                    0 <= i < j < t.inorder().len() implies lt(
                    (#[trigger] t.inorder()[i]).0,
                    (#[trigger] t.inorder()[j]).0,
                ) by {
                    let a = t.inorder()[i];
                    let b = t.inorder()[j];
                    if i < n {
                        assert(a == li[i] && lm.dom().contains(a.0));
                    } else if i == n {
                        assert(a.0 == k);
                    } else {
                        assert(a == ri[i - n - 1] && rm.dom().contains(a.0));
                    }
                    if j < n {
                        assert(b == li[j] && lm.dom().contains(b.0));
                    } else if j == n {
                        assert(b.0 == k);
                    } else {
                        assert(b == ri[j - n - 1] && rm.dom().contains(b.0));
                    }
                    if i < n && j > n {
                        TotalOrder::transitive(a.0, k, b.0);
                        if a.0 == b.0 {
                            TotalOrder::antisymmetric(a.0, k);
                        }
                    }
                }
                // Completeness.
                assert forall|q: K| #[trigger] t.as_map().dom().contains(q) implies exists|i: int|
                    0 <= i < t.inorder().len() && (#[trigger] t.inorder()[i]).0 == q by {
                    if q == k {
                        assert(t.inorder()[n].0 == q);
                    } else if lm.dom().contains(q) {
                        let i = choose|i: int| 0 <= i < li.len() && (#[trigger] li[i]).0 == q;
                        assert(t.inorder()[i].0 == q);
                    } else {
                        assert(rm.dom().contains(q));
                        let i = choose|i: int| 0 <= i < ri.len() && (#[trigger] ri[i]).0 == q;
                        assert(t.inorder()[i + n + 1].0 == q);
                    }
                }
            },
        }
    }

    /// The smallest key of `t` that is not below `key`, with its value;
    /// `None` when every key of `t` lies below `key`.
    fn ceiling_node<'a>(t: &'a Tree<K, V>, key: &K) -> (r: Option<(&'a K, &'a V)>)
        requires
            t.bst(),
        ensures
            match r {
                Some(p) => {
                    &&& t.as_map().dom().contains(*p.0)
                    &&& key.le(*p.0)
                    &&& *p.1 == t.as_map()[*p.0]
                    &&& forall|q: K|
                        #[trigger] t.as_map().dom().contains(q) && key.le(q) ==> p.0.le(q)
                },
                None => forall|q: K| #[trigger] t.as_map().dom().contains(q) ==> !key.le(q),
            },
        decreases t,
    {
        match t {
            Tree::Leaf => None,
            Tree::Node { c, l, k, v, r } => {
                proof {
                    assert(!l.as_map().dom().contains(*k));
                    assert(!r.as_map().dom().contains(*k));
                }
                match key.compare(k) {
                    Cmp::Eq => {
                        proof {
                            TotalOrder::reflexive(*key);
                            assert forall|q: K|
                                #[trigger] t.as_map().dom().contains(q) && key.le(q) implies k.le(
                                q,
                            ) by {
                                if l.as_map().dom().contains(q) {
                                    TotalOrder::antisymmetric(q, *k);
                                    assert(false);
                                }
                            }
                        }
                        Some((k, v))
                    },
                    Cmp::Lt => {
                        let rec = Tree::ceiling_node(l, key);
                        match rec {
                            Some(p) => {
                                proof {
                                    assert(!r.as_map().dom().contains(*p.0)) by {
                                        if r.as_map().dom().contains(*p.0) {
                                            TotalOrder::antisymmetric(*p.0, *k);
                                        }
                                    }
                                    assert(t.as_map()[*p.0] == l.as_map()[*p.0]);
                                    assert forall|q: K|
                                        #[trigger] t.as_map().dom().contains(q) && key.le(q) implies p.0.le(
                                        q,
                                    ) by {
                                        if q == *k {
                                            assert(lt(*p.0, *k));
                                        } else if r.as_map().dom().contains(q) {
                                            assert(lt(*p.0, *k) && lt(*k, q));
                                            TotalOrder::transitive(*p.0, *k, q);
                                        }
                                    }
                                }
                                Some(p)
                            },
                            None => {
                                proof {
                                    assert forall|q: K|
                                        #[trigger] t.as_map().dom().contains(q) && key.le(q) implies k.le(
                                        q,
                                    ) by {
                                        if q == *k {
                                            TotalOrder::reflexive(*k);
                                        } else if r.as_map().dom().contains(q) {
                                            assert(lt(*k, q));
                                        }
                                    }
                                }
                                Some((k, v))
                            },
                        }
                    },
                    Cmp::Gt => {
                        proof {
                            assert forall|q: K|
                                #[trigger] t.as_map().dom().contains(q) && key.le(q) implies r.as_map().dom().contains(
                                q,
                            ) by {
                                if q == *k {
                                    TotalOrder::antisymmetric(*key, *k);
                                    assert(false);
                                }
                                if l.as_map().dom().contains(q) {
                                    TotalOrder::transitive(*k, *key, q);
                                    TotalOrder::antisymmetric(*k, q);
                                    assert(false);
                                }
                            }
                        }
                        Tree::ceiling_node(r, key)
                    },
                }
            },
        }
    }

    /// Leftmost pair: the binding with the least key.
    fn min_node<'a>(t: &'a Tree<K, V>) -> (r: Option<(&'a K, &'a V)>)
        requires
            t.bst(),
        ensures
            match r {
                Some(p) => {
                    &&& t.as_map().dom().contains(*p.0)
                    &&& *p.1 == t.as_map()[*p.0]
                    &&& forall|q: K| #[trigger] t.as_map().dom().contains(q) ==> p.0.le(q)
                },
                None => t.as_map() =~= Map::<K, V>::empty(),
            },
        decreases t,
    {
        match t {
            Tree::Leaf => None,
            Tree::Node { c, l, k, v, r } => {
                proof {
                    assert(!l.as_map().dom().contains(*k));
                }
                match Tree::min_node(l) {
                    Some(p) => {
                        proof {
                            assert(!r.as_map().dom().contains(*p.0)) by {
                                if r.as_map().dom().contains(*p.0) {
                                    TotalOrder::antisymmetric(*p.0, *k);
                                }
                            }
                            assert(t.as_map()[*p.0] == l.as_map()[*p.0]);
                            assert forall|q: K| #[trigger] t.as_map().dom().contains(q) implies p.0.le(
                                q,
                            ) by {
                                if q == *k {
                                    assert(lt(*p.0, *k));
                                } else if r.as_map().dom().contains(q) {
                                    assert(lt(*p.0, *k) && lt(*k, q));
                                    TotalOrder::transitive(*p.0, *k, q);
                                }
                            }
                        }
                        Some(p)
                    },
                    None => {
                        proof {
                            assert forall|q: K| #[trigger] t.as_map().dom().contains(q) implies k.le(
                                q,
                            ) by {
                                if q == *k {
                                    TotalOrder::reflexive(*k);
                                } else {
                                    assert(r.as_map().dom().contains(q));
                                }
                            }
                        }
                        Some((k, v))
                    },
                }
            },
        }
    }

    /// Rightmost pair: the binding with the greatest key.
    fn max_node<'a>(t: &'a Tree<K, V>) -> (r: Option<(&'a K, &'a V)>)
        requires
            t.bst(),
        ensures
            match r {
                Some(p) => {
                    &&& t.as_map().dom().contains(*p.0)
                    &&& *p.1 == t.as_map()[*p.0]
                    &&& forall|q: K| #[trigger] t.as_map().dom().contains(q) ==> q.le(*p.0)
                },
                None => t.as_map() =~= Map::<K, V>::empty(),
            },
        decreases t,
    {
        match t {
            Tree::Leaf => None,
            Tree::Node { c, l, k, v, r } => {
                proof {
                    assert(!r.as_map().dom().contains(*k));
                }
                match Tree::max_node(r) {
                    Some(p) => {
                        proof {
                            assert(t.as_map().dom().contains(*p.0));
                            assert(t.as_map()[*p.0] == r.as_map()[*p.0]);
                            assert forall|q: K| #[trigger] t.as_map().dom().contains(q) implies q.le(
                                *p.0,
                            ) by {
                                if q == *k {
                                    assert(lt(*k, *p.0));
                                } else if l.as_map().dom().contains(q) {
                                    assert(lt(q, *k) && lt(*k, *p.0));
                                    TotalOrder::transitive(q, *k, *p.0);
                                }
                            }
                        }
                        Some(p)
                    },
                    None => {
                        proof {
                            assert forall|q: K| #[trigger] t.as_map().dom().contains(q) implies q.le(
                                *k,
                            ) by {
                                if q == *k {
                                    TotalOrder::reflexive(*k);
                                } else {
                                    assert(l.as_map().dom().contains(q));
                                }
                            }
                        }
                        Some((k, v))
                    },
                }
            },
        }
    }

    /// A tree of size zero holds no binding.
    pub(crate) proof fn lemma_size_zero(t: Tree<K, V>)
        ensures
            (t.size() == 0) <==> (t.as_map().dom() =~= Set::<K>::empty()),
    {
        match t {
            Tree::Leaf => {
                assert(t.as_map() =~= Map::<K, V>::empty());
            },
            Tree::Node { c, l, k, v, r } => {
                assert(t.as_map().dom().contains(k));
            },
        }
    }

    /// Remove the smallest key not below `key` — the exact key if present,
    /// else the next greater one — and return the removed binding. The
    /// colour and height accounting matches `del`.
    fn del_ceil(t: Tree<K, V>, key: &K) -> (res: (Tree<K, V>, Option<(K, V)>))
        requires
            t.bst(),
            t.no_red_red(),
            t.bh_ok(),
        ensures
            res.0.bst(),
            res.0.bh_ok(),
            res.0.almost_no_red_red(),
            match res.1 {
                Some(p) => {
                    &&& t.as_map().dom().contains(p.0)
                    &&& key.le(p.0)
                    &&& p.1 == t.as_map()[p.0]
                    &&& forall|q: K|
                        #[trigger] t.as_map().dom().contains(q) && key.le(q) ==> p.0.le(q)
                    &&& res.0.as_map() =~= t.as_map().remove(p.0)
                    &&& t.size() == res.0.size() + 1
                    &&& t.is_red() ==> (res.0.bh() == t.bh() && res.0.no_red_red())
                    &&& !t.is_red() ==> res.0.bh() + 1 == t.bh()
                },
                None => {
                    &&& (forall|q: K| #[trigger] t.as_map().dom().contains(q) ==> !key.le(q))
                    &&& res.0 == t
                },
            },
        decreases t,
    {
        match t {
            Tree::Leaf => (Tree::Leaf, None),
            Tree::Node { c, l, k, v, r } => {
                let ghost l0 = *l;
                let ghost r0 = *r;
                let ghost k0 = k;
                let ghost v0 = v;
                let ghost c0 = c;
                proof {
                    assert(l0.bst() && r0.bst());
                    assert(keys_lt(l0.as_map(), k0) && keys_gt(r0.as_map(), k0));
                    assert(l0.no_red_red() && r0.no_red_red());
                    assert(l0.bh_ok() && r0.bh_ok() && l0.bh() == r0.bh());
                    assert(t.size() == l0.size() + r0.size() + 1);
                    assert(!l0.as_map().dom().contains(k0));
                    assert(!r0.as_map().dom().contains(k0));
                    assert forall|x: K, y: K|
                        #[trigger] l0.as_map().dom().contains(x)
                            && #[trigger] r0.as_map().dom().contains(y) implies lt(x, y) by {
                        TotalOrder::transitive(x, k0, y);
                        if x == y {
                            TotalOrder::antisymmetric(x, k0);
                        }
                    }
                }
                match key.compare(&k) {
                    Cmp::Eq => {
                        let joined = Tree::join(*l, *r);
                        proof {
                            TotalOrder::reflexive(k0);
                            assert(joined.as_map() =~= t.as_map().remove(k0));
                            assert forall|q: K|
                                #[trigger] t.as_map().dom().contains(q) && key.le(q) implies k.le(
                                q,
                            ) by {
                                if l0.as_map().dom().contains(q) {
                                    TotalOrder::antisymmetric(q, k0);
                                    assert(false);
                                }
                            }
                        }
                        (joined, Some((k, v)))
                    },
                    Cmp::Lt => {
                        let l_black = match &*l {
                            Tree::Node { c: Color::Black, .. } => true,
                            _ => false,
                        };
                        let (nl, got) = Tree::del_ceil(*l, key);
                        match got {
                            None => {
                                // Nothing at or above `key` on the left: this
                                // node holds the least key above it.
                                let joined = Tree::join(nl, *r);
                                proof {
                                    assert(joined.as_map() =~= t.as_map().remove(k0));
                                    assert forall|q: K|
                                        #[trigger] t.as_map().dom().contains(q) && key.le(q) implies k.le(
                                        q,
                                    ) by {
                                        if q == k0 {
                                            TotalOrder::reflexive(k0);
                                        } else if r0.as_map().dom().contains(q) {
                                            assert(lt(k0, q));
                                        }
                                    }
                                }
                                (joined, Some((k, v)))
                            },
                            Some(pair) => {
                                proof {
                                    assert(l0.as_map().dom().contains(pair.0));
                                    assert(!r0.as_map().dom().contains(pair.0)) by {
                                        if r0.as_map().dom().contains(pair.0) {
                                            TotalOrder::antisymmetric(pair.0, k0);
                                        }
                                    }
                                    assert(t.as_map().remove(pair.0) =~= node_map(
                                        l0.as_map().remove(pair.0),
                                        k0,
                                        v0,
                                        r0.as_map(),
                                    ));
                                    assert forall|q: K|
                                        #[trigger] t.as_map().dom().contains(q) && key.le(q) implies pair.0.le(
                                        q,
                                    ) by {
                                        if q == k0 {
                                            assert(lt(pair.0, k0));
                                        } else if r0.as_map().dom().contains(q) {
                                            assert(lt(pair.0, k0) && lt(k0, q));
                                            TotalOrder::transitive(pair.0, k0, q);
                                        }
                                    }
                                }
                                if l_black {
                                    (Tree::bald_l(nl, k, v, *r), Some(pair))
                                } else {
                                    proof {
                                        assert(l0.is_red());
                                        assert(c0 == Color::Black);
                                    }
                                    (Tree::node(Color::Red, nl, k, v, *r), Some(pair))
                                }
                            },
                        }
                    },
                    Cmp::Gt => {
                        proof {
                            assert forall|q: K|
                                #[trigger] t.as_map().dom().contains(q) && key.le(q) implies r0.as_map().dom().contains(
                                q,
                            ) by {
                                if q == k0 {
                                    TotalOrder::antisymmetric(*key, k0);
                                    assert(false);
                                }
                                if l0.as_map().dom().contains(q) {
                                    TotalOrder::transitive(k0, *key, q);
                                    TotalOrder::antisymmetric(k0, q);
                                    assert(false);
                                }
                            }
                        }
                        let r_black = match &*r {
                            Tree::Node { c: Color::Black, .. } => true,
                            _ => false,
                        };
                        let (nr, got) = Tree::del_ceil(*r, key);
                        match got {
                            None => {
                                proof {
                                    assert forall|q: K|
                                        #[trigger] t.as_map().dom().contains(q) implies !key.le(
                                        q,
                                    ) by {
                                        if key.le(q) {
                                            if q == k0 {
                                                TotalOrder::antisymmetric(*key, k0);
                                            } else if l0.as_map().dom().contains(q) {
                                                TotalOrder::transitive(k0, *key, q);
                                                TotalOrder::antisymmetric(k0, q);
                                            }
                                        }
                                    }
                                }
                                (Tree::node(c, *l, k, v, nr), None)
                            },
                            Some(pair) => {
                                proof {
                                    assert(r0.as_map().dom().contains(pair.0));
                                    assert(t.as_map().remove(pair.0) =~= node_map(
                                        l0.as_map(),
                                        k0,
                                        v0,
                                        r0.as_map().remove(pair.0),
                                    ));
                                }
                                if r_black {
                                    (Tree::bald_r(*l, k, v, nr), Some(pair))
                                } else {
                                    proof {
                                        assert(r0.is_red());
                                        assert(c0 == Color::Black);
                                    }
                                    (Tree::node(Color::Red, *l, k, v, nr), Some(pair))
                                }
                            },
                        }
                    },
                }
            },
        }
    }

    /// Paint the root black.
    fn make_black(t: Tree<K, V>) -> (r: Tree<K, V>)
        requires
            t.bst(),
            t.almost_no_red_red(),
            t.bh_ok(),
        ensures
            r.as_map() =~= t.as_map(),
            r.bst(),
            r.size() == t.size(),
            r.no_red_red(),
            r.bh_ok(),
            !r.is_red(),
    {
        match t {
            Tree::Leaf => Tree::Leaf,
            Tree::Node { c, l, k, v, r } => Tree::Node { c: Color::Black, l, k, v, r },
        }
    }

    /// Look `key` up, returning the stored key and value.
    fn get_node<'a>(t: &'a Tree<K, V>, key: &K) -> (r: Option<(&'a K, &'a V)>)
        requires
            t.bst(),
        ensures
            match r {
                Some(p) => {
                    &&& t.as_map().dom().contains(*key)
                    &&& *p.0 == *key
                    &&& *p.1 == t.as_map()[*key]
                },
                None => !t.as_map().dom().contains(*key),
            },
        decreases t,
    {
        match t {
            Tree::Leaf => None,
            Tree::Node { c, l, k, v, r } => {
                match key.compare(k) {
                    Cmp::Eq => {
                        proof {
                            assert(!l.as_map().dom().contains(*key));
                            assert(!r.as_map().dom().contains(*key));
                        }
                        Some((k, v))
                    },
                    Cmp::Lt => {
                        proof {
                            if r.as_map().dom().contains(*key) {
                                TotalOrder::antisymmetric(*k, *key);
                                assert(false);
                            }
                        }
                        Tree::get_node(l, key)
                    },
                    Cmp::Gt => {
                        proof {
                            if l.as_map().dom().contains(*key) {
                                TotalOrder::antisymmetric(*key, *k);
                                assert(false);
                            }
                        }
                        Tree::get_node(r, key)
                    },
                }
            },
        }
    }
}

/// An ordered tree: a red-black tree mapping keys to values.
pub struct RBTree<K: TotalOrder, V> {
    root: Tree<K, V>,
    len: usize,
}

impl<K: TotalOrder, V> View for RBTree<K, V> {
    type V = Map<K, V>;

    closed spec fn view(&self) -> Map<K, V> {
        self.root.as_map()
    }
}

impl<K: TotalOrder, V> RBTree<K, V> {
    /// Well-formedness: search-tree order, black root, no red node with a
    /// red child, equal black height on every path, and an accurate
    /// length.
    pub closed spec fn inv(&self) -> bool {
        &&& self.root.bst()
        &&& self.root.no_red_red()
        &&& self.root.bh_ok()
        &&& !self.root.is_red()
        &&& self.len == self.root.size()
    }

    /// Number of keys in the tree.
    pub closed spec fn spec_len(&self) -> int {
        self.len as int
    }

    /// An empty tree.
    pub fn new() -> (t: RBTree<K, V>)
        ensures
            t.inv(),
            t@ =~= Map::<K, V>::empty(),
            t.spec_len() == 0,
    {
        RBTree { root: Tree::Leaf, len: 0 }
    }

    /// An empty tree. The tree keeps its nodes on the heap; this
    /// constructor exists beside [`RBTree::new`] for callers that manage
    /// the backing store of keys and values themselves.
    pub fn new_in() -> (t: RBTree<K, V>)
        ensures
            t.inv(),
            t@ =~= Map::<K, V>::empty(),
            t.spec_len() == 0,
    {
        RBTree::new()
    }

    /// Number of keys.
    pub fn len(&self) -> (r: usize)
        requires
            self.inv(),
        ensures
            r == self.spec_len(),
    {
        self.len
    }

    /// True when the tree holds nothing.
    pub fn is_clear(&self) -> (r: bool)
        requires
            self.inv(),
        ensures
            r == (self.spec_len() == 0),
    {
        self.len == 0
    }

    /// Insert `key -> value`. An existing binding for an equal key is
    /// replaced and its value returned.
    pub fn insert(&mut self, key: K, value: V) -> (r: Option<V>)
        requires
            old(self).inv(),
            old(self).spec_len() < usize::MAX,
        ensures
            final(self).inv(),
            final(self)@ =~= old(self)@.insert(key, value),
            match r {
                Some(ov) => old(self)@.dom().contains(key) && ov == old(self)@[key],
                None => !old(self)@.dom().contains(key),
            },
            final(self).spec_len() == old(self).spec_len() + if old(self)@.dom().contains(key) {
                0int
            } else {
                1int
            },
    {
        let mut t = Tree::Leaf;
        core::mem::swap(&mut t, &mut self.root);
        let (nt, prev) = Tree::ins(t, key, value);
        self.root = Tree::make_black(nt);
        if prev.is_none() {
            self.len = self.len + 1;
        }
        prev
    }

    /// Remove `key` and hand its value back, or report absence.
    pub fn remove(&mut self, key: &K) -> (r: Option<V>)
        requires
            old(self).inv(),
        ensures
            final(self).inv(),
            final(self)@ =~= old(self)@.remove(*key),
            match r {
                Some(v) => old(self)@.dom().contains(*key) && v == old(self)@[*key],
                None => !old(self)@.dom().contains(*key),
            },
            final(self).spec_len() == old(self).spec_len() - if old(self)@.dom().contains(*key) {
                1int
            } else {
                0int
            },
    {
        let mut t = Tree::Leaf;
        core::mem::swap(&mut t, &mut self.root);
        let (nt, got) = Tree::del(t, key);
        self.root = Tree::make_black(nt);
        if got.is_some() {
            self.len = self.len - 1;
        }
        got
    }

    /// The value bound to `key`, if any.
    pub fn get(&self, key: &K) -> (r: Option<&V>)
        requires
            self.inv(),
        ensures
            match r {
                Some(val) => self@.dom().contains(*key) && *val == self@[*key],
                None => !self@.dom().contains(*key),
            },
    {
        match Tree::get_node(&self.root, key) {
            Some(p) => Some(p.1),
            None => None,
        }
    }

    /// The stored key and value for `key`, if bound.
    pub fn get_key_value(&self, key: &K) -> (r: Option<(&K, &V)>)
        requires
            self.inv(),
        ensures
            match r {
                Some(p) => self@.dom().contains(*key) && *p.0 == *key && *p.1 == self@[*key],
                None => !self@.dom().contains(*key),
            },
    {
        Tree::get_node(&self.root, key)
    }

    /// Whether `key` is bound.
    pub fn contains(&self, key: &K) -> (r: bool)
        requires
            self.inv(),
        ensures
            r == self@.dom().contains(*key),
    {
        match self.get(key) {
            Some(_) => true,
            None => false,
        }
    }

    /// The pairs of the tree in ascending key order.
    pub closed spec fn inorder_seq(&self) -> Seq<(K, V)> {
        self.root.inorder()
    }

    /// The value at `key` when present; otherwise the value of the
    /// smallest key greater than `key`, or "not found" when no key lies at
    /// or above `key`.
    pub fn search(&self, key: &K) -> (r: Result<&V, Option<&V>>)
        requires
            self.inv(),
        ensures
            match r {
                Ok(v) => self@.dom().contains(*key) && *v == self@[*key],
                Err(o) => !self@.dom().contains(*key) && match o {
                    Some(v) => exists|ck: K|
                        {
                            &&& #[trigger] self@.dom().contains(ck)
                            &&& key.le(ck)
                            &&& *v == self@[ck]
                            &&& forall|q: K|
                                #[trigger] self@.dom().contains(q) && key.le(q) ==> ck.le(q)
                        },
                    None => forall|q: K| #[trigger] self@.dom().contains(q) ==> !key.le(q),
                },
            },
    {
        match Tree::ceiling_node(&self.root, key) {
            Some(p) => {
                match key.compare(p.0) {
                    Cmp::Eq => Ok(p.1),
                    _ => {
                        proof {
                            if self@.dom().contains(*key) {
                                TotalOrder::reflexive(*key);
                                TotalOrder::antisymmetric(*key, *p.0);
                                assert(false);
                            }
                        }
                        Err(Some(p.1))
                    },
                }
            },
            None => {
                proof {
                    if self@.dom().contains(*key) {
                        TotalOrder::reflexive(*key);
                        assert(false);
                    }
                }
                Err(None)
            },
        }
    }

    /// Remove the key found by [`RBTree::search`] in the same descent:
    /// `Ok` removes and returns the exact binding, `Err(Some(v))` removes
    /// and returns the next greater one, `Err(None)` removes nothing.
    pub fn search_and_remove(&mut self, key: &K) -> (r: Result<V, Option<V>>)
        requires
            old(self).inv(),
        ensures
            final(self).inv(),
            match r {
                Ok(v) => {
                    &&& old(self)@.dom().contains(*key)
                    &&& v == old(self)@[*key]
                    &&& final(self)@ =~= old(self)@.remove(*key)
                    &&& final(self).spec_len() == old(self).spec_len() - 1
                },
                Err(o) => !old(self)@.dom().contains(*key) && match o {
                    Some(v) => exists|ck: K|
                        {
                            &&& #[trigger] old(self)@.dom().contains(ck)
                            &&& key.le(ck)
                            &&& v == old(self)@[ck]
                            &&& (forall|q: K|
                                #[trigger] old(self)@.dom().contains(q) && key.le(q) ==> ck.le(q))
                            &&& final(self)@ =~= old(self)@.remove(ck)
                            &&& final(self).spec_len() == old(self).spec_len() - 1
                        },
                    None => {
                        &&& (forall|q: K|
                            #[trigger] old(self)@.dom().contains(q) ==> !key.le(q))
                        &&& final(self)@ =~= old(self)@
                        &&& final(self).spec_len() == old(self).spec_len()
                    },
                },
            },
    {
        let mut t = Tree::Leaf;
        core::mem::swap(&mut t, &mut self.root);
        let ghost t0 = t;
        let (nt, got) = Tree::del_ceil(t, key);
        self.root = Tree::make_black(nt);
        match got {
            Some(pair) => {
                self.len = self.len - 1;
                let eq = match key.compare(&pair.0) {
                    Cmp::Eq => true,
                    _ => false,
                };
                if eq {
                    Ok(pair.1)
                } else {
                    proof {
                        if old(self)@.dom().contains(*key) {
                            TotalOrder::reflexive(*key);
                            TotalOrder::antisymmetric(*key, pair.0);
                            assert(false);
                        }
                    }
                    Err(Some(pair.1))
                }
            },
            None => {
                proof {
                    if old(self)@.dom().contains(*key) {
                        TotalOrder::reflexive(*key);
                        assert(false);
                    }
                }
                Err(None)
            },
        }
    }

    /// The value at the least key, or `None` on an empty tree.
    pub fn minimum(&self) -> (r: Option<&V>)
        requires
            self.inv(),
        ensures
            match r {
                Some(v) => self.spec_len() > 0 && exists|mk: K|
                    {
                        &&& #[trigger] self@.dom().contains(mk)
                        &&& *v == self@[mk]
                        &&& forall|q: K| #[trigger] self@.dom().contains(q) ==> mk.le(q)
                    },
                None => self.spec_len() == 0,
            },
    {
        proof {
            Tree::lemma_size_zero(self.root);
        }
        match Tree::min_node(&self.root) {
            Some(p) => {
                proof {
                    assert(self@.dom().contains(*p.0));
                    assert(!(self@.dom() =~= Set::<K>::empty()));
                }
                Some(p.1)
            },
            None => None,
        }
    }

    /// The value at the greatest key, or `None` on an empty tree.
    pub fn maximum(&self) -> (r: Option<&V>)
        requires
            self.inv(),
        ensures
            match r {
                Some(v) => self.spec_len() > 0 && exists|mk: K|
                    {
                        &&& #[trigger] self@.dom().contains(mk)
                        &&& *v == self@[mk]
                        &&& forall|q: K| #[trigger] self@.dom().contains(q) ==> q.le(mk)
                    },
                None => self.spec_len() == 0,
            },
    {
        proof {
            Tree::lemma_size_zero(self.root);
        }
        match Tree::max_node(&self.root) {
            Some(p) => {
                proof {
                    assert(self@.dom().contains(*p.0));
                    assert(!(self@.dom() =~= Set::<K>::empty()));
                }
                Some(p.1)
            },
            None => None,
        }
    }

    /// Drop every binding.
    pub fn clear(&mut self)
        requires
            old(self).inv(),
        ensures
            final(self).inv(),
            final(self)@ =~= Map::<K, V>::empty(),
            final(self).spec_len() == 0,
    {
        self.root = Tree::Leaf;
        self.len = 0;
    }

    /// An in-order iterator over the tree.
    pub fn iter<'a>(&'a self) -> (it: RBTreeIterator<'a, K, V>)
        requires
            self.inv(),
        ensures
            it.wf(),
            it.model() =~= self.inorder_seq(),
            it.position() == 0,
    {
        RBTreeIterator::new(self)
    }
}

/// After any sequence of inserts and removes, a well-formed tree is still
/// a red-black search tree — every operation's contract carries `inv` —
/// and iteration visits exactly the tree's bindings, one per node, in
/// strictly increasing key order: the in-order sequence has `len()`
/// entries, each a binding of the map, each key strictly above the one
/// before it, and every binding of the map appears.
pub proof fn lemma_iteration_sorted<K: TotalOrder, V>(t: &RBTree<K, V>)
    requires
        t.inv(),
    ensures
        t.inorder_seq().len() == t.spec_len(),
        forall|i: int|
            0 <= i < t.inorder_seq().len() ==> t@.dom().contains(
                (#[trigger] t.inorder_seq()[i]).0,
            ) && t@[t.inorder_seq()[i].0] == t.inorder_seq()[i].1,
        forall|i: int, j: int|
            0 <= i < j < t.inorder_seq().len() ==> lt(
                (#[trigger] t.inorder_seq()[i]).0,
                (#[trigger] t.inorder_seq()[j]).0,
            ),
        forall|q: K|
            #[trigger] t@.dom().contains(q) ==> exists|i: int|
                0 <= i < t.inorder_seq().len() && (#[trigger] t.inorder_seq()[i]).0 == q,
{
    Tree::lemma_inorder(t.root);
    assert forall|q: K| #[trigger] t@.dom().contains(q) implies exists|i: int|
        0 <= i < t.inorder_seq().len() && (#[trigger] t.inorder_seq()[i]).0 == q by {
        let i = choose|i: int|
            0 <= i < t.root.inorder().len() && (#[trigger] t.root.inorder()[i]).0 == q;
        assert((t.inorder_seq()[i]).0 == q);
    }
}

/// A well-formed tree holds as many bindings as it reports: its length is
/// the cardinality of its abstract map's domain.
pub proof fn lemma_len_is_dom_size<K: TotalOrder, V>(t: &RBTree<K, V>)
    requires
        t.inv(),
    ensures
        t@.dom().finite(),
        t@.dom().len() == t.spec_len(),
{
    Tree::lemma_inorder(t.root);
    let s = t.inorder_seq();
    let keys = Seq::new(s.len(), |i: int| s[i].0);
    lemma_distinct_key_seq(keys);
    assert(t@.dom() =~= keys.to_set()) by {
        assert forall|q: K| #[trigger] t@.dom().contains(q) implies keys.to_set().contains(q) by {
            let i = choose|i: int| 0 <= i < s.len() && (#[trigger] s[i]).0 == q;
            assert(keys[i] == q);
        }
        assert forall|q: K| #[trigger] keys.to_set().contains(q) implies t@.dom().contains(q) by {
            let i = choose|i: int| 0 <= i < keys.len() && keys[i] == q;
            assert(s[i].0 == q);
        }
    }
}

/// A sequence of pairwise distinct keys turns into a set of the same size.
proof fn lemma_distinct_key_seq<K>(s: Seq<K>)
    requires
        forall|i: int, j: int| 0 <= i < j < s.len() ==> #[trigger] s[i] != #[trigger] s[j],
    ensures
        s.to_set().finite(),
        s.to_set().len() == s.len(),
    decreases s.len(),
{
    broadcast use vstd::set::axiom_set_insert_len;

    if s.len() == 0 {
        assert(s.to_set() =~= Set::<K>::empty());
    } else {
        let prefix = s.drop_last();
        lemma_distinct_key_seq(prefix);
        assert(s.to_set() =~= prefix.to_set().insert(s.last())) by {
            assert forall|x: K| #[trigger] s.to_set().contains(x) implies prefix.to_set().insert(
                s.last(),
            ).contains(x) by {
                let i = choose|i: int| 0 <= i < s.len() && s[i] == x;
                if i < s.len() - 1 {
                    assert(prefix[i] == x);
                    assert(prefix.contains(x));
                }
            }
            assert forall|x: K| #[trigger] prefix.to_set().insert(s.last()).contains(x) implies s.to_set().contains(
                x,
            ) by {
                if prefix.to_set().contains(x) {
                    let i = choose|i: int| 0 <= i < prefix.len() && prefix[i] == x;
                    assert(s[i] == x);
                    assert(s.contains(x));
                } else {
                    assert(s[s.len() - 1] == x);
                    assert(s.contains(x));
                }
            }
        }
        assert(!prefix.to_set().contains(s.last())) by {
            if prefix.to_set().contains(s.last()) {
                let j = choose|j: int| 0 <= j < prefix.len() && prefix[j] == s.last();
                assert(s[j] == s[s.len() - 1]);
            }
        }
    }
}

/// In-order iterator: the left spine is expanded eagerly into a vector of
/// borrowed pairs, and `next_inner` walks that vector.
pub struct RBTreeIterator<'a, K: TotalOrder, V> {
    items: Vec<(&'a K, &'a V)>,
    pos: usize,
}

impl<'a, K: TotalOrder, V> RBTreeIterator<'a, K, V> {
    /// The full sequence of pairs this iterator yields.
    pub closed spec fn model(&self) -> Seq<(K, V)> {
        Seq::new(self.items@.len() as nat, |i: int| (*self.items@[i].0, *self.items@[i].1))
    }

    /// How many pairs have been yielded.
    pub closed spec fn position(&self) -> int {
        self.pos as int
    }

    pub closed spec fn wf(&self) -> bool {
        self.pos <= self.items@.len()
    }

    /// An iterator positioned at the least key of `tree`.
    pub fn new(tree: &'a RBTree<K, V>) -> (it: RBTreeIterator<'a, K, V>)
        requires
            tree.inv(),
        ensures
            it.wf(),
            it.model() =~= tree.inorder_seq(),
            it.position() == 0,
    {
        let mut items: Vec<(&'a K, &'a V)> = Vec::new();
        push_pairs(&tree.root, &mut items);
        let it = RBTreeIterator { items, pos: 0 };
        proof {
            assert forall|i: int|
                0 <= i < it.model().len() implies it.model()[i] == tree.inorder_seq()[i] by {
                assert((*(it.items@[0 + i]).0, *(it.items@[0 + i]).1) == tree.root.inorder()[i]);
            }
        }
        it
    }

    /// The next pair in key order, or `None` when the walk is done.
    pub fn next_inner(&mut self) -> (r: Option<(&'a K, &'a V)>)
        requires
            old(self).wf(),
        ensures
            final(self).wf(),
            final(self).model() =~= old(self).model(),
            match r {
                Some(p) => {
                    &&& old(self).position() < old(self).model().len()
                    &&& (*p.0, *p.1) == old(self).model()[old(self).position()]
                    &&& final(self).position() == old(self).position() + 1
                },
                None => {
                    &&& old(self).position() == old(self).model().len()
                    &&& final(self).position() == old(self).position()
                },
            },
    {
        if self.pos < self.items.len() {
            let p = self.items[self.pos];
            self.pos = self.pos + 1;
            Some(p)
        } else {
            None
        }
    }
}

/// Append the pairs of `t`, in order, to `out`.
fn push_pairs<'a, K: TotalOrder, V>(t: &'a Tree<K, V>, out: &mut Vec<(&'a K, &'a V)>)
    ensures
        final(out)@.len() == old(out)@.len() + t.inorder().len(),
        forall|i: int| 0 <= i < old(out)@.len() ==> final(out)@[i] == #[trigger] old(out)@[i],
        forall|i: int|
            0 <= i < t.inorder().len() ==> (*(#[trigger] final(out)@[old(out)@.len() + i]).0,
            *final(out)@[old(out)@.len() + i].1) == t.inorder()[i],
    decreases t,
{
    match t {
        Tree::Leaf => {},
        Tree::Node { c, l, k, v, r } => {
            let ghost out0 = out@;
            push_pairs(l, out);
            let ghost out1 = out@;
            out.push((k, v));
            let ghost out2 = out@;
            push_pairs(r, out);
            proof {
                assert(t.inorder() == l.inorder() + seq![(*k, *v)] + r.inorder());
                let ln = l.inorder().len() as int;
                assert forall|i: int| 0 <= i < out0.len() implies out@[i] == out0[i] by {
                    assert(out1[i] == out0[i]);
                    assert(out2[i] == out1[i]);
                }
                assert forall|i: int|
                    0 <= i < t.inorder().len() implies (*(#[trigger] out@[out0.len() + i]).0,
                *out@[out0.len() + i].1) == t.inorder()[i] by {
                    if i < ln {
                        assert(out@[out0.len() + i] == out2[out0.len() + i]);
                        assert(out2[out0.len() + i] == out1[out0.len() + i]);
                        assert((*out1[out0.len() + i].0, *out1[out0.len() + i].1)
                            == l.inorder()[i]);
                        assert(t.inorder()[i] == l.inorder()[i]);
                    } else if i == ln {
                        assert(out@[out0.len() + i] == out2[out0.len() + i]);
                        assert(out2 == out1.push((k, v)));
                        assert(out2[out1.len() as int] == (k, v));
                        assert(t.inorder()[i] == (*k, *v));
                    } else {
                        assert(out2.len() == out0.len() + ln + 1);
                        assert((*out@[out2.len() + (i - ln - 1)].0,
                        *out@[out2.len() + (i - ln - 1)].1) == r.inorder()[i - ln - 1]);
                        assert(t.inorder()[i] == r.inorder()[i - ln - 1]);
                    }
                }
            }
        },
    }
}


} // verus!
