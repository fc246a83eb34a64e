//! The balanced search tree that an arena encodes, as a mathematical value.
use vstd::arithmetic::power2::{lemma2_to64, lemma_pow2_unfold, pow2};
use vstd::prelude::*;

use super::bytes::{group_order, lt};
use super::rows::{around, around_edit, around_sorted, lookup_at, put, sorted, without};

verus! {

/// What an index row holds: the arena offset of a value and the revision that
/// wrote it.
pub type Slot = (u64, u64);

/// A search tree over keys. Heights are the recorded ones.
pub enum Tree {
    Leaf,
    Node { key: Seq<u8>, slot: Slot, height: u32, left: Box<Tree>, right: Box<Tree> },
}

impl Tree {
    /// The rows of the tree from left to right.
    pub open spec fn rows(self) -> Seq<(Seq<u8>, Slot)>
        decreases self,
    {
        match self {
            Tree::Leaf => Seq::empty(),
            Tree::Node { key, slot, height, left, right } => around(
                left.rows(),
                (key, slot),
                right.rows(),
            ),
        }
    }

    /// The recorded height of the root.
    pub open spec fn height(self) -> int {
        match self {
            Tree::Leaf => 0,
            Tree::Node { height, .. } => height as int,
        }
    }

    /// Every recorded height is one more than the larger child's, and the
    /// children's heights differ by at most one.
    pub open spec fn avl(self) -> bool
        decreases self,
    {
        match self {
            Tree::Leaf => true,
            Tree::Node { key, slot, height, left, right } => {
                &&& left.avl()
                &&& right.avl()
                &&& -1 <= left.height() - right.height() <= 1
                &&& height == 1 + if left.height() > right.height() {
                    left.height()
                } else {
                    right.height()
                }
            },
        }
    }

    /// Keys are in order and the tree is balanced.
    pub open spec fn valid(self) -> bool {
        sorted(self.rows()) && self.avl()
    }

    pub open spec fn left(self) -> Tree
        recommends
            self is Node,
    {
        *self->left
    }

    pub open spec fn right(self) -> Tree
        recommends
            self is Node,
    {
        *self->right
    }
}

/// A node over two subtrees, with the height that they call for.
pub open spec fn join(key: Seq<u8>, slot: Slot, left: Tree, right: Tree) -> Tree {
    let h = if left.height() > right.height() {
        left.height()
    } else {
        right.height()
    };
    Tree::Node {
        key,
        slot,
        height: (1 + h) as u32,
        left: Box::new(left),
        right: Box::new(right),
    }
}

/// A node over two subtrees after at most one rotation, single or double, on
/// the side that is more than one level too high.
pub open spec fn rebalance(key: Seq<u8>, slot: Slot, left: Tree, right: Tree) -> Tree {
    if left.height() - right.height() > 1 {
        let l = left;
        if l.left().height() < l.right().height() {
            let m = l.right();
            join(
                m->key,
                m->slot,
                join(l->key, l->slot, l.left(), m.left()),
                join(key, slot, m.right(), right),
            )
        } else {
            join(l->key, l->slot, l.left(), join(key, slot, l.right(), right))
        }
    } else if right.height() - left.height() > 1 {
        let r = right;
        if r.right().height() < r.left().height() {
            let m = r.left();
            join(
                m->key,
                m->slot,
                join(key, slot, left, m.left()),
                join(r->key, r->slot, m.right(), r.right()),
            )
        } else {
            join(r->key, r->slot, join(key, slot, left, r.left()), r.right())
        }
    } else {
        join(key, slot, left, right)
    }
}

/// The tree after a row was set.
pub open spec fn insert(t: Tree, key: Seq<u8>, slot: Slot) -> Tree
    decreases t,
{
    match t {
        Tree::Leaf => join(key, slot, Tree::Leaf, Tree::Leaf),
        Tree::Node { key: k, slot: s, height, left, right } => if lt(key, k) {
            rebalance(k, s, insert(*left, key, slot), *right)
        } else if lt(k, key) {
            rebalance(k, s, *left, insert(*right, key, slot))
        } else {
            rebalance(k, slot, *left, *right)
        },
    }
}

/// The leftmost node of a tree.
pub open spec fn first(t: Tree) -> Tree
    decreases t,
{
    match t {
        Tree::Node { left, .. } => if *left is Leaf {
            t
        } else {
            first(*left)
        },
        Tree::Leaf => t,
    }
}

/// The tree after a row was removed.
pub open spec fn delete(t: Tree, key: Seq<u8>) -> Tree
    decreases t,
{
    match t {
        Tree::Leaf => Tree::Leaf,
        Tree::Node { key: k, slot: s, height, left, right } => if lt(key, k) {
            rebalance(k, s, delete(*left, key), *right)
        } else if lt(k, key) {
            rebalance(k, s, *left, delete(*right, key))
        } else if *left is Leaf {
            *right
        } else if *right is Leaf {
            *left
        } else {
            let n = first(*right);
            rebalance(n->key, n->slot, *left, delete(*right, n->key))
        },
    }
}

/// A node's rows stand around its own, and its balance covers its children's.
pub proof fn node_parts(t: Tree)
    requires
        t is Node,
    ensures
        t.rows() == around(t.left().rows(), (t->key, t->slot), t.right().rows()),
        t.avl() ==> {
            &&& t.left().avl()
            &&& t.right().avl()
            &&& -1 <= t.left().height() - t.right().height() <= 1
            &&& t.height() == 1 + if t.left().height() > t.right().height() {
                t.left().height()
            } else {
                t.right().height()
            }
        },
{
}

/// The rows and the balance of a joined node.
pub proof fn join_parts(key: Seq<u8>, slot: Slot, left: Tree, right: Tree)
    ensures
        join(key, slot, left, right).rows() == around(left.rows(), (key, slot), right.rows()),
        0 <= left.height() < u32::MAX && 0 <= right.height() < u32::MAX ==> join(
            key,
            slot,
            left,
            right,
        ).height() == 1 + if left.height() > right.height() {
            left.height()
        } else {
            right.height()
        },
        left.avl() && right.avl() && 0 <= left.height() < u32::MAX && 0 <= right.height()
            < u32::MAX && -1 <= left.height() - right.height() <= 1 ==> join(
            key,
            slot,
            left,
            right,
        ).avl(),
{
}

/// Rotations keep the rows.
pub proof fn rebalance_rows(key: Seq<u8>, slot: Slot, left: Tree, right: Tree)
    requires
        left.avl(),
        right.avl(),
    ensures
        rebalance(key, slot, left, right).rows() == around(left.rows(), (key, slot), right.rows()),
{
    let t = rebalance(key, slot, left, right);
    let whole = around(left.rows(), (key, slot), right.rows());
    height_nonnegative(left);
    height_nonnegative(right);
    if left.height() - right.height() > 1 {
        let l = left;
        node_parts(l);
        if l.left().height() < l.right().height() {
            let m = l.right();
            height_nonnegative(l.left());
            node_parts(m);
            let a = join(l->key, l->slot, l.left(), m.left());
            let b = join(key, slot, m.right(), right);
            join_parts(l->key, l->slot, l.left(), m.left());
            join_parts(key, slot, m.right(), right);
            join_parts(m->key, m->slot, a, b);
            assert(t.rows() =~= whole);
        } else {
            let a = join(key, slot, l.right(), right);
            join_parts(key, slot, l.right(), right);
            join_parts(l->key, l->slot, l.left(), a);
            assert(t.rows() =~= whole);
        }
    } else if right.height() - left.height() > 1 {
        let r = right;
        node_parts(r);
        if r.right().height() < r.left().height() {
            let m = r.left();
            height_nonnegative(r.right());
            node_parts(m);
            let a = join(key, slot, left, m.left());
            let b = join(r->key, r->slot, m.right(), r.right());
            join_parts(key, slot, left, m.left());
            join_parts(r->key, r->slot, m.right(), r.right());
            join_parts(m->key, m->slot, a, b);
            assert(t.rows() =~= whole);
        } else {
            let a = join(key, slot, left, r.left());
            join_parts(key, slot, left, r.left());
            join_parts(r->key, r->slot, a, r.right());
            assert(t.rows() =~= whole);
        }
    } else {
        join_parts(key, slot, left, right);
    }
}

proof fn height_nonnegative(t: Tree)
    requires
        t.avl(),
    ensures
        t.height() >= 0,
        t is Node ==> t.height() >= 1,
        t.height() == 0 ==> t is Leaf,
{
}

/// Rotations restore the balance where one side is at most two levels higher.
pub proof fn rebalance_avl(key: Seq<u8>, slot: Slot, left: Tree, right: Tree)
    requires
        left.avl(),
        right.avl(),
        -2 <= left.height() - right.height() <= 2,
        left.height() <= 0x7fff_ffff,
        right.height() <= 0x7fff_ffff,
    ensures
        rebalance(key, slot, left, right).avl(),
        rebalance(key, slot, left, right).height() <= 1 + if left.height() > right.height() {
            left.height()
        } else {
            right.height()
        },
        rebalance(key, slot, left, right).height() >= if left.height() > right.height() {
            left.height()
        } else {
            right.height()
        },
        -1 <= left.height() - right.height() <= 1 ==> rebalance(key, slot, left, right) == join(
            key,
            slot,
            left,
            right,
        ),
{
    height_nonnegative(left);
    height_nonnegative(right);
    if left.height() - right.height() > 1 {
        let l = left;
        node_parts(l);
        height_nonnegative(l.left());
        height_nonnegative(l.right());
        if l.left().height() < l.right().height() {
            let m = l.right();
            node_parts(m);
            height_nonnegative(m.left());
            height_nonnegative(m.right());
            let a = join(l->key, l->slot, l.left(), m.left());
            let b = join(key, slot, m.right(), right);
            join_parts(l->key, l->slot, l.left(), m.left());
            join_parts(key, slot, m.right(), right);
            join_parts(m->key, m->slot, a, b);
        } else {
            let a = join(key, slot, l.right(), right);
            join_parts(key, slot, l.right(), right);
            join_parts(l->key, l->slot, l.left(), a);
        }
    } else if right.height() - left.height() > 1 {
        let r = right;
        node_parts(r);
        height_nonnegative(r.left());
        height_nonnegative(r.right());
        if r.right().height() < r.left().height() {
            let m = r.left();
            node_parts(m);
            height_nonnegative(m.left());
            height_nonnegative(m.right());
            let a = join(key, slot, left, m.left());
            let b = join(r->key, r->slot, m.right(), r.right());
            join_parts(key, slot, left, m.left());
            join_parts(r->key, r->slot, m.right(), r.right());
            join_parts(m->key, m->slot, a, b);
        } else {
            let a = join(key, slot, left, r.left());
            join_parts(key, slot, left, r.left());
            join_parts(r->key, r->slot, a, r.right());
        }
    } else {
        join_parts(key, slot, left, right);
    }
}

/// A balanced tree of height `h` has at least `2^((h + 1) / 2) - 1` rows.
pub proof fn height_bound(t: Tree)
    requires
        t.avl(),
    ensures
        t.rows().len() + 1 >= pow2(((t.height() + 1) / 2) as nat),
    decreases t,
{
    height_nonnegative(t);
    lemma2_to64();
    if t is Node {
        height_bound(t.left());
        height_bound(t.right());
        height_nonnegative(t.left());
        height_nonnegative(t.right());
        let h = t.height();
        if h >= 2 {
            lemma_pow2_unfold(((h + 1) / 2) as nat);
            pow2_grows(((h - 1) / 2) as nat, ((t.left().height() + 1) / 2) as nat);
            pow2_grows(((h - 1) / 2) as nat, ((t.right().height() + 1) / 2) as nat);
        }
    }
}

proof fn pow2_grows(a: nat, b: nat)
    requires
        a <= b,
    ensures
        pow2(a) <= pow2(b),
    decreases b,
{
    if a < b {
        pow2_grows(a, (b - 1) as nat);
        lemma_pow2_unfold(b);
    }
}

/// No balanced tree with fewer than 2^64 rows is higher than the format allows.
pub proof fn height_limit(t: Tree)
    requires
        t.avl(),
        t.rows().len() <= u64::MAX,
    ensures
        0 <= t.height() <= 128,
{
    height_nonnegative(t);
    height_bound(t);
    if t.height() > 128 {
        pow2_grows(65, ((t.height() + 1) / 2) as nat);
        lemma2_to64();
        lemma_pow2_unfold(65);
    }
}

/// Insertion sets exactly one row and keeps the tree valid; the height grows by
/// at most one.
pub proof fn insert_meaning(t: Tree, key: Seq<u8>, slot: Slot)
    requires
        t.valid(),
        t.height() <= 0x7fff_0000,
    ensures
        insert(t, key, slot).rows() == put(t.rows(), key, slot),
        insert(t, key, slot).avl(),
        t.height() <= insert(t, key, slot).height() <= t.height() + 1,
    decreases t,
{
    broadcast use group_order;

    match t {
        Tree::Leaf => {
            assert(insert(t, key, slot).rows() =~= put(t.rows(), key, slot));
        },
        Tree::Node { key: k, slot: s, height, left, right } => {
            height_nonnegative(*left);
            height_nonnegative(*right);
            around_sorted(left.rows(), (k, s), right.rows());
            around_edit(left.rows(), (k, s), right.rows(), key, slot);
            if lt(key, k) {
                insert_meaning(*left, key, slot);
                rebalance_rows(k, s, insert(*left, key, slot), *right);
                rebalance_avl(k, s, insert(*left, key, slot), *right);
                insert_height(t, key, slot);
            } else if lt(k, key) {
                insert_meaning(*right, key, slot);
                rebalance_rows(k, s, *left, insert(*right, key, slot));
                rebalance_avl(k, s, *left, insert(*right, key, slot));
                insert_height(t, key, slot);
            } else {
                rebalance_rows(k, slot, *left, *right);
                rebalance_avl(k, slot, *left, *right);
            }
        },
    }
}

proof fn insert_height(t: Tree, key: Seq<u8>, slot: Slot)
    requires
        t is Node,
        t.avl(),
        t.height() <= 0x7fff_0000,
        lt(key, t->key) ==> insert(t.left(), key, slot).avl() && t.left().height() <= insert(
            t.left(),
            key,
            slot,
        ).height() <= t.left().height() + 1,
        lt(t->key, key) ==> insert(t.right(), key, slot).avl() && t.right().height() <= insert(
            t.right(),
            key,
            slot,
        ).height() <= t.right().height() + 1,
        lt(key, t->key) || lt(t->key, key),
    ensures
        t.height() <= insert(t, key, slot).height() <= t.height() + 1,
{
    broadcast use group_order;

    height_nonnegative(t.left());
    height_nonnegative(t.right());
    if lt(key, t->key) {
        let l = insert(t.left(), key, slot);
        height_nonnegative(l);
        if l.height() - t.right().height() > 1 {
            height_nonnegative(l.left());
            height_nonnegative(l.right());
        }
        rebalance_avl(t->key, t->slot, l, t.right());
    } else {
        let r = insert(t.right(), key, slot);
        height_nonnegative(r);
        if r.height() - t.left().height() > 1 {
            height_nonnegative(r.left());
            height_nonnegative(r.right());
        }
        rebalance_avl(t->key, t->slot, t.left(), r);
    }
}

/// The leftmost node carries the first row.
pub proof fn first_meaning(t: Tree)
    requires
        t is Node,
    ensures
        first(t) is Node,
        t.rows().len() > 0,
        t.rows()[0] == (first(t)->key, first(t)->slot),
    decreases t,
{
    node_parts(t);
    if t.left() is Leaf {
        assert(t.left().rows() =~= Seq::empty());
        assert(first(t) == t);
    } else {
        first_meaning(t.left());
        assert(t.rows()[0] == t.left().rows()[0]);
    }
}

/// Deletion removes exactly one row and keeps the tree valid; the height falls
/// by at most one.
#[verifier::rlimit(40)]
pub proof fn delete_meaning(t: Tree, key: Seq<u8>)
    requires
        t.valid(),
        t.height() <= 0x7fff_0000,
    ensures
        delete(t, key).rows() == without(t.rows(), key),
        delete(t, key).avl(),
        t.height() - 1 <= delete(t, key).height() <= t.height(),
    decreases t,
{
    broadcast use group_order;

    match t {
        Tree::Leaf => {
            assert(delete(t, key).rows() =~= without(t.rows(), key));
        },
        Tree::Node { key: k, slot: s, height, left, right } => {
            height_nonnegative(*left);
            height_nonnegative(*right);
            around_sorted(left.rows(), (k, s), right.rows());
            around_edit(left.rows(), (k, s), right.rows(), key, s);
            if lt(key, k) {
                delete_meaning(*left, key);
                rebalance_rows(k, s, delete(*left, key), *right);
                rebalance_avl(k, s, delete(*left, key), *right);
            } else if lt(k, key) {
                delete_meaning(*right, key);
                rebalance_rows(k, s, *left, delete(*right, key));
                rebalance_avl(k, s, *left, delete(*right, key));
            } else if *left is Leaf {
                assert(left.rows() + right.rows() =~= right.rows());
            } else if *right is Leaf {
                assert(left.rows() + right.rows() =~= left.rows());
            } else {
                let n = first(*right);
                first_meaning(*right);
                delete_meaning(*right, n->key);
                rebalance_rows(n->key, n->slot, *left, delete(*right, n->key));
                rebalance_avl(n->key, n->slot, *left, delete(*right, n->key));
                assert(around(
                    left.rows(),
                    (n->key, n->slot),
                    without(right.rows(), n->key),
                ) == left.rows() + right.rows()) by {
                    lookup_at(right.rows(), 0);
                    assert(without(right.rows(), n->key) =~= right.rows().skip(1));
                    assert(around(left.rows(), (n->key, n->slot), right.rows().skip(1))
                        =~= left.rows() + right.rows());
                }
            }
        },
    }
}

/// The height of a tree that is built over `n` rows by halving.
pub open spec fn built_height(n: nat) -> int
    decreases n,
{
    if n == 0 {
        0
    } else {
        1 + built_height(n / 2)
    }
}

/// Halving loses at most one level between neighbouring sizes.
pub proof fn built_height_steps(n: nat)
    ensures
        0 <= built_height(n),
        built_height(n) <= built_height(n + 1) <= built_height(n) + 1,
    decreases n,
{
    if n > 0 {
        built_height_steps(n / 2);
        if (n + 1) / 2 != n / 2 {
            assert((n + 1) / 2 == n / 2 + 1);
        }
    }
    if n == 0 {
        assert(built_height(0) == 0);
        assert(built_height(1) == 1 + built_height(0));
    }
}

} // verus!
