//! Copy-on-write operations on the index tree of an arena.
use vstd::prelude::*;

use super::arena::{node_at, tree_at, tree_root, Node, NodeView};
use super::bytes::{copy, group_order, lt, side, Side};
use super::model::{Error, Fail, MAX_KEY};
use super::rows::{around_edit, around_sorted, lookup, sorted};
use super::tree::{
    delete, delete_meaning, first, first_meaning, height_limit, insert, insert_meaning,
    join_parts, node_parts, rebalance, rebalance_avl, rebalance_rows,
};
use super::writer::{moved, ArenaWriter};

verus! {

broadcast use super::arena::tree_empty;

/// The node with this key on the search path from `at`.
pub open spec fn find_node(b: Seq<u8>, end: int, at: u64, key: Seq<u8>) -> Result<
    Option<NodeView>,
    Fail,
>
    decreases at,
{
    if at == 0 {
        Ok(None)
    } else {
        match node_at(b, end, at as int) {
            Err(e) => Err(e),
            Ok(n) => if n.left < at && n.right < at {
                if lt(key, n.key) {
                    find_node(b, end, n.left, key)
                } else if lt(n.key, key) {
                    find_node(b, end, n.right, key)
                } else {
                    Ok(Some(n))
                }
            } else {
                Err(Fail::Corrupt("node links/height"@))
            },
        }
    }
}

/// In a readable ordered tree the search path finds exactly the row of a key.
pub proof fn find_meaning(b: Seq<u8>, end: int, at: u64, key: Seq<u8>)
    requires
        tree_at(b, end, at) is Some,
        sorted((tree_at(b, end, at)->0).rows()),
    ensures
        ({
            let rows = (tree_at(b, end, at)->0).rows();
            match find_node(b, end, at, key) {
                Ok(Some(n)) => lookup(rows, key) == Some((n.value, n.revision)) && n.key == key,
                Ok(None) => lookup(rows, key) is None,
                Err(_) => false,
            }
        }),
    decreases at,
{
    broadcast use group_order;

    if at != 0 {
        tree_root(b, end, at);
        let t = tree_at(b, end, at)->0;
        let n = node_at(b, end, at as int)->Ok_0;
        node_parts(t);
        around_sorted(t.left().rows(), (t->key, t->slot), t.right().rows());
        around_edit(t.left().rows(), (t->key, t->slot), t.right().rows(), key, t->slot);
        if lt(key, n.key) {
            find_meaning(b, end, n.left, key);
        } else if lt(n.key, key) {
            find_meaning(b, end, n.right, key);
        }
    }
}

impl ArenaWriter {
    /// Appends a node over two subtrees, rotating where one is too high.
    pub fn balance(&mut self, n: Node) -> (r: Result<u64, Error>)
        requires
            old(self).wf(),
            n.key@.len() <= MAX_KEY,
        ensures
            final(self).live(),
            final(self).grew_from(*old(self)),
            r is Ok ==> final(self).wf(),
            r matches Ok(at) ==> at >= old(self).end,
            old(self).tree(n.left) matches Some(l) ==> (old(self).tree(n.right) matches Some(t)
                ==> (8 <= n.value < old(self).end && l.avl() && t.avl() && -2 <= l.height()
                - t.height() <= 2 && l.rows().len() + t.rows().len() + 1 <= u64::MAX ==> {
                &&& r matches Ok(at) ==> final(self).tree(at) == Some(
                    rebalance(n.key@, (n.value, n.revision), l, t),
                )
                &&& r matches Err(e) ==> final(self).may_fail(e@)
            })),
    {
        let ghost s0 = *self;
        let ghost sound = s0.tree(n.left) is Some && s0.tree(n.right) is Some && 8 <= n.value
            < s0.end && s0.tree(n.left)->0.avl() && s0.tree(n.right)->0.avl() && -2 <= s0.tree(
            n.left,
        )->0.height() - s0.tree(n.right)->0.height() <= 2 && s0.tree(n.left)->0.rows().len()
            + s0.tree(n.right)->0.rows().len() + 1 <= u64::MAX;
        let ghost lt0 = s0.tree(n.left)->0;
        let ghost rt0 = s0.tree(n.right)->0;
        let ghost slot = (n.value, n.revision);
        let ghost key = n.key@;
        let ghost whole = rebalance(key, slot, lt0, rt0);
        proof {
            if sound {
                height_limit(lt0);
                height_limit(rt0);
                rebalance_avl(key, slot, lt0, rt0);
                rebalance_rows(key, slot, lt0, rt0);
                height_limit(whole);
                node_parts(whole);
                if n.left != 0 {
                    tree_root(s0.image(), s0.end as int, n.left);
                    node_parts(lt0);
                }
                if n.right != 0 {
                    tree_root(s0.image(), s0.end as int, n.right);
                    node_parts(rt0);
                }
            }
        }
        let hl: u32 = self.height(n.left)?;
        let hr: u32 = self.height(n.right)?;
        if hl > hr && hl - hr > 1 {
            let l = self.node(n.left)?;
            proof {
                if sound {
                    if l.left != 0 {
                        tree_root(s0.image(), s0.end as int, l.left);
                    }
                    if l.right != 0 {
                        tree_root(s0.image(), s0.end as int, l.right);
                        node_parts(lt0.right());
                    }
                }
            }
            let hll: u32 = self.height(l.left)?;
            let hlr: u32 = self.height(l.right)?;
            if hll < hlr {
                let m = self.node(l.right)?;
                let ghost s1 = *self;
                let nl = Node {
                    left: l.left,
                    right: m.left,
                    value: l.value,
                    revision: l.revision,
                    height: l.height,
                    key: l.key,
                };
                let ghost nlv = nl@;
                let a = self.save(nl)?;
                let ghost s2 = *self;
                proof {
                    if sound {
                        moved(s1, s2, m.right);
                        moved(s1, s2, n.right);
                        join_parts(nlv.key, (nlv.value, nlv.revision), lt0.left(), lt0.right().left());
                    }
                }
                let nn = Node {
                    left: m.right,
                    right: n.right,
                    value: n.value,
                    revision: n.revision,
                    height: n.height,
                    key: n.key,
                };
                let b = self.save(nn)?;
                let ghost s3 = *self;
                proof {
                    if sound {
                        moved(s2, s3, a);
                        join_parts(key, slot, lt0.right().right(), rt0);
                    }
                }
                let nm = Node {
                    left: a,
                    right: b,
                    value: m.value,
                    revision: m.revision,
                    height: m.height,
                    key: m.key,
                };
                return self.save(nm);
            }
            let ghost s1 = *self;
            let nn = Node {
                left: l.right,
                right: n.right,
                value: n.value,
                revision: n.revision,
                height: n.height,
                key: n.key,
            };
            let b = self.save(nn)?;
            let ghost s2 = *self;
            proof {
                if sound {
                    moved(s1, s2, l.left);
                    join_parts(key, slot, lt0.right(), rt0);
                }
            }
            let nl = Node {
                left: l.left,
                right: b,
                value: l.value,
                revision: l.revision,
                height: l.height,
                key: l.key,
            };
            return self.save(nl);
        }
        if hr > hl && hr - hl > 1 {
            let rt = self.node(n.right)?;
            proof {
                if sound {
                    if rt.right != 0 {
                        tree_root(s0.image(), s0.end as int, rt.right);
                    }
                    if rt.left != 0 {
                        tree_root(s0.image(), s0.end as int, rt.left);
                        node_parts(rt0.left());
                    }
                }
            }
            let hrr: u32 = self.height(rt.right)?;
            let hrl: u32 = self.height(rt.left)?;
            if hrr < hrl {
                let m = self.node(rt.left)?;
                let ghost s1 = *self;
                let nr = Node {
                    left: m.right,
                    right: rt.right,
                    value: rt.value,
                    revision: rt.revision,
                    height: rt.height,
                    key: rt.key,
                };
                let ghost nrv = nr@;
                let b = self.save(nr)?;
                let ghost s2 = *self;
                proof {
                    if sound {
                        moved(s1, s2, m.left);
                        moved(s1, s2, n.left);
                        join_parts(
                            nrv.key,
                            (nrv.value, nrv.revision),
                            rt0.left().right(),
                            rt0.right(),
                        );
                    }
                }
                let nn = Node {
                    left: n.left,
                    right: m.left,
                    value: n.value,
                    revision: n.revision,
                    height: n.height,
                    key: n.key,
                };
                let a = self.save(nn)?;
                let ghost s3 = *self;
                proof {
                    if sound {
                        moved(s2, s3, b);
                        join_parts(key, slot, lt0, rt0.left().left());
                    }
                }
                let nm = Node {
                    left: a,
                    right: b,
                    value: m.value,
                    revision: m.revision,
                    height: m.height,
                    key: m.key,
                };
                return self.save(nm);
            }
            let ghost s1 = *self;
            let nn = Node {
                left: n.left,
                right: rt.left,
                value: n.value,
                revision: n.revision,
                height: n.height,
                key: n.key,
            };
            let a = self.save(nn)?;
            let ghost s2 = *self;
            proof {
                if sound {
                    moved(s1, s2, rt.right);
                    join_parts(key, slot, lt0, rt0.left());
                }
            }
            let nr = Node {
                left: a,
                right: rt.right,
                value: rt.value,
                revision: rt.revision,
                height: rt.height,
                key: rt.key,
            };
            return self.save(nr);
        }
        self.save(n)
    }

    /// The node with this key, searched from `at`.
    pub fn find(&mut self, at: u64, key: &[u8]) -> (r: Result<Option<Node>, Error>)
        requires
            old(self).wf(),
        ensures
            final(self).wf(),
            final(self).grew_from(*old(self)),
            final(self).image() == old(self).image(),
            final(self).end == old(self).end,
            match find_node(old(self).image(), old(self).end as int, at, key@) {
                Ok(Some(n)) => r matches Ok(Some(m)) && m@ == n,
                Ok(None) => r matches Ok(None),
                Err(e) => r matches Err(f) && f@ == e,
            },
    {
        broadcast use group_order;

        let ghost s0 = *self;
        let mut here: u64 = at;
        while here != 0
            invariant
                self.wf(),
                self.grew_from(s0),
                self.image() == s0.image(),
                self.end == s0.end,
                s0 == *old(self),
                find_node(s0.image(), s0.end as int, here, key@) == find_node(
                    s0.image(),
                    s0.end as int,
                    at,
                    key@,
                ),
            decreases here,
        {
            let n = self.node(here)?;
            match side(key, n.key.as_slice()) {
                Side::Same => {
                    return Ok(Some(n));
                },
                Side::Before => {
                    here = n.left;
                },
                Side::After => {
                    here = n.right;
                },
            }
        }
        Ok(None)
    }

    /// Sets the row of a key in the tree at `at` and returns the new root.
    pub fn insert(&mut self, at: u64, key: &[u8], value: u64, revision: u64) -> (r: Result<
        u64,
        Error,
    >)
        requires
            old(self).wf(),
            key@.len() <= MAX_KEY,
        ensures
            final(self).live(),
            final(self).grew_from(*old(self)),
            r is Ok ==> final(self).wf(),
            old(self).tree(at) matches Some(t) ==> (t.valid() && t.rows().len() < u64::MAX && 8
                <= value < old(self).end ==> {
                &&& r matches Ok(x) ==> final(self).tree(x) == Some(
                    insert(t, key@, (value, revision)),
                )
                &&& r matches Err(e) ==> final(self).may_fail(e@)
            }),
        decreases at,
    {
        broadcast use group_order;

        let ghost s0 = *self;
        let ghost sound = s0.tree(at) is Some && s0.tree(at)->0.valid() && s0.tree(
            at,
        )->0.rows().len() < u64::MAX && 8 <= value < s0.end;
        let ghost t = s0.tree(at)->0;
        if at == 0 {
            return self.save(
                Node { left: 0, right: 0, value, revision, height: 1, key: copy(key) },
            );
        }
        proof {
            if sound {
                tree_root(s0.image(), s0.end as int, at);
                node_parts(t);
                around_sorted(t.left().rows(), (t->key, t->slot), t.right().rows());
                around_edit(
                    t.left().rows(),
                    (t->key, t->slot),
                    t.right().rows(),
                    key@,
                    (value, revision),
                );
                height_limit(t);
                insert_meaning(t.left(), key@, (value, revision));
                insert_meaning(t.right(), key@, (value, revision));
                super::rows::put_meaning(t.left().rows(), key@, (value, revision));
                super::rows::put_meaning(t.right().rows(), key@, (value, revision));
            }
        }
        let mut n = self.node(at)?;
        let ghost s1 = *self;
        match side(key, n.key.as_slice()) {
            Side::Same => {
                n.value = value;
                n.revision = revision;
            },
            Side::Before => {
                n.left = self.insert(n.left, key, value, revision)?;
                proof {
                    if sound {
                        moved(s1, *self, n.right);
                    }
                }
            },
            Side::After => {
                n.right = self.insert(n.right, key, value, revision)?;
                proof {
                    if sound {
                        moved(s1, *self, n.left);
                    }
                }
            },
        }
        self.balance(n)
    }

    /// The leftmost node below `at`.
    fn leftmost(&mut self, at: u64) -> (r: Result<Node, Error>)
        requires
            old(self).wf(),
        ensures
            final(self).wf(),
            final(self).grew_from(*old(self)),
            final(self).image() == old(self).image(),
            final(self).end == old(self).end,
            r matches Ok(n) ==> n.key@.len() <= MAX_KEY,
            at != 0 ==> (old(self).tree(at) matches Some(t) ==> (r matches Ok(n) && first(t) is Node
                && n.key@ == first(t)->key && (n.value, n.revision) == first(t)->slot && 8
                <= n.value < old(self).end)),
    {
        let ghost s0 = *self;
        let ghost sound = at != 0 && s0.tree(at) is Some;
        let ghost t = s0.tree(at)->0;
        proof {
            if sound {
                tree_root(s0.image(), s0.end as int, at);
            }
        }
        let mut next = self.node(at)?;
        let ghost mut below = at;
        while next.left != 0
            invariant
                self.wf(),
                self.grew_from(s0),
                self.image() == s0.image(),
                self.end == s0.end,
                s0 == *old(self),
                sound == (at != 0 && s0.tree(at) is Some),
                node_at(s0.image(), s0.end as int, below as int) == Ok::<NodeView, Fail>(next@),
                t == s0.tree(at)->0,
                sound ==> below != 0 && s0.tree(below) is Some && first(s0.tree(below)->0) == first(
                    t,
                ),
            decreases next.left,
        {
            let ghost up = below;
            proof {
                below = next.left;
                if sound {
                    tree_root(s0.image(), s0.end as int, up);
                    tree_root(s0.image(), s0.end as int, below);
                }
            }
            next = self.node(next.left)?;
        }
        proof {
            if sound {
                tree_root(s0.image(), s0.end as int, below);
                assert(s0.tree(below)->0.left() is Leaf);
            }
        }
        Ok(next)
    }

    #[verifier::rlimit(60)]
    /// Removes the row of a key from the tree at `at` and returns the new root.
    pub fn delete(&mut self, at: u64, key: &[u8]) -> (r: Result<u64, Error>)
        requires
            old(self).wf(),
        ensures
            final(self).live(),
            final(self).grew_from(*old(self)),
            r is Ok ==> final(self).wf(),
            old(self).tree(at) matches Some(t) ==> (t.valid() && t.rows().len() <= u64::MAX ==> {
                &&& r matches Ok(x) ==> final(self).tree(x) == Some(delete(t, key@))
                &&& r matches Err(e) ==> final(self).may_fail(e@)
            }),
        decreases at,
    {
        broadcast use group_order;

        let ghost s0 = *self;
        let ghost sound = s0.tree(at) is Some && s0.tree(at)->0.valid() && s0.tree(
            at,
        )->0.rows().len() <= u64::MAX;
        let ghost t = s0.tree(at)->0;
        if at == 0 {
            return Ok(0);
        }
        proof {
            if sound {
                tree_root(s0.image(), s0.end as int, at);
                node_parts(t);
                around_sorted(t.left().rows(), (t->key, t->slot), t.right().rows());
                height_limit(t);
                delete_meaning(t.left(), key@);
                delete_meaning(t.right(), key@);
                super::rows::without_meaning(t.left().rows(), key@);
                super::rows::without_meaning(t.right().rows(), key@);
            }
        }
        let mut n = self.node(at)?;
        let ghost s1 = *self;
        match side(key, n.key.as_slice()) {
            Side::Before => {
                n.left = self.delete(n.left, key)?;
                proof {
                    if sound {
                        moved(s1, *self, n.right);
                    }
                }
            },
            Side::After => {
                n.right = self.delete(n.right, key)?;
                proof {
                    if sound {
                        moved(s1, *self, n.left);
                    }
                }
            },
            Side::Same => {
                if n.left == 0 {
                    proof {
                        if sound {
                            moved(s0, s1, n.right);
                        }
                    }
                    return Ok(n.right);
                }
                if n.right == 0 {
                    proof {
                        if sound {
                            moved(s0, s1, n.left);
                        }
                    }
                    return Ok(n.left);
                }
                let next = self.leftmost(n.right)?;
                proof {
                    if sound {
                        tree_root(s0.image(), s0.end as int, n.right);
                        tree_root(s0.image(), s0.end as int, n.left);
                        first_meaning(t.right());
                        delete_meaning(t.right(), next.key@);
                        super::rows::without_meaning(t.right().rows(), next.key@);
                    }
                }
                let ghost s2 = *self;
                n.key = copy(next.key.as_slice());
                n.value = next.value;
                n.revision = next.revision;
                n.right = self.delete(n.right, next.key.as_slice())?;
                proof {
                    if sound {
                        moved(s2, *self, n.left);
                    }
                }
            },
        }
        self.balance(n)
    }
}

} // verus!
