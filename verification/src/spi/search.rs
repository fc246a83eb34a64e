//! Reading one version of an index: point search, ordered cursor, key prefixes
//! and integrity checking.
use vstd::prelude::*;

use super::arena::{node_at, tree_at, tree_root, Node, NodeView};
use super::bytes::{before, common, copy, group_order, lt, side, Side};
use super::cache::nodes_only;
use super::epoch::Epoch;
use super::index::find_node;
use super::model::{Error, Fail};
use super::rows::{around_rank, around_sorted, in_range, rank, rank_splits, sorted};
use super::tree::{node_parts, Slot};
use super::walk::{line, line_from, stack_line, until};

verus! {

broadcast use {super::arena::tree_empty, super::cache::group_nodes_only};

/// The node with this key in the version whose index starts at `root`. A node
/// that is cached is found even where it lies behind `end`, which no intact
/// version leads to.
pub fn find_in(e: &mut Epoch, root: u64, end: u64, key: &[u8]) -> (r: Result<Option<Node>, Error>)
    requires
        old(e).wf(),
    ensures
        final(e).wf(),
        final(e).same_arena(*old(e)),
        nodes_only(old(e).cache@, final(e).cache@),
        r matches Err(x) ==> super::arena::unreadable(x@),
        find_node(old(e).image@, end as int, root, key@) matches Ok(x) ==> match x {
            Some(n) => r matches Ok(Some(m)) && m@ == n,
            None => r matches Ok(None),
        },
        r matches Ok(x) ==> find_node(old(e).image@, old(e).image@.len() as int, root, key@) == Ok::<
            Option<NodeView>,
            Fail,
        >(
            match x {
                Some(n) => Some(n@),
                None => None,
            },
        ),
        end == old(e).image@.len() ==> (find_node(
            old(e).image@,
            end as int,
            root,
            key@,
        ) matches Err(x) ==> (r matches Err(f) && f@ == x)),
{
    broadcast use group_order;

    let ghost b = e.image@;
    let ghost s0 = *e;
    let mut here: u64 = root;
    while here != 0
        invariant
            e.wf(),
            e.same_arena(s0),
            nodes_only(s0.cache@, e.cache@),
            s0 == *old(e),
            b == s0.image@,
            find_node(b, end as int, root, key@) is Ok ==> find_node(b, end as int, here, key@)
                == find_node(b, end as int, root, key@),
            find_node(b, b.len() as int, here, key@) == find_node(b, b.len() as int, root, key@),
            end == b.len() ==> find_node(b, end as int, here, key@) == find_node(
                b,
                end as int,
                root,
                key@,
            ),
        decreases here,
    {
        let n = e.node(here, end)?;
        match side(key, n.key.as_slice()) {
            Side::Same => {
                return Ok(Some(n));
            },
            Side::Before => {
                here = n.left;
            },
            Side::After => {
                here = n.right;
            },
        }
    }
    Ok(None)
}

/// The index row of a node.
pub open spec fn row_of_node(n: NodeView) -> (Seq<u8>, Slot) {
    (n.key, (n.value, n.revision))
}

/// The index rows that a stack of nodes still has to give: for each node, from
/// the top down, its own row and those of its right subtree.
pub open spec fn pending(b: Seq<u8>, end: int, stack: Seq<NodeView>) -> Seq<(Seq<u8>, Slot)>
    decreases stack.len(),
{
    if stack.len() == 0 {
        Seq::empty()
    } else {
        seq![row_of_node(stack.last())] + (tree_at(b, end, stack.last().right)->0).rows()
            + pending(b, end, stack.drop_last())
    }
}

/// Whether every right subtree on a stack is readable.
pub open spec fn readable(b: Seq<u8>, end: int, stack: Seq<NodeView>) -> bool {
    forall|i: int| 0 <= i < stack.len() ==> tree_at(b, end, (#[trigger] stack[i]).right) is Some
}

/// How many nodes an unguarded walk from `at` meets.
pub open spec fn size_at(b: Seq<u8>, at: u64) -> nat
    decreases at,
{
    if at == 0 {
        0
    } else {
        match node_at(b, b.len() as int, at as int) {
            Ok(n) => if n.left < at && n.right < at {
                1 + size_at(b, n.left) + size_at(b, n.right)
            } else {
                0
            },
            Err(_) => 0,
        }
    }
}

/// How many nodes a walk from a stack still meets.
pub open spec fn weight(b: Seq<u8>, stack: Seq<NodeView>) -> nat
    decreases stack.len(),
{
    if stack.len() == 0 {
        0
    } else {
        1 + size_at(b, stack.last().right) + weight(b, stack.drop_last())
    }
}

/// An ordered walk over the index rows of one version.
#[derive(Debug)]
pub struct Cursor {
    pub limit: u64,
    pub stack: Vec<Node>,
    pub end: Option<Vec<u8>>,
    pub failed: bool,
}

impl Cursor {
    pub open spec fn nodes(self) -> Seq<NodeView> {
        self.stack@.map_values(|n: Node| n@)
    }

    /// The rows to come, before the upper bound is looked at.
    pub open spec fn coming(self, b: Seq<u8>) -> Seq<(Seq<u8>, Slot)> {
        pending(b, self.limit as int, self.nodes())
    }

    /// What the walk meets from here on, in any arena.
    #[verifier::opaque]
    pub open spec fn line(self, b: Seq<u8>) -> Seq<Option<(Seq<u8>, Slot)>> {
        stack_line(b, self.nodes())
    }

    /// The walk did not fail and can go on.
    pub open spec fn sound(self, b: Seq<u8>) -> bool {
        !self.failed && readable(b, self.limit as int, self.nodes())
    }

    pub open spec fn upper(self) -> Option<Seq<u8>> {
        match self.end {
            Some(e) => Some(e@),
            None => None,
        }
    }

    #[verifier::rlimit(80)]
    /// A cursor on the rows from `start` on and before `end`.
    pub fn new(e: &mut Epoch, root: u64, limit: u64, start: &[u8], end: Option<&[u8]>) -> (r: Result<
        Cursor,
        Error,
    >)
        requires
            old(e).wf(),
        ensures
            final(e).wf(),
            final(e).same_arena(*old(e)),
            nodes_only(old(e).cache@, final(e).cache@),
            r matches Err(x) ==> super::arena::unreadable(x@),
            r matches Ok(c) ==> !c.failed && c.limit == limit && c.upper() == (match end {
                Some(x) => Some(x@),
                None => None,
            }),
            r matches Ok(c) ==> c.line(old(e).image@) == line_from(old(e).image@, root, start@),
            tree_at(old(e).image@, limit as int, root) matches Some(t) ==> (sorted(t.rows()) ==> (
            r matches Ok(c) && c.sound(old(e).image@) && c.coming(old(e).image@) == t.rows().skip(
                rank(t.rows(), start@) as int,
            ))),
    {
        reveal(Cursor::line);
        broadcast use group_order;

        let ghost b = e.image@;
        let ghost s0 = *e;
        let ghost lim = limit as int;
        let ghost sound = tree_at(b, lim, root) is Some && sorted((tree_at(b, lim, root)->0).rows());
        let ghost rows = (tree_at(b, lim, root)->0).rows();
        let ghost all = line_from(b, root, start@);
        let stop: Option<Vec<u8>> = match end {
            Some(x) => Some(copy(x)),
            None => None,
        };
        let mut c = Cursor { limit, stack: Vec::new(), end: stop, failed: false };
        let mut at: u64 = root;
        proof {
            assert(line_from(b, root, start@) + c.line(b) =~= line_from(b, root, start@));
            if sound {
                rank_splits(rows, start@);
                assert(c.coming(b) =~= Seq::empty());
                assert(rows.skip(rank(rows, start@) as int) + Seq::<(Seq<u8>, Slot)>::empty()
                    =~= rows.skip(rank(rows, start@) as int));
            }
        }
        while at != 0
            invariant
                e.wf(),
                e.same_arena(s0),
                nodes_only(s0.cache@, e.cache@),
                s0 == *old(e),
                b == s0.image@,
                lim == limit as int,
                !c.failed,
                c.limit == limit,
                c.end == stop,
                line_from(b, at, start@) + c.line(b) == all,
                sound == (tree_at(b, lim, root) is Some && sorted(
                    (tree_at(b, lim, root)->0).rows(),
                )),
                rows == (tree_at(b, lim, root)->0).rows(),
                sound ==> {
                    let part = (tree_at(b, lim, at)->0).rows();
                    &&& tree_at(b, lim, at) is Some
                    &&& sorted(part)
                    &&& rank(part, start@) <= part.len()
                    &&& c.sound(b)
                    &&& rows.skip(rank(rows, start@) as int) == part.skip(
                        rank(part, start@) as int,
                    ) + c.coming(b)
                },
            decreases at,
        {
            let ghost t = tree_at(b, lim, at)->0;
            let ghost part = t.rows();
            let ghost had = c;
            reveal(Cursor::line);
            proof {
                if sound {
                    tree_root(b, lim, at);
                    node_parts(t);
                    around_sorted(t.left().rows(), (t->key, t->slot), t.right().rows());
                    around_rank(t.left().rows(), (t->key, t->slot), t.right().rows(), start@);
                }
            }
            let n = e.node(at, limit)?;
            if before(n.key.as_slice(), start) {
                at = n.right;
                proof {
                    if sound {
                        let r = t.right().rows();
                        assert(part.skip(rank(part, start@) as int) =~= r.skip(
                            rank(r, start@) as int,
                        ));
                    }
                }
            } else {
                at = n.left;
                let ghost nv = n@;
                c.stack.push(n);
                proof {
                    assert(c.nodes() =~= had.nodes().push(nv));
                    assert(c.nodes().drop_last() =~= had.nodes());
                    assert(line_from(b, at, start@).push(Some(row_of_node(nv))) + line(b, nv.right)
                        + had.line(b) =~= line_from(b, at, start@) + c.line(b));
                    if sound {
                        let l = t.left().rows();
                        let k = rank(l, start@) as int;
                        if !lt(start@, t->key) {
                            super::bytes::lt_total(t->key, start@);
                            assert(start@ == t->key);
                            rank_splits(l, start@);
                            if k < l.len() {
                                assert(lt(l[k].0, t->key));
                            }
                        }
                        assert(k == rank(part, start@));
                        assert(part.skip(k) + had.coming(b) =~= l.skip(k) + c.coming(b));
                        assert forall|i: int| 0 <= i < c.nodes().len() implies tree_at(
                            b,
                            lim,
                            (#[trigger] c.nodes()[i]).right,
                        ) is Some by {
                            if i < had.nodes().len() {
                                assert(c.nodes()[i] == had.nodes()[i]);
                            }
                        }
                    }
                }
            }
        }
        proof {
            assert(line_from(b, 0, start@) + c.line(b) =~= c.line(b));
            if sound {
                let part = (tree_at(b, lim, 0u64)->0).rows();
                assert(part =~= Seq::empty());
                assert(part.skip(rank(part, start@) as int) + c.coming(b) =~= c.coming(b));
            }
        }
        Ok(c)
    }

    #[verifier::rlimit(80)]
    /// The next row, or nothing at the upper bound or the end.
    pub fn next(&mut self, e: &mut Epoch) -> (r: Option<Result<Node, Error>>)
        requires
            old(e).wf(),
        ensures
            final(e).wf(),
            final(e).same_arena(*old(e)),
            nodes_only(old(e).cache@, final(e).cache@),
            final(self).limit == old(self).limit,
            final(self).end == old(self).end,
            old(self).failed || old(self).nodes().len() == 0 ==> r is None,
            r matches Some(Err(x)) ==> final(self).failed && super::arena::unreadable(x@),
            r matches Some(Ok(n)) ==> {
                &&& weight(old(e).image@, final(self).nodes()) < weight(
                    old(e).image@,
                    old(self).nodes(),
                )
                &&& old(self).upper() is Some ==> lt(n.key@, old(self).upper()->0)
                &&& old(self).line(old(e).image@).len() > 0
                &&& old(self).line(old(e).image@)[0] == Some(row_of_node(n@))
                &&& final(self).line(old(e).image@) == old(self).line(old(e).image@).skip(1)
                &&& !final(self).failed
            },
            r is None ==> {
                &&& final(self).failed == old(self).failed
                &&& !old(self).failed ==> until(
                    old(self).line(old(e).image@),
                    old(self).upper(),
                ).len() == 0
                &&& !old(self).failed ==> final(self).nodes().len() == 0
                &&& old(self).failed ==> *final(self) == *old(self)
            },
            old(self).sound(old(e).image@) ==> {
                let rows = old(self).coming(old(e).image@);
                if rows.len() == 0 || (old(self).upper() is Some && !lt(
                    rows[0].0,
                    old(self).upper()->0,
                )) {
                    &&& r is None
                    &&& final(self).sound(old(e).image@)
                    &&& final(self).coming(old(e).image@).len() == 0
                } else {
                    &&& r matches Some(Ok(n)) && row_of_node(n@) == rows[0]
                    &&& final(self).sound(old(e).image@)
                    &&& final(self).coming(old(e).image@) == rows.skip(1)
                }
            },
    {
        reveal(Cursor::line);
        broadcast use group_order;

        let ghost b = e.image@;
        let ghost lim = self.limit as int;
        let ghost start = *self;
        let ghost s0 = *e;
        let ghost first = self.line(b);
        let ghost sound = self.sound(b);
        let ghost rows = self.coming(b);
        if self.failed {
            return None;
        }
        let Some(n) = self.stack.pop() else {
            assert(self.nodes() =~= start.nodes());
            assert(self.nodes() =~= Seq::empty());
            return None;
        };
        proof {
            assert(start.nodes().last() == n@);
            assert(start.nodes().drop_last() =~= self.nodes());
        }
        let done = match &self.end {
            Some(x) => !before(n.key.as_slice(), x.as_slice()),
            None => false,
        };
        if done {
            self.stack.clear();
            assert(self.nodes() =~= Seq::empty());
            return None;
        }
        let mut at: u64 = n.right;
        proof {
            assert(start.line(b).skip(1) =~= line(b, at) + self.line(b));
            if sound {
                assert(rows[0] == row_of_node(n@));
                assert(rows.skip(1) =~= (tree_at(b, lim, at)->0).rows() + self.coming(b));
                assert forall|i: int| 0 <= i < self.nodes().len() implies tree_at(
                    b,
                    lim,
                    (#[trigger] self.nodes()[i]).right,
                ) is Some by {
                    assert(self.nodes()[i] == start.nodes()[i]);
                }
            }
        }
        while at != 0
            invariant
                e.wf(),
                e.same_arena(s0),
                nodes_only(s0.cache@, e.cache@),
                s0 == *old(e),
                start == *old(self),
                b == s0.image@,
                lim == self.limit as int,
                sound == start.sound(b),
                rows == start.coming(b),
                !self.failed,
                !start.failed,
                weight(b, self.nodes()) + size_at(b, at) < weight(b, start.nodes()),
                start.upper() is Some ==> lt(n.key@, start.upper()->0),
                self.limit == start.limit,
                self.end == start.end,
                first == start.line(b),
                first.len() > 0,
                first[0] == Some(row_of_node(n@)),
                first.skip(1) == line(b, at) + self.line(b),
                sound ==> {
                    &&& tree_at(b, lim, at) is Some
                    &&& self.sound(b)
                    &&& rows.len() > 0
                    &&& start.upper() is Some ==> lt(rows[0].0, start.upper()->0)
                    &&& rows.skip(1) == (tree_at(b, lim, at)->0).rows() + self.coming(b)
                },
            decreases at,
        {
            let ghost had = *self;
            let ghost t = tree_at(b, lim, at)->0;
            reveal(Cursor::line);
            proof {
                if sound {
                    tree_root(b, lim, at);
                    node_parts(t);
                }
            }
            match e.node(at, self.limit) {
                Ok(child) => {
                    at = child.left;
                    let ghost cv = child@;
                    self.stack.push(child);
                    proof {
                        assert(self.nodes() =~= had.nodes().push(cv));
                        assert(self.nodes().drop_last() =~= had.nodes());
                        assert(line(b, at).push(Some(row_of_node(cv))) + line(b, cv.right)
                            + had.line(b) =~= line(b, at) + self.line(b));
                        if sound {
                            assert(t.rows() + had.coming(b) =~= t.left().rows() + self.coming(b));
                            assert forall|i: int| 0 <= i < self.nodes().len() implies tree_at(
                                b,
                                lim,
                                (#[trigger] self.nodes()[i]).right,
                            ) is Some by {
                                if i < had.nodes().len() {
                                    assert(self.nodes()[i] == had.nodes()[i]);
                                }
                            }
                        }
                    }
                },
                Err(x) => {
                    self.failed = true;
                    return Some(Err(x));
                },
            }
        }
        proof {
            assert(line(b, 0) + self.line(b) =~= self.line(b));
            if sound {
                assert((tree_at(b, lim, 0u64)->0).rows() + self.coming(b) =~= self.coming(b));
            }
        }
        Some(Ok(n))
    }
}

/// The smallest key behind every key with this prefix, if there is one: the
/// prefix up to its last byte below 255, with that byte raised.
pub open spec fn prefix_bound(prefix: Seq<u8>) -> Option<Seq<u8>>
    decreases prefix.len(),
{
    if prefix.len() == 0 {
        None
    } else if prefix.last() < 255 {
        Some(prefix.drop_last().push((prefix.last() + 1) as u8))
    } else {
        prefix_bound(prefix.drop_last())
    }
}

/// `key` starts with `prefix`.
pub open spec fn has_prefix(key: Seq<u8>, prefix: Seq<u8>) -> bool {
    prefix.len() <= key.len() && key.take(prefix.len() as int) == prefix
}

pub fn prefix_end(prefix: &[u8]) -> (r: Option<Vec<u8>>)
    ensures
        match prefix_bound(prefix@) {
            Some(e) => r matches Some(v) && v@ == e,
            None => r is None,
        },
{
    let mut e: Vec<u8> = copy(prefix);
    while e.len() > 0
        invariant
            prefix_bound(e@) == prefix_bound(prefix@),
        decreases e@.len(),
    {
        let ghost had = e@;
        match e.pop() {
            Some(x) => {
                assert(had.drop_last() =~= e@);
                if x < 255 {
                    e.push(x + 1);
                    assert(e@ =~= had.drop_last().push((x + 1) as u8));
                    return Some(e);
                }
            },
            None => {
                return None;
            },
        }
    }
    None
}

/// The order of two byte strings is decided where they first differ.
proof fn lt_at(a: Seq<u8>, b: Seq<u8>, i: int)
    requires
        0 <= i <= a.len(),
        i < b.len(),
        forall|j: int| 0 <= j < i ==> a[j] == b[j],
        i == a.len() || a[i] < b[i],
    ensures
        lt(a, b),
{
    super::bytes::differ_at(a, b, i);
}

/// The range from a prefix to its bound holds exactly the keys with the prefix.
pub proof fn prefix_range(prefix: Seq<u8>, key: Seq<u8>)
    ensures
        in_range(key, prefix, prefix_bound(prefix)) <==> has_prefix(key, prefix),
    decreases prefix.len(),
{
    broadcast use group_order;

    let n = prefix.len() as int;
    if has_prefix(key, prefix) {
        assert forall|j: int| 0 <= j < n implies key[j] == prefix[j] by {
            assert(key.take(n)[j] == key[j]);
        }
        if key.len() == n {
            assert(key =~= prefix);
        } else {
            lt_at(prefix, key, n);
        }
        below_bound(prefix, key, n);
    }
    if in_range(key, prefix, prefix_bound(prefix)) && !has_prefix(key, prefix) {
        // The first place where the two part company.
        let i = common(key, prefix, 0) as int;
        super::bytes::common_facts(key, prefix);
        if i == n {
            assert(key.take(n) =~= prefix);
        } else if i == key.len() {
            lt_at(key, prefix, i);
        } else if key[i] < prefix[i] {
            lt_at(key, prefix, i);
        } else {
            above_bound(prefix, key, i, n);
        }
        assert(false);
    }
}

proof fn below_bound(prefix: Seq<u8>, key: Seq<u8>, n: int)
    requires
        0 <= n <= key.len(),
        prefix.len() <= n,
        forall|j: int| 0 <= j < prefix.len() ==> key[j] == prefix[j],
    ensures
        prefix_bound(prefix) matches Some(e) ==> lt(key, e),
    decreases prefix.len(),
{
    if prefix.len() > 0 {
        if prefix.last() < 255 {
            let e = prefix.drop_last().push((prefix.last() + 1) as u8);
            lt_at(key, e, prefix.len() - 1);
        } else {
            below_bound(prefix.drop_last(), key, n);
        }
    }
}

proof fn above_bound(prefix: Seq<u8>, key: Seq<u8>, i: int, n: int)
    requires
        0 <= i < key.len(),
        i < prefix.len(),
        forall|j: int| 0 <= j < i ==> key[j] == prefix[j],
        key[i] > prefix[i],
    ensures
        prefix_bound(prefix) matches Some(e) && !lt(key, e),
    decreases prefix.len(),
{
    broadcast use group_order;

    let m = prefix.len() - 1;
    if prefix.last() < 255 {
        let e = prefix.drop_last().push((prefix.last() + 1) as u8);
        if i < m {
            lt_at(e, key, i);
        } else if key[i] > e[i] {
            lt_at(e, key, i);
        } else if key.len() == e.len() {
            assert(key =~= e);
        } else {
            lt_at(e, key, i + 1);
        }
    } else {
        assert(i < m);
        above_bound(prefix.drop_last(), key, i, n);
    }
}

} // verus!
