//! Whole batches: bulk building, replacement without restructuring, the
//! sequential path, and copying an index into another arena.
use vstd::prelude::*;

use super::arena::{
    spans_to, node_at, read_back, record_spans, record_extent, tree_at, tree_root, value_at, Node,
    NODE, VALUE,
};
use super::bytes::{copy, group_order, lt, same};
use super::cache::nodes_only;
use super::contents::{
    applied, applied_upto, applied_upto_meaning, changed, holds, holds_around, holds_grows,
    holds_keys, holds_parts, holds_put, holds_without, leads, stageable, stores,
    updated_is_applied, Change, Version,
};
use super::epoch::Epoch;
use super::index::{find_meaning, find_node};
use super::keymap::KeyMap;
use super::model::{corrupt, Error, Fail, MAX_VALUE};
use super::reclaim::{
    node_fills, nothing_filled, record_fills, slot_fills_grows, tree_fills, tree_fills_grows,
};
use super::rows::{
    around, around_rank, around_sorted, lookup, lookup_at, lookup_finds, present, put_meaning,
    rank, rank_after, rank_is, rank_splits, sorted, without_absent, without_meaning,
};
use super::staging::{total_of, total_one, total_splits};
use super::tree::{
    built_height, built_height_steps, delete_meaning, height_limit, insert_meaning, join,
    join_parts, node_parts, Tree,
};
use super::writer::{moved, ArenaWriter};

verus! {

broadcast use {super::arena::tree_empty, super::cache::group_nodes_only};

/// Bytes that one borrowed entry of a batch takes: two slices, of two machine words each.
pub open spec fn entry_bytes() -> int {
    4 * (usize::BITS as int / 8)
}

/// What a row takes in an arena: a record for its value, and a node.
pub open spec fn copy_weight() -> spec_fn((Seq<u8>, Version)) -> int {
    |row: (Seq<u8>, Version)| 32 + row.1.0.len() + 72 + row.0.len() as int
}

/// The contents that a batch of insertions builds from `lo` to `hi`.
pub open spec fn built(writes: Seq<(Seq<u8>, Change)>, lo: int, hi: int, revision: u64) -> Seq<
    (Seq<u8>, Version),
> {
    Seq::new(
        (hi - lo) as nat,
        |i: int| (writes[lo + i].0, (writes[lo + i].1->0, revision)),
    )
}

/// Contents in which every key that is written holds its new value.
pub open spec fn replaced(
    want: Seq<(Seq<u8>, Version)>,
    writes: Seq<(Seq<u8>, Change)>,
    revision: u64,
) -> Seq<(Seq<u8>, Version)> {
    Seq::new(
        want.len(),
        |i: int|
            match lookup(writes, want[i].0) {
                Some(Some(v)) => (want[i].0, (v, revision)),
                _ => want[i],
            },
    )
}

/// Whether two trees have the same keys in the same places.
pub open spec fn same_shape(a: Tree, b: Tree) -> bool
    decreases a,
{
    match (a, b) {
        (Tree::Leaf, Tree::Leaf) => true,
        (
            Tree::Node { key: k, slot: _, height: h, left: l, right: r },
            Tree::Node { key: k2, slot: _, height: h2, left: l2, right: r2 },
        ) => k == k2 && h == h2 && same_shape(*l, *l2) && same_shape(*r, *r2),
        _ => false,
    }
}

/// What a batch in one pass leaves: the keys in the places where they were, or in an empty tree
/// as low a tree as there is for so many.
pub open spec fn shaped(before: Tree, after: Tree, count: nat) -> bool {
    if before is Leaf {
        after.height() == built_height(count)
    } else {
        same_shape(after, before)
    }
}

/// What a write takes in an arena that did not have its key: a record for the value, and a node.
pub open spec fn write_size() -> spec_fn((Seq<u8>, Change)) -> int {
    |w: (Seq<u8>, Change)| 32 + (w.1->0).len() + 72 + w.0.len() as int
}

/// What replacing the values of a tree appends: a record for each value, and each node that is
/// written to or is above one that is, once.
pub open spec fn replaced_size(t: Tree, writes: Seq<(Seq<u8>, Change)>) -> int
    decreases t,
{
    if writes.len() == 0 {
        0
    } else {
        match t {
            Tree::Leaf => 0,
            Tree::Node { key, left, right, .. } => {
                let r = rank(writes, key) as int;
                replaced_size(*left, writes.take(r)) + replaced_size(
                    *right,
                    writes.skip(rank_after(writes, key)),
                ) + match lookup(writes, key) {
                    Some(change) => 32 + (change->0).len() as int,
                    None => 0int,
                } + 72 + key.len()
            },
        }
    }
}

/// What a batch in one pass appends.
pub open spec fn pass_size(before: Tree, writes: Seq<(Seq<u8>, Change)>) -> int {
    if before is Leaf {
        total_of(writes, write_size())
    } else {
        replaced_size(before, writes)
    }
}

/// Whether a batch is applied in one pass to these contents: it may be, and all its keys are
/// there or there are none at all.
pub open spec fn in_one_pass(
    writes: Seq<(Seq<u8>, Change)>,
    transaction_budget: int,
    want: Seq<(Seq<u8>, Version)>,
) -> bool {
    &&& eligible(writes, transaction_budget)
    &&& want.len() == 0 || forall|i: int|
        0 <= i < writes.len() ==> present(want, (#[trigger] writes[i]).0)
}

proof fn own_shape(a: Tree)
    ensures
        same_shape(a, a),
    decreases a,
{
    match a {
        Tree::Leaf => {},
        Tree::Node { key: _, slot: _, height: _, left, right } => {
            own_shape(*left);
            own_shape(*right);
        },
    }
}

/// Every write from `lo` to `hi` sets a value.
pub open spec fn all_set(writes: Seq<(Seq<u8>, Change)>, lo: int, hi: int) -> bool {
    forall|i: int| lo <= i < hi ==> (#[trigger] writes[i]).1 is Some
}

/// The bytes of a staged value.
fn staged<'a>(writes: &'a KeyMap<Option<Vec<u8>>>, i: usize) -> (r: Option<&'a [u8]>)
    requires
        i < writes@.len(),
    ensures
        r is Some <==> writes@[i as int].1 is Some,
        r matches Some(v) ==> writes@[i as int].1 == Some(v@),
{
    match writes.value_at(i) {
        Some(v) => {
            assert(v.deep_view() =~= v@);
            Some(v.as_slice())
        },
        None => None,
    }
}

impl ArenaWriter {
    /// Appends a value record.
    pub fn value_record(&mut self, value: &[u8]) -> (r: Result<u64, Error>)
        requires
            old(self).wf(),
            value@.len() <= MAX_VALUE,
        ensures
            final(self).live(),
            final(self).grew_from(*old(self)),
            r matches Ok(at) ==> {
                &&& final(self).wf()
                &&& at == old(self).end
                &&& 8 <= at < final(self).end
                &&& final(self).end == at + 32 + value@.len()
                &&& spans_to(final(self).image(), at as int, final(self).end as int)
                &&& value_at(final(self).image(), final(self).end as int, at as int) == Ok::<
                    Seq<u8>,
                    Fail,
                >(value@)
            },
            r matches Err(e) ==> final(self).may_fail(e@),
    {
        proof {
            read_back(self.image(), VALUE, self.generation as int, value@);
        }
        let at = self.record(VALUE, value)?;
        proof {
            record_spans(self.image(), self.end as int, at as int, VALUE);
        }
        Ok(at)
    }

    /// Builds a balanced tree over the writes from `lo` to `hi`.
    pub fn build_sorted(
        &mut self,
        writes: &KeyMap<Option<Vec<u8>>>,
        lo: usize,
        hi: usize,
        revision: u64,
    ) -> (r: Result<u64, Error>)
        requires
            old(self).wf(),
            writes.wf(),
            stageable(writes@),
            lo <= hi <= writes@.len(),
            all_set(writes@, lo as int, hi as int),
        ensures
            final(self).live(),
            final(self).grew_from(*old(self)),
            r matches Ok(x) ==> {
                &&& final(self).wf()
                &&& final(self).tree(x) matches Some(t) && t.avl() && t.height() == built_height(
                    (hi - lo) as nat,
                ) && t.rows().len() == hi - lo && holds(
                    final(self).image(),
                    final(self).end as int,
                    t.rows(),
                    built(writes@, lo as int, hi as int, revision),
                )
                &&& final(self).end == old(self).end + total_of(
                    writes@.subrange(lo as int, hi as int),
                    write_size(),
                )
            },
            r matches Err(e) ==> final(self).may_fail(e@),
        decreases hi - lo,
    {
        if lo == hi {
            assert(self.tree(0)->0.rows() =~= Seq::empty());
            assert(writes@.subrange(lo as int, hi as int) =~= Seq::empty());
            return Ok(0);
        }
        let middle: usize = lo + (hi - lo) / 2;
        let left = self.build_sorted(writes, lo, middle, revision)?;
        let ghost s1 = *self;
        let right = self.build_sorted(writes, middle + 1, hi, revision)?;
        let ghost s2 = *self;
        let key = copy(writes.key_at(middle));
        let value = match staged(writes, middle) {
            Some(v) => v,
            None => {
                assert(false);
                return Err(corrupt("grouped value missing"));
            },
        };
        let at = self.value_record(value)?;
        let ghost s3 = *self;
        let ghost lw = built(writes@, lo as int, middle as int, revision);
        let ghost rw = built(writes@, middle as int + 1, hi as int, revision);
        let ghost lt = s1.tree(left)->0;
        let ghost rt = s2.tree(right)->0;
        proof {
            moved(s1, s2, left);
            moved(s2, s3, left);
            moved(s2, s3, right);
            height_limit(lt);
            height_limit(rt);
            let n = (hi - lo) as nat;
            built_height_steps(((n - 1) / 2) as nat);
            assert(middle - lo == n / 2);
            assert(hi - middle - 1 == n - 1 - n / 2);
            join_parts(key@, (at, revision), lt, rt);
            height_limit(join(key@, (at, revision), lt, rt));
        }
        let node = Node { left, right, value: at, revision, height: 1, key };
        let x = self.save(node)?;
        proof {
            let s4 = *self;
            holds_grows(s1.image(), s4.image(), s1.end as int, s4.end as int, lt.rows(), lw);
            holds_grows(s2.image(), s4.image(), s2.end as int, s4.end as int, rt.rows(), rw);
            super::arena::read_stable(
                s3.image(),
                s4.image(),
                s3.end as int,
                s4.end as int,
                at as int,
                VALUE,
            );
            let row = (key@, (at, revision));
            let roww = (key@, (value@, revision));
            holds_around(s4.image(), s4.end as int, lt.rows(), lw, row, roww, rt.rows(), rw);
            assert(around(lw, roww, rw) =~= built(writes@, lo as int, hi as int, revision));
            let (a, b) = (
                writes@.subrange(lo as int, middle as int),
                writes@.subrange(middle + 1, hi as int),
            );
            let one = seq![writes@[middle as int]];
            assert(writes@.subrange(lo as int, hi as int) =~= a + one + b);
            total_splits(a, one, write_size());
            total_splits(a + one, b, write_size());
            total_one(writes@[middle as int], write_size());
        }
        Ok(x)
    }

    #[verifier::rlimit(100)]
    #[verifier::spinoff_prover]
    /// Replaces values without changing the shape of the tree; each affected
    /// ancestor is copied once.
    fn replace_existing(
        &mut self,
        at: u64,
        writes: &KeyMap<Option<Vec<u8>>>,
        lo: usize,
        hi: usize,
        revision: u64,
        Ghost(want): Ghost<Seq<(Seq<u8>, Version)>>,
    ) -> (r: Result<u64, Error>)
        requires
            old(self).wf(),
            writes.wf(),
            stageable(writes@),
            lo <= hi <= writes@.len(),
            all_set(writes@, lo as int, hi as int),
        ensures
            final(self).live(),
            final(self).grew_from(*old(self)),
            r matches Ok(x) ==> {
                &&& final(self).wf()
                &&& if lo == hi {
                    x == at
                } else {
                    x >= old(self).end
                }
            },
            ({
                &&& stores(old(self).image(), old(self).end as int, at, want)
                &&& want.len() <= u64::MAX
                &&& forall|i: int|
                    0 <= i < writes@.len() ==> (present(want, (#[trigger] writes@[i]).0) <==> lo
                        <= i < hi)
            }) ==> {
                &&& r matches Ok(x) ==> (final(self).tree(x) matches Some(t) && t.avl()
                    && t.height() == old(self).tree(at)->0.height() && same_shape(
                    t,
                    old(self).tree(at)->0,
                ) && holds(
                    final(self).image(),
                    final(self).end as int,
                    t.rows(),
                    replaced(want, writes@, revision),
                ))
                &&& r is Ok ==> final(self).end == old(self).end + replaced_size(
                    old(self).tree(at)->0,
                    writes@.subrange(lo as int, hi as int),
                )
                &&& r matches Err(e) ==> final(self).may_fail(e@)
            },
        decreases at,
    {
        broadcast use group_order;

        let ghost s0 = *self;
        let ghost sound = stores(s0.image(), s0.end as int, at, want) && want.len() <= u64::MAX && (
        forall|i: int|
            0 <= i < writes@.len() ==> (present(want, (#[trigger] writes@[i]).0) <==> lo <= i
                < hi));
        if lo == hi {
            proof {
                if sound {
                    no_change(want, writes@, revision);
                    own_shape(s0.tree(at)->0);
                    assert(writes@.subrange(lo as int, hi as int).len() == 0);
                }
            }
            return Ok(at);
        }
        if at == 0 {
            proof {
                if sound {
                    assert(want.len() == 0);
                    assert(present(want, writes@[lo as int].0));
                }
            }
            return Err(corrupt("grouped replacement key missing"));
        }
        let ghost t = s0.tree(at)->0;
        let ghost lw = want.take(t.left().rows().len() as int);
        let ghost rw = want.skip(t.left().rows().len() as int + 1);
        let ghost roww = want[t.left().rows().len() as int];
        proof {
            if sound {
                tree_root(s0.image(), s0.end as int, at);
                node_parts(t);
                around_sorted(t.left().rows(), (t->key, t->slot), t.right().rows());
                holds_parts(
                    s0.image(),
                    s0.end as int,
                    t.left().rows(),
                    (t->key, t->slot),
                    t.right().rows(),
                    want,
                );
                holds_keys(s0.image(), s0.end as int, t.rows(), want, t->key);
                holds_keys(s0.image(), s0.end as int, t.left().rows(), lw, t->key);
                holds_keys(s0.image(), s0.end as int, t.right().rows(), rw, t->key);
                around_sorted(lw, roww, rw);
                height_limit(t);
                height_limit(t.left());
                height_limit(t.right());
            }
        }
        let mut node = self.node(at)?;
        proof {
            record_extent(self.image(), self.end as int, at as int, NODE);
        }
        let place: usize = writes.position(node.key.as_slice());
        let split: usize = if place < lo {
            lo
        } else if place > hi {
            hi
        } else {
            place
        };
        let current: bool = split < hi && same(writes.key_at(split), node.key.as_slice());
        let right_from: usize = if current {
            split + 1
        } else {
            split
        };
        proof {
            if sound {
                divided(writes@, lw, roww, rw, lo as int, hi as int, split as int, right_from as int);
            }
        }
        let left = self.replace_existing(
            node.left,
            writes,
            lo,
            split,
            revision,
            Ghost(lw),
        )?;
        let ghost s1 = *self;
        proof {
            if sound {
                moved(s0, s1, node.right);
                holds_grows(
                    s0.image(),
                    s1.image(),
                    s0.end as int,
                    s1.end as int,
                    t.right().rows(),
                    rw,
                );
            }
        }
        let right = self.replace_existing(
            node.right,
            writes,
            right_from,
            hi,
            revision,
            Ghost(rw),
        )?;
        let ghost s2 = *self;
        if current {
            let value = match staged(writes, split) {
                Some(v) => v,
                None => {
                    assert(false);
                    return Err(corrupt("grouped value missing"));
                },
            };
            node.value = self.value_record(value)?;
            node.revision = revision;
        }
        let ghost s3 = *self;
        if !current && left == node.left && right == node.right {
            assert(lo == split);
            assert(split == hi);
            assert(false);
            return Ok(at);
        }
        node.left = left;
        node.right = right;
        let ghost m = node@;
        let ghost l2 = s1.tree(left)->0;
        let ghost r2 = s2.tree(right)->0;
        let ghost newrow = (m.key, (m.value, m.revision));
        let ghost newroww = match lookup(writes@, roww.0) {
            Some(Some(v)) => (roww.0, (v, revision)),
            _ => roww,
        };
        proof {
            if sound {
                moved(s1, s2, left);
                moved(s2, s3, left);
                moved(s2, s3, right);
                join_parts(m.key, (m.value, m.revision), l2, r2);
                lookup_finds(writes@, m.key);
                if current {
                    lookup_at(writes@, split as int);
                } else {
                    assert(!present(writes@, m.key)) by {
                        if present(writes@, m.key) {
                            let i = choose|i: int|
                                0 <= i < writes@.len() && (#[trigger] writes@[i]).0 == m.key;
                            lookup_at(writes@, i);
                            assert(want[t.left().rows().len() as int].0 == m.key);
                            assert(present(want, writes@[i].0));
                            assert(i == place);
                        }
                    }
                    super::arena::read_stable(
                        s0.image(),
                        s3.image(),
                        s0.end as int,
                        s3.end as int,
                        m.value as int,
                        VALUE,
                    );
                }
                assert(leads(s3.image(), s3.end as int, newrow, newroww));
            }
        }
        let x = self.save(node)?;
        proof {
            if sound {
                let s4 = *self;
                let lr = replaced(lw, writes@, revision);
                let rr = replaced(rw, writes@, revision);
                holds_grows(s1.image(), s4.image(), s1.end as int, s4.end as int, l2.rows(), lr);
                holds_grows(s2.image(), s4.image(), s2.end as int, s4.end as int, r2.rows(), rr);
                super::arena::read_stable(
                    s3.image(),
                    s4.image(),
                    s3.end as int,
                    s4.end as int,
                    m.value as int,
                    VALUE,
                );
                holds_around(
                    s4.image(),
                    s4.end as int,
                    l2.rows(),
                    lr,
                    newrow,
                    newroww,
                    r2.rows(),
                    rr,
                );
                assert(around(lr, newroww, rr) =~= replaced(want, writes@, revision));
                size_divided(t, writes@, lo as int, hi as int, split as int, right_from as int);
            }
        }
        Ok(x)
    }
}

/// Where a key stands among some of the writes.
proof fn slice_rank(writes: Seq<(Seq<u8>, Change)>, lo: int, hi: int, key: Seq<u8>)
    requires
        sorted(writes),
        0 <= lo <= hi <= writes.len(),
    ensures
        rank(writes.subrange(lo, hi), key) == if rank(writes, key) < lo {
            0
        } else if rank(writes, key) > hi {
            hi - lo
        } else {
            rank(writes, key) - lo
        },
{
    let s = writes.subrange(lo, hi);
    assert forall|i: int, j: int| 0 <= i < j < s.len() implies lt(
        #[trigger] s[i].0,
        #[trigger] s[j].0,
    ) by {
        assert(s[i] == writes[lo + i] && s[j] == writes[lo + j]);
    }
    rank_splits(writes, key);
    let p = rank(writes, key) as int;
    let r = if p < lo {
        0
    } else if p > hi {
        hi - lo
    } else {
        p - lo
    };
    if r > 0 {
        assert(s[r - 1] == writes[lo + r - 1]);
    }
    if r < s.len() {
        assert(s[r] == writes[lo + r]);
    }
    rank_is(s, key, r);
}

/// What replacing values below a node appends: what it appends on both sides, and a value and a
/// node of its own.
proof fn size_divided(
    t: Tree,
    writes: Seq<(Seq<u8>, Change)>,
    lo: int,
    hi: int,
    split: int,
    right_from: int,
)
    requires
        t is Node,
        sorted(writes),
        0 <= lo < hi <= writes.len(),
        split == if rank(writes, t->key) < lo {
            lo
        } else if rank(writes, t->key) > hi {
            hi
        } else {
            rank(writes, t->key) as int
        },
        right_from == if split < hi && writes[split].0 == t->key {
            split + 1
        } else {
            split
        },
    ensures
        replaced_size(t, writes.subrange(lo, hi)) == replaced_size(
            t.left(),
            writes.subrange(lo, split),
        ) + replaced_size(t.right(), writes.subrange(right_from, hi)) + (if right_from > split {
            32 + (writes[split].1->0).len() as int
        } else {
            0
        }) + 72 + (t->key).len(),
{
    broadcast use group_order;

    let key = t->key;
    let s = writes.subrange(lo, hi);
    let r = rank(s, key) as int;
    slice_rank(writes, lo, hi, key);
    assert forall|i: int, j: int| 0 <= i < j < s.len() implies lt(
        #[trigger] s[i].0,
        #[trigger] s[j].0,
    ) by {
        assert(s[i] == writes[lo + i] && s[j] == writes[lo + j]);
    }
    rank_splits(s, key);
    assert(r == split - lo);
    assert(s.take(r) =~= writes.subrange(lo, split));
    lookup_finds(s, key);
    if right_from > split {
        assert(s[r] == writes[split]);
        lookup_at(s, r);
    } else if present(s, key) {
        let i = choose|i: int| 0 <= i < s.len() && (#[trigger] s[i]).0 == key;
        if i < r {
            assert(lt(s[i].0, key));
        } else {
            assert(s[r] == writes[split]);
            if r < i {
                assert(lt(s[r].0, s[i].0));
            }
        }
    }
    assert(rank_after(s, key) == right_from - lo);
    assert(s.skip(right_from - lo) =~= writes.subrange(right_from, hi));
}

impl ArenaWriter {
    /// Applies a batch in one pass where it only inserts into an empty tree or
    /// only replaces existing keys; otherwise nothing is written and the answer
    /// is `None`.
    pub fn try_grouped(
        &mut self,
        root: u64,
        writes: &KeyMap<Option<Vec<u8>>>,
        transaction_budget: usize,
    ) -> (r: Result<Option<u64>, Error>)
        requires
            old(self).wf(),
            writes.wf(),
            stageable(writes@),
        ensures
            final(self).live(),
            final(self).grew_from(*old(self)),
            r is Ok ==> final(self).wf(),
            r matches Ok(None) ==> final(self).image() == old(self).image() && final(self).end
                == old(self).end,
            r matches Ok(Some(_)) ==> eligible(writes@, transaction_budget as int),
            forall|want: Seq<(Seq<u8>, Version)>|
                #![trigger stores(old(self).image(), old(self).end as int, root, want)]
                stores(old(self).image(), old(self).end as int, root, want) && want.len()
                    <= u64::MAX ==> {
                    &&& r matches Ok(Some(x)) ==> stores(
                        final(self).image(),
                        final(self).end as int,
                        x,
                        applied(want, writes@, old(self).generation),
                    ) && applied(want, writes@, old(self).generation).len() == if root == 0 {
                        writes@.len()
                    } else {
                        want.len()
                    }
                    &&& r matches Ok(Some(x)) ==> shaped(
                        old(self).tree(root)->0,
                        final(self).tree(x)->0,
                        writes@.len(),
                    ) && final(self).end == old(self).end + pass_size(
                        old(self).tree(root)->0,
                        writes@,
                    )
                    &&& r matches Ok(None) ==> !(eligible(writes@, transaction_budget as int) && (
                    root == 0 || forall|i: int|
                        0 <= i < writes@.len() ==> present(want, (#[trigger] writes@[i]).0)))
                    &&& r matches Err(e) ==> final(self).may_fail(e@)
                },
    {
        let ghost s0 = *self;
        let scratch: usize = if transaction_budget / 8 < 64 * 1024 {
            transaction_budget / 8
        } else {
            64 * 1024
        };
        let entry: usize = 4 * (usize::BITS as usize / 8);
        if writes.len() < 2 || writes.len() > scratch / entry {
            return Ok(None);
        }
        let mut i: usize = 0;
        while i < writes.len()
            invariant
                0 <= i <= writes@.len(),
                all_set(writes@, 0, i as int),
                *self == s0,
                s0 == *old(self),
                s0.wf(),
            decreases writes@.len() - i,
        {
            if staged(writes, i).is_none() {
                return Ok(None);
            }
            i = i + 1;
        }
        // Decide eligibility against the immutable root before emitting anything.
        if root != 0 {
            let mut j: usize = 0;
            while j < writes.len()
                invariant
                    0 <= j <= writes@.len(),
                    root != 0,
                    all_set(writes@, 0, writes@.len() as int),
                    self.wf(),
                    self.grew_from(s0),
                    self.image() == s0.image(),
                    self.end == s0.end,
                    s0 == *old(self),
                    forall|want: Seq<(Seq<u8>, Version)>|
                        #![trigger stores(s0.image(), s0.end as int, root, want)]
                        stores(s0.image(), s0.end as int, root, want) ==> forall|k: int|
                            0 <= k < j ==> present(want, (#[trigger] writes@[k]).0),
                decreases writes@.len() - j,
            {
                proof {
                    assert forall|want: Seq<(Seq<u8>, Version)>|
                        #![trigger stores(s0.image(), s0.end as int, root, want)]
                        stores(s0.image(), s0.end as int, root, want) implies match find_node(
                        s0.image(),
                        s0.end as int,
                        root,
                        writes@[j as int].0,
                    ) {
                        Ok(Some(_)) => present(want, writes@[j as int].0),
                        Ok(None) => !present(want, writes@[j as int].0),
                        Err(_) => false,
                    } by {
                        found(s0.image(), s0.end as int, root, want, writes@[j as int].0);
                    }
                }
                let hit = self.find(root, writes.key_at(j))?;
                if hit.is_none() {
                    return Ok(None);
                }
                j = j + 1;
            }
        }
        let ghost s1 = *self;
        let n: usize = writes.len();
        assert(writes@.subrange(0, n as int) =~= writes@);
        if root == 0 {
            let x = self.build_sorted(writes, 0, n, self.generation)?;
            proof {
                assert forall|want: Seq<(Seq<u8>, Version)>|
                    #![trigger stores(s0.image(), s0.end as int, root, want)]
                    stores(s0.image(), s0.end as int, root, want) implies stores(
                    self.image(),
                    self.end as int,
                    x,
                    applied(want, writes@, s0.generation),
                ) && applied(want, writes@, s0.generation).len() == writes@.len() by {
                    assert(want =~= Seq::empty());
                    built_is_applied(writes@, s0.generation);
                    let t = self.tree(x)->0;
                    holds_keys(
                        self.image(),
                        self.end as int,
                        t.rows(),
                        built(writes@, 0, n as int, s0.generation),
                        Seq::empty(),
                    );
                }
            }
            Ok(Some(x))
        } else {
            let ghost any = choose|want: Seq<(Seq<u8>, Version)>| stores(
                s0.image(),
                s0.end as int,
                root,
                want,
            );
            let x = self.replace_existing(root, writes, 0, n, self.generation, Ghost(any))?;
            proof {
                assert forall|want: Seq<(Seq<u8>, Version)>|
                    #![trigger stores(s0.image(), s0.end as int, root, want)]
                    stores(s0.image(), s0.end as int, root, want) && want.len()
                        <= u64::MAX implies stores(
                    self.image(),
                    self.end as int,
                    x,
                    applied(want, writes@, s0.generation),
                ) && applied(want, writes@, s0.generation).len() == want.len() by {
                    stores_determines(s0.image(), s0.end as int, root, want, any);
                    let t0 = s0.tree(root)->0;
                    holds_keys(s0.image(), s0.end as int, t0.rows(), want, Seq::empty());
                    replaced_is_applied(want, writes@, s0.generation);
                    let t = self.tree(x)->0;
                    holds_keys(
                        self.image(),
                        self.end as int,
                        t.rows(),
                        replaced(want, writes@, s0.generation),
                        Seq::empty(),
                    );
                }
            }
            Ok(Some(x))
        }
    }

    /// Applies writes one after the other and returns the new root and count.
    pub fn apply_sequential(
        &mut self,
        root: u64,
        count: u64,
        writes: &KeyMap<Option<Vec<u8>>>,
    ) -> (r: Result<(u64, u64), Error>)
        requires
            old(self).wf(),
            writes.wf(),
            stageable(writes@),
        ensures
            final(self).live(),
            final(self).grew_from(*old(self)),
            r is Ok ==> final(self).wf(),
            forall|want: Seq<(Seq<u8>, Version)>|
                #![trigger stores(old(self).image(), old(self).end as int, root, want)]
                stores(old(self).image(), old(self).end as int, root, want) && want.len()
                    + writes@.len() <= u64::MAX && count == want.len() ==> {
                    &&& r matches Ok((x, c)) ==> stores(
                        final(self).image(),
                        final(self).end as int,
                        x,
                        applied(want, writes@, old(self).generation),
                    ) && c == applied(want, writes@, old(self).generation).len()
                    &&& r matches Err(e) ==> final(self).may_fail(e@)
                },
    {
        let ghost s0 = *self;
        let ghost want = choose|want: Seq<(Seq<u8>, Version)>| stores(
            s0.image(),
            s0.end as int,
            root,
            want,
        );
        let ghost sound = stores(s0.image(), s0.end as int, root, want) && want.len()
            + writes@.len() <= u64::MAX && count == want.len();
        let ghost g = self.generation;
        let mut top: u64 = root;
        let mut total: u64 = count;
        let mut i: usize = 0;
        proof {
            assert forall|other: Seq<(Seq<u8>, Version)>|
                #![trigger stores(s0.image(), s0.end as int, root, other)]
                stores(s0.image(), s0.end as int, root, other) implies other == want by {
                stores_determines(s0.image(), s0.end as int, root, other, want);
            }
            if sound {
                holds_keys(s0.image(), s0.end as int, s0.tree(root)->0.rows(), want, Seq::empty());
            }
        }
        while i < writes.len()
            invariant
                0 <= i <= writes@.len(),
                writes.wf(),
                stageable(writes@),
                self.wf(),
                self.grew_from(s0),
                self.generation == g,
                s0 == *old(self),
                s0.generation == g,
                forall|other: Seq<(Seq<u8>, Version)>|
                    #![trigger stores(s0.image(), s0.end as int, root, other)]
                    stores(s0.image(), s0.end as int, root, other) ==> other == want,
                sound == (stores(s0.image(), s0.end as int, root, want) && want.len()
                    + writes@.len() <= u64::MAX && count == want.len()),
                sound ==> {
                    &&& sorted(want)
                    &&& stores(
                        self.image(),
                        self.end as int,
                        top,
                        applied_upto(want, writes@, i as nat, g),
                    )
                    &&& total == applied_upto(want, writes@, i as nat, g).len()
                },
            decreases writes@.len() - i,
        {
            let ghost now = applied_upto(want, writes@, i as nat, g);
            let ghost s1 = *self;
            let ghost t1 = s1.tree(top)->0;
            let key: &[u8] = writes.key_at(i);
            proof {
                if sound {
                    found(s1.image(), s1.end as int, top, now, key@);
                    holds_keys(s1.image(), s1.end as int, t1.rows(), now, key@);
                    applied_upto_meaning(want, writes@, i as nat, g);
                    put_meaning(now, key@, (writes@[i as int].1->0, g));
                    without_meaning(now, key@);
                    height_limit(t1);
                }
            }
            let hit = self.find(top, key)?;
            let exists = hit.is_some();
            let ghost s2 = *self;
            match staged(writes, i) {
                Some(value) => {
                    let at = self.value_record(value)?;
                    let ghost s3 = *self;
                    proof {
                        if sound {
                            moved(s1, s3, top);
                            insert_meaning(t1, key@, (at, g));
                        }
                    }
                    top = self.insert(top, key, at, self.generation)?;
                    if !exists {
                        total = total.wrapping_add(1);
                    }
                    proof {
                        if sound {
                            let s4 = *self;
                            holds_grows(
                                s1.image(),
                                s4.image(),
                                s1.end as int,
                                s4.end as int,
                                t1.rows(),
                                now,
                            );
                            super::arena::read_stable(
                                s3.image(),
                                s4.image(),
                                s3.end as int,
                                s4.end as int,
                                at as int,
                                VALUE,
                            );
                            put_meaning(t1.rows(), key@, (at, g));
                            holds_put(
                                s4.image(),
                                s4.end as int,
                                t1.rows(),
                                now,
                                key@,
                                (at, g),
                                (value@, g),
                            );
                        }
                    }
                },
                None => {
                    if exists {
                        proof {
                            if sound {
                                moved(s1, s2, top);
                                delete_meaning(t1, key@);
                            }
                        }
                        top = self.delete(top, key)?;
                        total = total.wrapping_sub(1);
                        proof {
                            if sound {
                                let s4 = *self;
                                holds_grows(
                                    s1.image(),
                                    s4.image(),
                                    s1.end as int,
                                    s4.end as int,
                                    t1.rows(),
                                    now,
                                );
                                without_meaning(t1.rows(), key@);
                                holds_without(s4.image(), s4.end as int, t1.rows(), now, key@);
                            }
                        }
                    } else {
                        proof {
                            if sound {
                                without_absent(now, key@);
                            }
                        }
                    }
                },
            }
            i = i + 1;
        }
        Ok((top, total))
    }
}

impl ArenaWriter {
    #[verifier::rlimit(60)]
    /// Copies the tree at `at` of another arena, values included, and returns
    /// its root here.
    pub fn copy_tree(&mut self, from: &mut Epoch, from_end: u64, at: u64) -> (r: Result<u64, Error>)
        requires
            old(self).wf(),
            old(from).wf(),
        ensures
            final(self).live(),
            final(self).grew_from(*old(self)),
            final(from).wf(),
            final(from).same_arena(*old(from)),
            nodes_only(old(from).cache@, final(from).cache@),
            r is Ok ==> final(self).wf(),
            r matches Ok(x) ==> (at == 0 ==> x == 0),
            forall|want: Seq<(Seq<u8>, Version)>|
                #![trigger stores(old(from).image@, from_end as int, at, want)]
                stores(old(from).image@, from_end as int, at, want) ==> {
                    &&& r matches Ok(x) ==> stores(
                        final(self).image(),
                        final(self).end as int,
                        x,
                        want,
                    ) && final(self).tree(x)->0.height() == tree_at(
                        old(from).image@,
                        from_end as int,
                        at,
                    )->0.height()
                    &&& r matches Ok(x) ==> final(self).end == old(self).end + total_of(
                        want,
                        copy_weight(),
                    ) && tree_fills(
                        final(self).image(),
                        final(self).end as int,
                        final(self).generation,
                        false,
                        x,
                        old(self).end as int,
                        final(self).end as int,
                    )
                    &&& r matches Err(e) ==> final(self).may_fail(e@)
                },
        decreases at,
    {
        let ghost s0 = *self;
        let ghost b = from.image@;
        let ghost oe = from_end as int;
        let ghost want = choose|want: Seq<(Seq<u8>, Version)>| stores(b, oe, at, want);
        let ghost sound = stores(b, oe, at, want);
        let ghost t = tree_at(b, oe, at)->0;
        proof {
            assert forall|other: Seq<(Seq<u8>, Version)>|
                #![trigger stores(b, oe, at, other)]
                stores(b, oe, at, other) implies other == want by {
                stores_determines(b, oe, at, other, want);
            }
        }
        if at == 0 {
            proof {
                nothing_filled(s0.image(), s0.end as int, s0.generation, false, 0, s0.end as int);
                if sound {
                    assert(t.rows().len() == 0);
                    assert(want.len() == 0);
                }
            }
            return Ok(0);
        }
        let ghost lw = want.take(t.left().rows().len() as int);
        let ghost rw = want.skip(t.left().rows().len() as int + 1);
        let ghost roww = want[t.left().rows().len() as int];
        proof {
            if sound {
                tree_root(b, oe, at);
                node_parts(t);
                around_sorted(t.left().rows(), (t->key, t->slot), t.right().rows());
                holds_parts(b, oe, t.left().rows(), (t->key, t->slot), t.right().rows(), want);
                height_limit_of(b, oe, at);
            }
        }
        let n = from.node(at, from_end)?;
        proof {
            if sound {
                assert(stores(b, oe, n.left, lw));
                assert(stores(b, oe, n.right, rw));
            }
        }
        let left = self.copy_tree(from, from_end, n.left)?;
        let ghost s1 = *self;
        let right = self.copy_tree(from, from_end, n.right)?;
        let ghost s2 = *self;
        let v = from.value(n.value, from_end)?;
        proof {
            record_extent(b, oe, n.value as int, VALUE);
        }
        let value = self.value_record(v.as_slice())?;
        let ghost s3 = *self;
        let ghost key = n.key@;
        let ghost l2 = s1.tree(left)->0;
        let ghost r2 = s2.tree(right)->0;
        proof {
            if sound {
                moved(s1, s2, left);
                moved(s2, s3, left);
                moved(s2, s3, right);
                join_parts(key, (value, n.revision), l2, r2);
                node_parts(t);
            }
        }
        let m = Node {
            left,
            right,
            value,
            revision: n.revision,
            height: n.height,
            key: n.key,
        };
        let x = self.save(m)?;
        proof {
            if sound {
                let s4 = *self;
                holds_grows(s1.image(), s4.image(), s1.end as int, s4.end as int, l2.rows(), lw);
                holds_grows(s2.image(), s4.image(), s2.end as int, s4.end as int, r2.rows(), rw);
                super::arena::read_stable(
                    s3.image(),
                    s4.image(),
                    s3.end as int,
                    s4.end as int,
                    value as int,
                    VALUE,
                );
                let (g, now, last) = (s4.generation, s4.image(), s4.end as int);
                tree_fills_grows(
                    s1.image(),
                    now,
                    s1.end as int,
                    last,
                    g,
                    false,
                    left,
                    s0.end as int,
                    s1.end as int,
                );
                tree_fills_grows(
                    s2.image(),
                    now,
                    s2.end as int,
                    last,
                    g,
                    false,
                    right,
                    s1.end as int,
                    s2.end as int,
                );
                record_fills(s3.image(), s3.end as int, g, false, value, s3.end as int);
                slot_fills_grows(
                    s3.image(),
                    now,
                    s3.end as int,
                    last,
                    g,
                    false,
                    value,
                    value as int,
                    s3.end as int,
                );
                node_fills(
                    now,
                    last,
                    g,
                    false,
                    x,
                    s0.end as int,
                    s1.end as int,
                    s2.end as int,
                    last,
                );
                assert(want =~= lw + seq![roww] + rw);
                total_splits(lw, seq![roww], copy_weight());
                total_splits(lw + seq![roww], rw, copy_weight());
                total_one(roww, copy_weight());
                let row = (key, (value, n.revision));
                holds_around(s4.image(), s4.end as int, l2.rows(), lw, row, roww, r2.rows(), rw);
                holds_keys(b, oe, t.rows(), want, Seq::empty());
                holds_keys(s4.image(), s4.end as int, s4.tree(x)->0.rows(), want, Seq::empty());
            }
        }
        Ok(x)
    }
}

/// The offsets of the nodes below `at`.
pub open spec fn offsets(b: Seq<u8>, end: int, at: u64) -> Set<int>
    decreases at,
{
    if at == 0 {
        Set::empty()
    } else {
        match node_at(b, end, at as int) {
            Ok(n) => if n.left < at && n.right < at {
                offsets(b, end, n.left).union(offsets(b, end, n.right)).insert(at as int)
            } else {
                Set::empty()
            },
            Err(_) => Set::empty(),
        }
    }
}

/// Different rows stand at different offsets, so an ordered tree has no more
/// rows than its root's offset.
pub proof fn rows_fit(b: Seq<u8>, end: int, at: u64)
    requires
        tree_at(b, end, at) is Some,
        sorted((tree_at(b, end, at)->0).rows()),
    ensures
        (tree_at(b, end, at)->0).rows().len() <= at,
{
    offsets_count(b, end, at);
    let s = offsets(b, end, at);
    let all = vstd::set_lib::set_int_range(1, at as int + 1);
    vstd::set_lib::lemma_int_range(1, at as int + 1);
    assert(s.subset_of(all));
    vstd::set_lib::lemma_len_subset(s, all);
}

proof fn offsets_count(b: Seq<u8>, end: int, at: u64)
    requires
        tree_at(b, end, at) is Some,
        sorted((tree_at(b, end, at)->0).rows()),
    ensures
        offsets(b, end, at).finite(),
        offsets(b, end, at).len() == (tree_at(b, end, at)->0).rows().len(),
        forall|o: int| #[trigger]
            offsets(b, end, at).contains(o) ==> 1 <= o <= at && node_at(b, end, o) is Ok && present(
                (tree_at(b, end, at)->0).rows(),
                (node_at(b, end, o)->Ok_0).key,
            ),
    decreases at,
{
    broadcast use group_order;

    let t = tree_at(b, end, at)->0;
    if at != 0 {
        tree_root(b, end, at);
        node_parts(t);
        let n = node_at(b, end, at as int)->Ok_0;
        let l = t.left().rows();
        let r = t.right().rows();
        around_sorted(l, (t->key, t->slot), r);
        offsets_count(b, end, n.left);
        offsets_count(b, end, n.right);
        let a = offsets(b, end, n.left);
        let c = offsets(b, end, n.right);
        assert(a.disjoint(c)) by {
            assert forall|o: int| !(a.contains(o) && c.contains(o)) by {
                if a.contains(o) && c.contains(o) {
                    let k = (node_at(b, end, o)->Ok_0).key;
                    let i = choose|i: int| 0 <= i < l.len() && (#[trigger] l[i]).0 == k;
                    let j = choose|j: int| 0 <= j < r.len() && (#[trigger] r[j]).0 == k;
                    assert(lt(l[i].0, t->key));
                    assert(lt(t->key, r[j].0));
                }
            }
        }
        vstd::set_lib::lemma_set_disjoint_lens(a, c);
        assert(!a.union(c).contains(at as int));
        assert forall|o: int| #[trigger] offsets(b, end, at).contains(o) implies 1 <= o <= at
            && node_at(b, end, o) is Ok && present(
            t.rows(),
            (node_at(b, end, o)->Ok_0).key,
        ) by {
            let k = (node_at(b, end, o)->Ok_0).key;
            let w = t.rows();
            if o == at {
                assert(w[l.len() as int].0 == k);
            } else if a.contains(o) {
                let i = choose|i: int| 0 <= i < l.len() && (#[trigger] l[i]).0 == k;
                assert(w[i] == l[i]);
            } else {
                let j = choose|j: int| 0 <= j < r.len() && (#[trigger] r[j]).0 == k;
                assert(w[l.len() + 1 + j] == r[j]);
            }
        }
    } else {
        assert(t.rows() =~= Seq::empty());
    }
}

/// No valid index is higher than the format allows.
pub proof fn height_limit_of(b: Seq<u8>, end: int, at: u64)
    requires
        tree_at(b, end, at) is Some,
        (tree_at(b, end, at)->0).valid(),
    ensures
        0 <= (tree_at(b, end, at)->0).height() <= 128,
        (tree_at(b, end, at)->0).rows().len() <= u64::MAX,
{
    rows_fit(b, end, at);
    height_limit(tree_at(b, end, at)->0);
}

/// Whether a batch may take the grouped path: several writes, none of them a
/// removal, and few enough for the scratch space that the budget allows.
pub open spec fn eligible(writes: Seq<(Seq<u8>, Change)>, transaction_budget: int) -> bool {
    let scratch = if transaction_budget / 8 < 64 * 1024 {
        transaction_budget / 8
    } else {
        64 * 1024int
    };
    &&& 2 <= writes.len() <= scratch / entry_bytes()
    &&& all_set(writes, 0, writes.len() as int)
}

/// Searching an index finds a key exactly when the contents have it, and then
/// its revision.
pub proof fn found(
    b: Seq<u8>,
    end: int,
    root: u64,
    want: Seq<(Seq<u8>, Version)>,
    key: Seq<u8>,
)
    requires
        stores(b, end, root, want),
    ensures
        match find_node(b, end, root, key) {
            Ok(Some(n)) => {
                &&& present(want, key)
                &&& n.key == key
                &&& lookup(want, key) matches Some(v) && v.1 == n.revision && value_at(
                    b,
                    end,
                    n.value as int,
                ) == Ok::<Seq<u8>, Fail>(v.0)
            },
            Ok(None) => !present(want, key) && lookup(want, key) is None,
            Err(_) => false,
        },
{
    let t = tree_at(b, end, root)->0;
    find_meaning(b, end, root, key);
    holds_keys(b, end, t.rows(), want, key);
    lookup_finds(t.rows(), key);
}

/// An index leads to one contents only.
pub proof fn stores_determines(
    b: Seq<u8>,
    end: int,
    root: u64,
    one: Seq<(Seq<u8>, Version)>,
    other: Seq<(Seq<u8>, Version)>,
)
    requires
        stores(b, end, root, one),
        stores(b, end, root, other),
    ensures
        one == other,
{
    let rows = (tree_at(b, end, root)->0).rows();
    assert forall|i: int| 0 <= i < rows.len() implies one[i] == other[i] by {
        assert(leads(b, end, rows[i], one[i]));
        assert(leads(b, end, rows[i], other[i]));
    }
    assert(one =~= other);
}

/// Building from nothing is applying to nothing.
proof fn built_is_applied(writes: Seq<(Seq<u8>, Change)>, revision: u64)
    requires
        sorted(writes),
        all_set(writes, 0, writes.len() as int),
    ensures
        built(writes, 0, writes.len() as int, revision) == applied(Seq::empty(), writes, revision),
{
    let w = built(writes, 0, writes.len() as int, revision);
    let none: Seq<(Seq<u8>, Version)> = Seq::empty();
    assert forall|i: int| 0 <= i < w.len() implies (#[trigger] w[i]).0 == writes[i].0 by {}
    assert forall|k: Seq<u8>| #[trigger] lookup(w, k) == changed(
        lookup(writes, k),
        lookup(none, k),
        revision,
    ) by {
        super::contents::same_rank(w, writes, k);
        assert(rank(none, k) == 0);
    }
    super::contents::same_rank(w, writes, Seq::empty());
    updated_is_applied(none, w, writes, revision);
}

/// Replacing existing keys is applying.
proof fn replaced_is_applied(
    want: Seq<(Seq<u8>, Version)>,
    writes: Seq<(Seq<u8>, Change)>,
    revision: u64,
)
    requires
        sorted(want),
        sorted(writes),
        all_set(writes, 0, writes.len() as int),
        forall|i: int| 0 <= i < writes.len() ==> present(want, (#[trigger] writes[i]).0),
    ensures
        replaced(want, writes, revision) == applied(want, writes, revision),
        replaced(want, writes, revision).len() == want.len(),
{
    let w = replaced(want, writes, revision);
    assert forall|i: int| 0 <= i < w.len() implies (#[trigger] w[i]).0 == want[i].0 by {}
    super::contents::same_rank(w, want, Seq::empty());
    assert forall|k: Seq<u8>| #[trigger] lookup(w, k) == changed(
        lookup(writes, k),
        lookup(want, k),
        revision,
    ) by {
        super::contents::same_rank(w, want, k);
        lookup_finds(writes, k);
        lookup_finds(want, k);
        if present(writes, k) {
            let i = choose|i: int| 0 <= i < writes.len() && (#[trigger] writes[i]).0 == k;
            lookup_at(writes, i);
            assert(present(want, writes[i].0));
        }
    }
    updated_is_applied(want, w, writes, revision);
}

/// Writes that hit none of the keys replace nothing.
proof fn no_change(want: Seq<(Seq<u8>, Version)>, writes: Seq<(Seq<u8>, Change)>, revision: u64)
    requires
        sorted(writes),
        forall|i: int| 0 <= i < writes.len() ==> !present(want, (#[trigger] writes[i]).0),
    ensures
        replaced(want, writes, revision) == want,
{
    assert forall|i: int| 0 <= i < want.len() implies lookup(
        writes,
        (#[trigger] want[i]).0,
    ) is None by {
        lookup_finds(writes, want[i].0);
        if present(writes, want[i].0) {
            let j = choose|j: int| 0 <= j < writes.len() && (#[trigger] writes[j]).0 == want[i].0;
            assert(present(want, writes[j].0));
        }
    }
    assert(replaced(want, writes, revision) =~= want);
}

/// The writes of a node's keys fall into those of its left part, its own, and
/// those of its right part.
proof fn divided(
    writes: Seq<(Seq<u8>, Change)>,
    lw: Seq<(Seq<u8>, Version)>,
    roww: (Seq<u8>, Version),
    rw: Seq<(Seq<u8>, Version)>,
    lo: int,
    hi: int,
    split: int,
    right_from: int,
)
    requires
        sorted(writes),
        sorted(around(lw, roww, rw)),
        0 <= lo <= hi <= writes.len(),
        forall|i: int|
            0 <= i < writes.len() ==> (present(around(lw, roww, rw), (#[trigger] writes[i]).0)
                <==> lo <= i < hi),
        ({
            let place = rank(writes, roww.0) as int;
            split == if place < lo {
                lo
            } else if place > hi {
                hi
            } else {
                place
            }
        }),
        right_from == if split < hi && writes[split].0 == roww.0 {
            split + 1
        } else {
            split
        },
    ensures
        forall|i: int|
            0 <= i < writes.len() ==> (present(lw, (#[trigger] writes[i]).0) <==> lo <= i < split),
        forall|i: int|
            0 <= i < writes.len() ==> (present(rw, (#[trigger] writes[i]).0) <==> right_from <= i
                < hi),
{
    broadcast use group_order;

    let want = around(lw, roww, rw);
    let n = lw.len() as int;
    around_sorted(lw, roww, rw);
    rank_splits(writes, roww.0);
    assert(want[n] == roww);
    assert forall|i: int| 0 <= i < writes.len() implies (present(lw, (#[trigger] writes[i]).0)
        <==> lo <= i < split) && (present(rw, writes[i].0) <==> right_from <= i < hi) by {
        let k = writes[i].0;
        around_rank(lw, roww, rw, k);
        lookup_finds(want, k);
        lookup_finds(lw, k);
        lookup_finds(rw, k);
        if present(lw, k) {
            let j = choose|j: int| 0 <= j < lw.len() && (#[trigger] lw[j]).0 == k;
            assert(lt(lw[j].0, roww.0));
        }
        if present(rw, k) {
            let j = choose|j: int| 0 <= j < rw.len() && (#[trigger] rw[j]).0 == k;
            assert(lt(roww.0, rw[j].0));
        }
    }
}

} // verus!
