//! An arena without waste: every byte behind the mark lies in a record that a version rests on.
use vstd::prelude::*;

use super::arena::{extends, node_at, read_stable, spans_to, tree_at, tree_root, tree_stable, NODE};
use super::bytes::le32;
use super::damage::{
    descends, holds_rows, holds_value, index_rows, inside, page_cells, reaches, rests_on,
};
use super::fences::{flat, flat_one, flat_splits, loaded_stable, page_rows};
use super::lineage::loaded;
use super::page::{Cell, Stored};
use super::rows::around;
use super::snapshot::Snapshot;
use super::tree::{node_parts, Slot};

verus! {

broadcast use super::arena::tree_empty;

/// Whether a byte lies in a record that a version rests on.
pub open spec fn in_use(view: Snapshot, b: Seq<u8>, p: int) -> bool {
    exists|at: u64| #[trigger] rests_on(view, b, at) && inside(b, at as int, p)
}

/// Whether a version uses all of its arena: every byte behind the mark lies in a record that it
/// rests on.
pub open spec fn all_in_use(view: Snapshot, b: Seq<u8>) -> bool {
    forall|p: int| 8 <= p < b.len() ==> #[trigger] in_use(view, b, p)
}

/// The rows of the tree at `root`.
pub open spec fn tree_rows(b: Seq<u8>, end: int, root: u64) -> Seq<(Seq<u8>, Slot)> {
    (tree_at(b, end, root)->0).rows()
}

/// The cells of the page at `slot`.
pub open spec fn slot_cells(b: Seq<u8>, end: int, generation: u64, slot: u64) -> Seq<
    (Seq<u8>, Cell),
> {
    loaded(b, end, generation, slot)->Ok_0
}

/// Whether the value of a cell is kept in the record at `x`.
pub open spec fn kept_at(row: (Seq<u8>, Cell), x: u64) -> bool {
    row.1.1 matches Stored::Overflow { at, .. } && at == x
}

/// Whether the record at `x` is what a slot leads to, or keeps a value of the page there.
pub open spec fn under_slot(
    b: Seq<u8>,
    end: int,
    generation: u64,
    packed: bool,
    slot: u64,
    x: u64,
) -> bool {
    slot == x || (packed && exists|k: int|
        0 <= k < slot_cells(b, end, generation, slot).len() && kept_at(
            #[trigger] slot_cells(b, end, generation, slot)[k],
            x,
        ))
}

/// Whether the record at `x` belongs to the tree at `root`: one of its nodes, or under one of
/// its slots.
pub open spec fn belongs(
    b: Seq<u8>,
    end: int,
    generation: u64,
    packed: bool,
    root: u64,
    x: u64,
) -> bool {
    reaches(b, end, root, x) || exists|i: int|
        0 <= i < tree_rows(b, end, root).len() && under_slot(
            b,
            end,
            generation,
            packed,
            (#[trigger] tree_rows(b, end, root)[i]).1.0,
            x,
        )
}

/// Whether a byte lies in a record under a slot.
pub open spec fn slot_covers(
    b: Seq<u8>,
    end: int,
    generation: u64,
    packed: bool,
    slot: u64,
    p: int,
) -> bool {
    exists|x: u64| #[trigger]
        under_slot(b, end, generation, packed, slot, x) && x + 32 <= b.len() && inside(
            b,
            x as int,
            p,
        )
}

/// Whether a byte lies in a record that belongs to a tree.
pub open spec fn tree_covers(
    b: Seq<u8>,
    end: int,
    generation: u64,
    packed: bool,
    root: u64,
    p: int,
) -> bool {
    exists|x: u64| #[trigger]
        belongs(b, end, generation, packed, root, x) && x + 32 <= b.len() && inside(b, x as int, p)
}

/// Whether the records under a slot make up a stretch of the arena.
#[verifier::opaque]
pub open spec fn slot_fills(
    b: Seq<u8>,
    end: int,
    generation: u64,
    packed: bool,
    slot: u64,
    lo: int,
    hi: int,
) -> bool {
    forall|p: int| lo <= p < hi ==> #[trigger] slot_covers(b, end, generation, packed, slot, p)
}

/// Whether the records that belong to a tree make up a stretch of the arena.
#[verifier::opaque]
pub open spec fn tree_fills(
    b: Seq<u8>,
    end: int,
    generation: u64,
    packed: bool,
    root: u64,
    lo: int,
    hi: int,
) -> bool {
    forall|p: int| lo <= p < hi ==> #[trigger] tree_covers(b, end, generation, packed, root, p)
}

/// Nothing is made up of anything.
pub proof fn nothing_filled(b: Seq<u8>, end: int, generation: u64, packed: bool, root: u64, at: int)
    ensures
        tree_fills(b, end, generation, packed, root, at, at),
{
    reveal(tree_fills);
}

/// A record makes up the stretch that it spans.
pub proof fn record_fills(b: Seq<u8>, end: int, generation: u64, packed: bool, at: u64, hi: int)
    requires
        spans_to(b, at as int, hi),
    ensures
        slot_fills(b, end, generation, packed, at, at as int, hi),
{
    reveal(slot_fills);
    assert forall|p: int| at <= p < hi implies #[trigger] slot_covers(
        b,
        end,
        generation,
        packed,
        at,
        p,
    ) by {
        assert(under_slot(b, end, generation, packed, at, at));
    }
}

/// Whether a byte lies in a record that keeps the value of one of these cells.
pub open spec fn value_covers(b: Seq<u8>, rows: Seq<(Seq<u8>, Cell)>, p: int) -> bool {
    exists|k: int, x: u64|
        0 <= k < rows.len() && #[trigger] kept_at(rows[k], x) && x + 32 <= b.len() && inside(
            b,
            x as int,
            p,
        )
}

/// Whether the records that keep the values of these cells make up a stretch of the arena.
#[verifier::opaque]
pub open spec fn values_fill(b: Seq<u8>, rows: Seq<(Seq<u8>, Cell)>, lo: int, hi: int) -> bool {
    forall|p: int| lo <= p < hi ==> #[trigger] value_covers(b, rows, p)
}

/// One more cell, whose value may be kept in a record that was just appended.
pub proof fn values_fill_push(
    a: Seq<u8>,
    b: Seq<u8>,
    rows: Seq<(Seq<u8>, Cell)>,
    row: (Seq<u8>, Cell),
    lo: int,
    at: int,
    hi: int,
)
    requires
        extends(b, a),
        values_fill(a, rows, lo, at),
        at == hi || (row.1.1 matches Stored::Overflow { at: x, .. } && x == at && spans_to(b, at, hi)),
    ensures
        values_fill(b, rows.push(row), lo, hi),
{
    reveal(values_fill);
    let all = rows.push(row);
    assert forall|p: int| lo <= p < hi implies #[trigger] value_covers(b, all, p) by {
        if p < at {
            assert(value_covers(a, rows, p));
            let (k, x) = choose|k: int, x: u64|
                0 <= k < rows.len() && #[trigger] kept_at(rows[k], x) && x + 32 <= a.len()
                    && inside(a, x as int, p);
            inside_grows(a, b, x as int, p);
            assert(all[k] == rows[k]);
            assert(kept_at(all[k], x));
        } else {
            let n = rows.len() as int;
            assert(all[n] == row);
            assert(kept_at(all[n], at as u64));
        }
    }
}

/// A page and the records that keep its values make up what they make up in turn.
pub proof fn page_fills(
    a: Seq<u8>,
    b: Seq<u8>,
    end: int,
    generation: u64,
    at: u64,
    rows: Seq<(Seq<u8>, Cell)>,
    lo: int,
    hi: int,
)
    requires
        extends(b, a),
        loaded(b, end, generation, at) is Ok,
        slot_cells(b, end, generation, at) == rows,
        values_fill(a, rows, lo, at as int),
        spans_to(b, at as int, hi),
    ensures
        slot_fills(b, end, generation, true, at, lo, hi),
{
    reveal(values_fill);
    reveal(slot_fills);
    assert forall|p: int| lo <= p < hi implies #[trigger] slot_covers(
        b,
        end,
        generation,
        true,
        at,
        p,
    ) by {
        if p < at {
            assert(value_covers(a, rows, p));
            let (k, x) = choose|k: int, x: u64|
                0 <= k < rows.len() && #[trigger] kept_at(rows[k], x) && x + 32 <= a.len()
                    && inside(a, x as int, p);
            inside_grows(a, b, x as int, p);
            assert(kept_at(slot_cells(b, end, generation, at)[k], x));
            assert(under_slot(b, end, generation, true, at, x));
        } else {
            assert(under_slot(b, end, generation, true, at, at));
        }
    }
}

/// A byte that lies in a record lies in it when the arena grows.
proof fn inside_grows(a: Seq<u8>, b: Seq<u8>, x: int, p: int)
    requires
        extends(b, a),
        0 <= x,
        x + 32 <= a.len(),
        inside(a, x, p),
    ensures
        inside(b, x, p),
{
    assert(le32(b, x + 24) == le32(a, x + 24));
}

proof fn reaches_grows(a: Seq<u8>, b: Seq<u8>, end: int, later: int, root: u64, x: u64)
    requires
        extends(b, a),
        end <= later,
        tree_at(a, end, root) is Some,
        reaches(a, end, root, x),
    ensures
        reaches(b, later, root, x),
    decreases root,
{
    if root != x {
        tree_root(a, end, root);
        let n = node_at(a, end, root as int)->Ok_0;
        read_stable(a, b, end, later, root as int, NODE);
        if reaches(a, end, n.left, x) {
            reaches_grows(a, b, end, later, n.left, x);
        } else {
            reaches_grows(a, b, end, later, n.right, x);
        }
    }
}

proof fn under_grows(
    a: Seq<u8>,
    b: Seq<u8>,
    end: int,
    later: int,
    generation: u64,
    packed: bool,
    slot: u64,
    x: u64,
)
    requires
        extends(b, a),
        end <= later,
        packed ==> loaded(a, end, generation, slot) is Ok,
        under_slot(a, end, generation, packed, slot, x),
    ensures
        under_slot(b, later, generation, packed, slot, x),
{
    if slot != x {
        loaded_stable(a, b, end, later, generation, generation, slot);
        let k = choose|k: int|
            0 <= k < slot_cells(a, end, generation, slot).len() && kept_at(
                #[trigger] slot_cells(a, end, generation, slot)[k],
                x,
            );
        assert(slot_cells(b, later, generation, slot)[k] == slot_cells(a, end, generation, slot)[k]);
    }
}

/// What makes up a stretch makes it up when the arena grows.
pub proof fn slot_fills_grows(
    a: Seq<u8>,
    b: Seq<u8>,
    end: int,
    later: int,
    generation: u64,
    packed: bool,
    slot: u64,
    lo: int,
    hi: int,
)
    requires
        extends(b, a),
        end <= later,
        packed ==> loaded(a, end, generation, slot) is Ok,
        slot_fills(a, end, generation, packed, slot, lo, hi),
    ensures
        slot_fills(b, later, generation, packed, slot, lo, hi),
{
    reveal(slot_fills);
    assert forall|p: int| lo <= p < hi implies #[trigger] slot_covers(
        b,
        later,
        generation,
        packed,
        slot,
        p,
    ) by {
        assert(slot_covers(a, end, generation, packed, slot, p));
        let x = choose|x: u64| #[trigger]
            under_slot(a, end, generation, packed, slot, x) && x + 32 <= a.len() && inside(
                a,
                x as int,
                p,
            );
        under_grows(a, b, end, later, generation, packed, slot, x);
        inside_grows(a, b, x as int, p);
    }
}

/// What makes up a stretch makes it up when the arena grows.
pub proof fn tree_fills_grows(
    a: Seq<u8>,
    b: Seq<u8>,
    end: int,
    later: int,
    generation: u64,
    packed: bool,
    root: u64,
    lo: int,
    hi: int,
)
    requires
        extends(b, a),
        end <= later,
        tree_at(a, end, root) is Some,
        packed ==> forall|i: int|
            0 <= i < tree_rows(a, end, root).len() ==> loaded(
                a,
                end,
                generation,
                (#[trigger] tree_rows(a, end, root)[i]).1.0,
            ) is Ok,
        tree_fills(a, end, generation, packed, root, lo, hi),
    ensures
        tree_fills(b, later, generation, packed, root, lo, hi),
{
    reveal(tree_fills);
    tree_stable(a, b, end, later, root);
    assert forall|p: int| lo <= p < hi implies #[trigger] tree_covers(
        b,
        later,
        generation,
        packed,
        root,
        p,
    ) by {
        assert(tree_covers(a, end, generation, packed, root, p));
        let x = choose|x: u64| #[trigger]
            belongs(a, end, generation, packed, root, x) && x + 32 <= a.len() && inside(
                a,
                x as int,
                p,
            );
        if reaches(a, end, root, x) {
            reaches_grows(a, b, end, later, root, x);
        } else {
            let rows = tree_rows(a, end, root);
            let i = choose|i: int|
                0 <= i < rows.len() && under_slot(
                    a,
                    end,
                    generation,
                    packed,
                    (#[trigger] rows[i]).1.0,
                    x,
                );
            under_grows(a, b, end, later, generation, packed, rows[i].1.0, x);
            assert(tree_rows(b, later, root)[i] == rows[i]);
        }
        assert(belongs(b, later, generation, packed, root, x));
        inside_grows(a, b, x as int, p);
    }
}

/// A node, what is under its slot and the trees below it make up what they make up in turn.
pub proof fn node_fills(
    b: Seq<u8>,
    end: int,
    generation: u64,
    packed: bool,
    at: u64,
    lo: int,
    left: int,
    right: int,
    hi: int,
)
    requires
        at != 0,
        tree_at(b, end, at) is Some,
        ({
            let n = node_at(b, end, at as int)->Ok_0;
            &&& tree_fills(b, end, generation, packed, n.left, lo, left)
            &&& tree_fills(b, end, generation, packed, n.right, left, right)
            &&& slot_fills(b, end, generation, packed, n.value, right, at as int)
        }),
        spans_to(b, at as int, hi),
    ensures
        tree_fills(b, end, generation, packed, at, lo, hi),
{
    reveal(tree_fills);
    reveal(slot_fills);
    tree_root(b, end, at);
    let n = node_at(b, end, at as int)->Ok_0;
    let t = tree_at(b, end, at)->0;
    node_parts(t);
    let l = t.left().rows();
    let r = t.right().rows();
    let row = (t->key, t->slot);
    let all = tree_rows(b, end, at);
    assert(all == around(l, row, r));
    assert forall|p: int| lo <= p < hi implies #[trigger] tree_covers(
        b,
        end,
        generation,
        packed,
        at,
        p,
    ) by {
        if p < left {
            assert(tree_covers(b, end, generation, packed, n.left, p));
            let x = choose|x: u64| #[trigger]
                belongs(b, end, generation, packed, n.left, x) && x + 32 <= b.len() && inside(
                    b,
                    x as int,
                    p,
                );
            if !reaches(b, end, n.left, x) {
                let i = choose|i: int|
                    0 <= i < l.len() && under_slot(
                        b,
                        end,
                        generation,
                        packed,
                        (#[trigger] tree_rows(b, end, n.left)[i]).1.0,
                        x,
                    );
                assert(all[i] == l[i]);
            }
            assert(belongs(b, end, generation, packed, at, x));
        } else if p < right {
            assert(tree_covers(b, end, generation, packed, n.right, p));
            let x = choose|x: u64| #[trigger]
                belongs(b, end, generation, packed, n.right, x) && x + 32 <= b.len() && inside(
                    b,
                    x as int,
                    p,
                );
            if !reaches(b, end, n.right, x) {
                let i = choose|i: int|
                    0 <= i < r.len() && under_slot(
                        b,
                        end,
                        generation,
                        packed,
                        (#[trigger] tree_rows(b, end, n.right)[i]).1.0,
                        x,
                    );
                assert(all[l.len() + 1 + i] == r[i]);
            }
            assert(belongs(b, end, generation, packed, at, x));
        } else if p < at {
            assert(slot_covers(b, end, generation, packed, n.value, p));
            let x = choose|x: u64| #[trigger]
                under_slot(b, end, generation, packed, n.value, x) && x + 32 <= b.len() && inside(
                    b,
                    x as int,
                    p,
                );
            assert(all[l.len() as int] == row);
            assert(belongs(b, end, generation, packed, at, x));
        } else {
            assert(reaches(b, end, at, at));
            assert(belongs(b, end, generation, packed, at, at));
        }
    }
}

/// A cell of a page is one of the cells of all pages.
proof fn cell_among(
    b: Seq<u8>,
    end: int,
    generation: u64,
    fences: Seq<(Seq<u8>, Slot)>,
    i: int,
    k: int,
) -> (j: int)
    requires
        0 <= i < fences.len(),
        0 <= k < page_rows(b, end, generation, fences[i]).len(),
    ensures
        0 <= j < flat(b, end, generation, fences).len(),
        flat(b, end, generation, fences)[j] == page_rows(b, end, generation, fences[i])[k],
{
    let x = fences.take(i);
    let one = seq![fences[i]];
    let y = fences.skip(i + 1);
    flat_splits(b, end, generation, x, one);
    flat_splits(b, end, generation, x + one, y);
    flat_one(b, end, generation, fences[i]);
    assert(fences =~= x + one + y);
    flat(b, end, generation, x).len() as int + k
}

/// What belongs to the index of a version is what the version rests on.
pub proof fn fills_all(view: Snapshot, b: Seq<u8>)
    requires
        tree_fills(
            b,
            view.root.end as int,
            view.root.generation,
            view.packed,
            view.root.root,
            8,
            b.len() as int,
        ),
    ensures
        all_in_use(view, b),
{
    reveal(tree_fills);
    let end = view.root.end as int;
    let g = view.root.generation;
    let root = view.root.root;
    assert forall|p: int| 8 <= p < b.len() implies #[trigger] in_use(view, b, p) by {
        assert(tree_covers(b, end, g, view.packed, root, p));
        let x = choose|x: u64| #[trigger]
            belongs(b, end, g, view.packed, root, x) && x + 32 <= b.len() && inside(b, x as int, p);
        if !reaches(b, end, root, x) {
            let rows = index_rows(view, b);
            let i = choose|i: int|
                0 <= i < rows.len() && under_slot(
                    b,
                    end,
                    g,
                    view.packed,
                    (#[trigger] tree_rows(b, end, root)[i]).1.0,
                    x,
                );
            assert(rows[i] == tree_rows(b, end, root)[i]);
            if rows[i].1.0 == x {
                if view.packed {
                    assert(descends(b, end, rows[i].1.0, x));
                    assert(holds_rows(view, b, x));
                } else {
                    assert(holds_value(view, b, x));
                }
            } else {
                let slot = rows[i].1.0;
                let k = choose|k: int|
                    0 <= k < slot_cells(b, end, g, slot).len() && kept_at(
                        #[trigger] slot_cells(b, end, g, slot)[k],
                        x,
                    );
                let j = cell_among(b, end, g, rows, i, k);
                assert(kept_at(page_cells(view, b)[j], x));
                assert(page_cells(view, b)[j].1.1 matches Stored::Overflow { at, .. } && at == x);
                assert(holds_value(view, b, x));
            }
        }
        assert(rests_on(view, b, x));
    }
}

/// An arena that a version without rows uses in full is its mark and nothing else.
pub proof fn emptied_is_its_mark(view: Snapshot, b: Seq<u8>)
    requires
        view.holds(b, Seq::empty()),
        all_in_use(view, b),
        b.len() >= 8,
    ensures
        b.len() == 8,
{
    if b.len() > 8 {
        let end = view.root.end as int;
        assert(in_use(view, b, 8));
        let x = choose|at: u64| #[trigger] rests_on(view, b, at) && inside(b, at as int, 8);
        assert(view.root.root == 0);
        assert(!reaches(b, end, 0, x));
        assert(index_rows(view, b).len() == 0);
        assert(page_cells(view, b).len() == 0);
    }
}

} // verus!
