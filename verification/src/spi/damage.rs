//! What a byte changed on disk does: the records that a version rests on carry checksums, so
//! that verifying the version finds it.
use vstd::prelude::*;

use super::arena::{node_at, read_record, tree_at, value_at, NODE, VALUE};
use super::bytes::{checksum_finds_a_byte, enc32, group_encoding, le32, le32_differs, le64};
use super::epoch::page_at;
use super::fences::{flat, page_ok, page_rows};
use super::lineage::{chain, demand_of, Demand};
use super::packed::{cell_value, readable_cells};
use super::page::{Cell, Stored, BASE};
use super::snapshot::Snapshot;
use super::tree::Slot;
use super::upkeep::checks_out;

verus! {

broadcast use super::arena::tree_empty;

/// Whether a byte lies in the record at `at`.
pub open spec fn inside(b: Seq<u8>, at: int, p: int) -> bool {
    at <= p < at + 32 + le32(b, at + 24)
}

/// Whether a byte tells the length of the record at `at`.
pub open spec fn tells_length(at: int, p: int) -> bool {
    at + 24 <= p < at + 28
}

/// A record with a byte changed, other than one that tells its length, cannot be read.
pub proof fn changed_record_is_refused(
    b: Seq<u8>,
    end: int,
    at: int,
    kind: u8,
    p: int,
    v: u8,
)
    requires
        read_record(b, end, at, kind) is Ok,
        inside(b, at, p),
        !tells_length(at, p),
        v != b[p],
    ensures
        forall|k: u8| #[trigger] read_record(b.update(p, v), end, at, k) is Err,
{
    broadcast use group_encoding;

    reveal(read_record);
    let c = b.update(p, v);
    let len = le32(b, at + 24);
    let m = b.subrange(at, at + 28) + enc32(0) + b.subrange(at + 32, at + 32 + len);
    let n = c.subrange(at, at + 28) + enc32(0) + c.subrange(at + 32, at + 32 + len);
    assert(le32(c, at + 24) == len);
    if at + 28 <= p < at + 32 {
        assert(n =~= m);
        le32_differs(b, at + 28, p, v);
    } else {
        assert(n =~= m.update(p - at, v));
        checksum_finds_a_byte(m, p - at, v);
        assert(le32(c, at + 28) == le32(b, at + 28));
    }
}

/// A record that the byte does not lie in reads as before.
proof fn other_record_reads(b: Seq<u8>, end: int, at: int, kind: u8, p: int, v: u8)
    requires
        read_record(b, end, at, kind) is Ok,
        0 <= p < b.len(),
        !inside(b, at, p),
    ensures
        read_record(b.update(p, v), end, at, kind) == read_record(b, end, at, kind),
        b.update(p, v)[at + 8] == b[at + 8],
        le64(b.update(p, v), at + 16) == le64(b, at + 16),
        at >= 8,
        at + 32 <= end,
        at + 32 <= b.len(),
{
    reveal(read_record);
    let c = b.update(p, v);
    let len = le32(b, at + 24);
    assert(c.subrange(at, at + 8) =~= b.subrange(at, at + 8));
    assert(c.subrange(at, at + 28) =~= b.subrange(at, at + 28));
    assert(c.subrange(at + 32, at + 32 + len) =~= b.subrange(at + 32, at + 32 + len));
}

/// Whether the node at `at` is part of the tree under `root`.
pub open spec fn reaches(b: Seq<u8>, end: int, root: u64, at: u64) -> bool
    decreases root,
{
    root != 0 && (root == at || match node_at(b, end, root as int) {
        Ok(n) => n.left < root && n.right < root && (reaches(b, end, n.left, at) || reaches(
            b,
            end,
            n.right,
            at,
        )),
        Err(_) => false,
    })
}

/// A tree with a byte changed in one of its nodes cannot be read; without one it reads as
/// before.
proof fn changed_tree(b: Seq<u8>, end: int, root: u64, p: int, v: u8)
    requires
        tree_at(b, end, root) is Some,
        0 <= p < b.len(),
        v != b[p],
        forall|x: u64| #[trigger] reaches(b, end, root, x) ==> !tells_length(x as int, p),
    ensures
        (exists|x: u64| #[trigger] reaches(b, end, root, x) && inside(b, x as int, p)) ==> tree_at(
            b.update(p, v),
            end,
            root,
        ) is None,
        (forall|x: u64| #[trigger] reaches(b, end, root, x) ==> !inside(b, x as int, p)) ==> tree_at(
            b.update(p, v),
            end,
            root,
        ) == tree_at(b, end, root),
    decreases root,
{
    reveal(tree_at);
    if root != 0 {
        let c = b.update(p, v);
        assert(reaches(b, end, root, root));
        assert(node_at(b, end, root as int) is Ok);
        let n = node_at(b, end, root as int)->Ok_0;
        if inside(b, root as int, p) {
            changed_record_is_refused(b, end, root as int, NODE, p, v);
            assert(read_record(c, end, root as int, NODE) is Err);
        } else {
            other_record_reads(b, end, root as int, NODE, p, v);
            assert(node_at(c, end, root as int) == node_at(b, end, root as int));
            assert(n.left < root && n.right < root);
            assert forall|x: u64| #[trigger] reaches(b, end, n.left, x) implies !tells_length(
                x as int,
                p,
            ) by {
                assert(reaches(b, end, root, x));
            }
            assert forall|x: u64| #[trigger] reaches(b, end, n.right, x) implies !tells_length(
                x as int,
                p,
            ) by {
                assert(reaches(b, end, root, x));
            }
            changed_tree(b, end, n.left, p, v);
            changed_tree(b, end, n.right, p, v);
            if exists|x: u64| #[trigger] reaches(b, end, root, x) && inside(b, x as int, p) {
                let x = choose|x: u64| #[trigger] reaches(b, end, root, x) && inside(b, x as int, p);
                assert(reaches(b, end, n.left, x) || reaches(b, end, n.right, x));
            } else {
                assert forall|x: u64| #[trigger] reaches(b, end, n.left, x) implies !inside(
                    b,
                    x as int,
                    p,
                ) by {
                    assert(reaches(b, end, root, x));
                }
                assert forall|x: u64| #[trigger] reaches(b, end, n.right, x) implies !inside(
                    b,
                    x as int,
                    p,
                ) by {
                    assert(reaches(b, end, root, x));
                }
            }
        }
    }
}

/// Whether the page record at `x` is part of the lineage of the one at `at`.
pub open spec fn descends(b: Seq<u8>, end: int, at: u64, x: u64) -> bool
    decreases at,
{
    at == x || match page_at(b, end, at as int) {
        Ok(r) => r.kind != BASE && r.prev < at && descends(b, end, r.prev, x),
        Err(_) => false,
    }
}

/// A lineage with a byte changed in one of its records cannot be read; without one it reads
/// as before.
proof fn changed_chain(
    b: Seq<u8>,
    end: int,
    generation: u64,
    at: u64,
    demand: Demand,
    p: int,
    v: u8,
)
    requires
        chain(b, end, generation, at, demand) is Ok,
        0 <= p < b.len(),
        v != b[p],
        forall|x: u64| #[trigger] descends(b, end, at, x) ==> !tells_length(x as int, p),
    ensures
        (exists|x: u64| #[trigger] descends(b, end, at, x) && inside(b, x as int, p)) ==> chain(
            b.update(p, v),
            end,
            generation,
            at,
            demand,
        ) is Err,
        (forall|x: u64| #[trigger] descends(b, end, at, x) ==> !inside(b, x as int, p)) ==> chain(
            b.update(p, v),
            end,
            generation,
            at,
            demand,
        ) == chain(b, end, generation, at, demand),
    decreases at,
{
    let c = b.update(p, v);
    assert(descends(b, end, at, at));
    let r = page_at(b, end, at as int)->Ok_0;
    let kind = b[at + 8];
    assert(read_record(b, end, at as int, kind) is Ok);
    if inside(b, at as int, p) {
        changed_record_is_refused(b, end, at as int, kind, p, v);
        assert(read_record(c, end, at as int, c[at + 8]) is Err);
        assert(page_at(c, end, at as int) is Err);
    } else {
        other_record_reads(b, end, at as int, kind, p, v);
        assert(page_at(c, end, at as int) == page_at(b, end, at as int));
        if r.kind != BASE {
            assert forall|x: u64| #[trigger] descends(b, end, r.prev, x) implies !tells_length(
                x as int,
                p,
            ) by {
                assert(descends(b, end, at, x));
            }
            changed_chain(b, end, generation, r.prev, demand_of(r), p, v);
            if exists|x: u64| #[trigger] descends(b, end, at, x) && inside(b, x as int, p) {
                let x = choose|x: u64| #[trigger] descends(b, end, at, x) && inside(b, x as int, p);
                assert(descends(b, end, r.prev, x));
            } else {
                assert forall|x: u64| #[trigger] descends(b, end, r.prev, x) implies !inside(
                    b,
                    x as int,
                    p,
                ) by {
                    assert(descends(b, end, at, x));
                }
            }
        }
    }
}

/// The rows of the index of a version.
pub open spec fn index_rows(view: Snapshot, b: Seq<u8>) -> Seq<(Seq<u8>, Slot)> {
    (tree_at(b, view.root.end as int, view.root.root)->0).rows()
}

/// The cells of the pages of a version.
pub open spec fn page_cells(view: Snapshot, b: Seq<u8>) -> Seq<(Seq<u8>, Cell)> {
    flat(b, view.root.end as int, view.root.generation, index_rows(view, b))
}

/// Whether a record holds a value of a version.
pub open spec fn holds_value(view: Snapshot, b: Seq<u8>, at: u64) -> bool {
    if view.packed {
        exists|i: int|
            0 <= i < page_cells(view, b).len() && (#[trigger] page_cells(
                view,
                b,
            )[i].1.1 matches Stored::Overflow { at: x, .. } && x == at)
    } else {
        exists|i: int|
            0 <= i < index_rows(view, b).len() && (#[trigger] index_rows(view, b)[i]).1.0 == at
    }
}

/// Whether a record holds rows of a packed version.
pub open spec fn holds_rows(view: Snapshot, b: Seq<u8>, at: u64) -> bool {
    view.packed && exists|i: int|
        0 <= i < index_rows(view, b).len() && descends(
            b,
            view.root.end as int,
            (#[trigger] index_rows(view, b)[i]).1.0,
            at,
        )
}

/// Whether a version rests on the record at `at`: it is a node of its index, a record of one of
/// its pages, or one of its values.
pub open spec fn rests_on(view: Snapshot, b: Seq<u8>, at: u64) -> bool {
    reaches(b, view.root.end as int, view.root.root, at) || holds_rows(view, b, at) || holds_value(
        view,
        b,
        at,
    )
}

/// Pages that the byte does not lie in have the rows that they had.
proof fn same_cells(
    b: Seq<u8>,
    end: int,
    generation: u64,
    fences: Seq<(Seq<u8>, Slot)>,
    p: int,
    v: u8,
)
    requires
        forall|i: int|
            0 <= i < fences.len() ==> chain(
                b.update(p, v),
                end,
                generation,
                (#[trigger] fences[i]).1.0,
                None,
            ) == chain(b, end, generation, fences[i].1.0, None),
    ensures
        flat(b.update(p, v), end, generation, fences) == flat(b, end, generation, fences),
    decreases fences.len(),
{
    if fences.len() > 0 {
        let init = fences.drop_last();
        assert forall|i: int| 0 <= i < init.len() implies chain(
            b.update(p, v),
            end,
            generation,
            (#[trigger] init[i]).1.0,
            None,
        ) == chain(b, end, generation, init[i].1.0, None) by {
            assert(init[i] == fences[i]);
        }
        same_cells(b, end, generation, init, p, v);
        let last = fences[fences.len() - 1];
        assert(page_rows(b.update(p, v), end, generation, last) == page_rows(
            b,
            end,
            generation,
            last,
        ));
    }
}

/// Verifying a version finds every changed byte in a record that the version rests on, unless
/// the byte tells the length of one.
pub proof fn damage_is_found(view: Snapshot, b: Seq<u8>, at: u64, p: int, v: u8)
    requires
        checks_out(view, b),
        rests_on(view, b, at),
        0 <= p < b.len(),
        inside(b, at as int, p),
        v != b[p],
        forall|x: u64| #[trigger] rests_on(view, b, x) ==> !tells_length(x as int, p),
    ensures
        !checks_out(view, b.update(p, v)),
{
    let c = b.update(p, v);
    let end = view.root.end as int;
    let g = view.root.generation;
    let root = view.root.root;
    let rows = index_rows(view, b);
    assert forall|x: u64| #[trigger] reaches(b, end, root, x) implies !tells_length(x as int, p) by {
        assert(rests_on(view, b, x));
    }
    changed_tree(b, end, root, p, v);
    if checks_out(view, c) {
        assert(tree_at(c, end, root) is Some);
        assert forall|x: u64| #[trigger] reaches(b, end, root, x) implies !inside(b, x as int, p) by {}
        assert(index_rows(view, c) == rows);
        if view.packed {
            assert forall|i: int| 0 <= i < rows.len() implies {
                &&& chain(c, end, g, (#[trigger] rows[i]).1.0, None) == chain(
                    b,
                    end,
                    g,
                    rows[i].1.0,
                    None,
                )
                &&& forall|x: u64| #[trigger]
                    descends(b, end, rows[i].1.0, x) ==> !inside(b, x as int, p)
            } by {
                assert(page_ok(b, end, g, rows, i));
                assert(page_ok(c, end, g, rows, i));
                assert forall|x: u64| #[trigger]
                    descends(b, end, rows[i].1.0, x) implies !tells_length(x as int, p) by {
                    assert(holds_rows(view, b, x));
                    assert(rests_on(view, b, x));
                }
                changed_chain(b, end, g, rows[i].1.0, None, p, v);
            }
            same_cells(b, end, g, rows, p, v);
            if holds_value(view, b, at) {
                let cells = page_cells(view, b);
                let i = choose|i: int|
                    0 <= i < cells.len() && (#[trigger] cells[i].1.1 matches Stored::Overflow {
                        at: x,
                        ..
                    } && x == at);
                assert(readable_cells(b, end, cells));
                assert(cell_value(b, end, cells[i].1.1) is Some);
                assert(cell_value(c, end, page_cells(view, c)[i].1.1) is Some);
                changed_record_is_refused(b, end, at as int, VALUE, p, v);
                assert(read_record(c, end, at as int, VALUE) is Err);
            }
        } else {
            let i = choose|i: int| 0 <= i < rows.len() && (#[trigger] rows[i]).1.0 == at;
            assert(value_at(b, end, rows[i].1.0 as int) is Ok);
            assert(value_at(c, end, index_rows(view, c)[i].1.0 as int) is Ok);
            changed_record_is_refused(b, end, at as int, VALUE, p, v);
            assert(read_record(c, end, at as int, VALUE) is Err);
        }
    }
}

} // verus!
