//! Copying a packed version into a new arena.
use vstd::prelude::*;

use super::arena::{tree_at, tree_root, Node};
use super::bytes::lt;
use super::cache::nodes_only;
use super::contents::Version;
use super::epoch::Epoch;
use super::fences::{
    cell_leads, fence_key, flat, holds_cells, holds_cells_grows, loaded_facts, loaded_stable,
    packed_stores, packed_stores_determines, page_ok, page_rows,
};
use super::group::height_limit_of;
use super::layout::{is_base, page_stable, Pages};
use super::lineage::{basic, load, loaded};
use super::model::{corrupt, Error, Fail};
use super::page::{row_size, rows_size, storable, views, Cell, Row, Value, BASE};
use super::reclaim::{
    node_fills, nothing_filled, page_fills, slot_fills, slot_fills_grows, tree_fills,
    tree_fills_grows, values_fill, values_fill_push,
};
use super::rows::{around, around_sorted, in_range, sorted};
use super::tree::{join_parts, node_parts, Slot};
use super::writer::{moved, ArenaWriter};

verus! {

broadcast use {super::arena::tree_empty, super::cache::group_nodes_only};

/// Whether the pages under fences hold these contents, page by page.
pub open spec fn pages_hold(
    b: Seq<u8>,
    end: int,
    generation: u64,
    fences: Seq<(Seq<u8>, Slot)>,
    parts: Seq<Seq<(Seq<u8>, Version)>>,
) -> bool {
    &&& fences.len() == parts.len()
    &&& forall|i: int|
        0 <= i < fences.len() ==> {
            &&& loaded(b, end, generation, (#[trigger] fences[i]).1.0) is Ok
            &&& holds_cells(b, end, page_rows(b, end, generation, fences[i]), parts[i])
        }
}

/// Contents put together page by page.
pub open spec fn assembled(parts: Seq<Seq<(Seq<u8>, Version)>>) -> Seq<(Seq<u8>, Version)>
    decreases parts.len(),
{
    if parts.len() == 0 {
        Seq::empty()
    } else {
        assembled(parts.drop_last()) + parts.last()
    }
}

/// The contents of a packed version, page by page.
proof fn pages_apart(
    b: Seq<u8>,
    end: int,
    generation: u64,
    fences: Seq<(Seq<u8>, Slot)>,
    want: Seq<(Seq<u8>, Version)>,
) -> (parts: Seq<Seq<(Seq<u8>, Version)>>)
    requires
        forall|i: int|
            0 <= i < fences.len() ==> loaded(b, end, generation, (#[trigger] fences[i]).1.0) is Ok,
        holds_cells(b, end, flat(b, end, generation, fences), want),
    ensures
        pages_hold(b, end, generation, fences, parts),
        assembled(parts) == want,
    decreases fences.len(),
{
    if fences.len() == 0 {
        assert(want =~= Seq::empty());
        Seq::empty()
    } else {
        let init = fences.drop_last();
        let x = flat(b, end, generation, init);
        let y = page_rows(b, end, generation, fences.last());
        let all = flat(b, end, generation, fences);
        let n = x.len() as int;
        let p = want.take(n);
        let q = want.skip(n);
        assert forall|i: int| 0 <= i < x.len() implies (#[trigger] x[i]).0 == p[i].0 && cell_leads(
            b,
            end,
            x[i].1,
            p[i].1,
        ) by {
            assert(all[i] == x[i]);
        }
        assert forall|i: int| 0 <= i < y.len() implies (#[trigger] y[i]).0 == q[i].0 && cell_leads(
            b,
            end,
            y[i].1,
            q[i].1,
        ) by {
            assert(all[n + i] == y[i]);
        }
        assert forall|i: int| 0 <= i < init.len() implies loaded(
            b,
            end,
            generation,
            (#[trigger] init[i]).1.0,
        ) is Ok by {
            assert(init[i] == fences[i]);
        }
        let before = pages_apart(b, end, generation, init, p);
        let parts = before.push(q);
        assert(parts.drop_last() =~= before);
        assert(want =~= p + q);
        assert forall|i: int| 0 <= i < fences.len() implies loaded(
            b,
            end,
            generation,
            (#[trigger] fences[i]).1.0,
        ) is Ok && holds_cells(b, end, page_rows(b, end, generation, fences[i]), parts[i]) by {
            if i < init.len() {
                assert(init[i] == fences[i]);
                assert(parts[i] == before[i]);
            }
        }
        parts
    }
}

/// Pages that hold contents page by page hold them together.
proof fn pages_together(
    b: Seq<u8>,
    end: int,
    generation: u64,
    fences: Seq<(Seq<u8>, Slot)>,
    parts: Seq<Seq<(Seq<u8>, Version)>>,
)
    requires
        pages_hold(b, end, generation, fences, parts),
    ensures
        holds_cells(b, end, flat(b, end, generation, fences), assembled(parts)),
    decreases fences.len(),
{
    if fences.len() > 0 {
        let init = fences.drop_last();
        let before = parts.drop_last();
        assert forall|i: int| 0 <= i < init.len() implies loaded(
            b,
            end,
            generation,
            (#[trigger] init[i]).1.0,
        ) is Ok && holds_cells(b, end, page_rows(b, end, generation, init[i]), before[i]) by {
            assert(init[i] == fences[i]);
            assert(before[i] == parts[i]);
        }
        pages_together(b, end, generation, init, before);
        let x = flat(b, end, generation, init);
        let y = page_rows(b, end, generation, fences.last());
        let p = assembled(before);
        let q = parts.last();
        let n = fences.len() - 1;
        assert(fences[n] == fences.last() && parts[n] == parts.last());
        let s = x + y;
        let t = p + q;
        assert forall|i: int| 0 <= i < s.len() implies (#[trigger] s[i]).0 == t[i].0 && cell_leads(
            b,
            end,
            s[i].1,
            t[i].1,
        ) by {
            if i < x.len() {
                assert(s[i] == x[i] && t[i] == p[i]);
            } else {
                assert(s[i] == y[i - x.len()] && t[i] == q[i - x.len()]);
            }
        }
    }
}

/// Pages keep what they hold while the writer goes on.
proof fn hold_moves(
    a: ArenaWriter,
    b: ArenaWriter,
    fences: Seq<(Seq<u8>, Slot)>,
    parts: Seq<Seq<(Seq<u8>, Version)>>,
)
    requires
        b.grew_from(a),
        pages_hold(a.image(), a.end as int, a.generation, fences, parts),
    ensures
        pages_hold(b.image(), b.end as int, b.generation, fences, parts),
{
    assert forall|i: int| 0 <= i < fences.len() implies loaded(
        b.image(),
        b.end as int,
        b.generation,
        (#[trigger] fences[i]).1.0,
    ) is Ok && holds_cells(
        b.image(),
        b.end as int,
        page_rows(b.image(), b.end as int, b.generation, fences[i]),
        parts[i],
    ) by {
        loaded_stable(
            a.image(),
            b.image(),
            a.end as int,
            b.end as int,
            a.generation,
            b.generation,
            fences[i].1.0,
        );
        holds_cells_grows(
            a.image(),
            b.image(),
            a.end as int,
            b.end as int,
            page_rows(a.image(), a.end as int, a.generation, fences[i]),
            parts[i],
        );
    }
}

/// Rows of the same keys, and of values that take the same room.
pub open spec fn alike(x: Seq<(Seq<u8>, Cell)>, y: Seq<(Seq<u8>, Cell)>) -> bool {
    &&& x.len() == y.len()
    &&& forall|i: int|
        0 <= i < x.len() ==> (#[trigger] x[i]).0 == y[i].0 && row_size(x[i]) == row_size(y[i])
}

proof fn alike_size(x: Seq<(Seq<u8>, Cell)>, y: Seq<(Seq<u8>, Cell)>)
    requires
        alike(x, y),
    ensures
        rows_size(x) == rows_size(y),
        sorted(x) ==> sorted(y),
    decreases x.len(),
{
    if x.len() > 0 {
        let n = x.len() - 1;
        assert(x[n] == x.last() && y[n] == y.last());
        assert forall|i: int| 0 <= i < n implies (#[trigger] x.drop_last()[i]).0
            == y.drop_last()[i].0 && row_size(x.drop_last()[i]) == row_size(y.drop_last()[i]) by {
            assert(x.drop_last()[i] == x[i]);
        }
        alike_size_only(x.drop_last(), y.drop_last());
        if sorted(x) {
            assert forall|i: int, j: int| 0 <= i < j < y.len() implies lt(
                #[trigger] y[i].0,
                #[trigger] y[j].0,
            ) by {
                assert(x[i].0 == y[i].0 && x[j].0 == y[j].0);
            }
        }
    }
}

proof fn alike_size_only(x: Seq<(Seq<u8>, Cell)>, y: Seq<(Seq<u8>, Cell)>)
    requires
        alike(x, y),
    ensures
        rows_size(x) == rows_size(y),
    decreases x.len(),
{
    if x.len() > 0 {
        let n = x.len() - 1;
        assert(x[n] == x.last() && y[n] == y.last());
        assert forall|i: int| 0 <= i < n implies (#[trigger] x.drop_last()[i]).0
            == y.drop_last()[i].0 && row_size(x.drop_last()[i]) == row_size(y.drop_last()[i]) by {
            assert(x.drop_last()[i] == x[i]);
        }
        alike_size_only(x.drop_last(), y.drop_last());
    }
}

impl ArenaWriter {
    #[verifier::rlimit(40)]
    /// Copies a page as a base page, with its overflow values.
    fn copy_page(
        &mut self,
        from: &mut Epoch,
        from_end: u64,
        generation: u64,
        at: u64,
        Ghost(want): Ghost<Seq<(Seq<u8>, Version)>>,
    ) -> (r: Result<u64, Error>)
        requires
            old(self).wf(),
            old(from).wf(),
            generation <= old(self).generation,
        ensures
            final(self).live(),
            final(self).grew_from(*old(self)),
            final(from).wf(),
            final(from).same_arena(*old(from)),
            nodes_only(old(from).cache@, final(from).cache@),
            r matches Ok(x) ==> final(self).wf() && 8 <= x < final(self).end && is_base(
                final(self).image(),
                final(self).end as int,
                x,
            ),
            loaded(old(from).image@, from_end as int, generation, at) matches Ok(rows) ==> (
            holds_cells(old(from).image@, from_end as int, rows, want) ==> {
                &&& r matches Ok(x) ==> {
                    let now = loaded(
                        final(self).image(),
                        final(self).end as int,
                        final(self).generation,
                        x,
                    );
                    &&& now is Ok
                    &&& holds_cells(final(self).image(), final(self).end as int, now->Ok_0, want)
                    &&& slot_fills(
                        final(self).image(),
                        final(self).end as int,
                        final(self).generation,
                        true,
                        x,
                        old(self).end as int,
                        final(self).end as int,
                    )
                }
                &&& r matches Err(e) ==> final(self).may_fail(e@)
            }),
    {
        let ghost s0 = *self;
        let ghost b = from.image@;
        let ghost fe = from_end as int;
        let page = load(from, generation, from_end, at, false)?;
        let ghost olds = views(page.rows@);
        proof {
            loaded_facts(b, fe, generation, at);
            super::lineage::page_facts(b, fe, at as int);
        }
        let ghost sound = holds_cells(b, fe, olds, want);
        let mut rows: Vec<Row> = Vec::new();
        let mut i: usize = 0;
        let total: usize = page.rows.len();
        assert(values_fill(self.image(), views(rows@), s0.end as int, self.end as int)) by {
            reveal(values_fill);
        }
        while i < total
            invariant
                self.wf(),
                self.grew_from(s0),
                s0 == *old(self),
                from.wf(),
                from.same_arena(*old(from)),
                nodes_only(old(from).cache@, from.cache@),
                b == old(from).image@,
                fe == from_end as int,
                total == page.rows@.len(),
                olds == views(page.rows@),
                generation <= self.generation,
                i <= total,
                basic(olds, at as int, generation as int),
                sound == holds_cells(b, fe, olds, want),
                loaded(b, fe, generation, at) == Ok::<Seq<(Seq<u8>, Cell)>, Fail>(olds),
                alike(olds.take(i as int), views(rows@)),
                values_fill(self.image(), views(rows@), s0.end as int, self.end as int),
                basic(views(rows@), self.end as int, self.generation as int),
                sound ==> holds_cells(
                    self.image(),
                    self.end as int,
                    views(rows@),
                    want.take(i as int),
                ),
            decreases total - i,
        {
            let ghost s1 = *self;
            let ghost had = rows@;
            let mut row = page.rows[i].duplicate();
            proof {
                assert(olds[i as int] == page.rows@[i as int]@);
                assert(storable(olds[i as int], BASE, at as int, generation as int));
                if sound {
                    assert(cell_leads(b, fe, olds[i as int].1, want[i as int].1));
                }
            }
            if let Value::Overflow { at: place, len } = row.value {
                let bytes = from.value(place, from_end)?;
                if bytes.len() != len {
                    return Err(corrupt("packed overflow copy length"));
                }
                let copied = self.value_record(bytes.as_slice())?;
                row.value = Value::Overflow { at: copied, len };
            }
            let ghost now = row@;
            rows.push(row);
            proof {
                let after = views(rows@);
                assert(after =~= views(had).push(now));
                values_fill_push(
                    s1.image(),
                    self.image(),
                    views(had),
                    now,
                    s0.end as int,
                    s1.end as int,
                    self.end as int,
                );
                assert forall|k: int| 0 <= k < after.len() implies storable(
                    #[trigger] after[k],
                    BASE,
                    self.end as int,
                    self.generation as int,
                ) by {
                    if k < had.len() {
                        assert(after[k] == views(had)[k]);
                        assert(storable(
                            views(had)[k],
                            BASE,
                            s1.end as int,
                            s1.generation as int,
                        ));
                    }
                }
                assert forall|k: int| 0 <= k < i + 1 implies (#[trigger] olds.take(i + 1)[k]).0
                    == after[k].0 && row_size(olds.take(i + 1)[k]) == row_size(after[k]) by {
                    if k < i {
                        assert(olds.take(i as int)[k] == olds.take(i + 1)[k]);
                        assert(after[k] == views(had)[k]);
                    }
                }
                if sound {
                    holds_cells_grows(
                        s1.image(),
                        self.image(),
                        s1.end as int,
                        self.end as int,
                        views(had),
                        want.take(i as int),
                    );
                    assert forall|k: int| 0 <= k < after.len() implies (#[trigger] after[k]).0
                        == want.take(i + 1)[k].0 && cell_leads(
                        self.image(),
                        self.end as int,
                        after[k].1,
                        want.take(i + 1)[k].1,
                    ) by {
                        if k < i {
                            assert(after[k] == views(had)[k]);
                            assert(want.take(i as int)[k] == want.take(i + 1)[k]);
                        }
                    }
                }
            }
            i = i + 1;
        }
        proof {
            assert(olds.take(total as int) =~= olds);
            alike_size(olds, views(rows@));
            if sound {
                assert(want.take(total as int) =~= want);
            }
        }
        let ghost s2 = *self;
        let x = self.save_base(&rows)?;
        proof {
            page_fills(
                s2.image(),
                self.image(),
                self.end as int,
                self.generation,
                x,
                views(rows@),
                s0.end as int,
                self.end as int,
            );
            if sound {
                holds_cells_grows(
                    s2.image(),
                    self.image(),
                    s2.end as int,
                    self.end as int,
                    views(rows@),
                    want,
                );
            }
        }
        Ok(x)
    }
}

/// Whether one page holds these contents.
pub open spec fn page_holds(
    b: Seq<u8>,
    end: int,
    generation: u64,
    fence: (Seq<u8>, Slot),
    part: Seq<(Seq<u8>, Version)>,
) -> bool {
    &&& loaded(b, end, generation, fence.1.0) is Ok
    &&& holds_cells(b, end, page_rows(b, end, generation, fence), part)
}

/// The parts of the contents under a node's children, and its own.
proof fn parts_apart(
    b: Seq<u8>,
    end: int,
    generation: u64,
    l: Seq<(Seq<u8>, Slot)>,
    row: (Seq<u8>, Slot),
    r: Seq<(Seq<u8>, Slot)>,
    parts: Seq<Seq<(Seq<u8>, Version)>>,
)
    requires
        pages_hold(b, end, generation, around(l, row, r), parts),
    ensures
        pages_hold(b, end, generation, l, parts.take(l.len() as int)),
        pages_hold(b, end, generation, r, parts.skip(l.len() as int + 1)),
        page_holds(b, end, generation, row, parts[l.len() as int]),
{
    let n = l.len() as int;
    let s = around(l, row, r);
    let p = parts.take(n);
    let q = parts.skip(n + 1);
    assert(s.len() == n + 1 + r.len());
    assert(s[n] == row);
    assert forall|i: int| 0 <= i < l.len() implies loaded(
        b,
        end,
        generation,
        (#[trigger] l[i]).1.0,
    ) is Ok && holds_cells(b, end, page_rows(b, end, generation, l[i]), p[i]) by {
        assert(s[i] == l[i]);
        assert(p[i] == parts[i]);
    }
    assert forall|i: int| 0 <= i < r.len() implies loaded(
        b,
        end,
        generation,
        (#[trigger] r[i]).1.0,
    ) is Ok && holds_cells(b, end, page_rows(b, end, generation, r[i]), q[i]) by {
        assert(s[n + 1 + i] == r[i]);
        assert(q[i] == parts[n + 1 + i]);
    }
}

/// The pages under a node and its children hold the parts together.
proof fn parts_joined(
    b: Seq<u8>,
    end: int,
    generation: u64,
    l: Seq<(Seq<u8>, Slot)>,
    row: (Seq<u8>, Slot),
    r: Seq<(Seq<u8>, Slot)>,
    parts: Seq<Seq<(Seq<u8>, Version)>>,
)
    requires
        parts.len() == l.len() + 1 + r.len(),
        pages_hold(b, end, generation, l, parts.take(l.len() as int)),
        pages_hold(b, end, generation, r, parts.skip(l.len() as int + 1)),
        page_holds(b, end, generation, row, parts[l.len() as int]),
    ensures
        pages_hold(b, end, generation, around(l, row, r), parts),
{
    let n = l.len() as int;
    let s = around(l, row, r);
    let p = parts.take(n);
    let q = parts.skip(n + 1);
    assert(s.len() == n + 1 + r.len());
    assert forall|i: int| 0 <= i < s.len() implies loaded(
        b,
        end,
        generation,
        (#[trigger] s[i]).1.0,
    ) is Ok && holds_cells(b, end, page_rows(b, end, generation, s[i]), parts[i]) by {
        if i < n {
            assert(s[i] == l[i]);
            assert(p[i] == parts[i]);
        } else if i > n {
            assert(s[i] == r[i - n - 1]);
            assert(q[i - n - 1] == parts[i]);
        } else {
            assert(s[i] == row);
        }
    }
}

/// Whether two indexes have the same keys in the same places.
pub open spec fn same_keys(x: Seq<(Seq<u8>, Slot)>, y: Seq<(Seq<u8>, Slot)>) -> bool {
    &&& x.len() == y.len()
    &&& forall|i: int| 0 <= i < x.len() ==> (#[trigger] x[i]).0 == y[i].0
}

/// Whether every page is a base page.
#[verifier::opaque]
pub open spec fn all_base(b: Seq<u8>, end: int, fences: Seq<(Seq<u8>, Slot)>) -> bool {
    forall|i: int| 0 <= i < fences.len() ==> is_base(b, end, (#[trigger] fences[i]).1.0)
}

/// Whether a copy has the pages of what it was made of, one for one and none of them merged, each
/// as a base page.
pub open spec fn page_for_page(before: Pages, after: Pages) -> bool {
    same_keys(before.fences, after.fences) && all_base(after.image, after.end, after.fences)
}

/// Base pages stay such while the writer goes on.
proof fn bases_move(a: ArenaWriter, b: ArenaWriter, fences: Seq<(Seq<u8>, Slot)>)
    requires
        b.grew_from(a),
        all_base(a.image(), a.end as int, fences),
    ensures
        all_base(b.image(), b.end as int, fences),
{
    reveal(all_base);
    assert forall|i: int| 0 <= i < fences.len() implies is_base(
        b.image(),
        b.end as int,
        (#[trigger] fences[i]).1.0,
    ) by {
        page_stable(a.image(), b.image(), a.end as int, b.end as int, fences[i].1.0);
    }
}

/// Base pages on both sides of one make base pages.
proof fn bases_around(
    b: Seq<u8>,
    end: int,
    l: Seq<(Seq<u8>, Slot)>,
    row: (Seq<u8>, Slot),
    r: Seq<(Seq<u8>, Slot)>,
)
    requires
        all_base(b, end, l),
        all_base(b, end, seq![row]),
        all_base(b, end, r),
    ensures
        all_base(b, end, around(l, row, r)),
{
    reveal(all_base);
    let s = around(l, row, r);
    let n = l.len() as int;
    assert forall|i: int| 0 <= i < s.len() implies is_base(b, end, (#[trigger] s[i]).1.0) by {
        if i < n {
            assert(s[i] == l[i]);
        } else if i > n {
            assert(s[i] == r[i - n - 1]);
        } else {
            assert(s[i] == seq![row][0]);
        }
    }
}

proof fn same_around(
    l: Seq<(Seq<u8>, Slot)>,
    l2: Seq<(Seq<u8>, Slot)>,
    row: (Seq<u8>, Slot),
    row2: (Seq<u8>, Slot),
    r: Seq<(Seq<u8>, Slot)>,
    r2: Seq<(Seq<u8>, Slot)>,
)
    requires
        same_keys(l, l2),
        same_keys(r, r2),
        row.0 == row2.0,
    ensures
        same_keys(around(l, row, r), around(l2, row2, r2)),
        sorted(around(l, row, r)) ==> sorted(around(l2, row2, r2)),
{
    let n = l.len() as int;
    let s = around(l, row, r);
    let t = around(l2, row2, r2);
    assert forall|i: int| 0 <= i < s.len() implies (#[trigger] s[i]).0 == t[i].0 by {
        if i < n {
            assert(s[i] == l[i] && t[i] == l2[i]);
        } else if i > n {
            assert(s[i] == r[i - n - 1] && t[i] == r2[i - n - 1]);
        }
    }
    if sorted(s) {
        assert forall|i: int, j: int| 0 <= i < j < t.len() implies lt(
            #[trigger] t[i].0,
            #[trigger] t[j].0,
        ) by {
            assert(s[i].0 == t[i].0 && s[j].0 == t[j].0);
        }
    }
}

impl ArenaWriter {
    #[verifier::rlimit(60)]
    /// Copies the fences below `at` and the pages under them.
    fn copy_fences(
        &mut self,
        from: &mut Epoch,
        from_end: u64,
        generation: u64,
        at: u64,
        Ghost(parts): Ghost<Seq<Seq<(Seq<u8>, Version)>>>,
    ) -> (r: Result<u64, Error>)
        requires
            old(self).wf(),
            old(from).wf(),
            generation <= old(self).generation,
        ensures
            final(self).live(),
            final(self).grew_from(*old(self)),
            final(from).wf(),
            final(from).same_arena(*old(from)),
            nodes_only(old(from).cache@, final(from).cache@),
            r is Ok ==> final(self).wf(),
            r matches Ok(x) ==> (at == 0 ==> x == 0),
            tree_at(old(from).image@, from_end as int, at) matches Some(t) ==> (t.valid()
                && pages_hold(old(from).image@, from_end as int, generation, t.rows(), parts) ==> {
                &&& r matches Ok(x) ==> {
                    &&& final(self).tree(x) matches Some(n) && n.valid() && n.height() == t.height()
                        && same_keys(t.rows(), n.rows()) && pages_hold(
                        final(self).image(),
                        final(self).end as int,
                        final(self).generation,
                        n.rows(),
                        parts,
                    ) && all_base(
                        final(self).image(),
                        final(self).end as int,
                        n.rows(),
                    ) && tree_fills(
                        final(self).image(),
                        final(self).end as int,
                        final(self).generation,
                        true,
                        x,
                        old(self).end as int,
                        final(self).end as int,
                    )
                }
                &&& r matches Err(e) ==> final(self).may_fail(e@)
            }),
        decreases at,
    {
        let ghost s0 = *self;
        let ghost b = from.image@;
        let ghost oe = from_end as int;
        let ghost t = tree_at(b, oe, at)->0;
        let ghost sound = tree_at(b, oe, at) is Some && t.valid() && pages_hold(
            b,
            oe,
            generation,
            t.rows(),
            parts,
        );
        if at == 0 {
            assert((tree_at(b, oe, 0u64)->0).rows() =~= Seq::empty());
            proof {
                reveal(all_base);
                nothing_filled(s0.image(), s0.end as int, s0.generation, true, 0, s0.end as int);
            }
            return Ok(0);
        }
        let ghost k = t.left().rows().len() as int;
        let ghost lp = parts.take(k);
        let ghost rp = parts.skip(k + 1);
        proof {
            if sound {
                tree_root(b, oe, at);
                node_parts(t);
                around_sorted(t.left().rows(), (t->key, t->slot), t.right().rows());
                parts_apart(
                    b,
                    oe,
                    generation,
                    t.left().rows(),
                    (t->key, t->slot),
                    t.right().rows(),
                    parts,
                );
                height_limit_of(b, oe, at);
            }
        }
        let n = from.node(at, from_end)?;
        let left = self.copy_fences(from, from_end, generation, n.left, Ghost(lp))?;
        let ghost s1 = *self;
        let right = self.copy_fences(from, from_end, generation, n.right, Ghost(rp))?;
        let ghost s2 = *self;
        let value = self.copy_page(from, from_end, generation, n.value, Ghost(parts[k]))?;
        let ghost s3 = *self;
        let ghost key = n.key@;
        let ghost l2 = s1.tree(left)->0;
        let ghost r2 = s2.tree(right)->0;
        let ghost row = (key, (value, n.revision));
        proof {
            if sound {
                moved(s1, s2, left);
                moved(s2, s3, left);
                moved(s2, s3, right);
                join_parts(key, (value, n.revision), l2, r2);
                node_parts(t);
                same_around(
                    t.left().rows(),
                    l2.rows(),
                    (t->key, t->slot),
                    row,
                    t.right().rows(),
                    r2.rows(),
                );
            }
        }
        let m = Node {
            left,
            right,
            value,
            revision: n.revision,
            height: n.height,
            key: n.key,
        };
        let x = self.save(m)?;
        proof {
            if sound {
                let s4 = *self;
                hold_moves(s1, s4, l2.rows(), lp);
                hold_moves(s2, s4, r2.rows(), rp);
                let one = seq![row];
                assert(pages_hold(
                    s3.image(),
                    s3.end as int,
                    s3.generation,
                    one,
                    seq![parts[k]],
                ));
                hold_moves(s3, s4, one, seq![parts[k]]);
                assert(one[0] == row);
                bases_move(s1, s4, l2.rows());
                bases_move(s2, s4, r2.rows());
                assert(all_base(s3.image(), s3.end as int, one)) by {
                    reveal(all_base);
                }
                bases_move(s3, s4, one);
                bases_around(s4.image(), s4.end as int, l2.rows(), row, r2.rows());
                let (g, now, last) = (s4.generation, s4.image(), s4.end as int);
                tree_fills_grows(
                    s1.image(),
                    now,
                    s1.end as int,
                    last,
                    g,
                    true,
                    left,
                    s0.end as int,
                    s1.end as int,
                );
                tree_fills_grows(
                    s2.image(),
                    now,
                    s2.end as int,
                    last,
                    g,
                    true,
                    right,
                    s1.end as int,
                    s2.end as int,
                );
                slot_fills_grows(
                    s3.image(),
                    now,
                    s3.end as int,
                    last,
                    g,
                    true,
                    value,
                    s2.end as int,
                    s3.end as int,
                );
                node_fills(
                    now,
                    last,
                    g,
                    true,
                    x,
                    s0.end as int,
                    s1.end as int,
                    s2.end as int,
                    last,
                );
                parts_joined(
                    s4.image(),
                    s4.end as int,
                    s4.generation,
                    l2.rows(),
                    row,
                    r2.rows(),
                    parts,
                );
            }
        }
        Ok(x)
    }

    /// Copies a packed version into this arena.
    pub fn copy_packed(
        &mut self,
        from: &mut Epoch,
        from_end: u64,
        generation: u64,
        at: u64,
    ) -> (r: Result<u64, Error>)
        requires
            old(self).wf(),
            old(from).wf(),
            generation <= old(self).generation,
        ensures
            final(self).live(),
            final(self).grew_from(*old(self)),
            final(from).wf(),
            final(from).same_arena(*old(from)),
            nodes_only(old(from).cache@, final(from).cache@),
            r is Ok ==> final(self).wf(),
            r matches Ok(x) ==> (at == 0 ==> x == 0),
            forall|want: Seq<(Seq<u8>, Version)>|
                #![trigger packed_stores(old(from).image@, from_end as int, generation, at, want)]
                packed_stores(old(from).image@, from_end as int, generation, at, want) ==> {
                    &&& r matches Ok(x) ==> packed_stores(
                        final(self).image(),
                        final(self).end as int,
                        final(self).generation,
                        x,
                        want,
                    ) && page_for_page(
                        (Pages {
                            image: old(from).image@,
                            end: from_end as int,
                            generation,
                            fences: (tree_at(old(from).image@, from_end as int, at)->0).rows(),
                        }),
                        (Pages {
                            image: final(self).image(),
                            end: final(self).end as int,
                            generation: final(self).generation,
                            fences: (final(self).tree(x)->0).rows(),
                        }),
                    ) && tree_fills(
                        final(self).image(),
                        final(self).end as int,
                        final(self).generation,
                        true,
                        x,
                        old(self).end as int,
                        final(self).end as int,
                    )
                    &&& r matches Err(e) ==> final(self).may_fail(e@)
                },
    {
        let ghost b = from.image@;
        let ghost oe = from_end as int;
        let ghost want = choose|want: Seq<(Seq<u8>, Version)>|
            packed_stores(b, oe, generation, at, want);
        let ghost sound = packed_stores(b, oe, generation, at, want);
        let ghost fences = (tree_at(b, oe, at)->0).rows();
        let ghost mut parts: Seq<Seq<(Seq<u8>, Version)>> = Seq::empty();
        proof {
            assert forall|other: Seq<(Seq<u8>, Version)>|
                #![trigger packed_stores(b, oe, generation, at, other)]
                packed_stores(b, oe, generation, at, other) implies other == want by {
                packed_stores_determines(b, oe, generation, at, other, want);
            }
            if sound {
                assert forall|i: int| 0 <= i < fences.len() implies loaded(
                    b,
                    oe,
                    generation,
                    (#[trigger] fences[i]).1.0,
                ) is Ok by {
                    assert(page_ok(b, oe, generation, fences, i));
                }
                parts = pages_apart(b, oe, generation, fences, want);
            }
        }
        let r = self.copy_fences(from, from_end, generation, at, Ghost(parts));
        proof {
            if sound && r is Ok {
                let nb = self.image();
                let ne = self.end as int;
                let ng = self.generation;
                let now = (self.tree(r->Ok_0)->0).rows();
                pages_together(nb, ne, ng, now, parts);
                if now.len() > 0 {
                    assert(fences[0].0 == now[0].0);
                }
                assert forall|i: int| 0 <= i < now.len() implies #[trigger] page_ok(
                    nb,
                    ne,
                    ng,
                    now,
                    i,
                ) by {
                    assert(page_ok(b, oe, generation, fences, i));
                    assert(fences[i].0 == now[i].0);
                    if i + 1 < now.len() {
                        assert(fences[i + 1].0 == now[i + 1].0);
                    }
                    let x = page_rows(b, oe, generation, fences[i]);
                    let y = page_rows(nb, ne, ng, now[i]);
                    assert forall|k: int| 0 <= k < y.len() implies in_range(
                        #[trigger] y[k].0,
                        now[i].0,
                        fence_key(now, i + 1),
                    ) by {
                        assert(y[k].0 == parts[i][k].0);
                        assert(x[k].0 == parts[i][k].0);
                        assert(in_range(x[k].0, fences[i].0, fence_key(fences, i + 1)));
                    }
                }
            }
        }
        r
    }
}

} // verus!
