//! Applying staged writes to a packed store.
use vstd::prelude::*;

use super::arena::{extends, tree_at, tree_root, tree_stable, unreadable, Node};
use super::bytes::{copy, group_order, lt};
use super::contents::{applied, changed, stageable, updated, updated_is_applied, Change, Version};
use super::epoch::page_at;
use super::fences::{
    between, cell_leads, fence_key, flat, flat_above, flat_below, flat_one, flat_sorted,
    flat_splits, floor, holds_cells, holds_cells_grows, holds_cells_keys, loaded_facts,
    packed_stores, packed_stores_determines, page_ok, page_rows, pages_ok, pages_part, successor,
};
use super::keymap::KeyMap;
use super::layout::{
    effects, first_laid, head_of, laid, laid_grows, page_laid, page_stable, range_between, range_front, Pages,
};
use super::lineage::{basic, load, loaded, Materialized};
use super::merge::version_changes;
use super::model::{corrupt, Error, Fail, MAX_KEY};
use super::overlay::below;
use super::packed::floor_place;
use super::page::{storable, views, Cell, Row, BASE, DELTA_BYTES};
use super::rows::{in_range, lookup, range, rank_after, rank_is, sorted};
use super::search::row_of_node;
use super::tree::Slot;
use super::writer::ArenaWriter;

use super::covering::{
    covering, covering_join, covering_moves, covering_pages, covering_part, parts_updated,
};
use super::mergepage::{bound_view, merge_page, merged_well, place_moves, Merged, Place};

verus! {

broadcast use super::arena::tree_empty;

impl ArenaWriter {
    /// The floor fence of a key in a committed version.
    fn view_floor(&mut self, root: u64, end: u64, key: &[u8]) -> (r: Result<Option<Node>, Error>)
        requires
            old(self).wf(),
        ensures
            final(self).wf(),
            final(self).grew_from(*old(self)),
            final(self).image() == old(self).image(),
            final(self).end == old(self).end,
            r matches Err(x) ==> unreadable(x@),
            r matches Ok(Some(n)) ==> n.key@.len() <= MAX_KEY && n.value >= 8,
            tree_at(old(self).image(), end as int, root) matches Some(t) ==> (sorted(t.rows()) ==> {
                let i = rank_after(t.rows(), key@);
                &&& 0 <= i <= t.rows().len()
                &&& i == 0 ==> (r matches Ok(None))
                &&& i > 0 ==> (r matches Ok(Some(n)) && row_of_node(n@) == t.rows()[i - 1])
            }),
    {
        floor(&mut self.epoch, root, end, key)
    }

    /// The fence behind a key in a committed version.
    fn view_successor(&mut self, root: u64, end: u64, key: &[u8]) -> (r: Result<
        Option<Node>,
        Error,
    >)
        requires
            old(self).wf(),
        ensures
            final(self).wf(),
            final(self).grew_from(*old(self)),
            final(self).image() == old(self).image(),
            final(self).end == old(self).end,
            r matches Err(x) ==> unreadable(x@),
            tree_at(old(self).image(), end as int, root) matches Some(t) ==> (sorted(t.rows()) ==> {
                let i = rank_after(t.rows(), key@);
                &&& 0 <= i <= t.rows().len()
                &&& i == t.rows().len() ==> (r matches Ok(None))
                &&& i < t.rows().len() ==> (r matches Ok(Some(n)) && row_of_node(n@)
                    == t.rows()[i])
            }),
    {
        successor(&mut self.epoch, root, end, key)
    }

    /// A page of a committed version.
    fn view_load(&mut self, generation: u64, end: u64, at: u64) -> (r: Result<Materialized, Error>)
        requires
            old(self).wf(),
        ensures
            final(self).wf(),
            final(self).grew_from(*old(self)),
            final(self).image() == old(self).image(),
            final(self).end == old(self).end,
            r matches Ok(m) ==> {
                &&& loaded(old(self).image(), end as int, generation, at) == Ok::<
                    Seq<(Seq<u8>, Cell)>,
                    Fail,
                >(views(m.rows@))
                &&& page_at(old(self).image(), end as int, at as int) matches Ok(head) && m.depth
                    == head.depth && m.delta_bytes == head.delta_bytes
            },
            r is Ok <==> loaded(old(self).image(), end as int, generation, at) is Ok,
            r matches Err(x) ==> unreadable(x@),
    {
        load(&mut self.epoch, generation, end, at, false)
    }
}

/// How many rows the first `n` pages have.
pub open spec fn rows_upto(w: ArenaWriter, fences: Seq<(Seq<u8>, Slot)>, n: int) -> int {
    flat(w.image(), w.end as int, w.generation, fences.take(n)).len() as int
}

/// A middle run of rows leads to the matching run of the contents.
proof fn middle_holds(
    b: Seq<u8>,
    end: int,
    x: Seq<(Seq<u8>, Cell)>,
    y: Seq<(Seq<u8>, Cell)>,
    z: Seq<(Seq<u8>, Cell)>,
    want: Seq<(Seq<u8>, Version)>,
)
    requires
        holds_cells(b, end, x + y + z, want),
    ensures
        x.len() + y.len() <= want.len(),
        holds_cells(b, end, y, want.subrange(x.len() as int, (x.len() + y.len()) as int)),
{
    let all = x + y + z;
    let n = x.len() as int;
    let sub = want.subrange(n, n + y.len());
    assert forall|k: int| 0 <= k < y.len() implies (#[trigger] y[k]).0 == sub[k].0 && cell_leads(
        b,
        end,
        y[k].1,
        sub[k].1,
    ) by {
        assert(all[n + k] == y[k]);
        assert(sub[k] == want[n + k]);
    }
}

/// The rows of a run of pages lead to the matching run of the contents.
proof fn part_holds(
    w: ArenaWriter,
    fences: Seq<(Seq<u8>, Slot)>,
    want: Seq<(Seq<u8>, Version)>,
    i: int,
    j: int,
)
    requires
        holds_cells(
            w.image(),
            w.end as int,
            flat(w.image(), w.end as int, w.generation, fences),
            want,
        ),
        0 <= i <= j <= fences.len(),
    ensures
        0 <= rows_upto(w, fences, i) <= rows_upto(w, fences, j) <= want.len(),
        holds_cells(
            w.image(),
            w.end as int,
            flat(w.image(), w.end as int, w.generation, fences.subrange(i, j)),
            want.subrange(rows_upto(w, fences, i), rows_upto(w, fences, j)),
        ),
        rows_upto(w, fences, 0) == 0,
        rows_upto(w, fences, fences.len() as int) == want.len(),
{
    let b = w.image();
    let end = w.end as int;
    let g = w.generation;
    let x = fences.take(i);
    let y = fences.subrange(i, j);
    let z = fences.skip(j);
    assert(fences.take(j) =~= x + y);
    assert(fences =~= x + y + z);
    flat_splits(b, end, g, x, y);
    flat_splits(b, end, g, x + y, z);
    middle_holds(b, end, flat(b, end, g, x), flat(b, end, g, y), flat(b, end, g, z), want);
    assert(fences.take(0) =~= Seq::empty());
    assert(fences.take(fences.len() as int) =~= fences);
}

/// How far an update of the whole store has come: the pages up to fence `j` are
/// done and stand under `a`, and lead to `versions`.
pub struct Front {
    pub fences: Seq<(Seq<u8>, Slot)>,
    pub want: Seq<(Seq<u8>, Version)>,
    pub writes: Seq<(Seq<u8>, Change)>,
    pub a: Seq<(Seq<u8>, Slot)>,
    pub j: int,
    pub versions: Seq<(Seq<u8>, Version)>,
}

impl Front {
    #[verifier::opaque]
    /// The store as it was before the update, in `w0`.
    pub open spec fn based(self, w0: ArenaWriter) -> bool {
        &&& sorted(self.fences)
        &&& self.fences.len() > 0 ==> self.fences[0].0.len() == 0
        &&& pages_ok(w0.image(), w0.end as int, w0.generation, self.fences)
        &&& holds_cells(
            w0.image(),
            w0.end as int,
            flat(w0.image(), w0.end as int, w0.generation, self.fences),
            self.want,
        )
        &&& sorted(self.writes)
        &&& self.want.len() + self.writes.len() <= u64::MAX
    }

    #[verifier::opaque]
    /// What stands now, in `w`.
    pub open spec fn stands(
        self,
        w0: ArenaWriter,
        w: ArenaWriter,
        root: u64,
        count: int,
        i: int,
    ) -> bool {
        let n = rows_upto(w0, self.fences, self.j);
        &&& 0 <= self.j <= self.fences.len()
        &&& 0 <= i <= self.writes.len()
        &&& w.tree(root) matches Some(t) && t.valid() && t.rows() == self.a + self.fences.skip(
            self.j,
        )
        &&& covering(
            w.image(),
            w.end as int,
            w.generation,
            self.a,
            super::fences::fence_key(self.fences, self.j),
        )
        &&& self.a.len() > 0 ==> self.a[0].0.len() == 0
        &&& self.a.len() == 0 ==> self.j == 0
        &&& holds_cells(
            w.image(),
            w.end as int,
            flat(w.image(), w.end as int, w.generation, self.a),
            self.versions,
        )
        &&& self.j < self.fences.len() ==> {
            let bound = self.fences[self.j].0;
            &&& below(self.versions, bound)
            &&& below(self.writes.take(i), bound)
            &&& i < self.writes.len() ==> !lt(self.writes[i].0, bound)
        }
        &&& i < self.writes.len() ==> self.j < self.fences.len() || (self.fences.len() == 0
            && self.a.len() == 0 && i == 0 && self.versions.len() == 0)
        &&& updated(self.want.take(n), self.versions, self.writes.take(i), w.generation)
        &&& count == self.versions.len() + self.want.len() - n
        &&& self.versions.len() <= n + i
    }

    #[verifier::opaque]
    /// Every page up to the front was laid out as it should be.
    pub open spec fn relaid(self, before: Pages, w: ArenaWriter) -> bool {
        &&& forall|k: int|
            0 <= k < self.j ==> #[trigger] page_laid(
                before,
                k,
                self.writes,
                w.image(),
                w.end as int,
                w.generation,
                self.a,
            )
        &&& self.fences.len() == 0 ==> first_laid(
            w.image(),
            w.end as int,
            w.generation,
            self.a,
        )
    }

    /// The page that the next write belongs to, counted by fences.
    pub open spec fn page(self, i: int) -> (int, int) {
        if self.fences.len() == 0 {
            (0, 0)
        } else {
            let m = rank_after(self.fences, self.writes[i].0);
            (m - 1, m)
        }
    }

    /// Where the next write goes.
    pub open spec fn place(self, w0: ArenaWriter, i: int) -> Place {
        let (x, y) = self.page(i);
        Place {
            sound: true,
            left: self.a + self.fences.subrange(self.j, x),
            middle: self.fences.subrange(x, y),
            right: self.fences.skip(y),
            contents: self.want.subrange(
                rows_upto(w0, self.fences, x),
                rows_upto(w0, self.fences, y),
            ),
        }
    }

    /// The front behind the page that the next write belongs to.
    pub open spec fn after(self, w0: ArenaWriter, i: int, m: Merged) -> Front {
        let (x, y) = self.page(i);
        Front {
            a: self.a + self.fences.subrange(self.j, x) + m.fences@,
            j: y,
            versions: self.versions + self.want.subrange(
                rows_upto(w0, self.fences, self.j),
                rows_upto(w0, self.fences, x),
            ) + m.versions@,
            ..self
        }
    }
}

#[verifier::rlimit(60)]
/// The page of the next write is not behind the front.
proof fn page_ahead(f: Front, w0: ArenaWriter, w: ArenaWriter, root: u64, count: int, i: int)
    requires
        f.based(w0),
        f.stands(w0, w, root, count, i),
        i < f.writes.len(),
    ensures
        ({
            let (x, y) = f.page(i);
            &&& 0 <= f.j <= x <= y <= f.fences.len()
            &&& f.fences.len() > 0 ==> y == x + 1 && !lt(f.writes[i].0, f.fences[x].0)
                && rank_after(f.fences, f.fences[x].0) == y
            &&& f.fences.len() == 0 ==> f.j == 0 && y == 0
            &&& y < f.fences.len() ==> lt(f.writes[i].0, f.fences[y].0)
        }),
{
    reveal(Front::based);
    reveal(Front::stands);
    broadcast use group_order;

    let key = f.writes[i].0;
    if f.fences.len() > 0 {
        floor_place(f.fences, key);
        let m = rank_after(f.fences, key);
        if m - 1 < f.j {
            if m < f.j {
                assert(lt(f.fences[m].0, f.fences[f.j].0));
            }
        }
        if m - 1 > 0 {
            assert(lt(f.fences[m - 2].0, f.fences[m - 1].0));
        }
        rank_is(f.fences, f.fences[m - 1].0, m - 1);
    }
}

/// In ordered fences all that stands left of one comes before it.
proof fn left_below(x: Seq<(Seq<u8>, Slot)>, one: (Seq<u8>, Slot), z: Seq<(Seq<u8>, Slot)>)
    requires
        sorted(x + seq![one] + z),
    ensures
        below(x, one.0),
{
    let all = x + seq![one] + z;
    let n = x.len() as int;
    assert(all[n] == one);
    assert forall|k: int| 0 <= k < x.len() implies lt(#[trigger] x[k].0, one.0) by {
        assert(all[k] == x[k]);
        assert(lt(all[k].0, all[n].0));
    }
}

/// Fences taken apart round one of them.
proof fn around_fence(a: Seq<(Seq<u8>, Slot)>, fences: Seq<(Seq<u8>, Slot)>, j: int, x: int)
    requires
        0 <= j <= x < fences.len(),
    ensures
        a + fences.subrange(j, x) + fences.subrange(x, x + 1) + fences.skip(x + 1) == a
            + fences.skip(j),
        fences.subrange(x, x + 1) == seq![fences[x]],
{
    assert(a + fences.subrange(j, x) + fences.subrange(x, x + 1) + fences.skip(x + 1) =~= a
        + fences.skip(j));
    assert(fences.subrange(x, x + 1) =~= seq![fences[x]]);
}

#[verifier::rlimit(60)]
/// One page of the store as it was, and its part of the contents.
proof fn page_held(f: Front, w0: ArenaWriter, x: int)
    requires
        f.based(w0),
        0 <= x < f.fences.len(),
    ensures
        ({
            let rows = page_rows(w0.image(), w0.end as int, w0.generation, f.fences[x]);
            &&& loaded(w0.image(), w0.end as int, w0.generation, f.fences[x].1.0) == Ok::<
                Seq<(Seq<u8>, Cell)>,
                Fail,
            >(rows)
            &&& between(rows, f.fences[x].0, super::fences::fence_key(f.fences, x + 1))
            &&& holds_cells(
                w0.image(),
                w0.end as int,
                rows,
                f.want.subrange(rows_upto(w0, f.fences, x), rows_upto(w0, f.fences, x + 1)),
            )
            &&& 0 <= rows_upto(w0, f.fences, x) <= rows_upto(w0, f.fences, x + 1) <= f.want.len()
        }),
{
    reveal(Front::based);
    part_holds(w0, f.fences, f.want, x, x + 1);
    assert(f.fences.subrange(x, x + 1) =~= seq![f.fences[x]]);
    flat_one(w0.image(), w0.end as int, w0.generation, f.fences[x]);
    assert(page_ok(w0.image(), w0.end as int, w0.generation, f.fences, x));
}

#[verifier::rlimit(60)]
/// What stands at the front makes the place of the next write a good one.
proof fn place_good(
    f: Front,
    w0: ArenaWriter,
    w: ArenaWriter,
    root: u64,
    count: u64,
    i: int,
    fence: (u64, u32, usize),
    key: Seq<u8>,
    rows: Seq<(Seq<u8>, Cell)>,
)
    requires
        f.based(w0),
        f.stands(w0, w, root, count as int, i),
        i < f.writes.len(),
        w.grew_from(w0),
        f.fences.len() > 0,
        key == f.fences[f.page(i).0].0,
        fence.0 == f.fences[f.page(i).0].1.0,
        rows == page_rows(w0.image(), w0.end as int, w0.generation, f.fences[f.page(i).0]),
        page_at(w0.image(), w0.end as int, fence.0 as int) matches Ok(head) && head.depth == fence.1
            && head.delta_bytes == fence.2,
    ensures
        f.place(w0, i).holds(
            w,
            root,
            Some(fence),
            key,
            super::fences::fence_key(f.fences, f.page(i).1),
            rows,
            f.writes,
            i,
            count as int,
        ),
{
    reveal(Front::based);
    reveal(Front::stands);
    page_ahead(f, w0, w, root, count as int, i);
    let (x, y) = f.page(i);
    let place = f.place(w0, i);
    let one = f.fences[x];
    around_fence(f.a, f.fences, f.j, x);
    page_held(f, w0, x);
    assert(place.middle == seq![one]);
    place_moves(place, w0, w, fence, rows);
    holds_cells_grows(w0.image(), w.image(), w0.end as int, w.end as int, rows, place.contents);
    left_below(place.left, one, place.right);
    part_holds(w0, f.fences, f.want, f.j, x);
    if y < f.fences.len() {
        assert(place.right[0] == f.fences[y]);
        assert(lt(f.fences[x].0, f.fences[y].0));
    }
}

#[verifier::rlimit(60)]
/// The place of the first write in an empty store.
proof fn first_place_good(
    f: Front,
    w0: ArenaWriter,
    w: ArenaWriter,
    root: u64,
    count: u64,
    i: int,
)
    requires
        f.based(w0),
        f.stands(w0, w, root, count as int, i),
        i < f.writes.len(),
        w.grew_from(w0),
        f.fences.len() == 0,
    ensures
        f.place(w0, i).holds(
            w,
            root,
            None,
            Seq::empty(),
            None,
            Seq::empty(),
            f.writes,
            i,
            count as int,
        ),
{
    reveal(Front::based);
    reveal(Front::stands);
    let place = f.place(w0, i);
    part_holds(w0, f.fences, f.want, 0, 0);
    assert(place.left =~= Seq::empty());
    assert(place.middle =~= Seq::empty());
    assert(place.right =~= Seq::empty());
    assert(place.left + place.middle + place.right =~= f.a + f.fences.skip(f.j));
    assert(place.contents =~= Seq::empty());
}

#[verifier::rlimit(60)]
/// Two runs of rows that lead to two runs of contents.
proof fn holds_join(
    b: Seq<u8>,
    end: int,
    x: Seq<(Seq<u8>, Cell)>,
    p: Seq<(Seq<u8>, Version)>,
    y: Seq<(Seq<u8>, Cell)>,
    q: Seq<(Seq<u8>, Version)>,
)
    requires
        holds_cells(b, end, x, p),
        holds_cells(b, end, y, q),
    ensures
        holds_cells(b, end, x + y, p + q),
{
    let s = x + y;
    let t = p + q;
    assert forall|i: int| 0 <= i < s.len() implies (#[trigger] s[i]).0 == t[i].0 && cell_leads(
        b,
        end,
        s[i].1,
        t[i].1,
    ) by {
        if i < x.len() {
            assert(s[i] == x[i] && t[i] == p[i]);
        } else {
            assert(s[i] == y[i - x.len()] && t[i] == q[i - x.len()]);
        }
    }
}

#[verifier::rlimit(60)]
/// Contents have the bounds of the rows that lead to them.
proof fn held_between(
    b: Seq<u8>,
    end: int,
    rows: Seq<(Seq<u8>, Cell)>,
    want: Seq<(Seq<u8>, Version)>,
    lo: Seq<u8>,
    hi: Option<Seq<u8>>,
)
    requires
        holds_cells(b, end, rows, want),
        sorted(rows),
    ensures
        sorted(want),
        between(rows, lo, hi) ==> between(want, lo, hi),
        below(rows, lo) ==> below(want, lo),
{
    holds_cells_keys(b, end, rows, want, Seq::empty());
    if between(rows, lo, hi) {
        assert forall|i: int| 0 <= i < want.len() implies in_range(#[trigger] want[i].0, lo, hi) by {
            assert(in_range(rows[i].0, lo, hi));
        }
    }
    if below(rows, lo) {
        assert forall|i: int| 0 <= i < want.len() implies lt(#[trigger] want[i].0, lo) by {
            assert(lt(rows[i].0, lo));
        }
    }
}

#[verifier::rlimit(60)]
/// The rows of a run of pages lie between the fences round it.
proof fn run_between(
    b: Seq<u8>,
    end: int,
    g: u64,
    fs: Seq<(Seq<u8>, Slot)>,
    j: int,
    x: int,
)
    requires
        sorted(fs),
        pages_ok(b, end, g, fs),
        0 <= j <= x < fs.len(),
    ensures
        sorted(flat(b, end, g, fs.subrange(j, x))),
        between(flat(b, end, g, fs.subrange(j, x)), fs[j].0, Some(fs[x].0)),
{
    pages_part(b, end, g, fs, j, x);
    flat_sorted(b, end, g, fs.subrange(j, x));
    flat_below(b, end, g, fs, x);
    assert(fs.take(x) =~= fs.take(j) + fs.subrange(j, x));
    flat_splits(b, end, g, fs.take(j), fs.subrange(j, x));
    let mid = flat(b, end, g, fs.subrange(j, x));
    let head = flat(b, end, g, fs.take(j));
    let all = flat(b, end, g, fs.take(x));
    assert forall|k: int| 0 <= k < mid.len() implies in_range(
        #[trigger] mid[k].0,
        fs[j].0,
        Some(fs[x].0),
    ) by {
        assert(fs.subrange(j, x).len() > 0);
        assert(fs.subrange(j, x)[0] == fs[j]);
        assert(in_range(mid[k].0, fs[j].0, None));
        assert(all[head.len() + k] == mid[k]);
        assert(lt(all[head.len() + k].0, fs[x].0));
    }
}

#[verifier::rlimit(60)]
/// The contents before a fence.
proof fn old_head(f: Front, w0: ArenaWriter)
    requires
        f.based(w0),
        0 <= f.j < f.fences.len(),
    ensures
        ({
            let n = rows_upto(w0, f.fences, f.j);
            &&& 0 <= n <= f.want.len()
            &&& sorted(f.want.take(n))
            &&& below(f.want.take(n), f.fences[f.j].0)
        }),
{
    reveal(Front::based);
    let b = w0.image();
    let end = w0.end as int;
    let g = w0.generation;
    let fs = f.fences;
    let n = rows_upto(w0, fs, f.j);
    part_holds(w0, fs, f.want, 0, f.j);
    pages_part(b, end, g, fs, 0, f.j);
    flat_sorted(b, end, g, fs.subrange(0, f.j));
    flat_below(b, end, g, fs, f.j);
    assert(fs.take(f.j) =~= fs.subrange(0, f.j));
    held_between(b, end, flat(b, end, g, fs.take(f.j)), f.want.subrange(0, n), fs[f.j].0, None);
    assert(f.want.take(n) =~= f.want.subrange(0, n));
}

#[verifier::rlimit(60)]
/// The parts of the old contents on either side of a page, with their bounds.
proof fn old_parts(f: Front, w0: ArenaWriter, x: int)
    requires
        f.based(w0),
        0 <= f.j <= x < f.fences.len(),
    ensures
        ({
            let n = rows_upto(w0, f.fences, f.j);
            let nx = rows_upto(w0, f.fences, x);
            let ny = rows_upto(w0, f.fences, x + 1);
            let lo = f.fences[f.j].0;
            let fm = f.fences[x].0;
            &&& 0 <= n <= nx <= ny <= f.want.len()
            &&& !lt(fm, lo)
            &&& sorted(f.want.subrange(n, nx))
            &&& sorted(f.want.subrange(nx, ny))
            &&& between(f.want.subrange(n, nx), lo, Some(fm))
            &&& between(f.want.subrange(nx, ny), fm, None)
            &&& f.want.take(ny) == f.want.take(n) + f.want.subrange(n, nx) + f.want.subrange(nx, ny)
        }),
{
    reveal(Front::based);
    let b = w0.image();
    let end = w0.end as int;
    let g = w0.generation;
    let fs = f.fences;
    let j = f.j;
    part_holds(w0, fs, f.want, j, x);
    page_held(f, w0, x);
    let n = rows_upto(w0, fs, j);
    let nx = rows_upto(w0, fs, x);
    let ny = rows_upto(w0, fs, x + 1);
    super::bytes::lt_irreflexive(fs[j].0);
    if j < x {
        assert(lt(fs[j].0, fs[x].0));
        super::bytes::lt_asymmetric(fs[j].0, fs[x].0);
    }
    run_between(b, end, g, fs, j, x);
    held_between(
        b,
        end,
        flat(b, end, g, fs.subrange(j, x)),
        f.want.subrange(n, nx),
        fs[j].0,
        Some(fs[x].0),
    );
    let rows = page_rows(b, end, g, fs[x]);
    loaded_facts(b, end, g, fs[x].1.0);
    assert forall|k: int| 0 <= k < rows.len() implies in_range(#[trigger] rows[k].0, fs[x].0, None) by {
        assert(in_range(rows[k].0, fs[x].0, super::fences::fence_key(fs, x + 1)));
    }
    held_between(b, end, rows, f.want.subrange(nx, ny), fs[x].0, None);
    assert(f.want.take(ny) =~= f.want.take(n) + f.want.subrange(n, nx) + f.want.subrange(nx, ny));
}

#[verifier::rlimit(60)]
#[verifier::spinoff_prover]
/// The pages that stand behind a merge, and what they hold.
proof fn pages_after(
    f: Front,
    w0: ArenaWriter,
    w: ArenaWriter,
    later: ArenaWriter,
    root: u64,
    count: int,
    i: int,
    m: Merged,
)
    requires
        f.based(w0),
        f.stands(w0, w, root, count, i),
        i < f.writes.len(),
        w.grew_from(w0),
        later.grew_from(w),
        f.fences.len() > 0,
        merged_well(
            m,
            later,
            f.place(w0, i),
            f.fences[f.page(i).0].0,
            super::fences::fence_key(f.fences, f.page(i).1),
            f.writes,
            i,
            count,
        ),
    ensures
        covering(
            later.image(),
            later.end as int,
            later.generation,
            f.after(w0, i, m).a,
            super::fences::fence_key(f.fences, f.page(i).1),
        ),
        holds_cells(
            later.image(),
            later.end as int,
            flat(later.image(), later.end as int, later.generation, f.after(w0, i, m).a),
            f.after(w0, i, m).versions,
        ),
{
    reveal(Front::based);
    reveal(Front::stands);
    page_ahead(f, w0, w, root, count, i);
    let (x, y) = f.page(i);
    let b = later.image();
    let end = later.end as int;
    let g = later.generation;
    let fs = f.fences;
    let part = fs.subrange(f.j, x);
    covering_moves(w, later, f.a, super::fences::fence_key(fs, f.j));
    covering_part(w0.image(), w0.end as int, w0.generation, fs, f.j, x);
    covering_moves(w0, later, part, super::fences::fence_key(fs, x));
    if part.len() > 0 {
        assert(part[0] == fs[f.j]);
    }
    covering_join(b, end, g, f.a, part, super::fences::fence_key(fs, x));
    assert(m.fences@.len() > 0);
    covering_join(b, end, g, f.a + part, m.fences@, super::fences::fence_key(fs, y));
    flat_splits(b, end, g, f.a, part);
    flat_splits(b, end, g, f.a + part, m.fences@);
    part_holds(w0, fs, f.want, f.j, x);
    let mid = f.want.subrange(rows_upto(w0, fs, f.j), rows_upto(w0, fs, x));
    holds_cells_grows(
        w.image(),
        b,
        w.end as int,
        end,
        flat(w.image(), w.end as int, w.generation, f.a),
        f.versions,
    );
    holds_cells_grows(
        w0.image(),
        b,
        w0.end as int,
        end,
        flat(w0.image(), w0.end as int, w0.generation, part),
        mid,
    );
    holds_join(b, end, flat(b, end, g, f.a), f.versions, flat(b, end, g, part), mid);
    holds_join(
        b,
        end,
        flat(b, end, g, f.a) + flat(b, end, g, part),
        f.versions + mid,
        flat(b, end, g, m.fences@),
        m.versions@,
    );
}

#[verifier::rlimit(60)]
/// The contents behind a merge are the old ones with the writes applied.
proof fn versions_after(
    f: Front,
    w0: ArenaWriter,
    w: ArenaWriter,
    later: ArenaWriter,
    root: u64,
    count: int,
    i: int,
    m: Merged,
)
    requires
        f.based(w0),
        f.stands(w0, w, root, count, i),
        i < f.writes.len(),
        i <= m.next <= f.writes.len(),
        w.grew_from(w0),
        later.grew_from(w),
        f.fences.len() > 0,
        merged_well(
            m,
            later,
            f.place(w0, i),
            f.fences[f.page(i).0].0,
            super::fences::fence_key(f.fences, f.page(i).1),
            f.writes,
            i,
            count,
        ),
    ensures
        ({
            let n = f.after(w0, i, m);
            updated(
                f.want.take(rows_upto(w0, f.fences, n.j)),
                n.versions,
                f.writes.take(m.next as int),
                later.generation,
            )
        }),
{
    reveal(Front::based);
    reveal(Front::stands);
    page_ahead(f, w0, w, root, count, i);
    let (x, y) = f.page(i);
    old_head(f, w0);
    old_parts(f, w0, x);
    let n = rows_upto(w0, f.fences, f.j);
    let nx = rows_upto(w0, f.fences, x);
    let fm = f.fences[x].0;
    assert forall|k: int| 0 <= k < m.versions@.len() implies in_range(
        #[trigger] m.versions@[k].0,
        fm,
        None,
    ) by {
        assert(in_range(m.versions@[k].0, fm, super::fences::fence_key(f.fences, y)));
    }
    parts_updated(
        f.want.take(n),
        f.versions,
        f.want.subrange(n, nx),
        f.want.subrange(nx, rows_upto(w0, f.fences, y)),
        m.versions@,
        f.fences[f.j].0,
        fm,
        f.writes,
        i,
        m.next as int,
        later.generation,
    );
}

#[verifier::rlimit(60)]
/// Everything behind a merge comes before the next fence.
proof fn bounds_after(
    f: Front,
    w0: ArenaWriter,
    w: ArenaWriter,
    later: ArenaWriter,
    root: u64,
    count: int,
    i: int,
    m: Merged,
)
    requires
        f.based(w0),
        f.stands(w0, w, root, count, i),
        i < f.writes.len(),
        i <= m.next <= f.writes.len(),
        f.page(i).1 < f.fences.len(),
        f.fences.len() > 0,
        merged_well(
            m,
            later,
            f.place(w0, i),
            f.fences[f.page(i).0].0,
            super::fences::fence_key(f.fences, f.page(i).1),
            f.writes,
            i,
            count,
        ),
    ensures
        below(f.after(w0, i, m).versions, f.fences[f.page(i).1].0),
        below(f.writes.take(m.next as int), f.fences[f.page(i).1].0),
{
    reveal(Front::based);
    reveal(Front::stands);
    page_ahead(f, w0, w, root, count, i);
    let (x, y) = f.page(i);
    old_parts(f, w0, x);
    let bound = f.fences[y].0;
    let vs = f.after(w0, i, m).versions;
    let mid = f.want.subrange(rows_upto(w0, f.fences, f.j), rows_upto(w0, f.fences, x));
    assert(lt(f.fences[f.j].0, bound));
    assert(lt(f.fences[x].0, bound));
    assert forall|k: int| 0 <= k < vs.len() implies lt(#[trigger] vs[k].0, bound) by {
        let p = f.versions.len() as int;
        if k < p {
            assert(vs[k] == f.versions[k]);
            assert(lt(f.versions[k].0, f.fences[f.j].0));
            super::bytes::lt_transitive(f.versions[k].0, f.fences[f.j].0, bound);
        } else if k < p + mid.len() {
            assert(vs[k] == mid[k - p]);
            assert(in_range(mid[k - p].0, f.fences[f.j].0, Some(f.fences[x].0)));
            super::bytes::lt_transitive(mid[k - p].0, f.fences[x].0, bound);
        } else {
            assert(vs[k] == m.versions@[k - p - mid.len()]);
            assert(in_range(
                m.versions@[k - p - mid.len()].0,
                f.fences[x].0,
                super::fences::fence_key(f.fences, y),
            ));
        }
    }
    let ws = f.writes.take(m.next as int);
    let used = f.writes.subrange(i, m.next as int);
    assert forall|k: int| 0 <= k < ws.len() implies lt(#[trigger] ws[k].0, bound) by {
        if k < i {
            assert(ws[k] == f.writes.take(i)[k]);
            assert(lt(f.writes.take(i)[k].0, f.fences[f.j].0));
            super::bytes::lt_transitive(ws[k].0, f.fences[f.j].0, bound);
        } else {
            assert(ws[k] == used[k - i]);
            assert(lt(used[k - i].0, bound));
        }
    }
}

#[verifier::rlimit(60)]
/// A merge moves the front behind its page.
proof fn front_moves(
    f: Front,
    w0: ArenaWriter,
    w: ArenaWriter,
    later: ArenaWriter,
    root: u64,
    count: int,
    i: int,
    m: Merged,
)
    requires
        f.based(w0),
        f.stands(w0, w, root, count, i),
        i < m.next <= f.writes.len(),
        w.grew_from(w0),
        later.grew_from(w),
        f.fences.len() > 0,
        merged_well(
            m,
            later,
            f.place(w0, i),
            f.fences[f.page(i).0].0,
            super::fences::fence_key(f.fences, f.page(i).1),
            f.writes,
            i,
            count,
        ),
    ensures
        f.after(w0, i, m).based(w0),
        f.after(w0, i, m).stands(w0, later, m.root, m.count as int, m.next as int),
{
    reveal(Front::based);
    reveal(Front::stands);
    page_ahead(f, w0, w, root, count, i);
    let (x, y) = f.page(i);
    pages_after(f, w0, w, later, root, count, i, m);
    versions_after(f, w0, w, later, root, count, i, m);
    old_parts(f, w0, x);
    if y < f.fences.len() {
        bounds_after(f, w0, w, later, root, count, i, m);
    }
    let n = f.after(w0, i, m);
    if f.a.len() > 0 {
        assert(n.a[0] == f.a[0]);
    } else if f.j < x {
        assert(n.a[0] == f.fences.subrange(f.j, x)[0]);
        assert(f.fences.subrange(f.j, x)[0] == f.fences[0]);
    } else {
        assert(n.a =~= m.fences@);
        assert(f.fences[x] == f.fences[0]);
    }
}

#[verifier::rlimit(60)]
/// The same for the first page of an empty store.
proof fn first_front_moves(
    f: Front,
    w0: ArenaWriter,
    w: ArenaWriter,
    later: ArenaWriter,
    root: u64,
    count: int,
    i: int,
    m: Merged,
)
    requires
        f.based(w0),
        f.stands(w0, w, root, count, i),
        i < m.next <= f.writes.len(),
        f.fences.len() == 0,
        merged_well(m, later, f.place(w0, i), Seq::empty(), None, f.writes, i, count),
    ensures
        f.after(w0, i, m).based(w0),
        f.after(w0, i, m).stands(w0, later, m.root, m.count as int, m.next as int),
{
    reveal(Front::based);
    reveal(Front::stands);
    part_holds(w0, f.fences, f.want, 0, 0);
    let place = f.place(w0, i);
    let n = f.after(w0, i, m);
    assert(place.left =~= Seq::empty());
    assert(place.right =~= Seq::empty());
    assert(n.a =~= m.fences@);
    assert(n.versions =~= m.versions@);
    assert(place.left + m.fences@ + place.right =~= n.a + f.fences.skip(0));
    assert(place.contents =~= Seq::empty());
    assert(f.want =~= Seq::empty());
    let none = Seq::<(Seq<u8>, Version)>::empty();
    assert forall|k: int| 0 <= k < m.versions@.len() implies in_range(
        #[trigger] m.versions@[k].0,
        Seq::empty(),
        None,
    ) by {}
    assert(f.writes.take(0) =~= Seq::empty());
    assert forall|k: Seq<u8>| #[trigger] lookup(none, k) == changed(
        lookup(f.writes.take(0), k),
        lookup(none, k),
        later.generation,
    ) by {}
    parts_updated(
        none,
        none,
        none,
        none,
        m.versions@,
        Seq::empty(),
        Seq::empty(),
        f.writes,
        0,
        m.next as int,
        later.generation,
    );
    assert(none + none + none =~= none);
    assert(none + none + m.versions@ =~= m.versions@);
    assert(f.want.take(0) =~= none);
}

/// Fences that stand in order before others are in order.
proof fn sorted_front(a: Seq<(Seq<u8>, Slot)>, rest: Seq<(Seq<u8>, Slot)>)
    requires
        sorted(a + rest),
    ensures
        sorted(a),
        sorted(rest),
        forall|i: int, j: int|
            0 <= i < a.len() && 0 <= j < rest.len() ==> lt(
                (#[trigger] a[i]).0,
                (#[trigger] rest[j]).0,
            ),
{
    let all = a + rest;
    assert forall|i: int, j: int| 0 <= i < j < a.len() implies lt(
        #[trigger] a[i].0,
        #[trigger] a[j].0,
    ) by {
        assert(all[i] == a[i] && all[j] == a[j]);
    }
    assert forall|i: int, j: int| 0 <= i < j < rest.len() implies lt(
        #[trigger] rest[i].0,
        #[trigger] rest[j].0,
    ) by {
        assert(all[a.len() + i] == rest[i] && all[a.len() + j] == rest[j]);
    }
    assert forall|i: int, j: int| 0 <= i < a.len() && 0 <= j < rest.len() implies lt(
        (#[trigger] a[i]).0,
        (#[trigger] rest[j]).0,
    ) by {
        assert(all[i] == a[i] && all[a.len() + j] == rest[j]);
    }
}

/// A page that no write reaches, left where it was.
proof fn untouched_laid(
    before: Pages,
    k: int,
    writes: Seq<(Seq<u8>, Change)>,
    i: int,
    image: Seq<u8>,
    end: int,
    generation: u64,
    p: Seq<(Seq<u8>, Slot)>,
    q: Seq<(Seq<u8>, Slot)>,
)
    requires
        sorted(before.fences),
        sorted(writes),
        0 <= k < before.fences.len(),
        0 <= i <= writes.len(),
        i > 0 ==> lt(writes[i - 1].0, before.fences[k].0),
        i < writes.len() ==> k + 1 < before.fences.len() && !lt(
            writes[i].0,
            before.fences[k + 1].0,
        ),
        sorted(p + seq![before.fences[k]] + q),
        k + 1 < before.fences.len() ==> forall|x: int|
            0 <= x < q.len() ==> !lt((#[trigger] q[x]).0, before.fences[k + 1].0),
        k + 1 == before.fences.len() ==> q.len() == 0,
    ensures
        page_laid(before, k, writes, image, end, generation, p + seq![before.fences[k]] + q),
{
    broadcast use group_order;

    let fence = before.fences[k];
    let upper = fence_key(before.fences, k + 1);
    let one = seq![fence];
    sorted_front(p + one, q);
    sorted_front(p, one);
    assert(one[0] == fence);
    if k + 1 < before.fences.len() {
        assert(lt(fence.0, before.fences[k + 1].0));
    }
    assert forall|x: int| 0 <= x < p.len() implies lt(#[trigger] p[x].0, fence.0) by {
        assert(lt(p[x].0, one[0].0));
    }
    range_between(p, one, q, fence.0, upper);
    rank_is(writes, fence.0, i);
    if k + 1 < before.fences.len() {
        rank_is(writes, before.fences[k + 1].0, i);
    }
    assert(range(writes, fence.0, upper) =~= Seq::empty());
    reveal(laid);
}

/// What stands after a merge, as far as the order of its fences goes.
struct Step {
    a: Seq<(Seq<u8>, Slot)>,
    j: int,
    x: int,
    made: Seq<(Seq<u8>, Slot)>,
    i: int,
    next: int,
}

/// Whether fences and writes are in order around the page of a merge.
spec fn in_step(
    s: Step,
    fs: Seq<(Seq<u8>, Slot)>,
    writes: Seq<(Seq<u8>, Change)>,
) -> bool {
    &&& sorted(fs)
    &&& sorted(writes)
    &&& 0 <= s.j <= s.x < fs.len()
    &&& 0 <= s.i < s.next <= writes.len()
    &&& s.made.len() > 0
    &&& s.made[0].0 == fs[s.x].0
    &&& sorted(s.a + fs.subrange(s.j, s.x) + s.made + fs.skip(s.x + 1))
    &&& s.i > 0 ==> lt(writes[s.i - 1].0, fs[s.j].0)
    &&& !lt(writes[s.i].0, fs[s.x].0)
    &&& s.x + 1 < fs.len() ==> lt(writes[s.next - 1].0, fs[s.x + 1].0)
    &&& s.next < writes.len() ==> s.x + 1 < fs.len() && !lt(writes[s.next].0, fs[s.x + 1].0)
}

#[verifier::rlimit(40)]
/// The page of a merge is laid out as its rows and its writes call for.
proof fn merged_laid(
    s: Step,
    before: Pages,
    writes: Seq<(Seq<u8>, Change)>,
    image: Seq<u8>,
    end: int,
    generation: u64,
)
    requires
        in_step(s, before.fences, writes),
        ({
            let fence = before.fences[s.x];
            laid(
                image,
                end,
                generation,
                s.made,
                Some(head_of(before.image, before.end, fence.1.0)),
                seq![fence],
                page_rows(before.image, before.end, before.generation, fence),
                writes.subrange(s.i, s.next),
            )
        }),
    ensures
        page_laid(
            before,
            s.x,
            writes,
            image,
            end,
            generation,
            s.a + before.fences.subrange(s.j, s.x) + s.made,
        ),
{
    broadcast use group_order;

    let fs = before.fences;
    let fence = fs[s.x];
    let y = s.x + 1;
    let p = s.a + fs.subrange(s.j, s.x);
    let q = Seq::<(Seq<u8>, Slot)>::empty();
    let upper = fence_key(fs, y);
    sorted_front(p + s.made, fs.skip(y));
    sorted_front(p, s.made);
    assert(p + s.made =~= p + s.made + q);
    assert forall|z: int| 0 <= z < p.len() implies lt(#[trigger] p[z].0, fence.0) by {
        assert(lt(p[z].0, s.made[0].0));
    }
    assert forall|z: int| 0 <= z < s.made.len() implies in_range(
        (#[trigger] s.made[z]).0,
        fence.0,
        upper,
    ) by {
        if z > 0 {
            assert(lt(s.made[0].0, s.made[z].0));
        }
        if y < fs.len() {
            assert((p + s.made)[p.len() + z] == s.made[z]);
            assert(fs.skip(y)[0] == fs[y]);
            assert(lt((p + s.made)[p.len() + z].0, fs.skip(y)[0].0));
        }
    }
    if y < fs.len() {
        assert(lt(fs[s.x].0, fs[y].0));
    }
    range_between(p, s.made, q, fence.0, upper);
    if s.j < s.x {
        assert(lt(fs[s.j].0, fs[s.x].0));
    }
    rank_is(writes, fence.0, s.i);
    if let Some(u) = upper {
        rank_is(writes, u, s.next);
    }
    assert(range(writes, fence.0, upper) =~= writes.subrange(s.i, s.next));
}

#[verifier::rlimit(40)]
/// A page between the front and that of a merge is left where it was.
proof fn passed_laid(
    s: Step,
    before: Pages,
    writes: Seq<(Seq<u8>, Change)>,
    image: Seq<u8>,
    end: int,
    generation: u64,
    k: int,
)
    requires
        in_step(s, before.fences, writes),
        s.j <= k < s.x,
    ensures
        page_laid(
            before,
            k,
            writes,
            image,
            end,
            generation,
            s.a + before.fences.subrange(s.j, s.x) + s.made,
        ),
{
    broadcast use group_order;

    let fs = before.fences;
    let p = s.a + fs.subrange(s.j, k);
    let q = fs.subrange(k + 1, s.x) + s.made;
    let all = s.a + fs.subrange(s.j, s.x) + s.made;
    sorted_front(all, fs.skip(s.x + 1));
    sorted_front(s.a + fs.subrange(s.j, s.x), s.made);
    assert(all =~= p + seq![fs[k]] + q);
    assert(lt(fs[k].0, fs[k + 1].0));
    if s.j < k {
        assert(lt(fs[s.j].0, fs[k].0));
    }
    if k + 1 < s.x {
        assert(lt(fs[k + 1].0, fs[s.x].0));
    }
    assert forall|z: int| 0 <= z < q.len() implies !lt((#[trigger] q[z]).0, fs[k + 1].0) by {
        let c = (s.x - k - 1) as int;
        if z < c {
            assert(q[z] == fs[k + 1 + z]);
            if z > 0 {
                assert(lt(fs[k + 1].0, fs[k + 1 + z].0));
            }
        } else {
            let v = z - c;
            assert(q[z] == s.made[v]);
            if v > 0 {
                assert(lt(s.made[0].0, s.made[v].0));
            }
        }
    }
    untouched_laid(before, k, writes, s.i, image, end, generation, p, q);
}

#[verifier::rlimit(40)]
/// A page that was done before a merge stays as it was laid out.
proof fn done_laid(
    s: Step,
    before: Pages,
    writes: Seq<(Seq<u8>, Change)>,
    a: Seq<u8>,
    b: Seq<u8>,
    end: int,
    later: int,
    generation: u64,
    k: int,
)
    requires
        in_step(s, before.fences, writes),
        0 <= k < s.j,
        extends(b, a),
        end <= later,
        page_laid(before, k, writes, a, end, generation, s.a),
    ensures
        page_laid(
            before,
            k,
            writes,
            b,
            later,
            generation,
            s.a + before.fences.subrange(s.j, s.x) + s.made,
        ),
{
    broadcast use group_order;

    let fs = before.fences;
    let skipped = fs.subrange(s.j, s.x);
    let rest = skipped + s.made;
    let all = s.a + skipped + s.made;
    let hi = fs[k + 1].0;
    sorted_front(all, fs.skip(s.x + 1));
    sorted_front(s.a + skipped, s.made);
    assert(all =~= s.a + rest);
    assert forall|z: int| 0 <= z < rest.len() implies !lt((#[trigger] rest[z]).0, hi) by {
        if z < skipped.len() {
            assert(rest[z] == fs[s.j + z]);
            if k + 1 < s.j + z {
                assert(lt(fs[k + 1].0, fs[s.j + z].0));
            }
        } else {
            let v = z - skipped.len();
            assert(rest[z] == s.made[v]);
            if v > 0 {
                assert(lt(s.made[0].0, s.made[v].0));
            }
            if k + 1 < s.x {
                assert(lt(fs[k + 1].0, fs[s.x].0));
            }
        }
    }
    assert(lt(fs[k].0, fs[k + 1].0));
    range_front(s.a, rest, fs[k].0, hi);
    laid_grows(
        a,
        b,
        end,
        later,
        generation,
        range(s.a, fs[k].0, Some(hi)),
        Some(head_of(before.image, before.end, fs[k].1.0)),
        seq![fs[k]],
        page_rows(before.image, before.end, before.generation, fs[k]),
        range(writes, fs[k].0, Some(hi)),
    );
}

#[verifier::rlimit(40)]
/// Fences and writes are in order around the page of a merge that moves the front.
proof fn steps_in_order(
    f: Front,
    w0: ArenaWriter,
    w: ArenaWriter,
    later: ArenaWriter,
    root: u64,
    count: int,
    i: int,
    m: Merged,
) -> (s: Step)
    requires
        f.based(w0),
        f.stands(w0, w, root, count, i),
        i < m.next <= f.writes.len(),
        f.fences.len() > 0,
        f.after(w0, i, m).stands(w0, later, m.root, m.count as int, m.next as int),
        merged_well(
            m,
            later,
            f.place(w0, i),
            f.fences[f.page(i).0].0,
            fence_key(f.fences, f.page(i).1),
            f.writes,
            i,
            count,
        ),
    ensures
        in_step(s, f.fences, f.writes),
        s.a == f.a,
        s.j == f.j,
        s.x == f.page(i).0,
        s.made == m.fences@,
        s.i == i,
        s.next == m.next,
        f.page(i).1 == s.x + 1,
{
    page_ahead(f, w0, w, root, count, i);
    reveal(Front::based);
    reveal(Front::stands);
    let (x, y) = f.page(i);
    assert(f.place(w0, i).middle.len() == 1);
    if i > 0 {
        assert(f.writes.take(i)[i - 1] == f.writes[i - 1]);
        assert(lt(f.writes.take(i)[i - 1].0, f.fences[f.j].0));
    }
    let used = f.writes.subrange(i, m.next as int);
    assert(used[m.next - 1 - i] == f.writes[m.next - 1]);
    if y < f.fences.len() {
        assert(lt(used[m.next - 1 - i].0, f.fences[y].0));
    }
    Step { a: f.a, j: f.j, x, made: m.fences@, i, next: m.next as int }
}

/// A merge lays out its page, and leaves the others as they were.
proof fn relaid_moves(
    f: Front,
    before: Pages,
    w0: ArenaWriter,
    w: ArenaWriter,
    later: ArenaWriter,
    root: u64,
    count: int,
    i: int,
    m: Merged,
)
    requires
        f.based(w0),
        f.stands(w0, w, root, count, i),
        i < m.next <= f.writes.len(),
        later.grew_from(w),
        f.fences.len() > 0,
        before.fences == f.fences,
        f.relaid(before, w),
        f.after(w0, i, m).stands(w0, later, m.root, m.count as int, m.next as int),
        merged_well(
            m,
            later,
            f.place(w0, i),
            f.fences[f.page(i).0].0,
            fence_key(f.fences, f.page(i).1),
            f.writes,
            i,
            count,
        ),
        ({
            let fence = f.fences[f.page(i).0];
            laid(
                later.image(),
                later.end as int,
                later.generation,
                m.fences@,
                Some(head_of(before.image, before.end, fence.1.0)),
                seq![fence],
                page_rows(before.image, before.end, before.generation, fence),
                f.writes.subrange(i, m.next as int),
            )
        }),
    ensures
        f.after(w0, i, m).relaid(before, later),
{
    reveal(Front::relaid);
    let s = steps_in_order(f, w0, w, later, root, count, i, m);
    let n = f.after(w0, i, m);
    assert forall|k: int| 0 <= k < n.j implies #[trigger] page_laid(
        before,
        k,
        n.writes,
        later.image(),
        later.end as int,
        later.generation,
        n.a,
    ) by {
        if k < f.j {
            assert(page_laid(before, k, f.writes, w.image(), w.end as int, w.generation, f.a));
            done_laid(
                s,
                before,
                f.writes,
                w.image(),
                later.image(),
                w.end as int,
                later.end as int,
                w.generation,
                k,
            );
        } else if k < s.x {
            passed_laid(
                s,
                before,
                f.writes,
                later.image(),
                later.end as int,
                later.generation,
                k,
            );
        } else {
            merged_laid(
                s,
                before,
                f.writes,
                later.image(),
                later.end as int,
                later.generation,
            );
        }
    }
}

/// The first pages of a store are base pages.
proof fn first_relaid(
    f: Front,
    before: Pages,
    w0: ArenaWriter,
    w: ArenaWriter,
    later: ArenaWriter,
    root: u64,
    count: int,
    i: int,
    m: Merged,
)
    requires
        f.stands(w0, w, root, count, i),
        i < m.next <= f.writes.len(),
        f.fences.len() == 0,
        laid(
            later.image(),
            later.end as int,
            later.generation,
            m.fences@,
            None,
            f.place(w0, i).middle,
            Seq::empty(),
            f.writes.subrange(i, m.next as int),
        ),
    ensures
        f.after(w0, i, m).relaid(before, later),
{
    reveal(Front::stands);
    reveal(Front::relaid);
    reveal(laid);
    let n = f.after(w0, i, m);
    assert(n.a =~= m.fences@);
    assert(f.place(w0, i).middle =~= Seq::empty());
    if effects(Seq::empty(), f.writes.subrange(i, m.next as int)) == 0 {
        assert(flat(later.image(), later.end as int, later.generation, n.a) =~= Seq::empty());
    }
}

#[verifier::rlimit(60)]
/// At the end every page was laid out as it should be.
proof fn relaid_ends(
    f: Front,
    before: Pages,
    w0: ArenaWriter,
    w: ArenaWriter,
    root: u64,
    count: int,
)
    requires
        f.based(w0),
        f.stands(w0, w, root, count, f.writes.len() as int),
        before.fences == f.fences,
        f.relaid(before, w),
    ensures
        forall|k: int|
            0 <= k < f.fences.len() ==> #[trigger] page_laid(
                before,
                k,
                f.writes,
                w.image(),
                w.end as int,
                w.generation,
                (w.tree(root)->0).rows(),
            ),
        f.fences.len() == 0 ==> first_laid(
            w.image(),
            w.end as int,
            w.generation,
            (w.tree(root)->0).rows(),
        ),
{
    broadcast use group_order;

    reveal(Front::based);
    reveal(Front::stands);
    reveal(Front::relaid);
    let fs = f.fences;
    let rest = fs.skip(f.j);
    let rows = (w.tree(root)->0).rows();
    let i = f.writes.len() as int;
    sorted_front(f.a, rest);
    assert forall|k: int| 0 <= k < fs.len() implies #[trigger] page_laid(
        before,
        k,
        f.writes,
        w.image(),
        w.end as int,
        w.generation,
        rows,
    ) by {
        if k < f.j {
            assert(page_laid(before, k, f.writes, w.image(), w.end as int, w.generation, f.a));
            if k + 1 < fs.len() {
                assert forall|z: int| 0 <= z < rest.len() implies !lt(
                    (#[trigger] rest[z]).0,
                    fs[k + 1].0,
                ) by {
                    assert(rest[z] == fs[f.j + z]);
                    if k + 1 < f.j + z {
                        assert(lt(fs[k + 1].0, fs[f.j + z].0));
                    }
                }
                assert(lt(fs[k].0, fs[k + 1].0));
                range_front(f.a, rest, fs[k].0, fs[k + 1].0);
            } else {
                assert(rows =~= f.a);
            }
        } else {
            let p = f.a + fs.subrange(f.j, k);
            let q = fs.skip(k + 1);
            assert(rows =~= p + seq![fs[k]] + q);
            if i > 0 {
                assert(f.writes.take(i)[i - 1] == f.writes[i - 1]);
                assert(lt(f.writes.take(i)[i - 1].0, fs[f.j].0));
                if f.j < k {
                    assert(lt(fs[f.j].0, fs[k].0));
                }
            }
            assert forall|z: int| 0 <= z < q.len() && k + 1 < fs.len() implies !lt(
                (#[trigger] q[z]).0,
                fs[k + 1].0,
            ) by {
                assert(q[z] == fs[k + 1 + z]);
                if z > 0 {
                    assert(lt(fs[k + 1].0, fs[k + 1 + z].0));
                }
            }
            untouched_laid(
                before,
                k,
                f.writes,
                i,
                w.image(),
                w.end as int,
                w.generation,
                p,
                q,
            );
        }
    }
    if fs.len() == 0 {
        assert(rows =~= f.a);
    }
}

#[verifier::rlimit(60)]
/// The front before the first write.
proof fn front_begins(
    w: ArenaWriter,
    end: u64,
    generation: u64,
    root: u64,
    count: u64,
    want: Seq<(Seq<u8>, Version)>,
    writes: Seq<(Seq<u8>, Change)>,
) -> (f: Front)
    requires
        packed_stores(w.image(), end as int, generation, root, want),
        end <= w.end,
        generation <= w.generation,
        sorted(writes),
        want.len() == count,
        want.len() + writes.len() <= u64::MAX,
    ensures
        f.based(w),
        f.stands(w, w, root, count as int, 0),
        f.writes == writes,
        f.want == want,
        f.fences == (tree_at(w.image(), end as int, root)->0).rows(),
        sorted(f.fences),
        f.fences.len() == 0 <==> root == 0,
        f.j == 0,
        f.a.len() == 0,
{
    reveal(Front::based);
    reveal(Front::stands);
    super::fences::packed_stores_grows(
        w.image(),
        w.image(),
        end as int,
        w.end as int,
        generation,
        w.generation,
        root,
        want,
    );
    tree_stable(w.image(), w.image(), end as int, w.end as int, root);
    let t = tree_at(w.image(), end as int, root)->0;
    let fences = t.rows();
    let f = Front {
        fences,
        want,
        writes,
        a: Seq::empty(),
        j: 0,
        versions: Seq::empty(),
    };
    part_holds(w, fences, want, 0, 0);
    assert(f.a + fences.skip(0) =~= fences);
    assert(flat(w.image(), w.end as int, w.generation, f.a) =~= Seq::empty());
    assert(want.take(0) =~= Seq::empty());
    assert(writes.take(0) =~= Seq::empty());
    assert forall|k: Seq<u8>| #[trigger] lookup(f.versions, k) == changed(
        lookup(writes.take(0), k),
        lookup(want.take(0), k),
        w.generation,
    ) by {}
    if root != 0 {
        tree_root(w.image(), end as int, root);
        super::tree::node_parts(t);
    } else {
        assert(fences =~= Seq::empty());
    }
    f
}

#[verifier::rlimit(60)]
/// The pages that are done and those that no write reaches make up the store.
proof fn pages_end(f: Front, w0: ArenaWriter, w: ArenaWriter, root: u64, count: int)
    requires
        f.based(w0),
        f.stands(w0, w, root, count, f.writes.len() as int),
        w.grew_from(w0),
    ensures
        packed_stores(
            w.image(),
            w.end as int,
            w.generation,
            root,
            f.versions + f.want.subrange(rows_upto(w0, f.fences, f.j), f.want.len() as int),
        ),
        0 <= rows_upto(w0, f.fences, f.j) <= f.want.len(),
{
    reveal(Front::based);
    reveal(Front::stands);
    let b = w.image();
    let end = w.end as int;
    let g = w.generation;
    let fs = f.fences;
    let last = fs.len() as int;
    let rest = fs.subrange(f.j, last);
    let n = rows_upto(w0, fs, f.j);
    assert(fs.skip(f.j) =~= rest);
    part_holds(w0, fs, f.want, f.j, last);
    covering_part(w0.image(), w0.end as int, w0.generation, fs, f.j, last);
    covering_moves(w0, w, rest, None);
    if rest.len() > 0 {
        assert(rest[0] == fs[f.j]);
    }
    covering_join(b, end, g, f.a, rest, None);
    covering_pages(b, end, g, f.a + rest);
    flat_splits(b, end, g, f.a, rest);
    let tail = f.want.subrange(n, f.want.len() as int);
    holds_cells_grows(
        w0.image(),
        b,
        w0.end as int,
        end,
        flat(w0.image(), w0.end as int, w0.generation, rest),
        tail,
    );
    holds_join(b, end, flat(b, end, g, f.a), f.versions, flat(b, end, g, rest), tail);
    if f.a.len() > 0 {
        assert((f.a + rest)[0] == f.a[0]);
    } else {
        assert(f.a + rest =~= fs);
    }
}

#[verifier::rlimit(60)]
/// The contents in front of and behind the front, put together.
proof fn contents_end(f: Front, w0: ArenaWriter, w: ArenaWriter, root: u64, count: int)
    requires
        f.based(w0),
        f.stands(w0, w, root, count, f.writes.len() as int),
        f.j < f.fences.len(),
    ensures
        updated(
            f.want,
            f.versions + f.want.subrange(rows_upto(w0, f.fences, f.j), f.want.len() as int),
            f.writes,
            w.generation,
        ),
{
    reveal(Front::based);
    reveal(Front::stands);
    let b = w0.image();
    let end = w0.end as int;
    let g = w0.generation;
    let fs = f.fences;
    let last = fs.len() as int;
    let n = rows_upto(w0, fs, f.j);
    let rest = fs.subrange(f.j, last);
    let tail = f.want.subrange(n, f.want.len() as int);
    let bound = fs[f.j].0;
    assert(fs.skip(f.j) =~= rest);
    part_holds(w0, fs, f.want, f.j, last);
    old_head(f, w0);
    flat_above(b, end, g, fs, f.j);
    held_between(b, end, flat(b, end, g, rest), tail, bound, None);
    let none = Seq::<(Seq<u8>, Version)>::empty();
    let len = f.writes.len() as int;
    let used = f.writes.subrange(len, len);
    assert(used =~= Seq::empty());
    let vc = version_changes(used, w.generation);
    assert(vc =~= Seq::empty());
    assert forall|k: Seq<u8>| #[trigger] lookup(tail, k) == (match lookup(vc, k) {
        Some(c) => c,
        None => lookup(tail, k),
    }) by {}
    super::bytes::lt_irreflexive(bound);
    parts_updated(
        f.want.take(n),
        f.versions,
        none,
        tail,
        tail,
        bound,
        bound,
        f.writes,
        len,
        len,
        w.generation,
    );
    assert(f.writes.take(len) =~= f.writes);
    assert(f.want.take(n) + none + tail =~= f.want);
    assert(f.versions + none + tail =~= f.versions + tail);
}

/// The contents of the store as it was are in order.
proof fn want_sorted(f: Front, w0: ArenaWriter)
    requires
        f.based(w0),
    ensures
        sorted(f.want),
        sorted(f.writes),
        rows_upto(w0, f.fences, f.fences.len() as int) == f.want.len(),
{
    reveal(Front::based);
    flat_sorted(w0.image(), w0.end as int, w0.generation, f.fences);
    held_between(
        w0.image(),
        w0.end as int,
        flat(w0.image(), w0.end as int, w0.generation, f.fences),
        f.want,
        Seq::empty(),
        None,
    );
    assert(f.fences.take(f.fences.len() as int) =~= f.fences);
}

#[verifier::rlimit(60)]
/// Behind the last write the whole store is updated.
proof fn front_ends(f: Front, w0: ArenaWriter, w: ArenaWriter, root: u64, count: int)
    requires
        f.based(w0),
        f.stands(w0, w, root, count, f.writes.len() as int),
        w.grew_from(w0),
    ensures
        packed_stores(
            w.image(),
            w.end as int,
            w.generation,
            root,
            applied(f.want, f.writes, w.generation),
        ),
        count == applied(f.want, f.writes, w.generation).len(),
{
    let n = rows_upto(w0, f.fences, f.j);
    let tail = f.want.subrange(n, f.want.len() as int);
    let all = f.versions + tail;
    pages_end(f, w0, w, root, count);
    want_sorted(f, w0);
    assert(updated(f.want, all, f.writes, w.generation)) by {
        if f.j < f.fences.len() {
            contents_end(f, w0, w, root, count);
        } else {
            reveal(Front::stands);
            assert(tail =~= Seq::empty());
            assert(all =~= f.versions);
            assert(f.want.take(n) =~= f.want);
            assert(f.writes.take(f.writes.len() as int) =~= f.writes);
        }
    }
    assert(count == all.len()) by {
        reveal(Front::stands);
    }
    updated_is_applied(f.want, all, f.writes, w.generation);
}

/// Reading leaves the front where it is.
proof fn front_same(
    f: Front,
    w0: ArenaWriter,
    w: ArenaWriter,
    later: ArenaWriter,
    root: u64,
    count: int,
    i: int,
)
    requires
        f.stands(w0, w, root, count, i),
        later.image() == w.image(),
        later.end == w.end,
        later.generation == w.generation,
    ensures
        f.stands(w0, later, root, count, i),
{
    reveal(Front::stands);
}

/// Facts about a page that was loaded for merging.
proof fn loaded_for_merge(w: ArenaWriter, generation: u64, end: u64, at: u64)
    requires
        w.wf(),
        generation <= w.generation,
        loaded(w.image(), end as int, generation, at) is Ok,
    ensures
        ({
            let rows = loaded(w.image(), end as int, generation, at)->Ok_0;
            &&& sorted(rows)
            &&& basic(rows, w.end as int, w.generation as int)
            &&& page_at(w.image(), end as int, at as int) is Ok
            &&& (page_at(w.image(), end as int, at as int)->Ok_0).delta_bytes <= DELTA_BYTES
        }),
{
    loaded_facts(w.image(), end as int, generation, at);
    super::lineage::page_facts(w.image(), end as int, at as int);
    let rows = loaded(w.image(), end as int, generation, at)->Ok_0;
    assert forall|i: int| 0 <= i < rows.len() implies storable(
        #[trigger] rows[i],
        BASE,
        w.end as int,
        w.generation as int,
    ) by {
        assert(storable(rows[i], BASE, at as int, generation as int));
    }
}

#[verifier::rlimit(60)]
/// What is read of a committed version is what the front is based on.
proof fn read_matches(
    f: Front,
    w0: ArenaWriter,
    w: ArenaWriter,
    end: u64,
    generation: u64,
    root: u64,
    x: int,
)
    requires
        f.based(w0),
        w.grew_from(w0),
        end <= w0.end,
        generation <= w0.generation,
        packed_stores(w0.image(), end as int, generation, root, f.want),
        f.fences == (tree_at(w0.image(), end as int, root)->0).rows(),
        0 <= x < f.fences.len(),
    ensures
        loaded(w.image(), end as int, generation, f.fences[x].1.0) == Ok::<
            Seq<(Seq<u8>, Cell)>,
            Fail,
        >(page_rows(w0.image(), w0.end as int, w0.generation, f.fences[x])),
        page_at(w.image(), end as int, f.fences[x].1.0 as int) == page_at(
            w0.image(),
            w0.end as int,
            f.fences[x].1.0 as int,
        ),
{
    reveal(Front::based);
    let at = f.fences[x].1.0;
    assert(page_ok(w0.image(), end as int, generation, f.fences, x));
    loaded_facts(w0.image(), end as int, generation, at);
    super::lineage::chain_stable(
        w0.image(),
        w.image(),
        end as int,
        end as int,
        generation,
        generation,
        at,
        None,
    );
    super::lineage::chain_stable(
        w0.image(),
        w0.image(),
        end as int,
        w0.end as int,
        generation,
        w0.generation,
        at,
        None,
    );
}

/// Whether an update laid out every page as it should: each page that there was, and where there
/// was none, base pages only.
#[verifier::opaque]
pub open spec fn relaid(
    before: Pages,
    writes: Seq<(Seq<u8>, Change)>,
    image: Seq<u8>,
    end: int,
    generation: u64,
    fences: Seq<(Seq<u8>, Slot)>,
) -> bool {
    &&& forall|k: int|
        0 <= k < before.fences.len() ==> #[trigger] page_laid(
            before,
            k,
            writes,
            image,
            end,
            generation,
            fences,
        )
    &&& before.fences.len() == 0 ==> first_laid(image, end, generation, fences)
}

/// A page of the committed version is what it was when the update began.
proof fn committed_page(f: Front, before: Pages, w0: ArenaWriter, w: ArenaWriter, x: int)
    requires
        pages_ok(before.image, before.end, before.generation, f.fences),
        0 <= x < f.fences.len(),
        before.image == w0.image(),
        w.grew_from(w0),
    ensures
        loaded(w.image(), before.end, before.generation, f.fences[x].1.0) == Ok::<
            Seq<(Seq<u8>, Cell)>,
            Fail,
        >(page_rows(before.image, before.end, before.generation, f.fences[x])),
        page_at(w.image(), before.end, f.fences[x].1.0 as int) == page_at(
            before.image,
            before.end,
            f.fences[x].1.0 as int,
        ),
{
    let at = f.fences[x].1.0;
    assert(page_ok(before.image, before.end, before.generation, f.fences, x));
    loaded_facts(before.image, before.end, before.generation, at);
    super::fences::loaded_stable(
        before.image,
        w.image(),
        before.end,
        before.end,
        before.generation,
        before.generation,
        at,
    );
    page_stable(before.image, w.image(), before.end, before.end, at);
}

/// An update of a packed store under way: the store in `w0` that it began with, whose root is
/// `from`, and how far it has come.
struct Run {
    f: Front,
    before: Pages,
    w0: ArenaWriter,
    from: u64,
}

/// The page that the next write belongs to, as it was read.
struct Opened {
    fence: Option<(u64, u32, usize)>,
    key: Vec<u8>,
    upper: Option<Vec<u8>>,
    rows: Vec<Row>,
}

impl Run {
    /// The store that the update began with.
    spec fn begun(self) -> bool {
        &&& packed_stores(
            self.w0.image(),
            self.before.end,
            self.before.generation,
            self.from,
            self.f.want,
        )
        &&& self.before.image == self.w0.image()
        &&& self.before.end <= self.w0.end
        &&& self.before.generation < self.w0.generation
        &&& self.before.fences == self.f.fences
        &&& self.f.fences == (tree_at(self.w0.image(), self.before.end, self.from)->0).rows()
        &&& self.f.fences.len() == 0 <==> self.from == 0
    }

    #[verifier::opaque]
    /// The update has come to the write at `i`.
    spec fn going(self, w: ArenaWriter, root: u64, count: u64, i: int) -> bool {
        &&& self.begun()
        &&& w.grew_from(self.w0)
        &&& self.f.based(self.w0)
        &&& self.f.stands(self.w0, w, root, count as int, i)
        &&& self.f.relaid(self.before, w)
    }

    /// What was read is the page that the write at `i` belongs to.
    spec fn opened(self, o: Opened, i: int) -> bool {
        let (x, y) = self.f.page(i);
        if self.f.fences.len() > 0 {
            &&& 0 <= x < self.f.fences.len()
            &&& o.key@ == self.f.fences[x].0
            &&& bound_view(o.upper) == super::fences::fence_key(self.f.fences, y)
            &&& o.fence == Some(
                head_of(self.before.image, self.before.end, self.f.fences[x].1.0),
            )
            &&& views(o.rows@) == page_rows(
                self.before.image,
                self.before.end,
                self.before.generation,
                self.f.fences[x],
            )
            &&& self.f.place(self.w0, i).middle == seq![self.f.fences[x]]
        } else {
            &&& o.key@ == Seq::<u8>::empty()
            &&& bound_view(o.upper) is None
            &&& o.fence is None
            &&& views(o.rows@) == Seq::<(Seq<u8>, Cell)>::empty()
        }
    }
}

/// An update begins with nothing done.
proof fn run_begins(
    w: ArenaWriter,
    end: u64,
    generation: u64,
    root: u64,
    count: u64,
    want: Seq<(Seq<u8>, Version)>,
    writes: Seq<(Seq<u8>, Change)>,
) -> (run: Run)
    requires
        packed_stores(w.image(), end as int, generation, root, want),
        end <= w.end,
        generation < w.generation,
        sorted(writes),
        want.len() == count,
        want.len() + writes.len() <= u64::MAX,
        w.grew_from(w),
    ensures
        run.going(w, root, count, 0),
        run.f.writes == writes,
        run.f.want == want,
        run.w0 == w,
        run.from == root,
        run.before == (Pages {
            image: w.image(),
            end: end as int,
            generation,
            fences: (tree_at(w.image(), end as int, root)->0).rows(),
        }),
{
    let f = front_begins(w, end, generation, root, count, want, writes);
    let before = Pages { image: w.image(), end: end as int, generation, fences: f.fences };
    reveal(Run::going);
    assert(f.relaid(before, w)) by {
        reveal(Front::relaid);
    }
    Run { f, before, w0: w, from: root }
}

/// A merge brings the update behind its page.
proof fn run_moves(
    run: Run,
    w: ArenaWriter,
    later: ArenaWriter,
    root: u64,
    count: u64,
    i: int,
    o: Opened,
    m: Merged,
)
    requires
        run.going(w, root, count, i),
        run.opened(o, i),
        later.grew_from(w),
        later.grew_from(run.w0),
        i < m.next <= run.f.writes.len(),
        merged_well(
            m,
            later,
            run.f.place(run.w0, i),
            o.key@,
            bound_view(o.upper),
            run.f.writes,
            i,
            count as int,
        ),
        laid(
            later.image(),
            later.end as int,
            later.generation,
            m.fences@,
            o.fence,
            run.f.place(run.w0, i).middle,
            views(o.rows@),
            run.f.writes.subrange(i, m.next as int),
        ),
    ensures
        (Run { f: run.f.after(run.w0, i, m), ..run }).going(later, m.root, m.count, m.next as int),
{
    reveal(Run::going);
    let f = run.f;
    let w0 = run.w0;
    if f.fences.len() > 0 {
        front_moves(f, w0, w, later, root, count as int, i, m);
        relaid_moves(f, run.before, w0, w, later, root, count as int, i, m);
    } else {
        first_front_moves(f, w0, w, later, root, count as int, i, m);
        first_relaid(f, run.before, w0, w, later, root, count as int, i, m);
    }
}

/// An update that is through has applied every write, and has laid out every page.
proof fn run_ends(run: Run, w: ArenaWriter, root: u64, count: u64)
    requires
        run.going(w, root, count, run.f.writes.len() as int),
    ensures
        packed_stores(
            w.image(),
            w.end as int,
            w.generation,
            root,
            applied(run.f.want, run.f.writes, w.generation),
        ),
        count == applied(run.f.want, run.f.writes, w.generation).len(),
        relaid(
            run.before,
            run.f.writes,
            w.image(),
            w.end as int,
            w.generation,
            (w.tree(root)->0).rows(),
        ),
{
    reveal(Run::going);
    reveal(relaid);
    front_ends(run.f, run.w0, w, root, count as int);
    relaid_ends(run.f, run.before, run.w0, w, root, count as int);
}

#[verifier::rlimit(60)]
#[verifier::spinoff_prover]
/// A page that was read as it stands is where the next write goes.
proof fn run_opened(
    run: Run,
    w: ArenaWriter,
    later: ArenaWriter,
    root: u64,
    count: u64,
    i: int,
    o: Opened,
)
    requires
        run.going(w, root, count, i),
        0 <= i < run.f.writes.len(),
        later.grew_from(w),
        later.grew_from(run.w0),
        later.image() == w.image(),
        later.end == w.end,
        run.before.end <= u64::MAX,
        ({
            let (x, y) = run.f.page(i);
            if run.f.fences.len() > 0 {
                let at = run.f.fences[x].1.0;
                &&& o.key@ == run.f.fences[x].0
                &&& bound_view(o.upper) == super::fences::fence_key(run.f.fences, y)
                &&& o.fence == Some(head_of(later.image(), run.before.end, at))
                &&& loaded(later.image(), run.before.end, run.before.generation, at) == Ok::<
                    Seq<(Seq<u8>, Cell)>,
                    Fail,
                >(views(o.rows@))
                &&& page_at(later.image(), run.before.end, at as int) matches Ok(head)
                    && head.delta_bytes <= DELTA_BYTES
            } else {
                &&& o.key@ == Seq::<u8>::empty()
                &&& bound_view(o.upper) is None
                &&& o.fence is None
                &&& views(o.rows@) == Seq::<(Seq<u8>, Cell)>::empty()
            }
        }),
    ensures
        run.going(later, root, count, i),
        run.opened(o, i),
        run.f.place(run.w0, i).holds(
            later,
            root,
            o.fence,
            o.key@,
            bound_view(o.upper),
            views(o.rows@),
            run.f.writes,
            i,
            count as int,
        ),
{
    reveal(Run::going);
    let f = run.f;
    let w0 = run.w0;
    front_same(f, w0, w, later, root, count as int, i);
    assert(f.relaid(run.before, later)) by {
        reveal(Front::relaid);
    }
    page_ahead(f, w0, later, root, count as int, i);
    let (x, y) = f.page(i);
    if f.fences.len() > 0 {
        read_matches(
            f,
            w0,
            later,
            run.before.end as u64,
            run.before.generation,
            run.from,
            x,
        );
        committed_page(f, run.before, w0, later, x);
        assert(f.place(w0, i).middle =~= seq![f.fences[x]]);
        place_good(f, w0, later, root, count, i, o.fence->0, o.key@, views(o.rows@));
    } else {
        first_place_good(f, w0, later, root, count, i);
    }
}

/// What the fences of the store say of the next write.
proof fn run_reads(run: Run, w: ArenaWriter, root: u64, count: u64, i: int)
    requires
        run.going(w, root, count, i),
        0 <= i < run.f.writes.len(),
    ensures
        tree_at(w.image(), run.before.end, run.from) is Some,
        (tree_at(w.image(), run.before.end, run.from)->0).rows() == run.f.fences,
        sorted(run.f.fences),
        run.f.fences.len() == 0 <==> run.from == 0,
        ({
            let (x, y) = run.f.page(i);
            &&& run.f.fences.len() > 0 ==> {
                &&& 0 <= x < run.f.fences.len()
                &&& y == x + 1
                &&& rank_after(run.f.fences, run.f.writes[i].0) == y
                &&& rank_after(run.f.fences, run.f.fences[x].0) == y
                &&& loaded(
                    w.image(),
                    run.before.end,
                    run.before.generation,
                    run.f.fences[x].1.0,
                ) is Ok
            }
        }),
{
    reveal(Run::going);
    reveal(Front::based);
    let f = run.f;
    tree_stable(run.w0.image(), w.image(), run.before.end, run.before.end, run.from);
    page_ahead(f, run.w0, w, root, count as int, i);
    if f.fences.len() > 0 {
        committed_page(f, run.before, run.w0, w, f.page(i).0);
    }
}

impl ArenaWriter {
    #[verifier::rlimit(40)]
    #[verifier::spinoff_prover]
    /// Reads the page of a committed version that a key belongs to, with its fence and the key
    /// that ends it.
    fn open_page(
        &mut self,
        view_root: u64,
        end: u64,
        generation: u64,
        first: &[u8],
        Ghost(run): Ghost<Option<Run>>,
        Ghost(root): Ghost<u64>,
        Ghost(count): Ghost<u64>,
        Ghost(i): Ghost<int>,
    ) -> (r: Result<Opened, Error>)
        requires
            old(self).wf(),
            end <= old(self).end,
            generation < old(self).generation,
            run matches Some(u) ==> {
                &&& u.going(*old(self), root, count, i)
                &&& old(self).grew_from(u.w0)
                &&& 0 <= i < u.f.writes.len()
                &&& u.from == view_root
                &&& u.before.end == end
                &&& u.before.generation == generation
                &&& first@ == u.f.writes[i].0
            },
        ensures
            final(self).wf(),
            final(self).grew_from(*old(self)),
            final(self).image() == old(self).image(),
            final(self).end == old(self).end,
            r matches Err(e) ==> (run is Some ==> final(self).may_fail(e@)),
            r matches Ok(o) ==> {
                &&& o.key@.len() <= MAX_KEY
                &&& sorted(views(o.rows@))
                &&& basic(
                    views(o.rows@),
                    final(self).end as int,
                    final(self).generation as int,
                )
                &&& o.fence matches Some((at, _, bytes)) ==> bytes <= DELTA_BYTES && 8 <= at
                &&& run matches Some(u) ==> {
                    &&& u.going(*final(self), root, count, i)
                    &&& u.opened(o, i)
                    &&& u.f.place(u.w0, i).holds(
                        *final(self),
                        root,
                        o.fence,
                        o.key@,
                        bound_view(o.upper),
                        views(o.rows@),
                        u.f.writes,
                        i,
                        count as int,
                    )
                }
            },
    {
        let ghost w1 = *self;
        proof {
            if let Some(u) = run {
                run_reads(u, w1, root, count, i);
            }
        }
        let fence = self.view_floor(view_root, end, first)?;
        if view_root != 0 && fence.is_none() {
            return Err(corrupt("missing packed sentinel"));
        }
        let key = match &fence {
            Some(n) => copy(n.key.as_slice()),
            None => Vec::new(),
        };
        let upper = match self.view_successor(view_root, end, key.as_slice())? {
            Some(n) => Some(n.key),
            None => None,
        };
        let page = match &fence {
            Some(n) => {
                let page = self.view_load(generation, end, n.value)?;
                proof {
                    loaded_for_merge(*self, generation, end, n.value);
                }
                page
            },
            None => Materialized { rows: Vec::new(), depth: 0, delta_bytes: 0 },
        };
        let head = match &fence {
            Some(n) => Some((n.value, page.depth, page.delta_bytes)),
            None => None,
        };
        let opened = Opened { fence: head, key, upper, rows: page.rows };
        proof {
            if fence is None {
                assert(views(opened.rows@) =~= Seq::empty());
                assert(opened.key@ =~= Seq::empty());
            }
            if let Some(u) = run {
                run_opened(u, w1, *self, root, count, i, opened);
            }
        }
        Ok(opened)
    }

    #[verifier::rlimit(100)]
    #[verifier::spinoff_prover]
    /// Applies staged writes to a packed version of `count` rows, page by page:
    /// a page that changes little gets a delta, any other is written anew.
    pub fn apply_packed(
        &mut self,
        view_root: u64,
        end: u64,
        generation: u64,
        view_count: u64,
        writes: &KeyMap<Option<Vec<u8>>>,
    ) -> (r: Result<(u64, u64), Error>)
        requires
            old(self).wf(),
            writes.wf(),
            stageable(writes@),
            end <= old(self).end,
            generation < old(self).generation,
        ensures
            final(self).live(),
            final(self).grew_from(*old(self)),
            r is Ok ==> final(self).wf(),
            r matches Ok((x, c)) ==> (c == 0 ==> x == 0),
            forall|want: Seq<(Seq<u8>, Version)>|
                #![trigger packed_stores(old(self).image(), end as int, generation, view_root, want)]
                packed_stores(old(self).image(), end as int, generation, view_root, want)
                    && want.len() + writes@.len() <= u64::MAX && view_count == want.len() ==> {
                    &&& r matches Ok((x, c)) ==> packed_stores(
                        final(self).image(),
                        final(self).end as int,
                        final(self).generation,
                        x,
                        applied(want, writes@, old(self).generation),
                    ) && c == applied(want, writes@, old(self).generation).len()
                    &&& r matches Ok((x, c)) ==> (c > 0 ==> relaid(
                        (Pages {
                            image: old(self).image(),
                            end: end as int,
                            generation,
                            fences: (tree_at(old(self).image(), end as int, view_root)->0).rows(),
                        }),
                        writes@,
                        final(self).image(),
                        final(self).end as int,
                        final(self).generation,
                        (final(self).tree(x)->0).rows(),
                    ))
                    &&& r matches Err(e) ==> final(self).may_fail(e@)
                },
    {
        let ghost w0 = *self;
        let ghost want = choose|want: Seq<(Seq<u8>, Version)>|
            packed_stores(w0.image(), end as int, generation, view_root, want);
        let ghost sound = packed_stores(w0.image(), end as int, generation, view_root, want)
            && want.len() + writes@.len() <= u64::MAX && view_count == want.len();
        let ghost mut run: Option<Run> = None;
        proof {
            assert forall|other: Seq<(Seq<u8>, Version)>|
                packed_stores(w0.image(), end as int, generation, view_root, other)
                implies other == want by {
                packed_stores_determines(
                    w0.image(),
                    end as int,
                    generation,
                    view_root,
                    other,
                    want,
                );
            }
            if sound {
                run = Some(
                    run_begins(w0, end, generation, view_root, view_count, want, writes@),
                );
            }
        }
        let ghost before = Pages {
            image: w0.image(),
            end: end as int,
            generation,
            fences: (tree_at(w0.image(), end as int, view_root)->0).rows(),
        };
        let mut root = view_root;
        let mut count = view_count;
        let mut i: usize = 0;
        let total: usize = writes.len();
        while i < total
            invariant
                self.wf(),
                self.grew_from(w0),
                w0 == *old(self),
                writes.wf(),
                stageable(writes@),
                total == writes@.len(),
                i <= total,
                end <= w0.end,
                generation < w0.generation,
                sound == (run is Some),
                run matches Some(u) ==> {
                    &&& u.going(*self, root, count, i as int)
                    &&& u.before == before
                    &&& u.w0 == w0
                    &&& u.from == view_root
                    &&& u.f.writes == writes@
                    &&& u.f.want == want
                },
                before.end == end,
                before.generation == generation,
                sound == (packed_stores(w0.image(), end as int, generation, view_root, want)
                    && want.len() + writes@.len() <= u64::MAX && view_count == want.len()),
                forall|other: Seq<(Seq<u8>, Version)>|
                    packed_stores(w0.image(), end as int, generation, view_root, other) ==> other
                        == want,
            decreases total - i,
        {
            let page = self.open_page(
                view_root,
                end,
                generation,
                writes.key_at(i),
                Ghost(run),
                Ghost(root),
                Ghost(count),
                Ghost(i as int),
            )?;
            let ghost w4 = *self;
            let ghost place = match run {
                Some(u) => u.f.place(w0, i as int),
                None => Place {
                    sound: false,
                    left: Seq::empty(),
                    middle: Seq::empty(),
                    right: Seq::empty(),
                    contents: Seq::empty(),
                },
            };
            let merged = merge_page(
                self,
                root,
                page.fence,
                &page.key,
                &page.upper,
                &page.rows,
                writes,
                i,
                count,
                Ghost(place),
            )?;
            proof {
                if let Some(u) = run {
                    run_moves(u, w4, *self, root, count, i as int, page, merged);
                    run = Some(Run { f: u.f.after(w0, i as int, merged), ..u });
                }
            }
            root = merged.root;
            count = merged.count;
            i = merged.next;
        }
        proof {
            if let Some(u) = run {
                run_ends(u, *self, root, count);
            }
        }
        if count == 0 {
            root = 0;
            proof {
                if sound {
                    let none = applied(want, writes@, self.generation);
                    assert(none =~= Seq::empty());
                    assert(flat(self.image(), self.end as int, self.generation, Seq::empty())
                        =~= Seq::empty());
                    assert((tree_at(self.image(), self.end as int, 0u64)->0).rows() =~= Seq::empty());
                }
            }
        }
        Ok((root, count))
    }
}

} // verus!
