//! Merging staged writes into the rows of one page.
use vstd::prelude::*;

use super::bytes::{before, group_order, lt, same};
use super::contents::{stageable, Change, Version};
use super::fences::{between, cell_leads, holds_cells, holds_cells_grows};
use super::keymap::KeyMap;
use super::layout::{
    change_size, delta_size, delta_size_positive, effects, takes_effect,
};
use super::lineage::{basic, change_of, changes_of};
use super::model::Error;
use super::overlay::{below, over, over_change, over_keep, push_lookup};
use super::page::{row_size, rows_size, storable, views, Cell, Row, BASE, DELTA, DELTA_BYTES};
use super::pagewriter::{based_moves, stretch_moves, Stretch};
use super::rows::{in_range, present, sorted};
use super::writer::ArenaWriter;

verus! {

/// The changes of versions that writes of one generation make.
pub open spec fn version_changes(writes: Seq<(Seq<u8>, Change)>, revision: u64) -> Seq<
    (Seq<u8>, Option<Version>),
> {
    writes.map_values(
        |w: (Seq<u8>, Change)|
            (
                w.0,
                match w.1 {
                    Some(v) => Some((v, revision)),
                    None => None::<Version>,
                },
            ),
    )
}

/// What is merged: the rows of a page, the writes from one position on, the
/// bound of the page and the length of its lineage.
pub struct Job {
    pub rows: Seq<(Seq<u8>, Cell)>,
    pub writes: Seq<(Seq<u8>, Change)>,
    pub from: int,
    pub fence: Seq<u8>,
    pub upper: Option<Seq<u8>>,
    pub able: bool,
    pub old_bytes: int,
    pub count: int,
    pub contents: Seq<(Seq<u8>, Version)>,
}

/// A merge under way: `p` rows and the writes up to `q` are used up.
pub struct Merge {
    pub s: Stretch,
    pub p: usize,
    pub q: usize,
    pub changes: Vec<Row>,
    pub changes_bytes: usize,
    pub candidate: bool,
    pub changed: bool,
    pub count: u64,
    pub job: Ghost<Job>,
    pub cells: Ghost<Seq<(Seq<u8>, Option<Cell>)>>,
    pub versions: Ghost<Seq<(Seq<u8>, Version)>>,
}

impl Merge {
    /// Whether the next write belongs to this page.
    pub open spec fn pending(self) -> bool {
        self.q < self.job@.writes.len() && (self.job@.upper is None || lt(
            self.job@.writes[self.q as int].0,
            self.job@.upper->0,
        ))
    }

    /// The writes that are used up, as changes of versions.
    pub open spec fn done(self, revision: u64) -> Seq<(Seq<u8>, Option<Version>)> {
        version_changes(self.job@.writes.subrange(self.job@.from, self.q as int), revision)
    }

    pub open spec fn wf(self, w: ArenaWriter) -> bool {
        let j = self.job@;
        &&& self.s.wf(w)
        &&& sorted(j.rows)
        &&& sorted(j.writes)
        &&& stageable(j.writes)
        &&& basic(j.rows, w.end as int, w.generation as int)
        &&& self.p <= j.rows.len()
        &&& 0 <= j.from <= self.q <= j.writes.len()
        &&& over(j.rows.take(self.p as int), self.s.out(), self.cells@)
        &&& sorted(self.cells@)
        &&& self.ready()
        &&& self.changed == (self.cells@.len() > 0)
        &&& self.candidate ==> self.small(w)
        &&& self.s.sound@ ==> self.right(w)
    }

    /// What was laid out comes before what is still to be merged.
    pub open spec fn ready(self) -> bool {
        let j = self.job@;
        &&& self.p < j.rows.len() ==> below(self.s.out(), j.rows[self.p as int].0) && below(
            self.cells@,
            j.rows[self.p as int].0,
        ) && below(j.writes.subrange(j.from, self.q as int), j.rows[self.p as int].0)
        &&& self.pending() ==> below(self.s.out(), j.writes[self.q as int].0) && below(
            self.cells@,
            j.writes[self.q as int].0,
        ) && below(j.rows.take(self.p as int), j.writes[self.q as int].0)
    }

    /// Whether the changes may still go into a delta.
    pub open spec fn small(self, w: ArenaWriter) -> bool {
        &&& !self.s.emitted
        &&& self.cells@ == changes_of(views(self.changes@))
        &&& sorted(views(self.changes@))
        &&& forall|i: int|
            0 <= i < self.changes@.len() ==> storable(
                #[trigger] views(self.changes@)[i],
                DELTA,
                w.end as int,
                w.generation as int,
            )
        &&& self.changes_bytes == 32 + rows_size(views(self.changes@))
        &&& self.changes_bytes <= DELTA_BYTES
        &&& self.changes@.len() > 0 ==> self.changes_bytes + self.job@.old_bytes <= DELTA_BYTES
    }

    /// The writes that are used up.
    pub open spec fn used(self) -> Seq<(Seq<u8>, Change)> {
        self.job@.writes.subrange(self.job@.from, self.q as int)
    }

    /// In a sound store what changed goes into a delta as long as it may: the page can have one,
    /// it was not split, and what changed fits. Pages that were written are base pages.
    pub open spec fn lean(self, w: ArenaWriter) -> bool {
        let j = self.job@;
        let size = delta_size(j.rows, self.used());
        &&& self.cells@.len() == effects(j.rows, self.used())
        &&& self.candidate <==> j.able && !self.s.emitted && (self.cells@.len() == 0 || 32 + size
            + j.old_bytes <= DELTA_BYTES)
        &&& self.candidate ==> self.changes_bytes == 32 + size
        &&& self.s.split_late()
        &&& self.s.based(w)
    }

    /// In a sound store the rows so far are the contents of the page with the
    /// used-up writes applied.
    pub open spec fn right(self, w: ArenaWriter) -> bool {
        let j = self.job@;
        let out = self.s.out();
        &&& holds_cells(w.image(), w.end as int, j.rows, j.contents)
        &&& holds_cells(w.image(), w.end as int, out, self.versions@)
        &&& over(j.contents.take(self.p as int), self.versions@, self.done(w.generation))
        &&& sorted(self.done(w.generation))
        &&& between(j.rows, j.fence, j.upper)
        &&& forall|i: int| j.from <= i < j.writes.len() ==> !lt((#[trigger] j.writes[i]).0, j.fence)
        &&& self.s.right@.len() > 0 <==> j.upper is Some
        &&& j.upper is Some ==> j.upper->0 == self.s.right@[0].0
        &&& out.len() > 0 ==> !lt(out.last().0, self.s.page_fence@)
        &&& out.len() == 0 ==> self.s.page_fence@ == j.fence
        &&& !self.s.emitted ==> self.s.page_fence@ == j.fence
        &&& self.s.emitted ==> self.s.written@[0].0 == j.fence
        &&& self.count == j.count + out.len() - self.p
        &&& j.count >= j.rows.len()
        &&& j.count + j.writes.len() - j.from <= u64::MAX
        &&& out.len() <= self.p + self.q - j.from
    }
}

/// A later key is behind everything that an earlier key is behind.
proof fn below_later<T>(s: Seq<(Seq<u8>, T)>, a: Seq<u8>, b: Seq<u8>)
    requires
        below(s, a),
        lt(a, b),
    ensures
        below(s, b),
{
    broadcast use group_order;

    assert forall|i: int| 0 <= i < s.len() implies lt(#[trigger] s[i].0, b) by {
        assert(lt(s[i].0, a));
    }
}

/// Keys behind cells are behind the contents that they lead to.
proof fn below_contents(
    b: Seq<u8>,
    end: int,
    rows: Seq<(Seq<u8>, Cell)>,
    want: Seq<(Seq<u8>, Version)>,
    n: int,
    key: Seq<u8>,
)
    requires
        holds_cells(b, end, rows, want),
        0 <= n <= rows.len(),
        below(rows.take(n), key),
    ensures
        below(want.take(n), key),
{
    assert forall|i: int| 0 <= i < want.take(n).len() implies lt(
        #[trigger] want.take(n)[i].0,
        key,
    ) by {
        assert(rows.take(n)[i] == rows[i]);
        assert(lt(rows.take(n)[i].0, key));
    }
}

/// The next key to place is not before the page's fence.
proof fn not_before_fence(m: Merge, w: ArenaWriter, key: Seq<u8>)
    requires
        m.wf(w),
        m.s.sound@,
        below(m.s.out(), key),
        !lt(key, m.job@.fence),
    ensures
        !lt(key, m.s.page_fence@),
{
    broadcast use group_order;

    let out = m.s.out();
    if out.len() > 0 {
        let last = out.last().0;
        assert(out[out.len() - 1] == out.last());
        assert(lt(last, key));
        if lt(key, m.s.page_fence@) {
            super::bytes::lt_transitive(last, key, m.s.page_fence@);
        }
    }
}

proof fn basic_moves(rows: Seq<(Seq<u8>, Cell)>, a: int, b: int, generation: int)
    requires
        basic(rows, a, generation),
        a <= b,
    ensures
        basic(rows, b, generation),
{
    assert forall|i: int| 0 <= i < rows.len() implies storable(
        #[trigger] rows[i],
        BASE,
        b,
        generation,
    ) by {
        assert(storable(rows[i], BASE, a, generation));
    }
}

/// A merge stays what it is while the writer appends other records.
proof fn merge_moves(m: Merge, a: ArenaWriter, b: ArenaWriter)
    requires
        m.wf(a),
        b.wf(),
        b.grew_from(a),
    ensures
        m.wf(b),
{
    stretch_moves(m.s, a, b);
    basic_moves(m.job@.rows, a.end as int, b.end as int, a.generation as int);
    if m.candidate {
        assert forall|i: int| 0 <= i < m.changes@.len() implies storable(
            #[trigger] views(m.changes@)[i],
            DELTA,
            b.end as int,
            b.generation as int,
        ) by {
            assert(storable(views(m.changes@)[i], DELTA, a.end as int, a.generation as int));
        }
    }
    if m.s.sound@ {
        holds_cells_grows(
            a.image(),
            b.image(),
            a.end as int,
            b.end as int,
            m.job@.rows,
            m.job@.contents,
        );
        holds_cells_grows(
            a.image(),
            b.image(),
            a.end as int,
            b.end as int,
            m.s.out(),
            m.versions@,
        );
    }
}

/// One more pair of a row and its version.
proof fn holds_push(
    b: Seq<u8>,
    end: int,
    rows: Seq<(Seq<u8>, Cell)>,
    want: Seq<(Seq<u8>, Version)>,
    row: (Seq<u8>, Cell),
    version: (Seq<u8>, Version),
)
    requires
        holds_cells(b, end, rows, want),
        row.0 == version.0,
        cell_leads(b, end, row.1, version.1),
    ensures
        holds_cells(b, end, rows.push(row), want.push(version)),
{
    let p = rows.push(row);
    let q = want.push(version);
    assert forall|i: int| 0 <= i < p.len() implies (#[trigger] p[i]).0 == q[i].0 && cell_leads(
        b,
        end,
        p[i].1,
        q[i].1,
    ) by {
        if i < rows.len() {
            assert(p[i] == rows[i] && q[i] == want[i]);
        }
    }
}

impl Merge {
    #[verifier::rlimit(100)]
    #[verifier::spinoff_prover]
    /// Takes the next row of the page over unchanged.
    pub fn keep_row(&mut self, w: &mut ArenaWriter, rows: &Vec<Row>) -> (r: Result<(), Error>)
        requires
            old(self).wf(*old(w)),
            views(rows@) == old(self).job@.rows,
            old(self).p < rows@.len(),
            old(self).pending() ==> lt(
                old(self).job@.rows[old(self).p as int].0,
                old(self).job@.writes[old(self).q as int].0,
            ),
        ensures
            final(w).live(),
            final(w).grew_from(*old(w)),
            r matches Err(e) ==> (old(self).s.sound@ ==> final(w).may_fail(e@)),
            r is Ok ==> {
                &&& final(self).wf(*final(w))
                &&& final(self).p == old(self).p + 1
                &&& final(self).q == old(self).q
                &&& final(self).same_job(*old(self))
                &&& old(self).s.sound@ && old(self).lean(*old(w)) ==> final(self).lean(*final(w))
            },
    {
        broadcast use group_order;

        let ghost m0 = *self;
        let ghost w0 = *w;
        let ghost j = self.job@;
        let ghost row_view = j.rows[self.p as int];
        let size: usize = rows.len();
        let row = rows[self.p].duplicate();
        proof {
            assert(row@ == row_view);
            assert(storable(j.rows[self.p as int], BASE, w.end as int, w.generation as int));
            over_keep(j.rows, self.p as int, self.s.out(), self.cells@);
            push_lookup(self.s.out(), row_view);
            if self.s.sound@ {
                assert(in_range(j.rows[self.p as int].0, j.fence, j.upper));
                not_before_fence(*self, *w, row_view.0);
            }
        }
        self.s.add_row(w, row)?;
        self.p = self.p + 1;
        if self.s.emitted {
            self.candidate = false;
            self.changes = Vec::new();
        }
        proof {
            let k = m0.p as int;
            let out = m0.s.out();
            basic_moves(j.rows, w0.end as int, w.end as int, w0.generation as int);
            assert(self.s.out() == out.push(row_view));
            if self.p < j.rows.len() {
                let next = j.rows[self.p as int].0;
                assert(lt(row_view.0, next));
                below_later(out, row_view.0, next);
                below_later(self.cells@, row_view.0, next);
                assert forall|i: int| 0 <= i < self.s.out().len() implies lt(
                    #[trigger] self.s.out()[i].0,
                    next,
                ) by {
                    if i < out.len() {
                        assert(self.s.out()[i] == out[i]);
                    }
                }
            }
            if self.pending() {
                let next = j.writes[self.q as int].0;
                assert forall|i: int| 0 <= i < self.s.out().len() implies lt(
                    #[trigger] self.s.out()[i].0,
                    next,
                ) by {
                    if i < out.len() {
                        assert(self.s.out()[i] == out[i]);
                    }
                }
                let taken = j.rows.take(self.p as int);
                assert forall|i: int| 0 <= i < taken.len() implies lt(
                    #[trigger] taken[i].0,
                    next,
                ) by {
                    if i < k {
                        assert(taken[i] == j.rows.take(k)[i]);
                    } else {
                        assert(taken[i] == row_view);
                    }
                }
            }
            if self.candidate {
                assert forall|i: int| 0 <= i < self.changes@.len() implies storable(
                    #[trigger] views(self.changes@)[i],
                    DELTA,
                    w.end as int,
                    w.generation as int,
                ) by {
                    assert(storable(
                        views(m0.changes@)[i],
                        DELTA,
                        w0.end as int,
                        w0.generation as int,
                    ));
                }
            }
            if self.s.sound@ {
                let v = j.contents[k];
                holds_cells_grows(
                    w0.image(),
                    w.image(),
                    w0.end as int,
                    w.end as int,
                    j.rows,
                    j.contents,
                );
                holds_cells_grows(
                    w0.image(),
                    w.image(),
                    w0.end as int,
                    w.end as int,
                    out,
                    m0.versions@,
                );
                assert(j.rows[k].0 == j.contents[k].0);
                super::contents::same_rank(j.rows, j.contents, Seq::empty());
                holds_push(w.image(), w.end as int, out, m0.versions@, row_view, v);
                assert(below(m0.versions@, v.0)) by {
                    assert(out.take(out.len() as int) =~= out);
                    below_contents(
                        w0.image(),
                        w0.end as int,
                        out,
                        m0.versions@,
                        out.len() as int,
                        v.0,
                    );
                    assert(m0.versions@.take(out.len() as int) =~= m0.versions@);
                }
                let done = m0.done(w0.generation);
                done_below(m0, w0.generation, v.0);
                over_keep(j.contents, k, m0.versions@, done);
                self.versions = Ghost(m0.versions@.push(v));
            }
        }
        Ok(())
    }

    /// Nothing about what is merged changed.
    pub open spec fn same_job(self, other: Merge) -> bool {
        &&& self.job == other.job
        &&& self.s.sound == other.s.sound
        &&& self.s.left == other.s.left
        &&& self.s.middle == other.s.middle
        &&& self.s.right == other.s.right
        &&& other.changed ==> self.changed
        &&& self.candidate ==> other.candidate
    }
}

/// The used-up writes come before a key that is behind all of them.
proof fn done_below(m: Merge, revision: u64, key: Seq<u8>)
    requires
        below(m.job@.writes.subrange(m.job@.from, m.q as int), key),
    ensures
        below(m.done(revision), key),
{
    let ws = m.job@.writes.subrange(m.job@.from, m.q as int);
    assert forall|i: int| 0 <= i < m.done(revision).len() implies lt(
        #[trigger] m.done(revision)[i].0,
        key,
    ) by {
        assert(lt(ws[i].0, key));
    }
}

/// How many rows are used up once the next write is taken.
pub open spec fn used_by(m: Merge) -> int {
    let j = m.job@;
    if m.p < j.rows.len() && j.rows[m.p as int].0 == j.writes[m.q as int].0 {
        m.p + 1
    } else {
        m.p as int
    }
}

/// What is behind a key, with the key itself added.
proof fn below_push<T>(s: Seq<(Seq<u8>, T)>, key: Seq<u8>, x: T, next: Seq<u8>)
    requires
        below(s, key),
        lt(key, next),
    ensures
        below(s, next),
        below(s.push((key, x)), next),
{
    below_later(s, key, next);
    assert forall|i: int| 0 <= i < s.push((key, x)).len() implies lt(
        #[trigger] s.push((key, x))[i].0,
        next,
    ) by {
        if i < s.len() {
            assert(s.push((key, x))[i] == s[i]);
        }
    }
}

/// After a write is taken, what was laid out still comes before the rest.
proof fn ready_after(m0: Merge, m1: Merge, w: ArenaWriter)
    requires
        m0.wf(w),
        m0.pending(),
        m0.p < m0.job@.rows.len() ==> !lt(
            m0.job@.rows[m0.p as int].0,
            m0.job@.writes[m0.q as int].0,
        ),
        m1.job == m0.job,
        m1.q == m0.q + 1,
        m1.p == used_by(m0),
        m1.s.out() == m0.s.out() || exists|c: Cell|
            m1.s.out() == #[trigger] m0.s.out().push((m0.job@.writes[m0.q as int].0, c)),
        m1.cells@ == m0.cells@ || exists|c: Option<Cell>|
            m1.cells@ == #[trigger] m0.cells@.push((m0.job@.writes[m0.q as int].0, c)),
    ensures
        m1.ready(),
{
    broadcast use group_order;

    let j = m0.job@;
    let q = m0.q as int;
    let p = m0.p as int;
    let key = j.writes[q].0;
    let out = m0.s.out();
    let cells = m0.cells@;
    let ws = j.writes.subrange(j.from, q);
    let ws2 = j.writes.subrange(j.from, q + 1);
    assert(ws2 =~= ws.push(j.writes[q]));
    if m1.p < j.rows.len() {
        let next = j.rows[m1.p as int].0;
        if m1.p == p {
            super::bytes::lt_total(key, next);
        } else {
            assert(lt(j.rows[p].0, j.rows[p + 1].0));
        }
        assert(lt(key, next));
        assert forall|c: Cell| below(#[trigger] out.push((key, c)), next) by {
            below_push(out, key, c, next);
        }
        assert forall|c: Option<Cell>| below(#[trigger] cells.push((key, c)), next) by {
            below_push(cells, key, c, next);
        }
        below_later(out, key, next);
        below_later(cells, key, next);
        assert forall|i: int| 0 <= i < ws2.len() implies lt(#[trigger] ws2[i].0, next) by {
            assert(ws2[i] == j.writes[j.from + i]);
            if i < ws.len() {
                assert(lt(j.writes[j.from + i].0, j.writes[q].0));
            }
        }
    }
    if m1.pending() {
        let next = j.writes[q + 1].0;
        assert(lt(key, next));
        assert forall|c: Cell| below(#[trigger] out.push((key, c)), next) by {
            below_push(out, key, c, next);
        }
        assert forall|c: Option<Cell>| below(#[trigger] cells.push((key, c)), next) by {
            below_push(cells, key, c, next);
        }
        below_later(out, key, next);
        below_later(cells, key, next);
        let taken = j.rows.take(m1.p as int);
        assert forall|i: int| 0 <= i < taken.len() implies lt(#[trigger] taken[i].0, next) by {
            if i < p {
                assert(taken[i] == j.rows.take(p)[i]);
                assert(lt(j.rows.take(p)[i].0, key));
            } else {
                assert(taken[i] == j.rows[p]);
            }
        }
    }
}

/// After a write is taken, the versions are the contents with it applied.
proof fn versions_after(m0: Merge, w: ArenaWriter)
    requires
        m0.wf(w),
        m0.pending(),
        m0.s.sound@,
    ensures
        ({
            let j = m0.job@;
            let q = m0.q as int;
            let key = j.writes[q].0;
            let change = match j.writes[q].1 {
                Some(v) => Some((v, w.generation)),
                None => None::<Version>,
            };
            let done = version_changes(j.writes.subrange(j.from, q + 1), w.generation);
            let after = match change {
                Some(v) => m0.versions@.push((key, v)),
                None => m0.versions@,
            };
            &&& over(j.contents.take(used_by(m0)), after, done)
            &&& sorted(done)
        }),
{
    broadcast use group_order;

    let j = m0.job@;
    let q = m0.q as int;
    let p = m0.p as int;
    let key = j.writes[q].0;
    let g = w.generation;
    let change = match j.writes[q].1 {
        Some(v) => Some((v, g)),
        None => None::<Version>,
    };
    let ws = j.writes.subrange(j.from, q);
    let done = m0.done(g);
    let more = version_changes(j.writes.subrange(j.from, q + 1), g);
    assert(more =~= done.push((key, change)));
    assert(below(ws, key)) by {
        assert forall|i: int| 0 <= i < ws.len() implies lt(#[trigger] ws[i].0, key) by {
            assert(ws[i] == j.writes[j.from + i]);
        }
    }
    done_below(m0, g, key);
    let out = m0.s.out();
    assert(out.take(out.len() as int) =~= out);
    below_contents(w.image(), w.end as int, out, m0.versions@, out.len() as int, key);
    assert(m0.versions@.take(out.len() as int) =~= m0.versions@);
    below_contents(w.image(), w.end as int, j.rows, j.contents, p, key);
    super::contents::same_rank(j.rows, j.contents, Seq::empty());
    if p < j.rows.len() {
        assert(j.rows[p].0 == j.contents[p].0);
    }
    over_change(j.contents, p, m0.versions@, done, key, change);
}

/// The next write's key is in none of the rows, where it is not in the next one.
proof fn no_row(m: Merge, w: ArenaWriter)
    requires
        m.wf(w),
        m.pending(),
        m.p < m.job@.rows.len() ==> !lt(m.job@.rows[m.p as int].0, m.job@.writes[m.q as int].0),
        used_by(m) == m.p,
    ensures
        !present(m.job@.rows, m.job@.writes[m.q as int].0),
{
    broadcast use group_order;

    let rows = m.job@.rows;
    let key = m.job@.writes[m.q as int].0;
    if present(rows, key) {
        let i = choose|i: int| 0 <= i < rows.len() && (#[trigger] rows[i]).0 == key;
        if i < m.p {
            assert(rows.take(m.p as int)[i] == rows[i]);
            assert(lt(rows.take(m.p as int)[i].0, key));
        } else if i > m.p {
            assert(lt(rows[m.p as int].0, rows[i].0));
        }
    }
}

/// One more write is used up.
proof fn used_more(a: Merge, b: Merge)
    requires
        b.job == a.job,
        b.q == a.q + 1,
        0 <= a.job@.from <= a.q < a.job@.writes.len(),
    ensures
        b.used() == a.used().push(a.job@.writes[a.q as int]),
        ({
            let (rows, next) = (a.job@.rows, a.job@.writes[a.q as int]);
            &&& effects(rows, b.used()) == effects(rows, a.used()) + if takes_effect(rows, next) {
                1nat
            } else {
                0
            }
            &&& delta_size(rows, b.used()) == delta_size(rows, a.used()) + if takes_effect(
                rows,
                next,
            ) {
                change_size(next)
            } else {
                0
            }
        }),
{
    assert(b.used() =~= a.used().push(a.job@.writes[a.q as int]));
    assert(b.used().drop_last() =~= a.used());
}

impl Merge {
    /// Passes over a write that removes a key which is not there.
    fn skip_write(&mut self, w: &ArenaWriter)
        requires
            old(self).wf(*w),
            old(self).pending(),
            old(self).p < old(self).job@.rows.len() ==> !lt(
                old(self).job@.rows[old(self).p as int].0,
                old(self).job@.writes[old(self).q as int].0,
            ),
            used_by(*old(self)) == old(self).p,
            old(self).job@.writes[old(self).q as int].1 is None,
            old(self).q < usize::MAX,
        ensures
            final(self).wf(*w),
            final(self).p == old(self).p,
            final(self).q == old(self).q + 1,
            final(self).same_job(*old(self)),
            old(self).lean(*w) ==> final(self).lean(*w),
    {
        let ghost m0 = *self;
        self.q = self.q + 1;
        proof {
            no_row(m0, *w);
            used_more(m0, *self);
            ready_after(m0, *self, *w);
            if self.s.sound@ {
                versions_after(m0, *w);
            }
        }
    }

    #[verifier::rlimit(60)]
    /// Notes a change of the next write's key, for the delta.
    fn note_change(
        &mut self,
        w: &ArenaWriter,
        row: &Row,
        old_bytes: usize,
        Ghost(before): Ghost<ArenaWriter>,
    )
        requires
            old(self).wf(before),
            w.wf(),
            w.grew_from(before),
            old(self).pending(),
            row.key@ == old(self).job@.writes[old(self).q as int].0,
            storable(row@, DELTA, w.end as int, w.generation as int),
            old_bytes == old(self).job@.old_bytes,
            old_bytes <= DELTA_BYTES,
        ensures
            final(self).s == old(self).s,
            final(self).p == old(self).p,
            final(self).q == old(self).q,
            final(self).count == old(self).count,
            final(self).job == old(self).job,
            final(self).versions == old(self).versions,
            final(self).changed,
            final(self).cells@ == old(self).cells@.push((row.key@, change_of(row@.1))),
            final(self).candidate ==> old(self).candidate && final(self).small(*w),
            final(self).candidate <==> old(self).candidate && old(self).changes_bytes + row_size(
                row@,
            ) + old_bytes <= DELTA_BYTES,
            final(self).candidate ==> final(self).changes_bytes == old(self).changes_bytes
                + row_size(row@),
    {
        let ghost m0 = *self;
        proof {
            merge_moves(*self, before, *w);
        }
        self.changed = true;
        self.cells = Ghost(m0.cells@.push((row.key@, change_of(row@.1))));
        if self.candidate {
            let more: usize = self.changes_bytes + row.bytes();
            if more + old_bytes <= DELTA_BYTES {
                let fresh = row.duplicate();
                self.changes.push(fresh);
                self.changes_bytes = more;
                proof {
                    let a = views(m0.changes@);
                    let b = views(self.changes@);
                    assert(b =~= a.push(row@));
                    assert(b.drop_last() =~= a);
                    assert(b.last() == row@);
                    assert(changes_of(b) =~= self.cells@);
                    assert(below(a, row.key@)) by {
                        assert forall|i: int| 0 <= i < a.len() implies lt(
                            #[trigger] a[i].0,
                            row.key@,
                        ) by {
                            assert(m0.cells@[i].0 == a[i].0);
                            assert(lt(m0.cells@[i].0, row.key@));
                        }
                    }
                    push_lookup(a, row@);
                    assert forall|i: int| 0 <= i < self.changes@.len() implies storable(
                        #[trigger] b[i],
                        DELTA,
                        w.end as int,
                        w.generation as int,
                    ) by {
                        if i < a.len() {
                            assert(b[i] == a[i]);
                            assert(storable(
                                views(m0.changes@)[i],
                                DELTA,
                                w.end as int,
                                w.generation as int,
                            ));
                        }
                    }
                }
            } else {
                self.candidate = false;
                self.changes = Vec::new();
            }
        }
    }

    #[verifier::rlimit(80)]
    /// Takes the next write over; a row with its key is used up.
    pub fn take_write(
        &mut self,
        w: &mut ArenaWriter,
        rows: &Vec<Row>,
        old_bytes: usize,
        writes: &KeyMap<Option<Vec<u8>>>,
    ) -> (r: Result<(), Error>)
        requires
            old(self).wf(*old(w)),
            views(rows@) == old(self).job@.rows,
            writes@ == old(self).job@.writes,
            old_bytes == old(self).job@.old_bytes,
            old_bytes <= DELTA_BYTES,
            old(self).pending(),
            old(self).p < rows@.len() ==> !lt(
                old(self).job@.rows[old(self).p as int].0,
                old(self).job@.writes[old(self).q as int].0,
            ),
        ensures
            final(w).live(),
            final(w).grew_from(*old(w)),
            r matches Err(e) ==> (old(self).s.sound@ ==> final(w).may_fail(e@)),
            r is Ok ==> {
                &&& final(self).wf(*final(w))
                &&& old(self).p <= final(self).p
                &&& final(self).q == old(self).q + 1
                &&& final(self).same_job(*old(self))
                &&& old(self).s.sound@ && old(self).lean(*old(w)) ==> final(self).lean(*final(w))
            },
    {
        broadcast use group_order;

        let ghost m0 = *self;
        let ghost w0 = *w;
        let ghost j = self.job@;
        let ghost g = w.generation;
        let ghost q = self.q as int;
        let ghost key_view = j.writes[q].0;
        let size: usize = rows.len();
        let total: usize = writes.len();
        let key: &[u8] = writes.key_at(self.q);
        let value: Option<&[u8]> = match writes.value_at(self.q) {
            Some(v) => {
                assert(v.deep_view() =~= v@);
                Some(v.as_slice())
            },
            None => None,
        };
        assert(self.p < rows@.len() ==> rows@[self.p as int]@ == j.rows[self.p as int]);
        let present = self.p < size && same(rows[self.p].key.as_slice(), key);
        if value.is_none() && !present {
            self.skip_write(w);
            return Ok(());
        }
        let row = w.changed_row(key, value)?;
        let ghost w1 = *w;
        let ghost rv = row@;
        self.note_change(w, &row, old_bytes, Ghost(w0));
        let ghost m1 = *self;
        proof {
            merge_moves(m0, w0, w1);
            over_change(
                j.rows,
                m0.p as int,
                m0.s.out(),
                m0.cells@,
                key_view,
                change_of(rv.1),
            );
            if self.s.sound@ {
                versions_after(m0, w1);
            }
            assert(row_size(rv) == change_size(j.writes[q]));
            assert(takes_effect(j.rows, j.writes[q])) by {
                if present {
                    assert(j.rows[m0.p as int].0 == key_view);
                }
            }
            delta_size_positive(j.rows, m0.used());
            if m0.s.based(w0) {
                based_moves(m0.s, w0, w1);
            }
        }
        self.q = self.q + 1;
        proof {
            used_more(m0, *self);
        }
        if present {
            self.p = self.p + 1;
        }
        if value.is_none() {
            self.count = self.count.wrapping_sub(1);
            proof {
                ready_after(m0, *self, w1);
            }
            return Ok(());
        }
        if !present {
            self.count = self.count.wrapping_add(1);
        }
        proof {
            push_lookup(m0.s.out(), rv);
            if self.s.sound@ {
                not_before_fence(m0, w1, key_view);
            }
        }
        self.s.add_row(w, row)?;
        if self.s.emitted {
            self.candidate = false;
            self.changes = Vec::new();
        }
        let ghost version = (j.writes[q].1->0, g);
        self.versions = Ghost(m0.versions@.push((key_view, version)));
        proof {
            assert(self.s.out() == m0.s.out().push((key_view, rv.1)));
            ready_after(m0, *self, w1);
            basic_moves(j.rows, w1.end as int, w.end as int, g as int);
            if self.candidate {
                assert forall|i: int| 0 <= i < self.changes@.len() implies storable(
                    #[trigger] views(self.changes@)[i],
                    DELTA,
                    w.end as int,
                    w.generation as int,
                ) by {
                    assert(storable(
                        views(m1.changes@)[i],
                        DELTA,
                        w1.end as int,
                        w1.generation as int,
                    ));
                }
            }
            if self.s.sound@ {
                holds_push(
                    w1.image(),
                    w1.end as int,
                    m0.s.out(),
                    m0.versions@,
                    rv,
                    (key_view, version),
                );
                holds_cells_grows(
                    w1.image(),
                    w.image(),
                    w1.end as int,
                    w.end as int,
                    self.s.out(),
                    self.versions@,
                );
                holds_cells_grows(
                    w1.image(),
                    w.image(),
                    w1.end as int,
                    w.end as int,
                    j.rows,
                    j.contents,
                );
            }
        }
        Ok(())
    }
}

} // verus!
