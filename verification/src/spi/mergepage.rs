//! Merging the writes that belong to one page into it.
use vstd::prelude::*;

use super::arena::tree_root;
use super::bytes::{before, copy, group_order, lt};
use super::contents::{changed, stageable, Change, Version};
use super::epoch::page_at;
use super::fences::{
    between, fence_key, flat, flat_one, holds_cells, holds_cells_grows, holds_cells_keys,
    loaded_facts, loaded_stable, page_rows,
};
use super::group::{height_limit_of, rows_fit};
use super::keymap::KeyMap;
use super::layout::{is_base, is_delta, laid, page_stable, split_well};
use super::lineage::{basic, loaded};
use super::merge::{version_changes, Job, Merge};
use super::model::{corrupt, Error, Fail, MAX_KEY};
use super::overlay::{below, over, over_nothing};
use super::page::{rows_size, views, Cell, Row, DELTA_BYTES, MAX_DEPTH};
use super::pagewriter::{put_between, Stretch};
use super::rows::{in_range, lookup, lookup_finds, present, sorted};
use super::tree::{insert_meaning, Slot};
use super::writer::{moved, ArenaWriter};

use super::covering::{covering};

verus! {

broadcast use super::arena::tree_empty;

/// The pages that hold what a merge came to.
pub struct Merged {
    pub root: u64,
    pub count: u64,
    pub next: usize,
    pub fences: Ghost<Seq<(Seq<u8>, Slot)>>,
    pub versions: Ghost<Seq<(Seq<u8>, Version)>>,
}

/// Where a merge takes place: the fences to the left and right, that of the
/// page itself, and the contents of the page.
pub struct Place {
    pub sound: bool,
    pub left: Seq<(Seq<u8>, Slot)>,
    pub middle: Seq<(Seq<u8>, Slot)>,
    pub right: Seq<(Seq<u8>, Slot)>,
    pub contents: Seq<(Seq<u8>, Version)>,
}

impl Place {
    /// What a sound store says of the page and its place.
    pub open spec fn holds(
        self,
        w: ArenaWriter,
        root: u64,
        fence: Option<(u64, u32, usize)>,
        fence_key: Seq<u8>,
        upper: Option<Seq<u8>>,
        rows: Seq<(Seq<u8>, Cell)>,
        writes: Seq<(Seq<u8>, Change)>,
        from: int,
        count: int,
    ) -> bool {
        &&& w.tree(root) matches Some(t) && t.valid() && t.rows() == self.left + self.middle
            + self.right
        &&& fence is Some <==> self.middle.len() == 1
        &&& self.middle.len() <= 1
        &&& fence matches Some((at, depth, bytes)) ==> {
            &&& self.middle[0].0 == fence_key
            &&& self.middle[0].1.0 == at
            &&& loaded(w.image(), w.end as int, w.generation, at) == Ok::<
                Seq<(Seq<u8>, Cell)>,
                Fail,
            >(rows)
            &&& page_at(w.image(), w.end as int, at as int) matches Ok(head) && head.depth == depth
                && head.delta_bytes == bytes
        }
        &&& fence is None ==> rows.len() == 0
        &&& below(self.left, fence_key)
        &&& self.right.len() > 0 <==> upper is Some
        &&& upper is Some ==> upper->0 == self.right[0].0 && lt(fence_key, upper->0)
        &&& between(rows, fence_key, upper)
        &&& holds_cells(w.image(), w.end as int, rows, self.contents)
        &&& from < writes.len()
        &&& !lt(writes[from].0, fence_key)
        &&& upper is Some ==> lt(writes[from].0, upper->0)
        &&& count >= rows.len()
        &&& count + writes.len() - from <= u64::MAX
    }
}

/// Whether the pages of a merge hold the contents with the writes applied.
pub open spec fn merged_well(
    m: Merged,
    w: ArenaWriter,
    place: Place,
    fence_key: Seq<u8>,
    upper: Option<Seq<u8>>,
    writes: Seq<(Seq<u8>, Change)>,
    from: int,
    count: int,
) -> bool {
    let used = writes.subrange(from, m.next as int);
    &&& w.tree(m.root) matches Some(t) && t.valid() && t.rows() == place.left + m.fences@
        + place.right
    &&& covering(w.image(), w.end as int, w.generation, m.fences@, upper)
    &&& m.fences@.len() > 0 ==> m.fences@[0].0 == fence_key
    &&& m.fences@.len() == 0 ==> place.middle.len() == 0
    &&& holds_cells(
        w.image(),
        w.end as int,
        flat(w.image(), w.end as int, w.generation, m.fences@),
        m.versions@,
    )
    &&& sorted(m.versions@)
    &&& between(m.versions@, fence_key, upper)
    &&& over(place.contents, m.versions@, version_changes(used, w.generation))
    &&& forall|i: int| from <= i < writes.len() ==> !lt((#[trigger] writes[i]).0, fence_key)
    &&& upper is Some ==> below(used, upper->0)
    &&& m.next < writes.len() ==> upper is Some && !lt(writes[m.next as int].0, upper->0)
    &&& m.count == count + m.versions@.len() - place.contents.len()
    &&& m.versions@.len() <= place.contents.len() + m.next - from
}

/// A merge that has not begun yet.
fn start_merge(
    w: &ArenaWriter,
    root: u64,
    fence: Option<(u64, u32, usize)>,
    fence_key: &Vec<u8>,
    rows: &Vec<Row>,
    writes: &KeyMap<Option<Vec<u8>>>,
    from: usize,
    count: u64,
    Ghost(upper): Ghost<Option<Seq<u8>>>,
    Ghost(place): Ghost<Place>,
) -> (m: Merge)
    requires
        w.wf(),
        w.generation > 0,
        fence_key@.len() <= MAX_KEY,
        sorted(views(rows@)),
        basic(views(rows@), w.end as int, w.generation as int),
        writes.wf(),
        stageable(writes@),
        from <= writes@.len(),
        place.sound ==> place.holds(
            *w,
            root,
            fence,
            fence_key@,
            upper,
            views(rows@),
            writes@,
            from as int,
            count as int,
        ),
    ensures
        m.wf(*w),
        m.p == 0,
        m.q == from,
        !m.changed,
        m.candidate ==> fence is Some && (fence->0).1 < MAX_DEPTH,
        m.lean(*w),
        m.job@.able <==> fence is Some && (fence->0).1 < MAX_DEPTH,
        m.s.sound@ == place.sound,
        m.s.left@ == place.left,
        m.s.middle@ == place.middle,
        m.s.right@ == place.right,
        m.job@.rows == views(rows@),
        m.job@.writes == writes@,
        m.job@.from == from,
        m.job@.fence == fence_key@,
        m.job@.upper == upper,
        m.job@.count == count,
        m.job@.contents == place.contents,
        m.job@.old_bytes == (match fence {
            Some((_, _, b)) => b as int,
            None => 0int,
        }),
{
    broadcast use group_order;

    let candidate = match fence {
        Some((_, depth, _)) => depth < MAX_DEPTH,
        None => false,
    };
    let ghost job = Job {
        rows: views(rows@),
        writes: writes@,
        from: from as int,
        fence: fence_key@,
        upper,
        able: candidate,
        old_bytes: match fence {
            Some((_, _, b)) => b as int,
            None => 0int,
        },
        count: count as int,
        contents: place.contents,
    };
    let m = Merge {
        s: Stretch {
            root,
            page: Vec::new(),
            page_bytes: 16,
            page_fence: copy(fence_key.as_slice()),
            emitted: false,
            sound: Ghost(place.sound),
            left: Ghost(place.left),
            middle: Ghost(place.middle),
            right: Ghost(place.right),
            written: Ghost(Seq::empty()),
            rows: Ghost(Seq::empty()),
        },
        p: 0,
        q: from,
        changes: Vec::new(),
        changes_bytes: 32,
        candidate,
        changed: false,
        count,
        job: Ghost(job),
        cells: Ghost(Seq::empty()),
        versions: Ghost(Seq::empty()),
    };
    proof {
        over_nothing(job.rows);
        assert(m.s.out() =~= Seq::empty());
        assert(rows_size(views(m.s.page@)) == 0);
        assert(views(m.s.page@) =~= Seq::empty());
        assert(rows_size(views(m.changes@)) == 0);
        assert(super::lineage::changes_of(views(m.changes@)) =~= m.cells@);
        assert(m.job@.writes.subrange(from as int, from as int) =~= Seq::empty());
        assert(rows_size(m.s.out()) == 0);
        if place.sound {
            over_nothing(job.contents);
            assert(m.done(w.generation) =~= Seq::empty());
            assert(flat(w.image(), w.end as int, w.generation, m.s.written@) =~= m.s.rows@);
            assert(m.s.left@ + m.s.standing() + m.s.right@ =~= place.left + place.middle
                + place.right);
            assert forall|i: int| from <= i < writes@.len() implies !lt(
                (#[trigger] writes@[i]).0,
                fence_key@,
            ) by {
                if i > from {
                    assert(lt(writes@[from as int].0, writes@[i].0));
                }
            }
        }
    }
    m
}

/// A page that keeps all its rows holds the same contents.
proof fn unchanged_contents(m: Merge, w: ArenaWriter)
    requires
        m.wf(w),
        m.s.sound@,
        !m.changed,
        m.p == m.job@.rows.len(),
    ensures
        m.s.out() == m.job@.rows,
{
    let rows = m.job@.rows;
    assert(rows.take(m.p as int) =~= rows);
    assert(m.cells@ =~= Seq::empty());
    assert forall|k: Seq<u8>| #[trigger] lookup(rows, k) == (match lookup(m.cells@, k) {
        Some(c) => c,
        None => lookup(rows, k),
    }) by {}
    super::overlay::over_determines(rows, m.s.out(), rows, m.cells@);
}

/// The versions of a finished merge lie in the range of the page.
proof fn finished_versions(m: Merge, w: ArenaWriter)
    requires
        m.wf(w),
        m.s.sound@,
        m.p == m.job@.rows.len(),
        m.job@.upper is Some ==> below(
            m.job@.writes.subrange(m.job@.from, m.q as int),
            m.job@.upper->0,
        ),
    ensures
        over(m.job@.contents, m.versions@, m.done(w.generation)),
        sorted(m.versions@),
        between(m.versions@, m.job@.fence, m.job@.upper),
        between(m.s.out(), m.job@.fence, m.job@.upper),
        holds_cells(w.image(), w.end as int, m.s.out(), m.versions@),
        m.count == m.job@.count + m.versions@.len() - m.job@.contents.len(),
        m.versions@.len() <= m.job@.contents.len() + m.q - m.job@.from,
{
    broadcast use group_order;

    let j = m.job@;
    assert(j.contents.take(m.p as int) =~= j.contents);
    let out = m.s.out();
    let used = j.writes.subrange(j.from, m.q as int);
    let done = m.done(w.generation);
    assert forall|i: int| 0 <= i < out.len() implies in_range(#[trigger] out[i].0, j.fence, j.upper) by {
        let key = out[i].0;
        assert(m.versions@[i].0 == key);
        super::rows::lookup_at(m.versions@, i);
        lookup_finds(done, key);
        holds_cells_keys(w.image(), w.end as int, j.rows, j.contents, key);
        lookup_finds(j.contents, key);
        if present(done, key) {
            let x = choose|x: int| 0 <= x < done.len() && (#[trigger] done[x]).0 == key;
            assert(used[x].0 == key);
            assert(used[x] == j.writes[j.from + x]);
            if j.upper is Some {
                assert(lt(used[x].0, j.upper->0));
            }
        } else {
            let x = choose|x: int| 0 <= x < j.contents.len() && (#[trigger] j.contents[x]).0 == key;
            assert(j.rows[x].0 == key);
            assert(in_range(j.rows[x].0, j.fence, j.upper));
        }
    }
    assert forall|i: int| 0 <= i < m.versions@.len() implies in_range(
        #[trigger] m.versions@[i].0,
        j.fence,
        j.upper,
    ) by {
        assert(out[i].0 == m.versions@[i].0);
    }
}

#[verifier::rlimit(60)]
/// Writes the delta that a merge came to, and sets it under the page's fence.
fn finish_delta(
    w: &mut ArenaWriter,
    m: Merge,
    at: u64,
    depth: u32,
    old_bytes: usize,
    fence_key: &Vec<u8>,
    Ghost(place): Ghost<Place>,
) -> (r: Result<Merged, Error>)
    requires
        m.wf(*old(w)),
        m.candidate,
        m.changes@.len() > 0,
        m.p == m.job@.rows.len(),
        !m.pending(),
        depth < MAX_DEPTH,
        old_bytes == m.job@.old_bytes,
        fence_key@ == m.job@.fence,
        fence_key@.len() <= MAX_KEY,
        m.job@.upper is Some ==> below(
            m.job@.writes.subrange(m.job@.from, m.q as int),
            m.job@.upper->0,
        ),
        m.s.sound@ == place.sound,
        m.s.left@ == place.left,
        m.s.middle@ == place.middle,
        m.s.right@ == place.right,
        m.job@.contents == place.contents,
        place.sound ==> {
            &&& place.middle.len() == 1
            &&& place.middle[0].1.0 == at
            &&& 8 <= at
            &&& loaded(old(w).image(), old(w).end as int, old(w).generation, at) == Ok::<
                Seq<(Seq<u8>, Cell)>,
                Fail,
            >(m.job@.rows)
            &&& page_at(old(w).image(), old(w).end as int, at as int) matches Ok(head) && head.depth
                == depth && head.delta_bytes == old_bytes
        },
    ensures
        final(w).live(),
        final(w).grew_from(*old(w)),
        r matches Err(e) ==> (place.sound ==> final(w).may_fail(e@)),
        r matches Ok(x) ==> {
            &&& final(w).wf()
            &&& x.next == m.q
            &&& place.sound ==> merged_well(
                x,
                *final(w),
                place,
                fence_key@,
                m.job@.upper,
                m.job@.writes,
                m.job@.from,
                m.job@.count,
            )
            &&& place.sound ==> x.fences@.len() == 1 && is_delta(
                final(w).image(),
                final(w).end as int,
                x.fences@[0].1.0,
                (at, depth, old_bytes),
                m.changes_bytes as int,
            ) && flat(
                final(w).image(),
                final(w).end as int,
                final(w).generation,
                x.fences@,
            ) == m.s.out()
        },
{
    broadcast use group_order;

    let ghost w0 = *w;
    let ghost out = m.s.out();
    proof {
        assert(m.job@.rows.take(m.p as int) =~= m.job@.rows);
        if place.sound {
            assert(out =~= views(m.s.page@));
        }
    }
    let new = w.save_delta(
        at,
        depth + 1,
        old_bytes + m.changes_bytes,
        &m.changes,
        Ghost(m.job@.rows),
        Ghost(out),
    )?;
    let ghost w1 = *w;
    let ghost slot = (new, w0.generation);
    proof {
        if place.sound {
            moved(w0, w1, m.s.root);
            let t = w0.tree(m.s.root)->0;
            rows_fit(w0.image(), w0.end as int, m.s.root);
            if m.s.root != 0 {
                tree_root(w0.image(), w0.end as int, m.s.root);
            }
            height_limit_of(w0.image(), w0.end as int, m.s.root);
            insert_meaning(t, fence_key@, slot);
            super::rows::put_meaning(t.rows(), fence_key@, slot);
            put_between(place.left, place.middle, place.right, fence_key@, slot);
        }
    }
    let root = w.insert(m.s.root, fence_key.as_slice(), new, w.generation)?;
    let ghost f = (fence_key@, slot);
    let ghost fences = seq![f];
    proof {
        if place.sound {
            let w2 = *w;
            loaded_stable(
                w1.image(),
                w2.image(),
                w1.end as int,
                w2.end as int,
                w1.generation,
                w2.generation,
                new,
            );
            flat_one(w2.image(), w2.end as int, w2.generation, f);
            page_stable(w1.image(), w2.image(), w1.end as int, w2.end as int, new);
            finished_versions(m, w0);
            holds_cells_grows(
                w0.image(),
                w2.image(),
                w0.end as int,
                w2.end as int,
                out,
                m.versions@,
            );
        }
    }
    Ok(
        Merged {
            root,
            count: m.count,
            next: m.q,
            fences: Ghost(fences),
            versions: Ghost(m.versions@),
        },
    )
}

#[verifier::rlimit(60)]
/// Writes the last page that a merge came to.
fn finish_base(
    w: &mut ArenaWriter,
    m: Merge,
    Ghost(place): Ghost<Place>,
) -> (r: Result<Merged, Error>)
    requires
        m.wf(*old(w)),
        m.p == m.job@.rows.len(),
        !m.pending(),
        m.job@.upper is Some ==> below(
            m.job@.writes.subrange(m.job@.from, m.q as int),
            m.job@.upper->0,
        ),
        m.s.sound@ == place.sound,
        m.s.left@ == place.left,
        m.s.middle@ == place.middle,
        m.s.right@ == place.right,
        m.job@.contents == place.contents,
    ensures
        final(w).live(),
        final(w).grew_from(*old(w)),
        r matches Err(e) ==> (place.sound ==> final(w).may_fail(e@)),
        r matches Ok(x) ==> {
            &&& final(w).wf()
            &&& x.next == m.q
            &&& place.sound ==> merged_well(
                x,
                *final(w),
                place,
                m.job@.fence,
                m.job@.upper,
                m.job@.writes,
                m.job@.from,
                m.job@.count,
            )
            &&& place.sound && m.lean(*old(w)) ==> {
                &&& x.fences@.len() == m.s.written@.len() + 1
                &&& forall|i: int|
                    0 <= i < x.fences@.len() ==> is_base(
                        final(w).image(),
                        final(w).end as int,
                        (#[trigger] x.fences@[i]).1.0,
                    )
                &&& flat(
                    final(w).image(),
                    final(w).end as int,
                    final(w).generation,
                    x.fences@,
                ) == m.s.out()
            }
        },
{
    broadcast use group_order;

    let ghost w0 = *w;
    let ghost m0 = m;
    let mut m = m;
    m.s.emit(w)?;
    proof {
        if place.sound {
            finished_versions(m0, w0);
            holds_cells_grows(
                w0.image(),
                w.image(),
                w0.end as int,
                w.end as int,
                m0.s.out(),
                m0.versions@,
            );
            let upper = m0.job@.upper;
            let before = m0.s.written@;
            let em = m.s.written@;
            let n = before.len() as int;
            assert forall|i: int| 0 <= i < em.len() implies {
                &&& loaded(w.image(), w.end as int, w.generation, (#[trigger] em[i]).1.0) is Ok
                &&& between(
                    page_rows(w.image(), w.end as int, w.generation, em[i]),
                    em[i].0,
                    if i + 1 < em.len() {
                        Some(em[i + 1].0)
                    } else {
                        upper
                    },
                )
            } by {
                if i < n {
                    assert(em[i] == before[i]);
                    if i + 1 < n {
                        assert(em[i + 1] == before[i + 1]);
                    }
                } else {
                    let page = views(m0.s.page@);
                    assert forall|k: int| 0 <= k < page.len() implies in_range(
                        #[trigger] page[k].0,
                        em[i].0,
                        upper,
                    ) by {
                        assert(m0.s.out()[m0.s.rows@.len() + k] == page[k]);
                        assert(in_range(
                            m0.s.out()[m0.s.rows@.len() + k].0,
                            m0.job@.fence,
                            upper,
                        ));
                        assert(in_range(page[k].0, m0.s.page_fence@, None));
                    }
                }
            }
        }
    }
    Ok(
        Merged {
            root: m.s.root,
            count: m.count,
            next: m.q,
            fences: Ghost(m.s.written@),
            versions: Ghost(m.versions@),
        },
    )
}

/// A bound as plain values.
pub open spec fn bound_view(bound: Option<Vec<u8>>) -> Option<Seq<u8>> {
    match bound {
        Some(u) => Some(u@),
        None => None,
    }
}

/// What a sound store says of a place goes on to hold while the writer appends.
pub proof fn place_moves(
    place: Place,
    a: ArenaWriter,
    b: ArenaWriter,
    fence: (u64, u32, usize),
    rows: Seq<(Seq<u8>, Cell)>,
)
    requires
        b.grew_from(a),
        loaded(a.image(), a.end as int, a.generation, fence.0) == Ok::<Seq<(Seq<u8>, Cell)>, Fail>(
            rows,
        ),
    ensures
        loaded(b.image(), b.end as int, b.generation, fence.0) == Ok::<Seq<(Seq<u8>, Cell)>, Fail>(
            rows,
        ),
        page_at(b.image(), b.end as int, fence.0 as int) == page_at(
            a.image(),
            a.end as int,
            fence.0 as int,
        ),
{
    loaded_facts(a.image(), a.end as int, a.generation, fence.0);
    super::lineage::chain_stable(
        a.image(),
        b.image(),
        a.end as int,
        b.end as int,
        a.generation,
        b.generation,
        fence.0,
        None,
    );
}

#[verifier::rlimit(60)]
/// Merges the writes from `from` on that belong to one page into it.
pub fn merge_page(
    w: &mut ArenaWriter,
    root: u64,
    fence: Option<(u64, u32, usize)>,
    fence_key: &Vec<u8>,
    upper: &Option<Vec<u8>>,
    rows: &Vec<Row>,
    writes: &KeyMap<Option<Vec<u8>>>,
    from: usize,
    count: u64,
    Ghost(place): Ghost<Place>,
) -> (r: Result<Merged, Error>)
    requires
        old(w).wf(),
        old(w).generation > 0,
        fence_key@.len() <= MAX_KEY,
        sorted(views(rows@)),
        basic(views(rows@), old(w).end as int, old(w).generation as int),
        writes.wf(),
        stageable(writes@),
        from < writes@.len(),
        fence matches Some((at, _, bytes)) ==> bytes <= DELTA_BYTES && 8 <= at,
        place.sound ==> place.holds(
            *old(w),
            root,
            fence,
            fence_key@,
            bound_view(*upper),
            views(rows@),
            writes@,
            from as int,
            count as int,
        ),
    ensures
        final(w).live(),
        final(w).grew_from(*old(w)),
        r matches Err(e) ==> (place.sound ==> final(w).may_fail(e@)),
        r matches Ok(x) ==> {
            &&& final(w).wf()
            &&& from < x.next <= writes@.len()
            &&& place.sound ==> merged_well(
                x,
                *final(w),
                place,
                fence_key@,
                bound_view(*upper),
                writes@,
                from as int,
                count as int,
            )
            &&& place.sound ==> laid(
                final(w).image(),
                final(w).end as int,
                final(w).generation,
                x.fences@,
                fence,
                place.middle,
                views(rows@),
                writes@.subrange(from as int, x.next as int),
            ) && split_well(
                x.fences@,
                flat(final(w).image(), final(w).end as int, final(w).generation, x.fences@),
            )
        },
{
    broadcast use group_order;

    let ghost w0 = *w;
    let ghost bound: Option<Seq<u8>> = bound_view(*upper);
    let ghost old_rows = views(rows@);
    let old_bytes: usize = match fence {
        Some((_, _, bytes)) => bytes,
        None => 0,
    };
    let mut m = start_merge(
        w,
        root,
        fence,
        fence_key,
        rows,
        writes,
        from,
        count,
        Ghost(bound),
        Ghost(place),
    );
    let ghost job = m.job@;
    let size: usize = rows.len();
    let total: usize = writes.len();
    loop
        invariant
            w.grew_from(w0),
            w0 == *old(w),
            m.wf(*w),
            m.job@ == job,
            job.rows == old_rows,
            old_rows == views(rows@),
            job.writes == writes@,
            job.from == from,
            job.upper == bound,
            bound == bound_view(*upper),
            old_bytes == job.old_bytes,
            old_bytes <= DELTA_BYTES,
            size == rows@.len(),
            total == writes@.len(),
            m.candidate ==> fence is Some && (fence->0).1 < MAX_DEPTH,
            job.able <==> fence is Some && (fence->0).1 < MAX_DEPTH,
            place.sound ==> m.lean(*w),
            m.s.sound@ == place.sound,
            m.s.left@ == place.left,
            m.s.middle@ == place.middle,
            m.s.right@ == place.right,
            bound is Some && m.q > from ==> lt(writes@[m.q - 1].0, bound->0),
            m.q == from ==> place.sound ==> m.pending(),
        ensures
            m.p == size,
            !m.pending(),
        decreases size - m.p + total - m.q,
    {
        let pending = m.q < total && match upper {
            Some(u) => before(writes.key_at(m.q), u.as_slice()),
            None => true,
        };
        if m.p >= size && !pending {
            break ;
        }
        let keep = m.p < size && (!pending || before(
            rows[m.p].key.as_slice(),
            writes.key_at(m.q),
        ));
        proof {
            if m.p < size {
                assert(views(rows@)[m.p as int].0 == rows@[m.p as int].key@);
            }
        }
        if keep {
            m.keep_row(w, rows)?;
        } else {
            m.take_write(w, rows, old_bytes, writes)?;
        }
    }
    if m.q == from {
        return Err(corrupt("packed fence coverage"));
    }
    let ghost used = writes@.subrange(from as int, m.q as int);
    proof {
        if bound is Some {
            assert forall|i: int| 0 <= i < used.len() implies lt(#[trigger] used[i].0, bound->0) by {
                assert(used[i] == writes@[from + i]);
                if from + i < m.q - 1 {
                    assert(lt(writes@[from + i].0, writes@[m.q - 1].0));
                }
            }
        }
        if place.sound && fence is Some {
            place_moves(place, w0, *w, fence->0, old_rows);
        }
        reveal(laid);
        assert(m.used() =~= used);
        if place.sound && !m.changed {
            unchanged_contents(m, *w);
            if fence is Some {
                loaded_facts(w0.image(), w0.end as int, w0.generation, (fence->0).0);
            } else {
                assert(rows_size(old_rows) == 0);
            }
        }
    }
    if !m.changed && !m.s.emitted {
        let ghost kept = place.middle;
        proof {
            if place.sound {
                unchanged_contents(m, *w);
                finished_versions(m, *w);
                if kept.len() == 1 {
                    assert(kept =~= seq![kept[0]]);
                    flat_one(w.image(), w.end as int, w.generation, kept[0]);
                }
            }
        }
        return Ok(
            Merged {
                root: m.s.root,
                count: m.count,
                next: m.q,
                fences: Ghost(kept),
                versions: Ghost(m.versions@),
            },
        );
    }
    if let Some((at, depth, bytes)) = fence {
        if m.candidate && m.changes.len() > 0 {
            return finish_delta(w, m, at, depth, bytes, fence_key, Ghost(place));
        }
    }
    finish_base(w, m, Ghost(place))
}

} // verus!
