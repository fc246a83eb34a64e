//! Building pages: base and delta records, and the merge of staged writes into
//! the rows of a page.
use vstd::prelude::*;

use super::arena::{spans_to, read_back, record_bytes, record_spans, tree_root};
use super::bytes::{copy, group_encoding, group_order, lt, push32, push64};
use super::epoch::page_at;
use super::fences::{
    between, cell_leads, flat, flat_one, flat_splits, loaded_facts, loaded_stable, page_rows,
};
use super::group::rows_fit;
use super::layout::{is_base, is_delta, page_stable, rows_size_push};
use super::lineage::{
    basic, chain, chain_stable, changes_of, demand_of, fits, loaded, overlay, overlay_meaning,
    Demand,
};
use super::model::{budget, Error, Fail, MAX_KEY, MAX_VALUE};
use super::overlay::{below, over, over_determines, push_lookup};
use super::page::{
    base_back, base_mark_bytes, base_payload, delta_back, delta_mark_bytes, delta_payload,
    encode_rows, encodable, encoded_size, parse_record, row_size, rows_size, storable, views,
    Cell, Row, Value, BASE, DELTA, DELTA_BYTES, INLINE_BYTES, MAX_DEPTH, PAGE_BYTES,
};
use super::rows::{in_range, put, rank_is, sorted};
use super::tree::{insert_meaning, Slot};
use super::writer::{moved, ArenaWriter};

verus! {

broadcast use super::arena::tree_empty;

/// A page record that was appended reads back as what was written.
proof fn page_back(b: Seq<u8>, kind: u8, generation: int, payload: Seq<u8>)
    requires
        b.len() >= 8,
        payload.len() <= MAX_VALUE,
        0 <= generation < 0x1_0000_0000_0000_0000,
        kind == BASE || kind == DELTA,
    ensures
        ({
            let grown = b + record_bytes(kind, generation, payload);
            page_at(grown, grown.len() as int, b.len() as int) == parse_record(
                kind,
                payload,
                b.len() as int,
                generation,
            )
        }),
{
    read_back(b, kind, generation, payload);
}

/// A lineage does not depend on what is demanded of it beyond its newest record.
proof fn chain_demand(b: Seq<u8>, end: int, generation: u64, at: u64, demand: Demand)
    requires
        chain(b, end, generation, at, None) is Ok,
        page_at(b, end, at as int) is Ok,
        fits(page_at(b, end, at as int)->Ok_0, generation, demand),
    ensures
        chain(b, end, generation, at, demand) == chain(b, end, generation, at, None),
{
}

proof fn basic_encodable(rows: Seq<(Seq<u8>, Cell)>, kind: u8, at: int, generation: int)
    requires
        forall|i: int| 0 <= i < rows.len() ==> storable(#[trigger] rows[i], kind, at, generation),
    ensures
        forall|i: int| 0 <= i < rows.len() ==> encodable(#[trigger] rows[i]),
{
    assert forall|i: int| 0 <= i < rows.len() implies encodable(#[trigger] rows[i]) by {
        assert(storable(rows[i], kind, at, generation));
    }
}

impl ArenaWriter {
    /// Appends a base page.
    pub fn save_base(&mut self, rows: &Vec<Row>) -> (r: Result<u64, Error>)
        requires
            old(self).wf(),
            sorted(views(rows@)),
            basic(views(rows@), old(self).end as int, old(self).generation as int),
            16 + rows_size(views(rows@)) <= PAGE_BYTES,
            old(self).generation > 0,
        ensures
            final(self).live(),
            final(self).grew_from(*old(self)),
            r matches Ok(at) ==> {
                &&& final(self).wf()
                &&& at == old(self).end
                &&& 8 <= at < final(self).end
                &&& final(self).end == at + 48 + rows_size(views(rows@))
                &&& spans_to(final(self).image(), at as int, final(self).end as int)
                &&& is_base(final(self).image(), final(self).end as int, at)
                &&& loaded(
                    final(self).image(),
                    final(self).end as int,
                    final(self).generation,
                    at,
                ) == Ok::<Seq<(Seq<u8>, Cell)>, Fail>(views(rows@))
            },
            r matches Err(e) ==> final(self).may_fail(e@),
    {
        broadcast use group_encoding;

        let ghost v = views(rows@);
        let ghost b = self.image();
        let ghost g = self.generation as int;
        proof {
            basic_encodable(v, BASE, self.end as int, g);
            assert forall|i: int| 0 <= i < rows@.len() implies encodable(
                (#[trigger] rows@[i])@,
            ) by {
                assert(v[i] == rows@[i]@);
                assert(encodable(v[i]));
            }
            encoded_size(v);
            base_back(v, self.end as int, g);
            page_back(b, BASE, g, base_payload(v));
        }
        let mut bytes: Vec<u8> = base_mark_bytes();
        push32(&mut bytes, rows.len() as u32);
        push32(&mut bytes, 0);
        encode_rows(rows.as_slice(), &mut bytes);
        assert(bytes@ =~= base_payload(v));
        proof {
            read_back(b, BASE, g, bytes@);
        }
        let at = self.record(BASE, bytes.as_slice())?;
        proof {
            record_spans(self.image(), self.end as int, at as int, BASE);
        }
        Ok(at)
    }

    /// Appends a delta over the page at `prev`.
    pub fn save_delta(
        &mut self,
        prev: u64,
        depth: u32,
        total: usize,
        changes: &Vec<Row>,
        Ghost(rows): Ghost<Seq<(Seq<u8>, Cell)>>,
        Ghost(after): Ghost<Seq<(Seq<u8>, Cell)>>,
    ) -> (r: Result<u64, Error>)
        requires
            old(self).wf(),
            sorted(views(changes@)),
            forall|i: int|
                0 <= i < changes@.len() ==> storable(
                    #[trigger] views(changes@)[i],
                    DELTA,
                    old(self).end as int,
                    old(self).generation as int,
                ),
            0 < depth <= MAX_DEPTH,
            32 + rows_size(views(changes@)) <= total <= DELTA_BYTES,
            old(self).generation > 0,
        ensures
            final(self).live(),
            final(self).grew_from(*old(self)),
            r matches Ok(at) ==> final(self).wf() && at == old(self).end && 8 <= at < final(
                self).end,
            r matches Err(e) ==> final(self).may_fail(e@),
            r matches Ok(at) ==> ({
                &&& loaded(old(self).image(), old(self).end as int, old(self).generation, prev)
                    == Ok::<Seq<(Seq<u8>, Cell)>, Fail>(rows)
                &&& page_at(old(self).image(), old(self).end as int, prev as int) matches Ok(head)
                    && head.depth == depth - 1 && head.delta_bytes == total - 32 - rows_size(
                    views(changes@),
                )
                &&& 8 <= prev
                &&& over(rows, after, changes_of(views(changes@)))
                &&& 16 + rows_size(after) <= PAGE_BYTES
            } ==> loaded(
                final(self).image(),
                final(self).end as int,
                final(self).generation,
                at,
            ) == Ok::<Seq<(Seq<u8>, Cell)>, Fail>(after) && is_delta(
                final(self).image(),
                final(self).end as int,
                at,
                (prev, (depth - 1) as u32, (total - 32 - rows_size(views(changes@))) as usize),
                32 + rows_size(views(changes@)),
            )),
    {
        broadcast use group_encoding;

        let ghost v = views(changes@);
        let ghost b = self.image();
        let ghost g = self.generation as int;
        let ghost end = self.end as int;
        let ghost good = {
            &&& loaded(b, end, self.generation, prev) == Ok::<Seq<(Seq<u8>, Cell)>, Fail>(rows)
            &&& page_at(b, end, prev as int) matches Ok(head) && head.depth == depth - 1
                && head.delta_bytes == total - 32 - rows_size(v)
            &&& 8 <= prev
            &&& over(rows, after, changes_of(v))
            &&& 16 + rows_size(after) <= PAGE_BYTES
        };
        proof {
            basic_encodable(v, DELTA, end, g);
            assert forall|i: int| 0 <= i < changes@.len() implies encodable(
                (#[trigger] changes@[i])@,
            ) by {
                assert(v[i] == changes@[i]@);
                assert(encodable(v[i]));
            }
            encoded_size(v);
            if good {
                super::arena::record_extent(b, end, prev as int, b[prev as int + 8]);
                delta_back(prev as int, depth as int, total as int, v, end, g);
                page_back(b, DELTA, g, delta_payload(prev as int, depth as int, total as int, v));
            }
        }
        let mut bytes: Vec<u8> = delta_mark_bytes();
        push64(&mut bytes, prev);
        push32(&mut bytes, depth);
        push32(&mut bytes, changes.len() as u32);
        push32(&mut bytes, total as u32);
        push32(&mut bytes, 0);
        encode_rows(changes.as_slice(), &mut bytes);
        assert(bytes@ =~= delta_payload(prev as int, depth as int, total as int, v));
        let at = self.record(DELTA, bytes.as_slice())?;
        proof {
            if good {
                let b2 = self.image();
                let end2 = self.end as int;
                let gen = self.generation;
                let r = page_at(b2, end2, at as int)->Ok_0;
                chain_stable(b, b2, end, end2, gen, gen, prev, None);
                let head = page_at(b2, end2, prev as int)->Ok_0;
                assert(fits(head, gen, demand_of(r)));
                chain_demand(b2, end2, gen, prev, demand_of(r));
                loaded_facts(b, end, gen, prev);
                assert(basic(rows, end, g)) by {
                    assert forall|i: int| 0 <= i < rows.len() implies storable(
                        #[trigger] rows[i],
                        BASE,
                        end,
                        g,
                    ) by {
                        assert(storable(rows[i], BASE, prev as int, g));
                    }
                }
                overlay_meaning(rows, v, end, g);
                over_determines(rows, overlay(rows, v), after, changes_of(v));
            }
        }
        Ok(at)
    }

    /// The row that a staged write makes of a key; large values go behind a
    /// reference.
    pub fn changed_row(&mut self, key: &[u8], value: Option<&[u8]>) -> (r: Result<Row, Error>)
        requires
            old(self).wf(),
            key@.len() <= MAX_KEY,
            value matches Some(v) ==> v@.len() <= MAX_VALUE,
            old(self).generation > 0,
        ensures
            final(self).live(),
            final(self).grew_from(*old(self)),
            r matches Ok(row) ==> {
                &&& final(self).wf()
                &&& row.key@ == key@
                &&& row.revision == old(self).generation
                &&& row.value@ is Deleted <==> value is None
                &&& storable(
                    row@,
                    if value is Some {
                        BASE
                    } else {
                        DELTA
                    },
                    final(self).end as int,
                    old(self).generation as int,
                )
                &&& value matches Some(v) ==> cell_leads(
                    final(self).image(),
                    final(self).end as int,
                    row@.1,
                    (v@, old(self).generation),
                )
            },
            r matches Err(e) ==> final(self).may_fail(e@),
    {
        let stored = match value {
            None => Value::Deleted,
            Some(v) => if v.len() <= INLINE_BYTES {
                Value::Inline(copy(v))
            } else {
                let at = self.value_record(v)?;
                Value::Overflow { at, len: v.len() }
            },
        };
        Ok(Row { key: copy(key), revision: self.generation, value: stored })
    }
}

/// Setting a fence between others leaves those alone.
pub proof fn put_between<T>(
    x: Seq<(Seq<u8>, T)>,
    y: Seq<(Seq<u8>, T)>,
    z: Seq<(Seq<u8>, T)>,
    key: Seq<u8>,
    value: T,
)
    requires
        sorted(x + y + z),
        below(x, key),
        z.len() > 0 ==> lt(key, z[0].0),
        y.len() == 0 || below(y, key) || (y.len() == 1 && y[0].0 == key),
    ensures
        put(x + y + z, key, value) == x + (if y.len() == 1 && y[0].0 == key {
            seq![(key, value)]
        } else {
            y.push((key, value))
        }) + z,
{
    broadcast use group_order;

    let s = x + y + z;
    let same_key = y.len() == 1 && y[0].0 == key;
    let r = if same_key {
        x.len() as int
    } else {
        x.len() as int + y.len()
    };
    if r > 0 {
        if same_key || y.len() == 0 {
            assert(s[r - 1] == x[r - 1]);
        } else {
            assert(s[r - 1] == y[y.len() - 1]);
        }
    }
    if r < s.len() {
        if same_key {
            assert(s[r] == y[0]);
        } else {
            assert(s[r] == z[0]);
        }
    }
    rank_is(s, key, r);
    let want = x + (if same_key {
        seq![(key, value)]
    } else {
        y.push((key, value))
    }) + z;
    assert(put(s, key, value) =~= want);
}

/// Pages that were written for a stretch of keys, up to `next`.
pub open spec fn written_ok(
    b: Seq<u8>,
    end: int,
    generation: u64,
    em: Seq<(Seq<u8>, Slot)>,
    next: Seq<u8>,
) -> bool {
    forall|i: int|
        0 <= i < em.len() ==> {
            &&& loaded(b, end, generation, (#[trigger] em[i]).1.0) is Ok
            &&& between(
                page_rows(b, end, generation, em[i]),
                em[i].0,
                Some(
                    if i + 1 < em.len() {
                        em[i + 1].0
                    } else {
                        next
                    },
                ),
            )
        }
}

/// A stretch of keys that is being rewritten: the page under construction, the
/// pages already written, and the delta that may replace them all.
pub struct Stretch {
    pub root: u64,
    pub page: Vec<Row>,
    pub page_bytes: usize,
    pub page_fence: Vec<u8>,
    pub emitted: bool,
    pub sound: Ghost<bool>,
    pub left: Ghost<Seq<(Seq<u8>, Slot)>>,
    pub middle: Ghost<Seq<(Seq<u8>, Slot)>>,
    pub right: Ghost<Seq<(Seq<u8>, Slot)>>,
    pub written: Ghost<Seq<(Seq<u8>, Slot)>>,
    pub rows: Ghost<Seq<(Seq<u8>, Cell)>>,
}

impl Stretch {
    /// All rows so far, written or not.
    pub open spec fn out(self) -> Seq<(Seq<u8>, Cell)> {
        self.rows@ + views(self.page@)
    }

    /// In a sound store every written page is a base page.
    pub open spec fn based(self, w: ArenaWriter) -> bool {
        forall|i: int|
            0 <= i < self.written@.len() ==> is_base(
                w.image(),
                w.end as int,
                (#[trigger] self.written@[i]).1.0,
            )
    }

    /// Pages are written as soon as the rows do not fit in one, and no sooner.
    pub open spec fn split_late(self) -> bool {
        self.emitted <==> 16 + rows_size(self.out()) > PAGE_BYTES
    }

    /// The fences of the stretch that are in the index now.
    pub open spec fn standing(self) -> Seq<(Seq<u8>, Slot)> {
        if self.emitted {
            self.written@
        } else {
            self.middle@
        }
    }

    pub open spec fn wf(self, w: ArenaWriter) -> bool {
        &&& w.wf()
        &&& w.generation > 0
        &&& self.page_bytes == 16 + rows_size(views(self.page@))
        &&& self.page_bytes <= PAGE_BYTES
        &&& sorted(self.out())
        &&& basic(views(self.page@), w.end as int, w.generation as int)
        &&& self.page_fence@.len() <= MAX_KEY
        &&& self.emitted == (self.written@.len() > 0)
        &&& self.sound@ ==> self.placed(w)
    }

    /// In a sound store the index is the fences left of the stretch, those
    /// standing in it, and those to its right, and the written pages hold the
    /// rows that were taken off.
    pub open spec fn placed(self, w: ArenaWriter) -> bool {
        &&& w.tree(self.root) matches Some(t) && t.valid() && t.rows() == self.left@
            + self.standing() + self.right@
        &&& self.middle@.len() <= 1
        &&& !self.emitted ==> (self.middle@.len() == 1 ==> self.middle@[0].0 == self.page_fence@)
        &&& below(self.left@, self.page_fence@)
        &&& self.emitted ==> below(self.written@, self.page_fence@)
        &&& self.right@.len() > 0 ==> lt(self.page_fence@, self.right@[0].0) && below(
            self.out(),
            self.right@[0].0,
        )
        &&& between(views(self.page@), self.page_fence@, None)
        &&& written_ok(
            w.image(),
            w.end as int,
            w.generation,
            self.written@,
            self.page_fence@,
        )
        &&& flat(w.image(), w.end as int, w.generation, self.written@) == self.rows@
        &&& !self.emitted ==> self.rows@.len() == 0
    }
}

/// Written pages stay what they are while the writer goes on.
pub proof fn written_moves(a: ArenaWriter, b: ArenaWriter, em: Seq<(Seq<u8>, Slot)>, next: Seq<u8>)
    requires
        b.grew_from(a),
        written_ok(a.image(), a.end as int, a.generation, em, next),
    ensures
        written_ok(b.image(), b.end as int, b.generation, em, next),
        flat(b.image(), b.end as int, b.generation, em) == flat(
            a.image(),
            a.end as int,
            a.generation,
            em,
        ),
    decreases em.len(),
{
    assert forall|i: int| 0 <= i < em.len() implies {
        &&& loaded(b.image(), b.end as int, b.generation, (#[trigger] em[i]).1.0) == loaded(
            a.image(),
            a.end as int,
            a.generation,
            em[i].1.0,
        )
        &&& loaded(a.image(), a.end as int, a.generation, em[i].1.0) is Ok
    } by {
        loaded_stable(
            a.image(),
            b.image(),
            a.end as int,
            b.end as int,
            a.generation,
            b.generation,
            em[i].1.0,
        );
    }
    if em.len() > 0 {
        let init = em.drop_last();
        assert(em[em.len() - 1] == em.last());
        assert forall|i: int| 0 <= i < init.len() implies {
            &&& loaded(a.image(), a.end as int, a.generation, (#[trigger] init[i]).1.0) is Ok
            &&& between(
                page_rows(a.image(), a.end as int, a.generation, init[i]),
                init[i].0,
                Some(
                    if i + 1 < init.len() {
                        init[i + 1].0
                    } else {
                        em.last().0
                    },
                ),
            )
        } by {
            assert(init[i] == em[i]);
        }
        written_moves(a, b, init, em.last().0);
    }
}

/// Base pages stay base pages while the writer goes on.
pub proof fn based_moves(s: Stretch, a: ArenaWriter, b: ArenaWriter)
    requires
        s.based(a),
        b.grew_from(a),
    ensures
        s.based(b),
{
    assert forall|i: int| 0 <= i < s.written@.len() implies is_base(
        b.image(),
        b.end as int,
        (#[trigger] s.written@[i]).1.0,
    ) by {
        page_stable(a.image(), b.image(), a.end as int, b.end as int, s.written@[i].1.0);
    }
}

/// A stretch stays what it is while the writer appends other records.
pub proof fn stretch_moves(s: Stretch, a: ArenaWriter, b: ArenaWriter)
    requires
        s.wf(a),
        b.wf(),
        b.grew_from(a),
    ensures
        s.wf(b),
{
    assert forall|i: int| 0 <= i < views(s.page@).len() implies storable(
        #[trigger] views(s.page@)[i],
        BASE,
        b.end as int,
        b.generation as int,
    ) by {
        assert(storable(views(s.page@)[i], BASE, a.end as int, a.generation as int));
    }
    if s.sound@ {
        moved(a, b, s.root);
        written_moves(a, b, s.written@, s.page_fence@);
    }
}

impl Stretch {
    #[verifier::rlimit(60)]
    /// Writes the page under construction and sets its fence.
    pub fn emit(&mut self, w: &mut ArenaWriter) -> (r: Result<(), Error>)
        requires
            old(self).wf(*old(w)),
        ensures
            final(w).live(),
            final(w).grew_from(*old(w)),
            r matches Err(e) ==> (old(self).sound@ ==> final(w).may_fail(e@)),
            r is Ok ==> {
                &&& final(w).wf()
                &&& final(self).emitted
                &&& final(self).page == old(self).page
                &&& final(self).page_bytes == old(self).page_bytes
                &&& final(self).page_fence == old(self).page_fence
                &&& final(self).sound == old(self).sound
                &&& final(self).left == old(self).left
                &&& final(self).middle == old(self).middle
                &&& final(self).right == old(self).right
                &&& final(self).rows@ == old(self).out()
                &&& final(self).written@.len() == old(self).written@.len() + 1
                &&& old(self).based(*old(w)) ==> final(self).based(*final(w))
                &&& old(self).sound@ ==> {
                    let at = final(self).written@.last().1.0;
                    &&& final(self).written@ == old(self).written@.push(
                        (old(self).page_fence@, (at, old(w).generation)),
                    )
                    &&& final(w).tree(final(self).root) matches Some(t) && t.valid() && t.rows()
                        == old(self).left@ + final(self).written@ + old(self).right@
                    &&& loaded(final(w).image(), final(w).end as int, final(w).generation, at)
                        == Ok::<Seq<(Seq<u8>, Cell)>, Fail>(views(old(self).page@))
                    &&& flat(
                        final(w).image(),
                        final(w).end as int,
                        final(w).generation,
                        final(self).written@,
                    ) == old(self).out()
                    &&& written_ok(
                        final(w).image(),
                        final(w).end as int,
                        final(w).generation,
                        old(self).written@,
                        old(self).page_fence@,
                    )
                }
            },
    {
        broadcast use group_order;

        let ghost w0 = *w;
        let ghost s0 = *self;
        proof {
            assert forall|i: int, j: int| 0 <= i < j < views(self.page@).len() implies lt(
                #[trigger] views(self.page@)[i].0,
                #[trigger] views(self.page@)[j].0,
            ) by {
                let n = self.rows@.len() as int;
                assert(self.out()[n + i] == views(self.page@)[i]);
                assert(self.out()[n + j] == views(self.page@)[j]);
            }
        }
        let at = w.save_base(&self.page)?;
        let ghost w1 = *w;
        let ghost key = self.page_fence@;
        let ghost slot = (at, w0.generation);
        proof {
            if self.sound@ {
                moved(w0, w1, self.root);
                let t = w0.tree(self.root)->0;
                rows_fit(w0.image(), w0.end as int, self.root);
                if self.root != 0 {
                    tree_root(w0.image(), w0.end as int, self.root);
                }
                super::group::height_limit_of(w0.image(), w0.end as int, self.root);
                insert_meaning(t, key, slot);
                super::rows::put_meaning(t.rows(), key, slot);
                put_between(self.left@, self.standing(), self.right@, key, slot);
            }
        }
        let root = w.insert(self.root, self.page_fence.as_slice(), at, w.generation)?;
        self.root = root;
        self.emitted = true;
        self.written = Ghost(s0.written@.push((key, slot)));
        self.rows = Ghost(s0.out());
        proof {
            if s0.based(w0) {
                assert forall|i: int| 0 <= i < self.written@.len() implies is_base(
                    w.image(),
                    w.end as int,
                    (#[trigger] self.written@[i]).1.0,
                ) by {
                    if i < s0.written@.len() {
                        assert(self.written@[i] == s0.written@[i]);
                        page_stable(
                            w0.image(),
                            w.image(),
                            w0.end as int,
                            w.end as int,
                            s0.written@[i].1.0,
                        );
                    } else {
                        page_stable(w1.image(), w.image(), w1.end as int, w.end as int, at);
                    }
                }
            }
            if s0.sound@ {
                let w2 = *w;
                written_moves(w0, w2, s0.written@, key);
                loaded_stable(
                    w1.image(),
                    w2.image(),
                    w1.end as int,
                    w2.end as int,
                    w1.generation,
                    w2.generation,
                    at,
                );
                let f = (key, slot);
                assert(s0.written@.push(f) =~= s0.written@ + seq![f]);
                flat_splits(w2.image(), w2.end as int, w2.generation, s0.written@, seq![f]);
                flat_one(w2.image(), w2.end as int, w2.generation, f);
                if !s0.emitted {
                    assert(s0.written@ =~= Seq::empty());
                    if s0.middle@.len() == 0 {
                        assert(s0.middle@.push(f) =~= s0.written@.push(f));
                    } else {
                        assert(seq![f] =~= s0.written@.push(f));
                    }
                }
            }
        }
        Ok(())
    }

    #[verifier::rlimit(60)]
    /// Adds a row behind all others, starting a new page where it does not fit.
    pub fn add_row(&mut self, w: &mut ArenaWriter, row: Row) -> (r: Result<(), Error>)
        requires
            old(self).wf(*old(w)),
            storable(row@, BASE, old(w).end as int, old(w).generation as int),
            below(old(self).out(), row.key@),
            old(self).sound@ ==> !lt(row.key@, old(self).page_fence@) && (old(self).right@.len() > 0
                ==> lt(row.key@, old(self).right@[0].0)),
        ensures
            final(w).live(),
            final(w).grew_from(*old(w)),
            r matches Err(e) ==> (old(self).sound@ ==> final(w).may_fail(e@)),
            r is Ok ==> {
                &&& final(self).wf(*final(w))
                &&& final(self).out() == old(self).out().push(row@)
                &&& final(self).sound == old(self).sound
                &&& final(self).left == old(self).left
                &&& final(self).middle == old(self).middle
                &&& final(self).right == old(self).right
                &&& old(self).emitted ==> final(self).emitted
                &&& !final(self).emitted ==> final(self).page_fence == old(self).page_fence
                    && final(self).root == old(self).root
                &&& old(self).sound@ && final(self).emitted ==> final(self).written@[0].0
                    == if old(self).emitted {
                    old(self).written@[0].0
                } else {
                    old(self).page_fence@
                }
                &&& old(self).sound@ ==> !lt(row.key@, final(self).page_fence@)
                &&& old(self).sound@ && old(self).split_late() ==> final(self).split_late()
                &&& old(self).based(*old(w)) ==> final(self).based(*final(w))
            },
    {
        broadcast use group_order;

        let ghost w0 = *w;
        let ghost s0 = *self;
        let size: usize = row.bytes();
        proof {
            rows_size_push(self.out(), row@);
            if self.sound@ && !self.emitted {
                assert(self.out() =~= views(self.page@));
            }
        }
        if self.page_bytes + size > PAGE_BYTES {
            if self.page.len() == 0 {
                proof {
                    assert(views(self.page@) =~= Seq::empty());
                }
                return Err(budget("packed row too large"));
            }
            self.emit(w)?;
            self.page = Vec::new();
            self.page_bytes = 16;
            self.page_fence = copy(row.key.as_slice());
            proof {
                let w1 = *w;
                assert(views(self.page@) =~= Seq::empty());
                assert(rows_size(views(self.page@)) == 0);
                assert(self.out() =~= s0.out());
                if s0.sound@ {
                    let em = self.written@;
                    let b = w1.image();
                    let end = w1.end as int;
                    let g = w1.generation;
                    let n = em.len() - 1;
                    let last = views(s0.page@);
                    assert(last[0] == s0.out()[s0.rows@.len() as int]);
                    assert(in_range(last[0].0, s0.page_fence@, None));
                    assert(lt(last[0].0, row.key@));
                    if !lt(s0.page_fence@, row.key@) {
                        super::bytes::lt_total(s0.page_fence@, last[0].0);
                        super::bytes::lt_total(s0.page_fence@, row.key@);
                    }
                    assert(lt(s0.page_fence@, row.key@));
                    assert(em[n].0 == s0.page_fence@);
                    assert forall|i: int| 0 <= i < em.len() implies {
                        &&& loaded(b, end, g, (#[trigger] em[i]).1.0) is Ok
                        &&& between(
                            page_rows(b, end, g, em[i]),
                            em[i].0,
                            Some(
                                if i + 1 < em.len() {
                                    em[i + 1].0
                                } else {
                                    row.key@
                                },
                            ),
                        )
                    } by {
                        if i < n {
                            assert(em[i] == s0.written@[i]);
                            if i + 1 < n {
                                assert(em[i + 1] == s0.written@[i + 1]);
                            }
                        } else {
                            let rows = page_rows(b, end, g, em[i]);
                            assert(rows == last);
                            assert forall|k: int| 0 <= k < rows.len() implies in_range(
                                #[trigger] rows[k].0,
                                em[i].0,
                                Some(row.key@),
                            ) by {
                                assert(in_range(last[k].0, s0.page_fence@, None));
                                assert(s0.out()[s0.rows@.len() + k] == last[k]);
                            }
                        }
                    }
                    assert forall|i: int| 0 <= i < em.len() implies lt(
                        #[trigger] em[i].0,
                        row.key@,
                    ) by {
                        if i < n {
                            assert(em[i] == s0.written@[i]);
                        }
                    }
                    assert forall|i: int| 0 <= i < self.left@.len() implies lt(
                        #[trigger] self.left@[i].0,
                        row.key@,
                    ) by {
                        assert(lt(s0.left@[i].0, s0.page_fence@));
                    }
                    if s0.emitted {
                        assert(em[0] == s0.written@[0]);
                    }
                }
            }
        }
        let ghost s1 = *self;
        let ghost w1 = *w;
        self.page_bytes = self.page_bytes + size;
        let ghost rv = row@;
        self.page.push(row);
        proof {
            assert(views(self.page@) =~= views(s1.page@).push(rv));
            assert(self.out() =~= s1.out().push(rv));
            push_lookup(s1.out(), rv);
            assert(views(self.page@).drop_last() =~= views(s1.page@));
            assert(views(self.page@).last() == rv);
            assert(rows_size(views(self.page@)) == rows_size(views(s1.page@)) + row_size(rv));
            assert forall|i: int| 0 <= i < views(self.page@).len() implies storable(
                #[trigger] views(self.page@)[i],
                BASE,
                w1.end as int,
                w1.generation as int,
            ) by {
                if i < views(s1.page@).len() {
                    assert(views(self.page@)[i] == views(s1.page@)[i]);
                } else {
                    assert(storable(rv, BASE, w0.end as int, w0.generation as int));
                }
            }
            if self.sound@ {
                assert forall|i: int| 0 <= i < views(self.page@).len() implies in_range(
                    #[trigger] views(self.page@)[i].0,
                    self.page_fence@,
                    None,
                ) by {
                    if i < views(s1.page@).len() {
                        assert(in_range(views(s1.page@)[i].0, s1.page_fence@, None));
                    }
                }
                if self.right@.len() > 0 {
                    assert forall|i: int| 0 <= i < self.out().len() implies lt(
                        #[trigger] self.out()[i].0,
                        self.right@[0].0,
                    ) by {
                        if i < s1.out().len() {
                            assert(self.out()[i] == s1.out()[i]);
                        }
                    }
                }
            }
        }
        Ok(())
    }
}

} // verus!
