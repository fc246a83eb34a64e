//! Page lineages: a base page under a bounded chain of deltas.
use vstd::prelude::*;

use super::arena::{extends, read_record, unreadable};
use super::bytes::{before, lt, same};
use super::cache::nodes_only;
use super::epoch::{page_at, page_stable, Epoch};
use super::model::{corrupt, Error, Fail};
use super::overlay::{below, over};
use super::page::{
    encoded_size, parsed_record, row_size, rows_size, storable, views, Cell, Record, RecordView,
    Row, Value, BASE, DELTA, DELTA_BYTES, MAX_DEPTH, PAGE_BYTES,
};
use super::rows::{
    lookup, put, put_meaning, rank, rank_after, rank_is, rank_splits, sorted, take_lookup,
    without, without_meaning,
};

verus! {

broadcast use super::cache::group_nodes_only;

/// A change in a delta: a new cell, or removal.
pub open spec fn change_of(c: Cell) -> Option<Cell> {
    if c.1 is Deleted {
        None
    } else {
        Some(c)
    }
}

/// The changes of a delta.
pub open spec fn changes_of(delta: Seq<(Seq<u8>, Cell)>) -> Seq<(Seq<u8>, Option<Cell>)> {
    delta.map_values(|r: (Seq<u8>, Cell)| (r.0, change_of(r.1)))
}

/// Rows with the first `i` rows of a delta laid over them.
pub open spec fn overlay_upto(
    rows: Seq<(Seq<u8>, Cell)>,
    delta: Seq<(Seq<u8>, Cell)>,
    i: nat,
) -> Seq<(Seq<u8>, Cell)>
    decreases i,
{
    if i == 0 {
        rows
    } else {
        let now = overlay_upto(rows, delta, (i - 1) as nat);
        let d = delta[i - 1];
        if d.1.1 is Deleted {
            without(now, d.0)
        } else {
            put(now, d.0, d.1)
        }
    }
}

/// Rows with a delta laid over them.
pub open spec fn overlay(rows: Seq<(Seq<u8>, Cell)>, delta: Seq<(Seq<u8>, Cell)>) -> Seq<
    (Seq<u8>, Cell),
> {
    overlay_upto(rows, delta, delta.len())
}

/// Every cell of rows satisfies what base pages of this place and time may hold.
pub open spec fn basic(rows: Seq<(Seq<u8>, Cell)>, at: int, generation: int) -> bool {
    forall|i: int| 0 <= i < rows.len() ==> storable(#[trigger] rows[i], BASE, at, generation)
}

proof fn changes_lookup(delta: Seq<(Seq<u8>, Cell)>, k: Seq<u8>)
    ensures
        lookup(changes_of(delta), k) == match lookup(delta, k) {
            Some(c) => Some(change_of(c)),
            None => None,
        },
        sorted(delta) ==> sorted(changes_of(delta)),
{
    let c = changes_of(delta);
    assert forall|i: int| 0 <= i < delta.len() implies (#[trigger] delta[i]).0 == c[i].0 by {}
    super::contents::same_rank(delta, c, k);
}

/// Laying a delta over rows changes exactly what the delta says.
pub proof fn overlay_upto_meaning(
    rows: Seq<(Seq<u8>, Cell)>,
    delta: Seq<(Seq<u8>, Cell)>,
    i: nat,
    at: int,
    generation: int,
)
    requires
        sorted(rows),
        sorted(delta),
        i <= delta.len(),
        basic(rows, at, generation),
        forall|j: int|
            0 <= j < delta.len() ==> storable(#[trigger] delta[j], DELTA, at, generation),
    ensures
        over(rows, overlay_upto(rows, delta, i), changes_of(delta.take(i as int))),
        basic(overlay_upto(rows, delta, i), at, generation),
    decreases i,
{
    let next = overlay_upto(rows, delta, i);
    if i == 0 {
        assert forall|k: Seq<u8>| #[trigger] lookup(rows, k) == (match lookup(
            changes_of(delta.take(0)),
            k,
        ) {
            Some(c) => c,
            None => lookup(rows, k),
        }) by {
            changes_lookup(delta.take(0), k);
            assert(rank(delta.take(0), k) == 0);
        }
    } else {
        overlay_upto_meaning(rows, delta, (i - 1) as nat, at, generation);
        let now = overlay_upto(rows, delta, (i - 1) as nat);
        let d = delta[i - 1];
        take_lookup(delta, i - 1);
        put_meaning(now, d.0, d.1);
        without_meaning(now, d.0);
        assert forall|k: Seq<u8>| #[trigger] lookup(next, k) == (match lookup(
            changes_of(delta.take(i as int)),
            k,
        ) {
            Some(c) => c,
            None => lookup(rows, k),
        }) by {
            changes_lookup(delta.take(i as int), k);
            changes_lookup(delta.take(i - 1), k);
            assert(lookup(now, k) == (match lookup(changes_of(delta.take(i - 1)), k) {
                Some(c) => c,
                None => lookup(rows, k),
            }));
        }
        assert(storable(delta[i - 1], DELTA, at, generation));
        assert forall|j: int| 0 <= j < next.len() implies storable(
            #[trigger] next[j],
            BASE,
            at,
            generation,
        ) by {
            rank_splits(now, d.0);
            let r = rank(now, d.0) as int;
            let a = rank_after(now, d.0);
            if j < r {
                assert(next[j] == now[j]);
            } else if d.1.1 is Deleted {
                assert(next[j] == now[j - r + a]);
            } else if j > r {
                assert(next[j] == now[j - r - 1 + a]);
            }
        }
    }
}

pub proof fn overlay_meaning(
    rows: Seq<(Seq<u8>, Cell)>,
    delta: Seq<(Seq<u8>, Cell)>,
    at: int,
    generation: int,
)
    requires
        sorted(rows),
        sorted(delta),
        basic(rows, at, generation),
        forall|j: int|
            0 <= j < delta.len() ==> storable(#[trigger] delta[j], DELTA, at, generation),
    ensures
        over(rows, overlay(rows, delta), changes_of(delta)),
        basic(overlay(rows, delta), at, generation),
        forall|k: Seq<u8>|
            #![trigger lookup(overlay(rows, delta), k)]
            lookup(overlay(rows, delta), k) == match lookup(delta, k) {
                Some(c) => change_of(c),
                None => lookup(rows, k),
            },
{
    overlay_upto_meaning(rows, delta, delta.len(), at, generation);
    assert(delta.take(delta.len() as int) =~= delta);
    assert forall|k: Seq<u8>|
        #![trigger lookup(overlay(rows, delta), k)]
        lookup(overlay(rows, delta), k) == (match lookup(delta, k) {
            Some(c) => change_of(c),
            None => lookup(rows, k),
        }) by {
        changes_lookup(delta, k);
    }
}

/// What a newer record of a lineage demands of the one below it: its depth, its
/// accumulated delta bytes, and that it is no newer.
pub type Demand = Option<(int, int, u64)>;

/// Whether a record may stand in a version of this generation and under the
/// record above it.
pub open spec fn fits(r: RecordView, generation: u64, demand: Demand) -> bool {
    &&& r.generation <= generation
    &&& demand matches Some((depth, bytes, newest)) ==> r.depth == depth && r.delta_bytes == bytes
        && r.generation <= newest
}

/// What a delta demands of the record below it.
pub open spec fn demand_of(r: RecordView) -> Demand {
    Some((r.depth - 1, r.delta_bytes - r.size, r.generation))
}

/// The rows of the lineage whose newest record stands at `at`.
pub open spec fn chain(b: Seq<u8>, end: int, generation: u64, at: u64, demand: Demand) -> Result<
    Seq<(Seq<u8>, Cell)>,
    Fail,
>
    decreases at,
{
    match page_at(b, end, at as int) {
        Err(e) => Err(e),
        Ok(r) => if !fits(r, generation, demand) {
            Err(Fail::Corrupt("packed lineage"@))
        } else if r.kind == BASE {
            Ok(r.rows)
        } else if r.prev < at {
            match chain(b, end, generation, r.prev, demand_of(r)) {
                Err(e) => Err(e),
                Ok(rows) => Ok(overlay(rows, r.rows)),
            }
        } else {
            Err(Fail::Corrupt("packed delta bound/link"@))
        },
    }
}

/// A page with its rows within the page size, and how long its lineage is.
pub open spec fn loaded(b: Seq<u8>, end: int, generation: u64, at: u64) -> Result<
    Seq<(Seq<u8>, Cell)>,
    Fail,
> {
    match chain(b, end, generation, at, None) {
        Err(e) => Err(e),
        Ok(rows) => if 16 + rows_size(rows) > PAGE_BYTES {
            Err(Fail::Corrupt("packed materialized size"@))
        } else {
            Ok(rows)
        },
    }
}

/// The sizes of the deltas on a page, the newest first.
pub open spec fn deltas_on(b: Seq<u8>, end: int, at: u64) -> Seq<int>
    decreases at,
{
    match page_at(b, end, at as int) {
        Ok(r) => if r.kind == DELTA && r.prev < at {
            seq![r.size] + deltas_on(b, end, r.prev)
        } else {
            Seq::empty()
        },
        Err(_) => Seq::empty(),
    }
}

pub open spec fn sum_of(sizes: Seq<int>) -> int
    decreases sizes.len(),
{
    if sizes.len() == 0 {
        0
    } else {
        sizes[0] + sum_of(sizes.skip(1))
    }
}

proof fn lineage_counted(b: Seq<u8>, end: int, generation: u64, at: u64, demand: Demand)
    requires
        chain(b, end, generation, at, demand) is Ok,
    ensures
        page_at(b, end, at as int) matches Ok(r) && deltas_on(b, end, at).len() == r.depth && sum_of(
            deltas_on(b, end, at),
        ) == r.delta_bytes,
    decreases at,
{
    page_facts(b, end, at as int);
    let r = page_at(b, end, at as int)->Ok_0;
    if r.kind != BASE {
        lineage_counted(b, end, generation, r.prev, demand_of(r));
        let rest = deltas_on(b, end, r.prev);
        assert((seq![r.size] + rest).skip(1) =~= rest);
    }
}

/// A page that can be loaded has at most eight deltas, with at most four kilobytes in all.
pub proof fn lineage_bounded(b: Seq<u8>, end: int, generation: u64, at: u64)
    requires
        loaded(b, end, generation, at) is Ok,
    ensures
        deltas_on(b, end, at).len() <= MAX_DEPTH,
        sum_of(deltas_on(b, end, at)) <= DELTA_BYTES,
{
    lineage_counted(b, end, generation, at, None);
    page_facts(b, end, at as int);
}

/// What a point read of a lineage finds, looking at the newest record first.
pub open spec fn point(
    b: Seq<u8>,
    end: int,
    generation: u64,
    at: u64,
    demand: Demand,
    key: Seq<u8>,
) -> Result<Option<Cell>, Fail>
    decreases at,
{
    match page_at(b, end, at as int) {
        Err(e) => Err(e),
        Ok(r) => if !fits(r, generation, demand) {
            Err(Fail::Corrupt("packed point lineage"@))
        } else {
            match lookup(r.rows, key) {
                Some(c) => Ok(change_of(c)),
                None => if r.kind == BASE {
                    Ok(None)
                } else if r.prev < at {
                    point(b, end, generation, r.prev, demand_of(r), key)
                } else {
                    Err(Fail::Corrupt("packed delta bound/link"@))
                },
            }
        },
    }
}

/// Facts about a page that can be read.
pub proof fn page_facts(b: Seq<u8>, end: int, at: int)
    requires
        page_at(b, end, at) is Ok,
        at <= u64::MAX,
    ensures
        ({
            let r = page_at(b, end, at)->Ok_0;
            &&& sorted(r.rows)
            &&& r.kind == BASE || r.kind == DELTA
            &&& r.size <= PAGE_BYTES
            &&& 0 < r.generation
            &&& r.kind == BASE ==> r.depth == 0 && r.delta_bytes == 0
            &&& r.kind == DELTA ==> 8 <= r.prev < at && 0 < r.depth <= MAX_DEPTH && r.size
                <= r.delta_bytes <= DELTA_BYTES
            &&& forall|i: int|
                0 <= i < r.rows.len() ==> storable(
                    #[trigger] r.rows[i],
                    r.kind,
                    at,
                    r.generation as int,
                )
        }),
{
    let kind = b[at + 8];
    let p = read_record(b, end, at, kind)->Ok_0;
    let g = super::bytes::le64(b, at + 16);
    parsed_record(kind, p, at, g);
}

/// A lineage has ordered rows that a base page there could hold, and a point
/// read agrees with them.
pub proof fn chain_facts(b: Seq<u8>, end: int, generation: u64, at: u64, demand: Demand)
    requires
        chain(b, end, generation, at, demand) is Ok,
    ensures
        ({
            let rows = chain(b, end, generation, at, demand)->Ok_0;
            &&& sorted(rows)
            &&& basic(rows, at as int, generation as int)
            &&& forall|k: Seq<u8>|
                #![trigger lookup(rows, k)]
                point(b, end, generation, at, demand, k) == Ok::<Option<Cell>, Fail>(
                    lookup(rows, k),
                )
        }),
    decreases at,
{
    page_facts(b, end, at as int);
    let r = page_at(b, end, at as int)->Ok_0;
    let rows = chain(b, end, generation, at, demand)->Ok_0;
    if r.kind == BASE {
        assert forall|i: int| 0 <= i < rows.len() implies storable(
            #[trigger] rows[i],
            BASE,
            at as int,
            generation as int,
        ) by {}
        assert forall|k: Seq<u8>| #![trigger lookup(rows, k)] point(
            b,
            end,
            generation,
            at,
            demand,
            k,
        ) == Ok::<Option<Cell>, Fail>(lookup(rows, k)) by {
            let i = rank(rows, k) as int;
            if lookup(rows, k) is Some {
                assert(storable(rows[i], BASE, at as int, generation as int));
            }
        }
    } else {
        chain_facts(b, end, generation, r.prev, demand_of(r));
        let under = chain(b, end, generation, r.prev, demand_of(r))->Ok_0;
        assert forall|i: int| 0 <= i < under.len() implies storable(
            #[trigger] under[i],
            BASE,
            at as int,
            generation as int,
        ) by {
            assert(storable(under[i], BASE, r.prev as int, generation as int));
        }
        assert forall|i: int| 0 <= i < r.rows.len() implies storable(
            #[trigger] r.rows[i],
            DELTA,
            at as int,
            generation as int,
        ) by {}
        overlay_meaning(under, r.rows, at as int, generation as int);
        assert forall|k: Seq<u8>| #![trigger lookup(rows, k)] point(
            b,
            end,
            generation,
            at,
            demand,
            k,
        ) == Ok::<Option<Cell>, Fail>(lookup(rows, k)) by {
            assert(lookup(overlay(under, r.rows), k) == (match lookup(r.rows, k) {
                Some(c) => change_of(c),
                None => lookup(under, k),
            }));
        }
    }
}

/// A lineage keeps its meaning when the arena and the generation grow.
pub proof fn chain_stable(
    a: Seq<u8>,
    b: Seq<u8>,
    end: int,
    later: int,
    generation: u64,
    newer: u64,
    at: u64,
    demand: Demand,
)
    requires
        extends(b, a),
        end <= later,
        generation <= newer,
        chain(a, end, generation, at, demand) is Ok,
    ensures
        chain(b, later, newer, at, demand) == chain(a, end, generation, at, demand),
        page_at(b, later, at as int) == page_at(a, end, at as int),
        page_at(a, end, at as int) is Ok,
    decreases at,
{
    page_stable(a, b, end, later, at as int);
    let r = page_at(a, end, at as int)->Ok_0;
    if r.kind != BASE {
        chain_stable(a, b, end, later, generation, newer, r.prev, demand_of(r));
    }
}

/// A base under the deltas `ds`, the newest first.
pub open spec fn stacked(
    rows: Seq<(Seq<u8>, Cell)>,
    ds: Seq<Seq<(Seq<u8>, Cell)>>,
) -> Seq<(Seq<u8>, Cell)>
    decreases ds.len(),
{
    if ds.len() == 0 {
        rows
    } else {
        stacked(overlay(rows, ds.last()), ds.drop_last())
    }
}

/// Materialized rows of a page and how long its lineage is.
#[derive(Debug)]
pub struct Materialized {
    pub rows: Vec<Row>,
    pub depth: u32,
    pub delta_bytes: usize,
}

/// The position of a key among rows.
fn place(rows: &Vec<Row>, key: &[u8]) -> (i: usize)
    requires
        sorted(views(rows@)),
    ensures
        i == rank(views(rows@), key@),
        i <= rows@.len(),
{
    let mut lo: usize = 0;
    let mut hi: usize = rows.len();
    while lo < hi
        invariant
            sorted(views(rows@)),
            0 <= lo <= hi <= rows@.len(),
            lo > 0 ==> lt(views(rows@)[lo - 1].0, key@),
            hi < rows@.len() ==> !lt(views(rows@)[hi as int].0, key@),
        decreases hi - lo,
    {
        let mid: usize = lo + (hi - lo) / 2;
        if before(rows[mid].key.as_slice(), key) {
            lo = mid + 1;
        } else {
            hi = mid;
        }
    }
    proof {
        rank_is(views(rows@), key@, lo as int);
    }
    lo
}

/// Lays a delta over rows.
fn lay_over(rows: &mut Vec<Row>, delta: &Vec<Row>)
    requires
        sorted(views(old(rows)@)),
        sorted(views(delta@)),
    ensures
        views(final(rows)@) == overlay(views(old(rows)@), views(delta@)),
        sorted(views(final(rows)@)),
{
    let ghost start = views(rows@);
    let mut i: usize = 0;
    while i < delta.len()
        invariant
            0 <= i <= delta@.len(),
            sorted(views(rows@)),
            sorted(views(delta@)),
            views(rows@) == overlay_upto(start, views(delta@), i as nat),
        decreases delta@.len() - i,
    {
        let d: &Row = &delta[i];
        let ghost now = views(rows@);
        let ghost dv = views(delta@)[i as int];
        let p: usize = place(rows, d.key.as_slice());
        proof {
            put_meaning(now, dv.0, dv.1);
            without_meaning(now, dv.0);
        }
        let hit = p < rows.len() && same(rows[p].key.as_slice(), d.key.as_slice());
        if d.value.is_deleted() {
            if hit {
                rows.remove(p);
            }
            assert(views(rows@) =~= without(now, dv.0));
        } else {
            let fresh = d.duplicate();
            if hit {
                rows.set(p, fresh);
            } else {
                rows.insert(p, fresh);
            }
            assert(views(rows@) =~= put(now, dv.0, dv.1));
        }
        i = i + 1;
    }
}

/// Sizes add up from the front.
pub proof fn size_splits(rows: Seq<(Seq<u8>, Cell)>, i: int)
    requires
        0 <= i < rows.len(),
    ensures
        rows_size(rows.take(i + 1)) == rows_size(rows.take(i)) + row_size(rows[i]),
        rows_size(rows.take(i + 1)) <= rows_size(rows),
        0 <= rows_size(rows.take(i)),
    decreases rows.len(),
{
    assert(rows.take(i + 1).drop_last() =~= rows.take(i));
    encoded_size(rows.take(i));
    if i + 1 == rows.len() {
        assert(rows.take(i + 1) =~= rows);
    } else {
        size_splits(rows.drop_last(), i);
        assert(rows.drop_last().take(i) =~= rows.take(i));
        assert(rows.drop_last().take(i + 1) =~= rows.take(i + 1));
    }
}

/// Loads the page at `at` with its lineage.
pub fn load(e: &mut Epoch, generation: u64, end: u64, at: u64, keep: bool) -> (r: Result<
    Materialized,
    Error,
>)
    requires
        old(e).wf(),
    ensures
        final(e).wf(),
        final(e).same_arena(*old(e)),
        !keep ==> nodes_only(old(e).cache@, final(e).cache@),
        r matches Ok(m) ==> {
            &&& loaded(old(e).image@, end as int, generation, at) == Ok::<
                Seq<(Seq<u8>, Cell)>,
                Fail,
            >(views(m.rows@))
            &&& page_at(old(e).image@, end as int, at as int) matches Ok(head) && m.depth
                == head.depth && m.delta_bytes == head.delta_bytes
        },
        r is Ok <==> loaded(old(e).image@, end as int, generation, at) is Ok,
        r matches Err(x) ==> unreadable(x@),
{
    match e.packed_record(at, end, keep) {
        Ok(head) => load_record(e, generation, end, at, head, keep),
        Err(x) => Err(x),
    }
}

#[verifier::rlimit(60)]
/// Loads a page whose newest record was read already.
pub fn load_record(
    e: &mut Epoch,
    generation: u64,
    end: u64,
    at: u64,
    head: Record,
    keep: bool,
) -> (r: Result<Materialized, Error>)
    requires
        old(e).wf(),
        head.wf(),
        page_at(old(e).image@, end as int, at as int) == Ok::<RecordView, Fail>(head@),
    ensures
        final(e).wf(),
        final(e).same_arena(*old(e)),
        !keep ==> nodes_only(old(e).cache@, final(e).cache@),
        r matches Ok(m) ==> {
            &&& loaded(old(e).image@, end as int, generation, at) == Ok::<
                Seq<(Seq<u8>, Cell)>,
                Fail,
            >(views(m.rows@))
            &&& m.depth == head.depth
            &&& m.delta_bytes == head.delta_bytes
        },
        r is Ok <==> loaded(old(e).image@, end as int, generation, at) is Ok,
        r matches Err(x) ==> unreadable(x@),
{
    let ghost b = e.image@;
    let ghost lim = end as int;
    let ghost s0 = *e;
    let head_depth: u32 = head.depth;
    let head_bytes: usize = head.delta_bytes;
    let mut record: Record = head;
    let mut here: u64 = at;
    let mut deltas: Vec<Vec<Row>> = Vec::new();
    let mut expected: Option<(u32, usize, u64)> = None;
    let ghost mut ds: Seq<Seq<(Seq<u8>, Cell)>> = Seq::empty();
    let ghost mut demand: Demand = None;
    let ghost whole = chain(b, lim, generation, at, None);
    let mut rows: Vec<Row> = Vec::new();
    loop
        invariant_except_break
            record.wf(),
            page_at(b, lim, here as int) == Ok::<RecordView, Fail>(record@),
            demand == (match expected {
                Some((d, n, g)) => Some((d as int, n as int, g)),
                None => None,
            }),
            whole == (match chain(b, lim, generation, here, demand) {
                Ok(r) => Ok::<Seq<(Seq<u8>, Cell)>, Fail>(stacked(r, ds)),
                Err(x) => Err(x),
            }),
        invariant
            e.wf(),
            e.same_arena(s0),
            !keep ==> nodes_only(s0.cache@, e.cache@),
            s0 == *old(e),
            b == s0.image@,
            lim == end as int,
            whole == chain(b, lim, generation, at, None),
            ds.len() == deltas@.len(),
            forall|i: int| 0 <= i < ds.len() ==> {
                &&& #[trigger] ds[i] == views(deltas@[i]@)
                &&& sorted(ds[i])
            },
        ensures
            sorted(views(rows@)),
            whole == Ok::<Seq<(Seq<u8>, Cell)>, Fail>(stacked(views(rows@), ds)),
        decreases here,
    {
        proof {
            page_facts(b, lim, here as int);
        }
        let unfit = record.generation > generation || match expected {
            Some((d, n, g)) => record.depth != d || record.delta_bytes != n || record.generation > g,
            None => false,
        };
        if unfit {
            return Err(corrupt("packed lineage"));
        }
        if record.kind == BASE {
            rows = record.rows();
            break;
        }
        let below: u64 = record.prev;
        let next = (record.depth - 1, record.delta_bytes - record.data.len(), record.generation);
        let changes = record.rows();
        let ghost more = ds.push(views(changes@));
        proof {
            assert(more.drop_last() =~= ds);
            ds = more;
            demand = demand_of(record@);
        }
        deltas.push(changes);
        expected = Some(next);
        let got = e.packed_record(below, end, keep);
        match got {
            Ok(p) => {
                record = p;
            },
            Err(x) => {
                assert(chain(b, lim, generation, below, demand) is Err);
                return Err(x);
            },
        }
        here = below;
    }
    let ghost base = views(rows@);
    let mut i: usize = deltas.len();
    assert(ds.take(i as int) =~= ds);
    while i > 0
        invariant
            0 <= i <= deltas@.len(),
            ds.len() == deltas@.len(),
            forall|j: int| 0 <= j < ds.len() ==> {
                &&& #[trigger] ds[j] == views(deltas@[j]@)
                &&& sorted(ds[j])
            },
            sorted(views(rows@)),
            whole == Ok::<Seq<(Seq<u8>, Cell)>, Fail>(
                stacked(views(rows@), ds.take(i as int)),
            ),
        decreases i,
    {
        i = i - 1;
        proof {
            assert(ds.take(i + 1).last() == ds[i as int]);
            assert(ds.take(i + 1).drop_last() =~= ds.take(i as int));
        }
        lay_over(&mut rows, &deltas[i]);
    }
    assert(ds.take(0) =~= Seq::empty());
    if !fits_page(&rows) {
        return Err(corrupt("packed materialized size"));
    }
    Ok(Materialized { rows, depth: head_depth, delta_bytes: head_bytes })
}

/// Whether rows fit one base page.
fn fits_page(rows: &Vec<Row>) -> (r: bool)
    ensures
        r == (16 + rows_size(views(rows@)) <= PAGE_BYTES),
{
    let mut n: usize = 16;
    let mut i: usize = 0;
    assert(views(rows@).take(0) =~= Seq::empty());
    while i < rows.len()
        invariant
            0 <= i <= rows@.len(),
            n == 16 + rows_size(views(rows@).take(i as int)),
            n <= PAGE_BYTES,
        decreases rows@.len() - i,
    {
        proof {
            size_splits(views(rows@), i as int);
        }
        let row: &Row = &rows[i];
        let inline: usize = match &row.value {
            Value::Inline(v) => v.len(),
            _ => 0,
        };
        let room: usize = PAGE_BYTES - n;
        if room < 24 || row.key.len() > room - 24 || inline > room - 24 - row.key.len() {
            return false;
        }
        n = n + 24 + row.key.len() + inline;
        i = i + 1;
    }
    assert(views(rows@).take(rows@.len() as int) =~= views(rows@));
    true
}

} // verus!
