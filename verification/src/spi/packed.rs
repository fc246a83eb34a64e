//! Reading packed stores: point reads, ordered scans and integrity checking.
use vstd::prelude::*;

use super::arena::{tree_at, unreadable, value_at};
use super::bytes::{before, copy, group_order, lt};
use super::cache::{nodes_only, CacheView};
use super::contents::{Change, Version};
use super::epoch::{offered_page, page_at, Epoch};
use super::fences::{
    cell_leads, fence_key, flat, flat_lookup, flat_one, flat_sorted, flat_splits, floor,
    floor_node, seen,
    holds_cells, holds_cells_keys, loaded_facts, page_ok, page_rows, packed_stores,
    packed_stores_determines, pages_ok, pages_part,
};
use super::lineage::{
    chain, chain_facts, demand_of, load, load_record, loaded, page_facts, point, Demand,
};
use super::model::{budget, corrupt, entries, Entry, Error, Fail, MAX_KEY};
use super::page::{views, Cell, Record, RecordView, Row, Stored, Value, BASE};
use super::rows::{in_range, lookup, range, rank, rank_after, rank_is, rank_splits, sorted};
use super::keymap::KeyMap;
use super::scan::{
    kept, kept_all, kept_grows, below_rank, bound_of, charge, rank_monotone, values_of,
};
use super::search::{row_of_node, weight};
use super::tree::Slot;
use super::walk::{ends_at, gathered, gathered_step, line_from, until};

verus! {

broadcast use {super::arena::tree_empty, super::cache::group_nodes_only};

/// What reading a stored cell gives.
pub open spec fn cell_value(b: Seq<u8>, end: int, s: Stored) -> Option<Seq<u8>> {
    match s {
        Stored::Inline(v) => Some(v),
        Stored::Overflow { at, len } => match value_at(b, end, at as int) {
            Ok(v) => if v.len() == len {
                Some(v)
            } else {
                None
            },
            Err(_) => None,
        },
        Stored::Deleted => None,
    }
}

impl Row {
    /// The value of a visible row.
    pub fn value(&self, e: &mut Epoch, end: u64) -> (r: Result<Vec<u8>, Error>)
        requires
            old(e).wf(),
        ensures
            final(e).wf(),
            final(e).same_arena(*old(e)),
            final(e).cache@ == old(e).cache@,
            match cell_value(old(e).image@, end as int, self.value@) {
                Some(v) => r matches Ok(x) && x@ == v,
                None => r is Err,
            },
            r matches Err(x) ==> unreadable(x@),
            self.value@ is Deleted ==> (r matches Err(x) && x@ == Fail::Corrupt(
                "visible tombstone"@,
            )),
    {
        match &self.value {
            Value::Inline(v) => Ok(copy(v.as_slice())),
            Value::Overflow { at, len } => {
                let v = e.value(*at, end)?;
                if v.len() != *len {
                    return Err(corrupt("packed overflow length"));
                }
                Ok(v)
            },
            Value::Deleted => Err(corrupt("visible tombstone")),
        }
    }
}

/// What the pages of a version hold of a key, in any arena; nothing where a record on the way
/// does not read back.
pub open spec fn cell_back(
    b: Seq<u8>,
    end: int,
    generation: u64,
    root: u64,
    key: Seq<u8>,
) -> Option<Option<Cell>> {
    match floor_node(b, root, key, None) {
        Some(Some(n)) => match point(b, end, generation, n.value, None, key) {
            Ok(c) => Some(c),
            Err(_) => None,
        },
        Some(None) => Some(None),
        None => None,
    }
}

/// What reading a page record does to a cache: nothing where it is there already, and it is
/// offered otherwise.
pub open spec fn page_read(before: CacheView, after: CacheView, at: u64, r: RecordView) -> bool {
    if before.items.contains_key(at) && before.items[at] is Page {
        after == before
    } else {
        offered_page(before, after, at, r)
    }
}

/// What following a lineage to a key does to a cache: its records are read from the newest on,
/// until one has the key or the base is reached.
pub open spec fn pages_read(
    before: CacheView,
    after: CacheView,
    b: Seq<u8>,
    end: int,
    at: u64,
    key: Seq<u8>,
) -> bool
    decreases at,
{
    page_at(b, end, at as int) matches Ok(r) && exists|mid: CacheView| #[trigger]
        page_read(before, mid, at, r) && if lookup(r.rows, key) is Some || r.kind == BASE {
            after == mid
        } else {
            r.prev < at && pages_read(mid, after, b, end, r.prev, key)
        }
}

/// What a point read of a packed version does to a cache: the nodes on the way come in, and the
/// page records of the lineage are offered.
pub open spec fn point_read(
    before: CacheView,
    after: CacheView,
    b: Seq<u8>,
    end: int,
    root: u64,
    key: Seq<u8>,
) -> bool {
    exists|mid: CacheView| #[trigger]
        nodes_only(before, mid) && match floor_node(b, root, key, None) {
            Some(Some(n)) => pages_read(mid, after, b, end, n.value, key),
            _ => after == mid,
        }
}

#[verifier::rlimit(60)]
/// What a point read of a packed version finds for a key.
pub fn find(e: &mut Epoch, root: u64, end: u64, generation: u64, key: &[u8]) -> (r: Result<
    Option<Row>,
    Error,
>)
    requires
        old(e).wf(),
    ensures
        final(e).wf(),
        final(e).same_arena(*old(e)),
        key@.len() > MAX_KEY ==> (r matches Err(x) && x@ == Fail::Budget(
            "key exceeds 4096 bytes"@,
        )),
        key@.len() <= MAX_KEY ==> (r matches Err(x) ==> unreadable(x@)),
        r matches Ok(Some(row)) ==> row.key@ == key@ && !(row.value@ is Deleted),
        r is Ok ==> point_read(
            old(e).cache@,
            final(e).cache@,
            old(e).image@,
            end as int,
            root,
            key@,
        ),
        r matches Ok(x) ==> cell_back(old(e).image@, end as int, generation, root, key@) == Some(
            match x {
                Some(row) => Some(row@.1),
                None => None,
            },
        ),
        key@.len() <= MAX_KEY ==> forall|want: Seq<(Seq<u8>, Version)>|
            #![trigger packed_stores(old(e).image@, end as int, generation, root, want)]
            packed_stores(old(e).image@, end as int, generation, root, want) ==> match lookup(
                want,
                key@,
            ) {
                Some(v) => r matches Ok(Some(row)) && cell_leads(
                    old(e).image@,
                    end as int,
                    row@.1,
                    v,
                ),
                None => r matches Ok(None),
            },
{
    broadcast use group_order;

    if key.len() > MAX_KEY {
        return Err(budget("key exceeds 4096 bytes"));
    }
    let ghost b = e.image@;
    let ghost lim = end as int;
    let ghost s0 = *e;
    let ghost want = choose|want: Seq<(Seq<u8>, Version)>| packed_stores(
        b,
        lim,
        generation,
        root,
        want,
    );
    let ghost sound = packed_stores(b, lim, generation, root, want);
    let ghost fences = (tree_at(b, lim, root)->0).rows();
    proof {
        assert forall|other: Seq<(Seq<u8>, Version)>|
            #![trigger packed_stores(b, lim, generation, root, other)]
            packed_stores(b, lim, generation, root, other) implies other == want by {
            packed_stores_determines(b, lim, generation, root, other, want);
        }
        if sound {
            holds_cells_keys(b, lim, flat(b, lim, generation, fences), want, key@);
            floor_place(fences, key@);
        }
    }
    let fence = match floor(e, root, end, key)? {
        Some(n) => n,
        None => {
            proof {
                if sound {
                    assert(fences =~= Seq::empty());
                    assert(rank(flat(b, lim, generation, fences), key@) == 0);
                }
            }
            return Ok(None);
        },
    };
    let ghost i = rank_after(fences, key@) - 1;
    let ghost first = fence.value;
    let ghost c0 = e.cache@;
    proof {
        if sound {
            flat_lookup(b, lim, generation, fences, i, key@);
            assert(page_ok(b, lim, generation, fences, i));
            loaded_facts(b, lim, generation, fences[i].1.0);
            chain_facts(b, lim, generation, first, None);
            let rows = chain(b, lim, generation, first, None)->Ok_0;
            assert(point(b, lim, generation, first, None, key@) == Ok::<Option<Cell>, Fail>(
                lookup(rows, key@),
            ));
        }
    }
    let mut at: u64 = fence.value;
    let mut expected: Option<(u32, usize, u64)> = None;
    let ghost mut demand: Demand = None;
    loop
        invariant
            e.wf(),
            e.same_arena(s0),
            s0 == *old(e),
            b == s0.image@,
            lim == end as int,
            key@.len() <= MAX_KEY,
            sound == packed_stores(b, lim, generation, root, want),
            forall|other: Seq<(Seq<u8>, Version)>|
                #![trigger packed_stores(b, lim, generation, root, other)]
                packed_stores(b, lim, generation, root, other) ==> other == want,
            demand == (match expected {
                Some((d, n, g)) => Some((d as int, n as int, g)),
                None => None,
            }),
            floor_node(b, root, key@, None) == Some(Some(fence@)),
            nodes_only(s0.cache@, c0),
            forall|after: CacheView| #[trigger]
                pages_read(e.cache@, after, b, lim, at, key@) ==> pages_read(
                    c0,
                    after,
                    b,
                    lim,
                    fence.value,
                    key@,
                ),
            point(b, lim, generation, at, demand, key@) == point(
                b,
                lim,
                generation,
                fence.value,
                None,
                key@,
            ),
            sound ==> match lookup(want, key@) {
                Some(v) => point(b, lim, generation, at, demand, key@) matches Ok(Some(c))
                    && cell_leads(b, lim, c, v),
                None => point(b, lim, generation, at, demand, key@) == Ok::<Option<Cell>, Fail>(
                    None,
                ),
            },
        decreases at,
    {
        let ghost here = e.cache@;
        let record = e.packed_record(at, end, true)?;
        proof {
            page_facts(b, lim, at as int);
            assert(page_read(here, e.cache@, at, record@));
        }
        let unfit = record.generation > generation || match expected {
            Some((d, n, g)) => record.depth != d || record.delta_bytes != n || record.generation > g,
            None => false,
        };
        if unfit {
            return Err(corrupt("packed point lineage"));
        }
        if let Some(row) = record.find(key) {
            assert(pages_read(here, e.cache@, b, lim, at, key@));
            return Ok(
                if row.value.is_deleted() {
                    None
                } else {
                    Some(row)
                },
            );
        }
        if record.kind == BASE {
            assert(pages_read(here, e.cache@, b, lim, at, key@));
            return Ok(None);
        }
        proof {
            assert forall|after: CacheView| #[trigger]
                pages_read(e.cache@, after, b, lim, record.prev, key@) implies pages_read(
                c0,
                after,
                b,
                lim,
                fence.value,
                key@,
            ) by {
                assert(pages_read(here, after, b, lim, at, key@));
            }
        }
        expected = Some(
            (record.depth - 1, record.delta_bytes - record.data.len(), record.generation),
        );
        proof {
            demand = demand_of(record@);
        }
        at = record.prev;
    }
}

/// Where a key's floor fence stands.
pub proof fn floor_place(fences: Seq<(Seq<u8>, Slot)>, key: Seq<u8>)
    requires
        sorted(fences),
        fences.len() > 0 ==> fences[0].0.len() == 0,
    ensures
        ({
            let i = rank_after(fences, key);
            &&& 0 <= i <= fences.len()
            &&& fences.len() > 0 ==> i > 0
            &&& i > 0 ==> !lt(key, fences[i - 1].0)
            &&& i < fences.len() ==> lt(key, fences[i].0)
        }),
{
    broadcast use group_order;

    rank_splits(fences, key);
    let i = rank_after(fences, key);
    if fences.len() > 0 && i == 0 {
        assert(!lt(fences[0].0, key));
        super::bytes::lt_total(fences[0].0, key);
        assert(lt(key, fences[0].0));
        assert(false);
    }
    if i < fences.len() {
        super::bytes::lt_total(key, fences[i].0);
    }
}

/// The rows from `start` on.
pub open spec fn ahead(rows: Seq<(Seq<u8>, Cell)>, start: Seq<u8>) -> Seq<(Seq<u8>, Cell)> {
    rows.skip(rank(rows, start) as int)
}

/// Leading rows before `start` do not matter.
proof fn ahead_drop(rows: Seq<(Seq<u8>, Cell)>, start: Seq<u8>, n: int)
    requires
        sorted(rows),
        0 <= n <= rank(rows, start),
    ensures
        sorted(rows.skip(n)),
        ahead(rows.skip(n), start) == ahead(rows, start),
{
    rank_splits(rows, start);
    let t = rows.skip(n);
    assert forall|i: int, j: int| 0 <= i < j < t.len() implies lt(
        #[trigger] t[i].0,
        #[trigger] t[j].0,
    ) by {
        assert(t[i] == rows[n + i] && t[j] == rows[n + j]);
    }
    let r = rank(rows, start) - n;
    if r > 0 {
        assert(t[r - 1] == rows[n + r - 1]);
    }
    if r < t.len() {
        assert(t[r] == rows[n + r]);
    }
    rank_is(t, start, r);
    assert(ahead(t, start) =~= ahead(rows, start));
}

#[verifier::rlimit(60)]
/// The first row of a page is left out, or it is the first of those from `start` on.
proof fn page_head(rows: Seq<(Seq<u8>, Cell)>, start: Seq<u8>)
    requires
        sorted(rows),
        rows.len() > 0,
    ensures
        lt(rows[0].0, start) ==> ahead(rows.skip(1), start) == ahead(rows, start),
        !lt(rows[0].0, start) ==> ahead(rows, start) == rows && ahead(rows.skip(1), start)
            == rows.skip(1),
{
    broadcast use group_order;

    rank_splits(rows, start);
    if lt(rows[0].0, start) {
        ahead_drop(rows, start, 1);
    } else {
        rank_is(rows, start, 0);
        assert(ahead(rows, start) =~= rows);
        let t = rows.skip(1);
        assert forall|i: int, j: int| 0 <= i < j < t.len() implies lt(
            #[trigger] t[i].0,
            #[trigger] t[j].0,
        ) by {
            assert(t[i] == rows[1 + i] && t[j] == rows[1 + j]);
        }
        if t.len() > 0 {
            assert(t[0] == rows[1]);
            assert(lt(rows[0].0, rows[1].0));
        }
        rank_is(t, start, 0);
        assert(ahead(t, start) =~= t);
    }
}

/// From a row at or behind `start` on, nothing is left out.
proof fn ahead_all(rows: Seq<(Seq<u8>, Cell)>, start: Seq<u8>)
    requires
        sorted(rows),
        rows.len() > 0,
        !lt(rows[0].0, start),
    ensures
        ahead(rows, start) == rows,
        sorted(rows.skip(1)),
        ahead(rows.skip(1), start) == rows.skip(1),
{
    broadcast use group_order;

    rank_is(rows, start, 0);
    assert(ahead(rows, start) =~= rows);
    let t = rows.skip(1);
    assert forall|i: int, j: int| 0 <= i < j < t.len() implies lt(
        #[trigger] t[i].0,
        #[trigger] t[j].0,
    ) by {
        assert(t[i] == rows[1 + i] && t[j] == rows[1 + j]);
    }
    if t.len() > 0 {
        assert(t[0] == rows[1]);
        assert(lt(rows[0].0, rows[1].0));
        if lt(rows[1].0, start) {
            super::bytes::lt_transitive(rows[0].0, rows[1].0, start);
        }
    }
    rank_is(t, start, 0);
    assert(ahead(t, start) =~= t);
}

/// Where the fences stop at the upper bound, no row before it is left.
proof fn beyond(
    b: Seq<u8>,
    end: int,
    generation: u64,
    fences: Seq<(Seq<u8>, Slot)>,
    start: Seq<u8>,
)
    requires
        sorted(fences),
        pages_ok(b, end, generation, fences),
        fences.len() > 0,
    ensures
        ({
            let out = ahead(flat(b, end, generation, fences), start);
            out.len() > 0 ==> !lt(out[0].0, fences[0].0) && forall|up: Seq<u8>|
                !lt(fences[0].0, up) ==> !#[trigger] lt(out[0].0, up)
        }),
{
    broadcast use group_order;

    let rem = flat(b, end, generation, fences);
    flat_sorted(b, end, generation, fences);
    rank_splits(rem, start);
    let out = ahead(rem, start);
    if out.len() > 0 {
        let k = rank(rem, start) as int;
        assert(out[0] == rem[k]);
        assert(in_range(rem[k].0, fences[0].0, None));
        assert forall|up: Seq<u8>| !lt(fences[0].0, up) implies !#[trigger] lt(out[0].0, up) by {
            if lt(out[0].0, up) {
                super::bytes::lt_total(out[0].0, fences[0].0);
                super::bytes::lt_total(up, fences[0].0);
            }
        }
    }
}

#[verifier::rlimit(60)]
#[verifier::spinoff_prover]
/// Turning a page passes over rows before `start` only.
proof fn turned(
    b: Seq<u8>,
    end: int,
    generation: u64,
    f: Seq<(Seq<u8>, Slot)>,
    k: int,
    start: Seq<u8>,
)
    requires
        sorted(f),
        pages_ok(b, end, generation, f),
        f.len() > 0,
        0 <= k <= rank(page_rows(b, end, generation, f[0]), start),
    ensures
        ({
            let rest = page_rows(b, end, generation, f[0]).skip(k) + flat(
                b,
                end,
                generation,
                f.skip(1),
            );
            &&& sorted(rest)
            &&& ahead(rest, start) == ahead(flat(b, end, generation, f), start)
        }),
        sorted(f.skip(1)),
        pages_ok(b, end, generation, f.skip(1)),
        loaded(b, end, generation, f[0].1.0) is Ok,
{
    let rem = flat(b, end, generation, f);
    let p = page_rows(b, end, generation, f[0]);
    let f2 = f.skip(1);
    assert(f =~= seq![f[0]] + f2);
    flat_splits(b, end, generation, seq![f[0]], f2);
    flat_one(b, end, generation, f[0]);
    pages_part(b, end, generation, f, 1, f.len() as int);
    assert(f.subrange(1, f.len() as int) =~= f2);
    assert(page_ok(b, end, generation, f, 0));
    loaded_facts(b, end, generation, f[0].1.0);
    flat_sorted(b, end, generation, f);
    rank_splits(p, start);
    rank_splits(rem, start);
    assert(rem =~= p + flat(b, end, generation, f2));
    if rank(rem, start) < k {
        let q = rank(rem, start) as int;
        assert(rem[q] == p[q]);
    }
    ahead_drop(rem, start, k);
    assert(p.skip(k) + flat(b, end, generation, f2) =~= rem.skip(k));
}

#[verifier::rlimit(60)]
/// The first row of the current page is passed over or comes out first.
proof fn first_of_page(cur: Seq<(Seq<u8>, Cell)>, rest: Seq<(Seq<u8>, Cell)>, start: Seq<u8>)
    requires
        sorted(cur + rest),
    ensures
        cur.len() > 0 ==> {
            &&& sorted(cur.skip(1) + rest)
            &&& lt(cur[0].0, start) ==> ahead(cur.skip(1) + rest, start) == ahead(cur + rest, start)
            &&& !lt(cur[0].0, start) ==> {
                let out = ahead(cur + rest, start);
                &&& out.len() > 0
                &&& out[0] == cur[0]
                &&& ahead(cur.skip(1) + rest, start) == out.skip(1)
            }
        },
        forall|none: Seq<(Seq<u8>, Cell)>| #[trigger]
            (none + rest) == cur + rest || none.len() > 0 || cur.len() > 0,
{
    let rem = cur + rest;
    if cur.len() > 0 {
        assert(rem[0] == cur[0]);
        assert(rem.skip(1) =~= cur.skip(1) + rest);
        rank_splits(rem, start);
        if lt(cur[0].0, start) {
            if rank(rem, start) == 0 {
                assert(!lt(rem[0].0, start));
            }
            ahead_drop(rem, start, 1);
        } else {
            ahead_all(rem, start);
        }
    } else {
        assert forall|none: Seq<(Seq<u8>, Cell)>| #[trigger]
            (none + rest) == cur + rest || none.len() > 0 by {
            if none.len() == 0 {
                assert(none + rest =~= cur + rest);
            }
        }
    }
}

/// Rows without a gap.
pub open spec fn unbroken(rows: Seq<(Seq<u8>, Cell)>) -> Seq<Option<(Seq<u8>, Cell)>> {
    rows.map_values(|r: (Seq<u8>, Cell)| Some(r))
}

/// The rows from `start` on of the page under a fence, or a gap.
pub open spec fn page_line(
    b: Seq<u8>,
    end: int,
    generation: u64,
    fence: Option<(Seq<u8>, Slot)>,
    start: Seq<u8>,
) -> Seq<Option<(Seq<u8>, Cell)>> {
    match fence {
        Some(row) => match chain(b, end, generation, row.1.0, None) {
            Ok(rows) => unbroken(ahead(rows, start)),
            Err(_) => seq![None],
        },
        None => seq![None],
    }
}

/// The rows from `start` on of the pages under fences, and a gap for each that does not read
/// back.
pub open spec fn pages_line(
    b: Seq<u8>,
    end: int,
    generation: u64,
    fences: Seq<Option<(Seq<u8>, Slot)>>,
    start: Seq<u8>,
) -> Seq<Option<(Seq<u8>, Cell)>>
    decreases fences.len(),
{
    if fences.len() == 0 {
        Seq::empty()
    } else {
        page_line(b, end, generation, fences[0], start) + pages_line(
            b,
            end,
            generation,
            fences.skip(1),
            start,
        )
    }
}

/// What a walk over a packed version meets, in any arena.
pub open spec fn cells_line(
    b: Seq<u8>,
    end: int,
    generation: u64,
    root: u64,
    start: Seq<u8>,
    stop: Option<Seq<u8>>,
) -> Seq<Option<(Seq<u8>, Cell)>> {
    match floor_node(b, root, start, None) {
        Some(found) => pages_line(
            b,
            end,
            generation,
            until(
                line_from(
                    b,
                    root,
                    match found {
                        Some(n) => n.key,
                        None => Seq::empty(),
                    },
                ),
                stop,
            ),
            start,
        ),
        None => seq![None],
    }
}

/// The value that a cell leads to.
pub open spec fn value_of_cell(b: Seq<u8>, end: int) -> spec_fn(Cell) -> Option<Seq<u8>> {
    |c: Cell| cell_value(b, end, c.1)
}

/// The rows of a packed version in a range, in any arena; nothing where a record on the way
/// does not read back.
pub open spec fn cells_back(
    b: Seq<u8>,
    end: int,
    generation: u64,
    root: u64,
    start: Seq<u8>,
    stop: Option<Seq<u8>>,
    skip: Seq<(Seq<u8>, Change)>,
) -> Option<Seq<(Seq<u8>, Seq<u8>)>> {
    gathered(
        until(cells_line(b, end, generation, root, start, stop), stop),
        value_of_cell(b, end),
        skip,
    )
}

/// What a page gives: a row, a row to pass over, the upper bound, or nothing.
#[derive(Debug)]
pub enum Given {
    Row(Row),
    Skipped,
    Bound,
    Nothing,
}

/// An ordered walk over the rows of a packed version. In direct mode the rows
/// of base pages are decoded one at a time; otherwise pages are loaded whole.
#[derive(Debug)]
pub struct Cursor {
    pub generation: u64,
    pub limit: u64,
    pub fences: super::search::Cursor,
    pub page_record: Option<Record>,
    pub page_index: usize,
    pub page_rows: Vec<Row>,
    pub row_index: usize,
    pub direct: bool,
    pub start: Vec<u8>,
    pub end: Option<Vec<u8>>,
    pub failed: bool,
}

impl Cursor {
    /// What is left of the current page.
    pub open spec fn current(self) -> Seq<(Seq<u8>, Cell)> {
        match self.page_record {
            Some(p) => p@.rows.skip(self.page_index as int),
            None => views(self.page_rows@).skip(self.row_index as int),
        }
    }

    /// The rows to come, before the bounds are looked at.
    pub open spec fn remaining(self, b: Seq<u8>) -> Seq<(Seq<u8>, Cell)> {
        self.current() + flat(b, self.limit as int, self.generation, self.fences.coming(b))
    }

    pub open spec fn upper(self) -> Option<Seq<u8>> {
        match self.end {
            Some(e) => Some(e@),
            None => None,
        }
    }

    /// What the walk meets from here on, in any arena.
    #[verifier::opaque]
    pub open spec fn line(self, b: Seq<u8>) -> Seq<Option<(Seq<u8>, Cell)>> {
        unbroken(ahead(self.current(), self.start@)) + pages_line(
            b,
            self.limit as int,
            self.generation,
            until(self.fences.line(b), self.upper()),
            self.start@,
        )
    }

    pub open spec fn wf(self) -> bool {
        &&& !self.failed ==> !self.fences.failed
        &&& sorted(self.current())
        &&& self.fences.limit == self.limit
        &&& self.fences.upper() == self.upper()
        &&& self.row_index <= self.page_rows@.len()
        &&& self.page_record matches Some(p) ==> p.wf() && rank(p@.rows, self.start@)
            <= self.page_index <= p@.rows.len() && self.row_index == self.page_rows@.len()
    }

    pub open spec fn sound(self, b: Seq<u8>) -> bool {
        &&& !self.failed
        &&& self.fences.sound(b)
        &&& sorted(self.remaining(b))
        &&& sorted(self.fences.coming(b))
        &&& pages_ok(b, self.limit as int, self.generation, self.fences.coming(b))
    }

    pub open spec fn fixed(self, other: Cursor) -> bool {
        &&& self.generation == other.generation
        &&& self.limit == other.limit
        &&& self.direct == other.direct
        &&& self.start == other.start
        &&& self.end == other.end
    }

    #[verifier::rlimit(60)]
    /// A cursor on the rows from `start` on and before `end`.
    pub fn with_mode(
        e: &mut Epoch,
        root: u64,
        limit: u64,
        generation: u64,
        start: &[u8],
        end: Option<&[u8]>,
        direct: bool,
    ) -> (r: Result<Cursor, Error>)
        requires
            old(e).wf(),
        ensures
            final(e).wf(),
            final(e).same_arena(*old(e)),
            nodes_only(old(e).cache@, final(e).cache@),
            r matches Err(x) ==> unreadable(x@),
            r matches Ok(c) ==> {
                &&& c.wf()
                &&& c.start@ == start@
                &&& c.upper() == bound_of(end)
                &&& c.limit == limit
                &&& c.generation == generation
                &&& c.direct == direct
                &&& !c.failed
                &&& c.page_record is None
                &&& c.page_rows@.len() == 0
                &&& c.line(old(e).image@) == cells_line(
                    old(e).image@,
                    limit as int,
                    generation,
                    root,
                    start@,
                    bound_of(end),
                )
            },
            forall|want: Seq<(Seq<u8>, Version)>|
                #![trigger packed_stores(old(e).image@, limit as int, generation, root, want)]
                packed_stores(old(e).image@, limit as int, generation, root, want) ==> (
                r matches Ok(c) && c.sound(old(e).image@) && ahead(
                    c.remaining(old(e).image@),
                    start@,
                ) == ahead(
                    flat(
                        old(e).image@,
                        limit as int,
                        generation,
                        (tree_at(old(e).image@, limit as int, root)->0).rows(),
                    ),
                    start@,
                )),
    {
        reveal(Cursor::line);
        broadcast use group_order;

        let ghost b = e.image@;
        let ghost lim = limit as int;
        let ghost s0 = *e;
        let ghost fences = (tree_at(b, lim, root)->0).rows();
        let ghost sound = tree_at(b, lim, root) is Some && sorted(fences) && (fences.len() > 0
            ==> fences[0].0.len() == 0) && pages_ok(b, lim, generation, fences);
        proof {
            if sound {
                floor_place(fences, start@);
            }
        }
        let found = floor(e, root, limit, start)?;
        let from: Vec<u8> = match &found {
            Some(n) => copy(n.key.as_slice()),
            None => Vec::new(),
        };
        let inner = super::search::Cursor::new(e, root, limit, from.as_slice(), end)?;
        let stop: Option<Vec<u8>> = match end {
            Some(x) => Some(copy(x)),
            None => None,
        };
        let c = Cursor {
            generation,
            limit,
            fences: inner,
            page_record: None,
            page_index: 0,
            page_rows: Vec::new(),
            row_index: 0,
            direct,
            start: copy(start),
            end: stop,
            failed: false,
        };
        proof {
            assert(c.current() =~= Seq::empty());
            assert(unbroken(ahead(c.current(), start@)) =~= Seq::empty());
            assert(c.line(b) =~= pages_line(
                b,
                lim,
                generation,
                until(c.fences.line(b), c.upper()),
                start@,
            ));
            assert(from@ =~= match seen(found) {
                Some(n) => n.key,
                None => Seq::<u8>::empty(),
            });
            if sound {
                let n = fences.len() as int;
                let i = if n == 0 {
                    0
                } else {
                    rank_after(fences, start@) - 1
                };
                if n > 0 {
                    super::rows::lookup_at(fences, i);
                } else {
                    assert(rank(fences, from@) == 0);
                }
                let rest = fences.skip(i);
                assert(c.fences.coming(b) == rest);
                pages_part(b, lim, generation, fences, i, n);
                assert(rest =~= fences.subrange(i, n));
                flat_sorted(b, lim, generation, rest);
                flat_sorted(b, lim, generation, fences);
                assert(c.remaining(b) =~= flat(b, lim, generation, rest));
                assert(fences =~= fences.take(i) + rest);
                flat_splits(b, lim, generation, fences.take(i), rest);
                let x = flat(b, lim, generation, fences.take(i));
                let whole = flat(b, lim, generation, fences);
                if n > 0 {
                    super::fences::flat_below(b, lim, generation, fences, i);
                    rank_splits(whole, start@);
                    if rank(whole, start@) < x.len() {
                        let r = rank(whole, start@) as int;
                        assert(whole[r] == x[r]);
                        assert(lt(x[r].0, fences[i].0));
                        if !lt(x[r].0, start@) {
                            super::bytes::lt_total(x[r].0, start@);
                            super::bytes::lt_total(start@, fences[i].0);
                        }
                    }
                    ahead_drop(whole, start@, x.len() as int);
                    assert(whole.skip(x.len() as int) =~= flat(b, lim, generation, rest));
                } else {
                    assert(rest =~= fences);
                }
            }
        }
        Ok(c)
    }

    #[verifier::rlimit(60)]
    /// What the current page gives next.
    fn from_page(&mut self) -> (r: Given)
        requires
            old(self).wf(),
        ensures
            final(self).wf(),
            final(self).fixed(*old(self)),
            final(self).fences == old(self).fences,
            final(self).failed == old(self).failed,
            ({
                let rows = old(self).current();
                if rows.len() == 0 {
                    r is Nothing && final(self).current().len() == 0 && final(self).page_record is None && final(self).row_index == final(self).page_rows@.len()
                } else if lt(rows[0].0, old(self).start@) {
                    r is Skipped && final(self).current() == rows.skip(1)
                } else if old(self).upper() is Some && !lt(rows[0].0, old(self).upper()->0) {
                    r is Bound
                } else {
                    &&& r matches Given::Row(row) && row@ == rows[0]
                    &&& final(self).current() == rows.skip(1)
                }
            }),
    {
        let ghost c0 = *self;
        let ghost rows = self.current();
        if let Some(record) = &self.page_record {
            if self.page_index < record.row_count() {
                // The start offset was selected before any row was decoded.
                proof {
                    assert(rows[0] == record@.rows[self.page_index as int]);
                    rank_splits(record@.rows, self.start@);
                }
                let stop = match &self.end {
                    Some(x) => !before(record.key(self.page_index), x.as_slice()),
                    None => false,
                };
                if stop {
                    return Given::Bound;
                }
                let row = record.row_at(self.page_index);
                self.page_index = self.page_index + 1;
                assert(self.current() =~= rows.skip(1));
                return Given::Row(row);
            }
            assert(rows =~= Seq::empty());
        }
        self.page_record = None;
        if self.row_index < self.page_rows.len() {
            assert(c0.page_record is None);
            let row = self.page_rows[self.row_index].duplicate();
            assert(rows[0] == row@);
            self.row_index = self.row_index + 1;
            assert(self.current() =~= rows.skip(1));
            if before(row.key.as_slice(), self.start.as_slice()) {
                return Given::Skipped;
            }
            let stop = match &self.end {
                Some(x) => !before(row.key.as_slice(), x.as_slice()),
                None => false,
            };
            if stop {
                return Given::Bound;
            }
            return Given::Row(row);
        }
        assert(self.current() =~= Seq::empty());
        assert(rows =~= Seq::empty());
        Given::Nothing
    }

    #[verifier::rlimit(60)]
    /// Goes on to the page at `at`.
    fn turn_page(&mut self, e: &mut Epoch, at: u64) -> (r: Result<(), Error>)
        requires
            old(e).wf(),
            old(self).wf(),
            old(self).page_record is None,
            old(self).row_index == old(self).page_rows@.len(),
        ensures
            final(e).wf(),
            final(e).same_arena(*old(e)),
            nodes_only(old(e).cache@, final(e).cache@),
            final(self).wf(),
            final(self).fixed(*old(self)),
            final(self).fences == old(self).fences,
            final(self).failed == old(self).failed,
            r is Ok ==> (chain(
                old(e).image@,
                old(self).limit as int,
                old(self).generation,
                at,
                None,
            ) matches Ok(rows) && ahead(final(self).current(), old(self).start@) == ahead(
                rows,
                old(self).start@,
            )),
            r matches Err(x) ==> unreadable(x@),
            loaded(old(e).image@, old(self).limit as int, old(self).generation, at) matches Ok(
                rows,
            ) ==> {
                &&& r is Ok
                &&& final(self).current() == rows.skip(final(self).skipped())
                &&& final(self).skipped() <= rank(rows, old(self).start@)
            },
    {
        let ghost b = e.image@;
        let ghost lim = self.limit as int;
        let ghost g = self.generation;
        proof {
            if loaded(b, lim, g, at) is Ok {
                loaded_facts(b, lim, g, at);
            }
        }
        if !self.direct {
            let m = load(e, self.generation, self.limit, at, false)?;
            self.page_rows = m.rows;
            self.row_index = 0;
            assert(self.current() =~= views(self.page_rows@).skip(0));
            proof {
                chain_facts(b, lim, g, at, None);
                assert(self.current() =~= views(self.page_rows@));
            }
            return Ok(());
        }
        let record = e.packed_record(at, self.limit, false)?;
        if record.generation > self.generation {
            return Err(corrupt("packed scan generation"));
        }
        if record.kind == BASE {
            self.page_index = record.lower_bound(self.start.as_slice());
            proof {
                chain_facts(b, lim, g, at, None);
                ahead_drop(record@.rows, self.start@, self.page_index as int);
            }
            self.page_record = Some(record);
        } else {
            let m = load_record(e, self.generation, self.limit, at, record, false)?;
            self.page_rows = m.rows;
            self.row_index = 0;
            assert(self.current() =~= views(self.page_rows@).skip(0));
            proof {
                chain_facts(b, lim, g, at, None);
                assert(self.current() =~= views(self.page_rows@));
            }
        }
        Ok(())
    }

    /// How many leading rows of the current page were passed over.
    pub open spec fn skipped(self) -> int {
        if self.page_record is Some {
            self.page_index as int
        } else {
            0
        }
    }

    #[verifier::rlimit(60)]
    /// Goes on to the next page behind an exhausted one.
    fn next_page(&mut self, e: &mut Epoch) -> (r: Option<Result<(), Error>>)
        requires
            old(e).wf(),
            old(self).wf(),
            !old(self).failed,
            old(self).page_record is None,
            old(self).row_index == old(self).page_rows@.len(),
        ensures
            final(e).wf(),
            final(e).same_arena(*old(e)),
            nodes_only(old(e).cache@, final(e).cache@),
            final(self).wf(),
            final(self).fixed(*old(self)),
            r matches Some(Err(x)) ==> final(self).failed && unreadable(x@),
            r matches Some(Ok(_)) ==> !final(self).failed && weight(
                old(e).image@,
                final(self).fences.nodes(),
            ) < weight(old(e).image@, old(self).fences.nodes()),
            r matches Some(Ok(_)) ==> final(self).line(old(e).image@) == old(self).line(
                old(e).image@,
            ),
            r is None ==> old(self).line(old(e).image@).len() == 0 && final(self).failed
                == old(self).failed,
            old(self).sound(old(e).image@) ==> {
                let rows = ahead(old(self).remaining(old(e).image@), old(self).start@);
                &&& !(r matches Some(Err(_)))
                &&& r is None ==> (rows.len() == 0 || (old(self).upper() is Some && !lt(
                    rows[0].0,
                    old(self).upper()->0,
                )))
                &&& r matches Some(Ok(_)) ==> final(self).sound(old(e).image@) && ahead(
                    final(self).remaining(old(e).image@),
                    old(self).start@,
                ) == rows
            },
    {
        reveal(Cursor::line);
        let ghost b = e.image@;
        let ghost c0 = *self;
        let ghost sound = self.sound(b);
        let ghost f = self.fences.coming(b);
        let ghost lim = self.limit as int;
        let ghost g = self.generation;
        assert(self.current() =~= Seq::empty());
        assert(unbroken(ahead(self.current(), self.start@)) =~= Seq::empty());
        assert(self.remaining(b) =~= flat(b, lim, g, f));
        let ghost met = until(self.fences.line(b), self.upper());
        assert(self.line(b) =~= pages_line(b, lim, g, met, self.start@));
        proof {
            if sound && f.len() > 0 {
                beyond(b, lim, g, f, self.start@);
                assert(page_ok(b, lim, g, f, 0));
            }
            if f.len() == 0 {
                assert(flat(b, lim, g, f) =~= Seq::empty());
            }
        }
        match self.fences.next(e) {
            None => {
                return None;
            },
            Some(Err(x)) => {
                self.failed = true;
                return Some(Err(x));
            },
            Some(Ok(n)) => {
                match self.turn_page(e, n.value) {
                    Ok(()) => {},
                    Err(x) => {
                        self.failed = true;
                        return Some(Err(x));
                    },
                }
                proof {
                    assert(met[0] == Some(row_of_node(n@)));
                    assert(met.skip(1) =~= until(self.fences.line(b), self.upper()));
                    if sound {
                        turned(b, lim, g, f, self.skipped(), self.start@);
                    }
                }
                return Some(Ok(()));
            },
        }
    }

    #[verifier::rlimit(60)]
    /// The next row, or nothing at the upper bound or the end.
    pub fn next(&mut self, e: &mut Epoch) -> (r: Option<Result<Row, Error>>)
        requires
            old(e).wf(),
            old(self).wf(),
        ensures
            final(e).wf(),
            final(e).same_arena(*old(e)),
            nodes_only(old(e).cache@, final(e).cache@),
            final(self).wf(),
            final(self).fixed(*old(self)),
            old(self).failed ==> r is None,
            r is None ==> final(self).failed,
            r is None && !old(self).failed ==> until(
                old(self).line(old(e).image@),
                old(self).upper(),
            ).len() == 0,
            r matches Some(Err(x)) ==> final(self).failed && unreadable(x@),
            r matches Some(Ok(row)) ==> {
                &&& final(self).lesser(*old(self), old(e).image@)
                &&& !final(self).failed
                &&& old(self).line(old(e).image@).len() > 0
                &&& old(self).line(old(e).image@)[0] == Some(row@)
                &&& !ends_at(Some(row@), old(self).upper())
                &&& final(self).line(old(e).image@) == old(self).line(old(e).image@).skip(1)
            },
            old(self).sound(old(e).image@) ==> {
                let rows = ahead(old(self).remaining(old(e).image@), old(self).start@);
                if rows.len() == 0 || (old(self).upper() is Some && !lt(
                    rows[0].0,
                    old(self).upper()->0,
                )) {
                    r is None
                } else {
                    &&& r matches Some(Ok(row)) && row@ == rows[0]
                    &&& final(self).sound(old(e).image@)
                    &&& ahead(final(self).remaining(old(e).image@), old(self).start@) == rows.skip(1)
                }
            },
    {
        reveal(Cursor::line);
        let ghost b = e.image@;
        let ghost s0 = *e;
        let ghost c0 = *self;
        let ghost sound = self.sound(b);
        let ghost out = ahead(self.remaining(b), self.start@);
        if self.failed {
            return None;
        }
        loop
            invariant
                e.wf(),
                e.same_arena(s0),
                nodes_only(s0.cache@, e.cache@),
                s0 == *old(e),
                c0 == *old(self),
                b == s0.image@,
                self.wf(),
                self.fixed(c0),
                !self.failed,
                !c0.failed,
                sound == c0.sound(b),
                out == ahead(c0.remaining(b), c0.start@),
                self.at_most(c0, b),
                self.line(b) == c0.line(b),
                sound ==> self.sound(b) && ahead(self.remaining(b), self.start@) == out,
            decreases weight(b, self.fences.nodes()), self.current().len(),
        {
            proof {
                if sound {
                    first_of_page(
                        self.current(),
                        flat(b, self.limit as int, self.generation, self.fences.coming(b)),
                        self.start@,
                    );
                }
            }
            reveal(Cursor::line);
            let ghost page = self.current();
            let ghost rest = pages_line(
                b,
                self.limit as int,
                self.generation,
                until(self.fences.line(b), self.upper()),
                self.start@,
            );
            proof {
                if page.len() > 0 {
                    page_head(page, self.start@);
                }
                assert(self.line(b) == unbroken(ahead(page, self.start@)) + rest);
            }
            match self.from_page() {
                Given::Row(row) => {
                    proof {
                        assert(c0.line(b)[0] == Some(page[0]));
                        assert(self.line(b) =~= c0.line(b).skip(1));
                    }
                    return Some(Ok(row));
                },
                Given::Skipped => {},
                Given::Bound => {
                    self.failed = true;
                    self.page_record = None;
                    return None;
                },
                Given::Nothing => {
                    match self.next_page(e) {
                        None => {
                            self.failed = true;
                            return None;
                        },
                        Some(Err(x)) => {
                            return Some(Err(x));
                        },
                        Some(Ok(())) => {},
                    }
                },
            }
        }
    }

    /// Nothing is walked twice.
    pub open spec fn at_most(self, other: Cursor, b: Seq<u8>) -> bool {
        ||| weight(b, self.fences.nodes()) < weight(b, other.fences.nodes())
        ||| weight(b, self.fences.nodes()) == weight(b, other.fences.nodes())
            && self.current().len() <= other.current().len()
    }

    /// Less is left than before.
    pub open spec fn lesser(self, other: Cursor, b: Seq<u8>) -> bool {
        ||| weight(b, self.fences.nodes()) < weight(b, other.fences.nodes())
        ||| weight(b, self.fences.nodes()) == weight(b, other.fences.nodes())
            && self.current().len() < other.current().len()
    }
}

#[verifier::rlimit(80)]
#[verifier::spinoff_prover]
/// The rows of a packed version in a range, within an output budget.
pub fn scan_rows(
    e: &mut Epoch,
    root: u64,
    limit: u64,
    generation: u64,
    start: &[u8],
    end: Option<&[u8]>,
    direct: bool,
    scan_budget: usize,
    each: usize,
    skip: &KeyMap<Option<Vec<u8>>>,
) -> (r: Result<Option<(Vec<Entry>, usize)>, Error>)
    requires
        old(e).wf(),
        skip.wf(),
        end matches Some(x) ==> !lt(x@, start@),
    ensures
        final(e).wf(),
        final(e).same_arena(*old(e)),
        nodes_only(old(e).cache@, final(e).cache@),
        r matches Ok(Some((v, n))) ==> n <= scan_budget && n == charge(entries(v@), each as int),
        r matches Ok(Some((v, _))) ==> cells_back(
            old(e).image@,
            limit as int,
            generation,
            root,
            start@,
            bound_of(end),
            skip@,
        ) == Some(entries(v@)),
        r matches Err(x) ==> unreadable(x@),
        forall|want: Seq<(Seq<u8>, Version)>|
            #![trigger packed_stores(old(e).image@, limit as int, generation, root, want)]
            packed_stores(old(e).image@, limit as int, generation, root, want) ==> {
                let out = kept(values_of(range(want, start@, bound_of(end))), skip@);
                if charge(out, each as int) <= scan_budget {
                    r matches Ok(Some((v, n))) && entries(v@) == out && n == charge(
                        out,
                        each as int,
                    )
                } else {
                    r matches Ok(None)
                }
            },
{
    let ghost b = e.image@;
    let ghost lim = limit as int;
    let ghost s0 = *e;
    let ghost want = choose|want: Seq<(Seq<u8>, Version)>| packed_stores(
        b,
        lim,
        generation,
        root,
        want,
    );
    let ghost sound = packed_stores(b, lim, generation, root, want);
    let ghost cells = flat(b, lim, generation, (tree_at(b, lim, root)->0).rows());
    let ghost stop = bound_of(end);
    let ghost all = values_of(range(want, start@, stop));
    let ghost from = rank(cells, start@) as int;
    proof {
        assert forall|other: Seq<(Seq<u8>, Version)>|
            #![trigger packed_stores(b, lim, generation, root, other)]
            packed_stores(b, lim, generation, root, other) implies other == want by {
            packed_stores_determines(b, lim, generation, root, other, want);
        }
        if sound {
            flat_sorted(b, lim, generation, (tree_at(b, lim, root)->0).rows());
            holds_cells_keys(b, lim, cells, want, start@);
            rank_splits(cells, start@);
            if let Some(x) = stop {
                holds_cells_keys(b, lim, cells, want, x);
                rank_monotone(want, start@, x);
            }
        }
    }
    let mut cursor = Cursor::with_mode(e, root, limit, generation, start, end, direct)?;
    let mut out: Vec<Entry> = Vec::new();
    let mut bytes: usize = 0;
    let ghost mut i: int = 0;
    let ghost met = until(cursor.line(b), stop);
    let ghost mut j: int = 0;
    assert(met.take(0) =~= Seq::empty());
    assert(met.skip(0) =~= met);
    assert(entries(out@) =~= Seq::empty());
    assert(all.take(0) =~= Seq::empty());
    assert(entries(out@) =~= kept(all.take(0), skip@));
    assert(sound ==> cells.skip(from + i) =~= ahead(cells, start@));
    loop
        invariant_except_break
            until(cursor.line(b), stop) == met.skip(j),
            !cursor.failed,
            sound ==> cursor.sound(b) && ahead(cursor.remaining(b), start@) == cells.skip(from + i),
        invariant
            e.wf(),
            e.same_arena(s0),
            nodes_only(s0.cache@, e.cache@),
            s0 == *old(e),
            b == s0.image@,
            lim == limit as int,
            cursor.wf(),
            cursor.limit == limit,
            cursor.generation == generation,
            cursor.start@ == start@,
            cursor.upper() == stop,
            bytes <= scan_budget,
            bytes == charge(entries(out@), each as int),
            0 <= j <= met.len(),
            gathered(met.take(j), value_of_cell(b, lim), skip@) == Some(entries(out@)),
            cells == flat(b, lim, generation, (tree_at(b, lim, root)->0).rows()),
            all == values_of(range(want, start@, stop)),
            stop == bound_of(end),
            skip.wf(),
            from == rank(cells, start@),
            sound == packed_stores(b, lim, generation, root, want),
            forall|other: Seq<(Seq<u8>, Version)>|
                #![trigger packed_stores(b, lim, generation, root, other)]
                packed_stores(b, lim, generation, root, other) ==> other == want,
            sound ==> {
                &&& sorted(cells)
                &&& holds_cells(b, lim, cells, want)
                &&& rank(want, start@) == from
                &&& stop is Some ==> rank(cells, stop->0) == rank(want, stop->0) && from <= rank(
                    want,
                    stop->0,
                ) <= want.len()
                &&& 0 <= i <= all.len()
                &&& from + i <= cells.len()
                &&& entries(out@) == kept(all.take(i), skip@)
                &&& bytes == charge(kept(all.take(i), skip@), each as int)
            },
        ensures
            j == met.len(),
            sound ==> i == all.len(),
        decreases weight(b, cursor.fences.nodes()), cursor.current().len(),
    {
        proof {
            if sound && from + i < cells.len() {
                assert(cells.skip(from + i)[0] == cells[from + i]);
                if let Some(x) = stop {
                    below_rank(cells, x, from + i);
                }
            }
        }
        match cursor.next(e) {
            None => {
                break;
            },
            Some(Err(x)) => {
                return Err(x);
            },
            Some(Ok(row)) => {
                proof {
                    if sound {
                        let k = from + i;
                        assert(row@ == cells[k]);
                        assert(cells[k].0 == want[k].0 && cell_leads(
                            b,
                            lim,
                            cells[k].1,
                            want[k].1,
                        ));
                    }
                }
                proof {
                    if sound {
                        let k = from + i;
                        assert(range(want, start@, stop)[i] == want[k]);
                        assert(all[i].0 == row.key@);
                        assert(all.take(i + 1).drop_last() =~= all.take(i));
                        assert(all.take(i + 1).last() == all[i]);
                        kept_grows(all, skip@, i + 1, each as int);
                        assert(cells.skip(k).skip(1) =~= cells.skip(k + 1));
                    }
                }
                proof {
                    assert(met.skip(j).len() > 0);
                    assert(met.skip(j)[0] == Some(row@));
                    gathered_step(met, j, value_of_cell(b, lim), skip@);
                    assert(until(cursor.line(b), stop) =~= met.skip(j).skip(1));
                }
                if skip.contains_key(row.key.as_slice()) {
                    proof {
                        i = i + 1;
                        j = j + 1;
                    }
                    continue ;
                }
                let value = row.value(e, limit)?;
                proof {
                    if sound {
                        assert(all[i] == (row.key@, value@));
                        let less = kept(all.take(i), skip@);
                        assert(less.push(all[i]).drop_last() =~= less);
                    }
                }
                let room: usize = scan_budget - bytes;
                if row.key.len() > room || value.len() > room - row.key.len() || each > room
                    - row.key.len() - value.len() {
                    return Ok(None);
                }
                bytes = bytes + row.key.len() + value.len() + each;
                let ghost had = out@;
                let ghost entry = Entry { key: row.key, value };
                out.push(Entry { key: row.key, value });
                proof {
                    assert(entries(out@) =~= entries(had).push(entry@));
                    assert(entries(out@).drop_last() =~= entries(had));
                    i = i + 1;
                    j = j + 1;
                }
            },
        }
    }
    assert(met.take(met.len() as int) =~= met);
    assert(sound ==> all.take(all.len() as int) =~= all);
    Ok(Some((out, bytes)))
}

#[verifier::rlimit(60)]
/// The rows of a version in a range, within an output budget, read directly
/// from base pages or through materialized pages.
pub fn scan_with_mode(
    e: &mut Epoch,
    root: u64,
    limit: u64,
    generation: u64,
    start: &[u8],
    end: Option<&[u8]>,
    direct: bool,
    scan_budget: usize,
) -> (r: Result<Vec<Entry>, Error>)
    requires
        old(e).wf(),
        end matches Some(x) ==> !lt(x@, start@),
    ensures
        final(e).wf(),
        final(e).same_arena(*old(e)),
        nodes_only(old(e).cache@, final(e).cache@),
        r matches Err(x) ==> unreadable(x@) || x@ == Fail::Budget(
            "scan output exceeds configured budget"@,
        ),
        forall|want: Seq<(Seq<u8>, Version)>|
            #![trigger packed_stores(old(e).image@, limit as int, generation, root, want)]
            packed_stores(old(e).image@, limit as int, generation, root, want) ==> {
                let out = values_of(range(want, start@, bound_of(end)));
                if charge(out, 64) <= scan_budget {
                    r matches Ok(v) && entries(v@) == out
                } else {
                    r matches Err(f) && f@ == Fail::Budget(
                        "scan output exceeds configured budget"@,
                    )
                }
            },
{
    let nothing: KeyMap<Option<Vec<u8>>> = KeyMap::new();
    proof {
        assert forall|rows: Seq<(Seq<u8>, Seq<u8>)>| #[trigger]
            kept(rows, nothing@) == rows by {
            assert(nothing@ =~= Seq::empty());
            kept_all(rows);
        }
    }
    match scan_rows(e, root, limit, generation, start, end, direct, scan_budget, 64, &nothing)? {
        Some((rows, _)) => Ok(rows),
        None => Err(budget("scan output exceeds configured budget")),
    }
}

#[verifier::rlimit(60)]
/// The rows of a packed version in a range, read directly from its pages.
pub fn scan(
    e: &mut Epoch,
    root: u64,
    limit: u64,
    generation: u64,
    start: &[u8],
    end: Option<&[u8]>,
    scan_budget: usize,
) -> (r: Result<Vec<Entry>, Error>)
    requires
        old(e).wf(),
        end matches Some(x) ==> !lt(x@, start@),
    ensures
        final(e).wf(),
        final(e).same_arena(*old(e)),
        nodes_only(old(e).cache@, final(e).cache@),
        r matches Err(x) ==> unreadable(x@) || x@ == Fail::Budget(
            "scan output exceeds configured budget"@,
        ),
        forall|want: Seq<(Seq<u8>, Version)>|
            #![trigger packed_stores(old(e).image@, limit as int, generation, root, want)]
            packed_stores(old(e).image@, limit as int, generation, root, want) ==> {
                let out = values_of(range(want, start@, bound_of(end)));
                if charge(out, 64) <= scan_budget {
                    r matches Ok(v) && entries(v@) == out
                } else {
                    r matches Err(f) && f@ == Fail::Budget(
                        "scan output exceeds configured budget"@,
                    )
                }
            },
{
    scan_with_mode(e, root, limit, generation, start, end, true, scan_budget)
}

/// Whether every cell leads to a value.
pub open spec fn readable_cells(b: Seq<u8>, end: int, rows: Seq<(Seq<u8>, Cell)>) -> bool {
    forall|i: int| 0 <= i < rows.len() ==> cell_value(b, end, (#[trigger] rows[i]).1.1) is Some
}

/// Whether the pages under fences are complete: the first fence is empty, and
/// every page loads, keeps to its range, and leads to readable values.
pub open spec fn pages_intact(
    b: Seq<u8>,
    end: int,
    generation: u64,
    fences: Seq<(Seq<u8>, Slot)>,
) -> bool {
    &&& fences.len() > 0 ==> fences[0].0.len() == 0
    &&& pages_ok(b, end, generation, fences)
    &&& readable_cells(b, end, flat(b, end, generation, fences))
}

/// The contents of complete pages.
pub open spec fn packed_contents(
    b: Seq<u8>,
    end: int,
    generation: u64,
    fences: Seq<(Seq<u8>, Slot)>,
) -> Seq<(Seq<u8>, Version)> {
    flat(b, end, generation, fences).map_values(
        |r: (Seq<u8>, Cell)| (r.0, (cell_value(b, end, r.1.1)->0, r.1.0)),
    )
}

#[verifier::rlimit(60)]
#[verifier::spinoff_prover]
/// Checks every page of an ordered fence index and counts the rows.
pub fn verify(e: &mut Epoch, root: u64, limit: u64, generation: u64, count: u64) -> (r: Result<
    u64,
    Error,
>)
    requires
        old(e).wf(),
        tree_at(old(e).image@, limit as int, root) is Some,
        sorted((tree_at(old(e).image@, limit as int, root)->0).rows()),
    ensures
        final(e).wf(),
        final(e).same_arena(*old(e)),
        r matches Err(x) ==> unreadable(x@),
        ({
            let fences = (tree_at(old(e).image@, limit as int, root)->0).rows();
            let rows = flat(old(e).image@, limit as int, generation, fences);
            &&& r is Ok <==> pages_intact(old(e).image@, limit as int, generation, fences)
                && rows.len() == count
            &&& r matches Ok(n) ==> n == count
        }),
{
    let ghost b = e.image@;
    let ghost lim = limit as int;
    let ghost s0 = *e;
    let ghost fences = (tree_at(b, lim, root)->0).rows();
    let none: Vec<u8> = Vec::new();
    proof {
        rank_is(fences, none@, 0);
        assert(fences.skip(0) =~= fences);
    }
    let mut cursor = super::search::Cursor::new(e, root, limit, none.as_slice(), None)?;
    let mut total: u128 = 0;
    let mut first = true;
    let ghost mut i: int = 0;
    proof {
        super::group::rows_fit(b, lim, root);
        assert(fences.take(0) =~= Seq::empty());
        assert(flat(b, lim, generation, fences.take(0)) =~= Seq::empty());
    }
    let mut pending = cursor.next(e);
    loop
        invariant_except_break
            i < fences.len() ==> (pending matches Some(Ok(n)) && row_of_node(n@) == fences[i]),
            i == fences.len() ==> pending is None,
        invariant
            e.wf(),
            e.same_arena(s0),
            s0 == *old(e),
            b == s0.image@,
            lim == limit as int,
            cursor.limit == limit,
            cursor.upper() is None,
            cursor.sound(b),
            fences == (tree_at(b, lim, root)->0).rows(),
            sorted(fences),
            fences.len() <= u64::MAX,
            0 <= i <= fences.len(),
            i < fences.len() ==> cursor.coming(b) == fences.skip(i + 1),
            total == flat(b, lim, generation, fences.take(i)).len(),
            total <= i * 16384,
            first == (i == 0),
            i > 0 ==> fences[0].0.len() == 0,
            forall|x: int| 0 <= x < i ==> #[trigger] page_ok(b, lim, generation, fences, x),
            readable_cells(b, lim, flat(b, lim, generation, fences.take(i))),
        ensures
            i == fences.len(),
        decreases fences.len() - i,
    {
        let n = match pending {
            None => {
                break;
            },
            Some(Err(x)) => {
                return Err(x);
            },
            Some(Ok(n)) => n,
        };
        let ghost f = fences[i];
        let ghost rows = page_rows(b, lim, generation, f);
        let ghost had = flat(b, lim, generation, fences.take(i));
        proof {
            assert(fences.take(i + 1).drop_last() =~= fences.take(i));
            assert(fences.take(i + 1).last() == f);
            assert(fences =~= fences.take(i + 1) + fences.skip(i + 1));
            flat_splits(b, lim, generation, fences.take(i + 1), fences.skip(i + 1));
            if i + 1 < fences.len() {
                assert(fences.skip(i + 1)[0] == fences[i + 1]);
                assert(fences.skip(i + 1).skip(1) =~= fences.skip(i + 2));
            }
        }
        if first && n.key.len() != 0 {
            return Err(corrupt("packed sentinel"));
        }
        first = false;
        let next = cursor.next(e);
        let upper: Option<Vec<u8>> = match &next {
            Some(Ok(m)) => Some(copy(m.key.as_slice())),
            _ => None,
        };
        let page = match load(e, generation, limit, n.value, false) {
            Ok(m) => m,
            Err(x) => {
                assert(!page_ok(b, lim, generation, fences, i));
                return Err(x);
            },
        };
        proof {
            loaded_facts(b, lim, generation, n.value);
            super::page::encoded_size(rows);
        }
        let mut j: usize = 0;
        while j < page.rows.len()
            invariant
                e.wf(),
                e.same_arena(s0),
                s0 == *old(e),
                b == s0.image@,
                lim == limit as int,
                fences == (tree_at(b, lim, root)->0).rows(),
                0 <= i < fences.len(),
                f == fences[i],
                n.key@ == f.0,
                (match upper {
                    Some(k) => Some(k@),
                    None => None,
                }) == fence_key(fences, i + 1),
                views(page.rows@) == rows,
                rows == page_rows(b, lim, generation, f),
                had == flat(b, lim, generation, fences.take(i)),
                flat(b, lim, generation, fences) == had + rows + flat(
                    b,
                    lim,
                    generation,
                    fences.skip(i + 1),
                ),
                0 <= j <= page.rows@.len(),
                forall|k: int| 0 <= k < j ==> {
                    &&& in_range((#[trigger] rows[k]).0, f.0, fence_key(fences, i + 1))
                    &&& cell_value(b, lim, rows[k].1.1) is Some
                },
            decreases page.rows@.len() - j,
        {
            let row: &Row = &page.rows[j];
            assert(rows[j as int] == row@);
            let above = match &upper {
                Some(k) => !before(row.key.as_slice(), k.as_slice()),
                None => false,
            };
            if before(row.key.as_slice(), n.key.as_slice()) || above {
                proof {
                    assert(!in_range(rows[j as int].0, f.0, fence_key(fences, i + 1)));
                    assert(!page_ok(b, lim, generation, fences, i));
                }
                return Err(corrupt("packed fence coverage"));
            }
            match row.value(e, limit) {
                Ok(_) => {},
                Err(x) => {
                    proof {
                        let at = had.len() + j;
                        assert(flat(b, lim, generation, fences)[at as int] == rows[j as int]);
                    }
                    return Err(x);
                },
            }
            j = j + 1;
        }
        proof {
            assert(page_ok(b, lim, generation, fences, i));
            let more = had + rows;
            assert forall|k: int| 0 <= k < more.len() implies cell_value(
                b,
                lim,
                (#[trigger] more[k]).1.1,
            ) is Some by {
                if k < had.len() {
                    assert(more[k] == had[k]);
                } else {
                    assert(more[k] == rows[k - had.len()]);
                }
            }
            i = i + 1;
        }
        total = total + page.rows.len() as u128;
        pending = next;
    }
    assert(fences.take(i) =~= fences);
    if total != count as u128 {
        return Err(corrupt("packed key count"));
    }
    Ok(count)
}

} // verus!
