//! Bounded range output and integrity checking over one version of an index.
use vstd::prelude::*;

use super::arena::{
    node_at, record_extent, tree_at, tree_root, unreadable, value_at, Node, NodeView, VALUE,
};
use super::bytes::{before, group_order, lt};
use super::cache::nodes_only;
use super::contents::{holds_keys, leads, stores, Change, Version};
use super::epoch::Epoch;
use super::group::{height_limit_of, rows_fit};
use super::keymap::KeyMap;
use super::model::{corrupt, entries, Entry, Error, Fail};
use super::rows::{
    all_after, all_before, around, around_sorted, present, range, rank, rank_splits, sorted,
};
use super::search::{row_of_node, Cursor};
use super::tree::{node_parts, Slot};
use super::walk::{gathered, gathered_step, line_from, until};

verus! {

broadcast use {super::arena::tree_empty, super::cache::group_nodes_only};

/// Keys with their values, without revisions.
pub open spec fn values_of(want: Seq<(Seq<u8>, Version)>) -> Seq<(Seq<u8>, Seq<u8>)> {
    want.map_values(|r: (Seq<u8>, Version)| (r.0, r.1.0))
}

/// What returning rows costs: their bytes and a fixed charge for each.
pub open spec fn charge(rows: Seq<(Seq<u8>, Seq<u8>)>, each: int) -> int
    decreases rows.len(),
{
    if rows.len() == 0 {
        0
    } else {
        charge(rows.drop_last(), each) + rows.last().0.len() + rows.last().1.len() + each
    }
}

/// A longer output costs no less.
pub proof fn charge_grows(rows: Seq<(Seq<u8>, Seq<u8>)>, i: int, each: int)
    requires
        0 <= i <= rows.len(),
        each >= 0,
    ensures
        0 <= charge(rows.take(i), each) <= charge(rows, each),
    decreases rows.len(),
{
    if i == rows.len() {
        assert(rows.take(i) =~= rows);
        if i > 0 {
            charge_grows(rows.drop_last(), i - 1, each);
            assert(rows.drop_last().take(i - 1) =~= rows.drop_last());
        }
    } else {
        charge_grows(rows.drop_last(), i, each);
        assert(rows.drop_last().take(i) =~= rows.take(i));
    }
}

/// A row stands before a bound exactly when its position is below the rank.
pub proof fn below_rank<T>(s: Seq<(Seq<u8>, T)>, key: Seq<u8>, j: int)
    requires
        sorted(s),
        0 <= j < s.len(),
    ensures
        lt(s[j].0, key) <==> j < rank(s, key),
        rank(s, key) <= s.len(),
{
    rank_splits(s, key);
}

/// Lower bounds rank no higher than upper bounds.
pub proof fn rank_monotone<T>(s: Seq<(Seq<u8>, T)>, a: Seq<u8>, b: Seq<u8>)
    requires
        sorted(s),
        !lt(b, a),
    ensures
        rank(s, a) <= rank(s, b) <= s.len(),
{
    broadcast use group_order;

    rank_splits(s, a);
    rank_splits(s, b);
    if rank(s, b) < rank(s, a) {
        let j = rank(s, b) as int;
        assert(lt(s[j].0, a));
        assert(!lt(s[j].0, b));
    }
}

/// The rows whose keys are not among those to pass over.
pub open spec fn kept(rows: Seq<(Seq<u8>, Seq<u8>)>, skip: Seq<(Seq<u8>, Change)>) -> Seq<
    (Seq<u8>, Seq<u8>),
>
    decreases rows.len(),
{
    if rows.len() == 0 {
        rows
    } else if present(skip, rows.last().0) {
        kept(rows.drop_last(), skip)
    } else {
        kept(rows.drop_last(), skip).push(rows.last())
    }
}

/// With nothing to pass over, all rows are kept.
pub proof fn kept_all(rows: Seq<(Seq<u8>, Seq<u8>)>)
    ensures
        kept(rows, Seq::empty()) == rows,
    decreases rows.len(),
{
    if rows.len() > 0 {
        kept_all(rows.drop_last());
        assert(rows.drop_last().push(rows.last()) =~= rows);
    }
}

/// Keeping more rows costs no less.
pub proof fn kept_grows(
    rows: Seq<(Seq<u8>, Seq<u8>)>,
    skip: Seq<(Seq<u8>, Change)>,
    i: int,
    each: int,
)
    requires
        0 <= i <= rows.len(),
        each >= 0,
    ensures
        0 <= charge(kept(rows.take(i), skip), each) <= charge(kept(rows, skip), each),
    decreases rows.len(),
{
    if i == rows.len() {
        assert(rows.take(i) =~= rows);
        charge_grows(kept(rows, skip), 0, each);
        assert(kept(rows, skip).take(0).len() == 0);
    } else {
        kept_grows(rows.drop_last(), skip, i, each);
        assert(rows.drop_last().take(i) =~= rows.take(i));
        let less = kept(rows.drop_last(), skip);
        assert(less.push(rows.last()).drop_last() =~= less);
    }
}

/// The value that an index row leads to.
pub open spec fn slot_value(b: Seq<u8>, end: int) -> spec_fn(Slot) -> Option<Seq<u8>> {
    |s: Slot|
        match value_at(b, end, s.0 as int) {
            Ok(v) => Some(v),
            Err(_) => None,
        }
}

/// The rows that an index leads to in a range, in any arena; nothing where a record on the
/// way does not read back.
pub open spec fn rows_back(
    b: Seq<u8>,
    end: int,
    root: u64,
    start: Seq<u8>,
    stop: Option<Seq<u8>>,
    skip: Seq<(Seq<u8>, Change)>,
) -> Option<Seq<(Seq<u8>, Seq<u8>)>> {
    gathered(until(line_from(b, root, start), stop), slot_value(b, end), skip)
}

/// The rows of a version in a range that are not to be passed over, with what
/// they cost; nothing where that exceeds the budget.
pub fn scan_index(
    e: &mut Epoch,
    root: u64,
    limit: u64,
    start: &[u8],
    end: Option<&[u8]>,
    scan_budget: usize,
    each: usize,
    skip: &KeyMap<Option<Vec<u8>>>,
) -> (r: Result<Option<(Vec<Entry>, usize)>, Error>)
    requires
        old(e).wf(),
        skip.wf(),
        end matches Some(x) ==> !lt(x@, start@),
    ensures
        final(e).wf(),
        final(e).same_arena(*old(e)),
        nodes_only(old(e).cache@, final(e).cache@),
        r matches Ok(Some((v, n))) ==> n <= scan_budget && n == charge(entries(v@), each as int),
        r matches Ok(Some((v, _))) ==> rows_back(
            old(e).image@,
            limit as int,
            root,
            start@,
            bound_of(end),
            skip@,
        ) == Some(entries(v@)),
        r matches Err(x) ==> unreadable(x@),
        forall|want: Seq<(Seq<u8>, Version)>|
            #![trigger stores(old(e).image@, limit as int, root, want)]
            stores(old(e).image@, limit as int, root, want) ==> {
                let out = kept(values_of(range(want, start@, bound_of(end))), skip@);
                if charge(out, each as int) <= scan_budget {
                    r matches Ok(Some((v, n))) && entries(v@) == out && n == charge(
                        out,
                        each as int,
                    )
                } else {
                    r matches Ok(None)
                }
            },
{
    broadcast use group_order;

    let ghost b = e.image@;
    let ghost lim = limit as int;
    let ghost s0 = *e;
    let ghost want = choose|want: Seq<(Seq<u8>, Version)>| stores(b, lim, root, want);
    let ghost sound = stores(b, lim, root, want);
    let ghost rows = (tree_at(b, lim, root)->0).rows();
    let ghost stop: Option<Seq<u8>> = bound_of(end);
    let ghost all = values_of(range(want, start@, stop));
    let ghost from = rank(rows, start@) as int;
    proof {
        assert forall|other: Seq<(Seq<u8>, Version)>|
            #![trigger stores(b, lim, root, other)]
            stores(b, lim, root, other) implies other == want by {
            super::group::stores_determines(b, lim, root, other, want);
        }
        if sound {
            holds_keys(b, lim, rows, want, start@);
            rank_splits(rows, start@);
            if let Some(x) = stop {
                holds_keys(b, lim, rows, want, x);
                rank_monotone(want, start@, x);
            }
        }
    }
    let mut cursor = Cursor::new(e, root, limit, start, end)?;
    let mut out: Vec<Entry> = Vec::new();
    let mut bytes: usize = 0;
    let ghost mut i: int = 0;
    let ghost met = until(line_from(b, root, start@), stop);
    let ghost mut j: int = 0;
    assert(met.take(0) =~= Seq::empty());
    assert(met.skip(0) =~= met);
    assert(entries(out@) =~= Seq::empty());
    assert(all.take(0) =~= Seq::empty());
    assert(entries(out@) =~= kept(all.take(0), skip@));
    loop
        invariant_except_break
            until(cursor.line(b), stop) == met.skip(j),
            !cursor.failed,
            sound ==> cursor.sound(b) && cursor.coming(b) == rows.skip(from + i),
        invariant
            e.wf(),
            e.same_arena(s0),
            nodes_only(s0.cache@, e.cache@),
            s0 == *old(e),
            b == s0.image@,
            lim == limit as int,
            cursor.limit == limit,
            cursor.upper() == stop,
            bytes <= scan_budget,
            bytes == charge(entries(out@), each as int),
            0 <= j <= met.len(),
            gathered(met.take(j), slot_value(b, lim), skip@) == Some(entries(out@)),
            rows == (tree_at(b, lim, root)->0).rows(),
            all == values_of(range(want, start@, stop)),
            stop == bound_of(end),
            skip.wf(),
            from == rank(rows, start@),
            sound == stores(b, lim, root, want),
            forall|other: Seq<(Seq<u8>, Version)>|
                #![trigger stores(b, lim, root, other)]
                stores(b, lim, root, other) ==> other == want,
            sound ==> {
                &&& sorted(rows)
                &&& rows.len() == want.len()
                &&& rank(want, start@) == from
                &&& stop is Some ==> rank(rows, stop->0) == rank(want, stop->0) && from <= rank(
                    want,
                    stop->0,
                ) <= want.len()
                &&& 0 <= i <= all.len()
                &&& from + i <= rows.len()
                &&& entries(out@) == kept(all.take(i), skip@)
                &&& bytes == charge(kept(all.take(i), skip@), each as int)
            },
        ensures
            j == met.len(),
            sound ==> i == all.len(),
        decreases super::search::weight(b, cursor.nodes()),
    {
        proof {
            if sound && from + i < rows.len() {
                assert(rows.skip(from + i)[0] == rows[from + i]);
                if let Some(x) = stop {
                    below_rank(rows, x, from + i);
                }
                assert(leads(b, lim, rows[from + i], want[from + i]));
            }
        }
        match cursor.next(e) {
            None => {
                break;
            },
            Some(Err(x)) => {
                return Err(x);
            },
            Some(Ok(n)) => {
                proof {
                    if sound {
                        let k = from + i;
                        assert(range(want, start@, stop)[i] == want[k]);
                        assert(all[i].0 == n.key@);
                        assert(all.take(i + 1).drop_last() =~= all.take(i));
                        assert(all.take(i + 1).last() == all[i]);
                        kept_grows(all, skip@, i + 1, each as int);
                        assert(rows.skip(k).skip(1) =~= rows.skip(k + 1));
                    }
                }
                proof {
                    assert(met.skip(j).len() > 0);
                    assert(met.skip(j)[0] == Some(row_of_node(n@)));
                    gathered_step(met, j, slot_value(b, lim), skip@);
                    assert(until(cursor.line(b), stop) =~= met.skip(j).skip(1));
                }
                if skip.contains_key(n.key.as_slice()) {
                    proof {
                        i = i + 1;
                        j = j + 1;
                    }
                    continue ;
                }
                let value = e.value(n.value, limit)?;
                proof {
                    record_extent(b, lim, n.value as int, VALUE);
                    if sound {
                        assert(all[i] == (n.key@, value@));
                        let less = kept(all.take(i), skip@);
                        assert(less.push(all[i]).drop_last() =~= less);
                    }
                }
                let room: usize = scan_budget - bytes;
                if n.key.len() > room || value.len() > room - n.key.len() || each > room
                    - n.key.len() - value.len() {
                    return Ok(None);
                }
                bytes = bytes + n.key.len() + value.len() + each;
                let ghost had = out@;
                let ghost row = Entry { key: n.key, value };
                out.push(Entry { key: n.key, value });
                proof {
                    assert(entries(out@) =~= entries(had).push(row@));
                    assert(entries(out@).drop_last() =~= entries(had));
                    i = i + 1;
                    j = j + 1;
                }
            },
        }
    }
    assert(met.take(met.len() as int) =~= met);
    assert(sound ==> all.take(all.len() as int) =~= all);
    Ok(Some((out, bytes)))
}

/// Whether the index below `at` is complete and in order: every node readable,
/// keys between the bounds and increasing, heights right; and, where it leads to
/// values, these readable and revisions within the generation.
pub open spec fn intact(
    b: Seq<u8>,
    end: int,
    generation: u64,
    at: u64,
    lower: Option<Seq<u8>>,
    upper: Option<Seq<u8>>,
    values: bool,
) -> bool {
    &&& tree_at(b, end, at) is Some
    &&& (tree_at(b, end, at)->0).valid()
    &&& lower is Some ==> all_after((tree_at(b, end, at)->0).rows(), lower->0)
    &&& upper is Some ==> all_before((tree_at(b, end, at)->0).rows(), upper->0)
    &&& sound_rows(b, end, generation, (tree_at(b, end, at)->0).rows(), values)
}

/// Whether every row has a revision within the generation and a readable value.
pub open spec fn sound_rows(
    b: Seq<u8>,
    end: int,
    generation: u64,
    rows: Seq<(Seq<u8>, Slot)>,
    values: bool,
) -> bool {
    values ==> forall|i: int|
        0 <= i < rows.len() ==> {
            &&& 0 < (#[trigger] rows[i]).1.1 <= generation
            &&& value_at(b, end, rows[i].1.0 as int) is Ok
        }
}

/// The parts of sound rows around a row.
proof fn sound_around(
    b: Seq<u8>,
    end: int,
    generation: u64,
    l: Seq<(Seq<u8>, Slot)>,
    row: (Seq<u8>, Slot),
    r: Seq<(Seq<u8>, Slot)>,
    values: bool,
)
    ensures
        sound_rows(b, end, generation, around(l, row, r), values) <==> sound_rows(
            b,
            end,
            generation,
            l,
            values,
        ) && sound_rows(b, end, generation, r, values) && (values ==> 0 < row.1.1 <= generation
            && value_at(b, end, row.1.0 as int) is Ok),
{
    let s = around(l, row, r);
    let n = l.len() as int;
    if values && sound_rows(b, end, generation, s, values) {
        assert(s[n] == row);
        assert forall|i: int| 0 <= i < l.len() implies 0 < (#[trigger] l[i]).1.1 <= generation
            && value_at(b, end, l[i].1.0 as int) is Ok by {
            assert(s[i] == l[i]);
        }
        assert forall|i: int| 0 <= i < r.len() implies 0 < (#[trigger] r[i]).1.1 <= generation
            && value_at(b, end, r[i].1.0 as int) is Ok by {
            assert(s[n + 1 + i] == r[i]);
        }
    }
    if values && sound_rows(b, end, generation, l, values) && sound_rows(
        b,
        end,
        generation,
        r,
        values,
    ) && 0 < row.1.1 <= generation && value_at(b, end, row.1.0 as int) is Ok {
        assert forall|i: int| 0 <= i < s.len() implies 0 < (#[trigger] s[i]).1.1 <= generation
            && value_at(b, end, s[i].1.0 as int) is Ok by {
            if i < n {
                assert(s[i] == l[i]);
            } else if i > n {
                assert(s[i] == r[i - n - 1]);
            }
        }
    }
}

/// Bounds on rows around a row.
proof fn bounds_around(
    l: Seq<(Seq<u8>, Slot)>,
    row: (Seq<u8>, Slot),
    r: Seq<(Seq<u8>, Slot)>,
    key: Seq<u8>,
)
    requires
        sorted(around(l, row, r)),
    ensures
        all_after(around(l, row, r), key) <==> all_after(l, key) && lt(key, row.0),
        all_before(around(l, row, r), key) <==> all_before(r, key) && lt(row.0, key),
{
    broadcast use group_order;

    let s = around(l, row, r);
    let n = l.len() as int;
    around_sorted(l, row, r);
    assert(s[n] == row);
    if all_after(s, key) {
        assert forall|i: int| 0 <= i < l.len() implies lt(key, #[trigger] l[i].0) by {
            assert(s[i] == l[i]);
        }
        assert(lt(key, s[n].0));
    }
    if all_before(s, key) {
        assert forall|i: int| 0 <= i < r.len() implies lt(#[trigger] r[i].0, key) by {
            assert(s[n + 1 + i] == r[i]);
        }
        assert(lt(s[n].0, key));
    }
    if all_after(l, key) && lt(key, row.0) {
        assert forall|i: int| 0 <= i < s.len() implies lt(key, #[trigger] s[i].0) by {
            if i < n {
                assert(s[i] == l[i]);
            } else if i > n {
                assert(s[i] == r[i - n - 1]);
            }
        }
    }
    if all_before(r, key) && lt(row.0, key) {
        assert forall|i: int| 0 <= i < s.len() implies lt(#[trigger] s[i].0, key) by {
            if i < n {
                assert(s[i] == l[i]);
            } else if i > n {
                assert(s[i] == r[i - n - 1]);
            }
        }
    }
}

pub open spec fn bound_of(k: Option<&[u8]>) -> Option<Seq<u8>> {
    match k {
        Some(x) => Some(x@),
        None => None,
    }
}

/// Whether an arena is read without a cache.
pub open spec fn uncached(e: Epoch) -> bool {
    e.wf() && e.cache.limit == 0 && e.cache@.items == Map::<u64, super::cache::ItemView>::empty()
}

#[verifier::rlimit(60)]
/// Checks every node and value below `at`; counts the rows and measures the
/// height.
pub fn walk(
    e: &mut Epoch,
    generation: u64,
    end: u64,
    at: u64,
    lower: Option<&[u8]>,
    upper: Option<&[u8]>,
    depth: u32,
    values: bool,
) -> (r: Result<(u64, u32), Error>)
    requires
        uncached(*old(e)),
        depth <= 129,
    ensures
        uncached(*final(e)),
        final(e).same_arena(*old(e)),
        r matches Ok((count, height)) ==> {
            &&& intact(
                old(e).image@,
                end as int,
                generation,
                at,
                bound_of(lower),
                bound_of(upper),
                values,
            )
            &&& count == (tree_at(old(e).image@, end as int, at)->0).rows().len()
            &&& height == (tree_at(old(e).image@, end as int, at)->0).height()
        },
        intact(
            old(e).image@,
            end as int,
            generation,
            at,
            bound_of(lower),
            bound_of(upper),
            values,
        ) && depth + (tree_at(old(e).image@, end as int, at)->0).height() <= 129 ==> r is Ok,
        r matches Err(x) ==> x@ is Corrupt || x@ is Io,
    decreases at,
{
    broadcast use group_order;

    let ghost b = e.image@;
    let ghost lim = end as int;
    let ghost s0 = *e;
    if at == 0 {
        assert((tree_at(b, lim, 0u64)->0).rows() =~= Seq::empty());
        return Ok((0, 0));
    }
    let ghost whole = intact(b, lim, generation, at, bound_of(lower), bound_of(upper), values);
    let ghost t = tree_at(b, lim, at)->0;
    proof {
        if tree_at(b, lim, at) is Some {
            tree_root(b, lim, at);
            node_parts(t);
            around_sorted(t.left().rows(), (t->key, t->slot), t.right().rows());
            sound_around(
                b,
                lim,
                generation,
                t.left().rows(),
                (t->key, t->slot),
                t.right().rows(),
                values,
            );
            if whole {
                if lower is Some {
                    bounds_around(
                        t.left().rows(),
                        (t->key, t->slot),
                        t.right().rows(),
                        bound_of(lower)->0,
                    );
                }
                if upper is Some {
                    bounds_around(
                        t.left().rows(),
                        (t->key, t->slot),
                        t.right().rows(),
                        bound_of(upper)->0,
                    );
                }
            }
        }
    }
    if depth > 128 {
        return Err(corrupt("index depth"));
    }
    let n = uncached_node(e, at, end)?;
    let below = match lower {
        Some(k) => !before(k, n.key.as_slice()),
        None => false,
    };
    let above = match upper {
        Some(k) => !before(n.key.as_slice(), k),
        None => false,
    };
    if (values && (n.revision == 0 || n.revision > generation)) || below || above {
        return Err(corrupt("key order/revision"));
    }
    if values {
        let read = uncached_value(e, n.value, end)?;
    }
    let (lc, lh) = walk(e, generation, end, n.left, lower, Some(n.key.as_slice()), depth + 1, values)?;
    let (rc, rh) = walk(e, generation, end, n.right, Some(n.key.as_slice()), upper, depth + 1, values)?;
    let apart: u32 = if lh > rh {
        lh - rh
    } else {
        rh - lh
    };
    let ghost lrows = (tree_at(b, lim, n.left)->0).rows();
    let ghost rrows = (tree_at(b, lim, n.right)->0).rows();
    proof {
        tree_of_node(b, lim, at);
        node_parts(t);
        around_sorted(lrows, (n.key@, (n.value, n.revision)), rrows);
        sound_around(b, lim, generation, lrows, (n.key@, (n.value, n.revision)), rrows, values);
        if lower is Some {
            bounds_around(lrows, (n.key@, (n.value, n.revision)), rrows, bound_of(lower)->0);
        }
        if upper is Some {
            bounds_around(lrows, (n.key@, (n.value, n.revision)), rrows, bound_of(upper)->0);
        }
        height_limit_of(b, lim, n.left);
        height_limit_of(b, lim, n.right);
        rows_fit(b, lim, at);
    }
    let tallest: u32 = if lh > rh {
        lh
    } else {
        rh
    };
    if apart > 1 || n.height != 1 + tallest {
        return Err(corrupt("AVL balance/height"));
    }
    Ok((lc + rc + 1, n.height))
}

/// Two readable subtrees under a readable node are a readable tree.
proof fn tree_of_node(b: Seq<u8>, end: int, at: u64)
    requires
        at != 0,
        node_at(b, end, at as int) is Ok,
        tree_at(b, end, (node_at(b, end, at as int)->Ok_0).left) is Some,
        tree_at(b, end, (node_at(b, end, at as int)->Ok_0).right) is Some,
    ensures
        tree_at(b, end, at) is Some,
        ({
            let n = node_at(b, end, at as int)->Ok_0;
            let t = tree_at(b, end, at)->0;
            &&& t is Node
            &&& t->key == n.key
            &&& t->slot == (n.value, n.revision)
            &&& t->height == n.height
            &&& t.left() == tree_at(b, end, n.left)->0
            &&& t.right() == tree_at(b, end, n.right)->0
        }),
{
    reveal(tree_at);
}

fn uncached_node(e: &mut Epoch, at: u64, end: u64) -> (r: Result<Node, Error>)
    requires
        uncached(*old(e)),
    ensures
        uncached(*final(e)),
        final(e).same_arena(*old(e)),
        r matches Ok(n) ==> node_at(old(e).image@, end as int, at as int) == Ok::<NodeView, Fail>(
            n@,
        ),
        r matches Err(x) ==> node_at(old(e).image@, end as int, at as int) == Err::<NodeView, Fail>(
            x@,
        ) && (x@ is Corrupt || x@ is Io),
{
    e.node(at, end)
}

fn uncached_value(e: &mut Epoch, at: u64, end: u64) -> (r: Result<Vec<u8>, Error>)
    requires
        uncached(*old(e)),
    ensures
        uncached(*final(e)),
        final(e).same_arena(*old(e)),
        r is Ok <==> value_at(old(e).image@, end as int, at as int) is Ok,
        r matches Err(x) ==> x@ is Corrupt || x@ is Io,
{
    e.value(at, end)
}

/// The contents of an intact index.
pub open spec fn contents_of(b: Seq<u8>, end: int, at: u64) -> Seq<(Seq<u8>, Version)> {
    let rows = (tree_at(b, end, at)->0).rows();
    Seq::new(
        rows.len(),
        |i: int| (rows[i].0, (value_at(b, end, rows[i].1.0 as int)->Ok_0, rows[i].1.1)),
    )
}

/// An intact index stores its contents.
pub proof fn intact_stores(b: Seq<u8>, end: int, generation: u64, at: u64)
    requires
        intact(b, end, generation, at, None, None, true),
    ensures
        stores(b, end, at, contents_of(b, end, at)),
{
    let rows = (tree_at(b, end, at)->0).rows();
    let want = contents_of(b, end, at);
    assert forall|i: int| 0 <= i < rows.len() implies leads(
        b,
        end,
        #[trigger] rows[i],
        want[i],
    ) by {
        record_extent(b, end, rows[i].1.0 as int, VALUE);
    }
}

/// An index of contents whose revisions are within the generation is intact.
pub proof fn stores_intact(
    b: Seq<u8>,
    end: int,
    generation: u64,
    at: u64,
    want: Seq<(Seq<u8>, Version)>,
)
    requires
        stores(b, end, at, want),
        forall|i: int| 0 <= i < want.len() ==> 0 < (#[trigger] want[i]).1.1 <= generation,
    ensures
        intact(b, end, generation, at, None, None, true),
        contents_of(b, end, at) == want,
{
    let rows = (tree_at(b, end, at)->0).rows();
    assert forall|i: int| 0 <= i < rows.len() implies 0 < (#[trigger] rows[i]).1.1 <= generation
        && value_at(b, end, rows[i].1.0 as int) is Ok by {
        assert(leads(b, end, rows[i], want[i]));
        assert(0 < want[i].1.1 <= generation);
    }
    intact_stores(b, end, generation, at);
    super::group::stores_determines(b, end, at, contents_of(b, end, at), want);
}

} // verus!
