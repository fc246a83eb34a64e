//! The fence index of a packed store and the contents that its pages hold.
use vstd::prelude::*;

use super::arena::{
    extends, node_at, read_stable, tree_at, tree_root, tree_stable, value_at, Node, NodeView, VALUE,
};
use super::bytes::{before, group_order, lt};
use super::cache::nodes_only;
use super::contents::{Version};
use super::epoch::{page_at, Epoch};
use super::lineage::{basic, chain, chain_facts, chain_stable, loaded};
use super::model::{Error, Fail, MAX_KEY};
use super::page::{rows_size, Cell, Stored, PAGE_BYTES};
use super::rows::{
    around, around_rank, around_sorted, in_range, lookup, rank, rank_after, rank_is, rank_splits,
    sorted,
};
use super::search::row_of_node;
use super::tree::{node_parts, Slot};

verus! {

broadcast use {super::arena::tree_empty, super::cache::group_nodes_only};

/// Whether a cell leads to a version: the same revision, and the value inline
/// or behind a reference of the right length.
pub open spec fn cell_leads(b: Seq<u8>, end: int, cell: Cell, version: Version) -> bool {
    &&& cell.0 == version.1
    &&& match cell.1 {
        Stored::Inline(v) => v == version.0,
        Stored::Overflow { at, len } => {
            &&& value_at(b, end, at as int) == Ok::<Seq<u8>, Fail>(version.0)
            &&& version.0.len() == len
        },
        Stored::Deleted => false,
    }
}

/// Whether rows of cells lead to these contents.
pub open spec fn holds_cells(
    b: Seq<u8>,
    end: int,
    rows: Seq<(Seq<u8>, Cell)>,
    want: Seq<(Seq<u8>, Version)>,
) -> bool {
    &&& rows.len() == want.len()
    &&& forall|i: int|
        0 <= i < rows.len() ==> (#[trigger] rows[i]).0 == want[i].0 && cell_leads(
            b,
            end,
            rows[i].1,
            want[i].1,
        )
}

/// Whether every key of rows lies in the half-open range from `lo` to `hi`.
pub open spec fn between<T>(rows: Seq<(Seq<u8>, T)>, lo: Seq<u8>, hi: Option<Seq<u8>>) -> bool {
    forall|i: int| 0 <= i < rows.len() ==> in_range(#[trigger] rows[i].0, lo, hi)
}

/// The key of fence `i`, if there is one.
pub open spec fn fence_key(fences: Seq<(Seq<u8>, Slot)>, i: int) -> Option<Seq<u8>> {
    if 0 <= i < fences.len() {
        Some(fences[i].0)
    } else {
        None
    }
}

/// The rows of the page under a fence.
pub open spec fn page_rows(b: Seq<u8>, end: int, generation: u64, fence: (Seq<u8>, Slot)) -> Seq<
    (Seq<u8>, Cell),
> {
    loaded(b, end, generation, fence.1.0)->Ok_0
}

/// Whether the page under fence `i` loads and covers only its own range.
pub open spec fn page_ok(
    b: Seq<u8>,
    end: int,
    generation: u64,
    fences: Seq<(Seq<u8>, Slot)>,
    i: int,
) -> bool {
    &&& loaded(b, end, generation, fences[i].1.0) is Ok
    &&& between(
        page_rows(b, end, generation, fences[i]),
        fences[i].0,
        fence_key(fences, i + 1),
    )
}

/// Whether every page loads and covers only its own range.
pub open spec fn pages_ok(
    b: Seq<u8>,
    end: int,
    generation: u64,
    fences: Seq<(Seq<u8>, Slot)>,
) -> bool {
    forall|i: int| 0 <= i < fences.len() ==> #[trigger] page_ok(b, end, generation, fences, i)
}

/// The rows of all pages, one page after the other.
pub open spec fn flat(
    b: Seq<u8>,
    end: int,
    generation: u64,
    fences: Seq<(Seq<u8>, Slot)>,
) -> Seq<(Seq<u8>, Cell)>
    decreases fences.len(),
{
    if fences.len() == 0 {
        Seq::empty()
    } else {
        flat(b, end, generation, fences.drop_last()) + page_rows(
            b,
            end,
            generation,
            fences.last(),
        )
    }
}

/// Whether the fences under `root` are a valid packed store of these contents.
pub open spec fn packed_stores(
    b: Seq<u8>,
    end: int,
    generation: u64,
    root: u64,
    want: Seq<(Seq<u8>, Version)>,
) -> bool {
    let fences = (tree_at(b, end, root)->0).rows();
    &&& tree_at(b, end, root) is Some
    &&& (tree_at(b, end, root)->0).valid()
    &&& fences.len() > 0 ==> fences[0].0.len() == 0
    &&& pages_ok(b, end, generation, fences)
    &&& holds_cells(b, end, flat(b, end, generation, fences), want)
}

/// Facts about a page that loads.
pub proof fn loaded_facts(b: Seq<u8>, end: int, generation: u64, at: u64)
    requires
        loaded(b, end, generation, at) is Ok,
    ensures
        sorted(loaded(b, end, generation, at)->Ok_0),
        basic(loaded(b, end, generation, at)->Ok_0, at as int, generation as int),
        16 + rows_size(loaded(b, end, generation, at)->Ok_0) <= PAGE_BYTES,
        chain(b, end, generation, at, None) == loaded(b, end, generation, at),
        page_at(b, end, at as int) is Ok,
{
    chain_facts(b, end, generation, at, None);
}

/// A page keeps its meaning when the arena and the generation grow.
pub proof fn loaded_stable(
    a: Seq<u8>,
    b: Seq<u8>,
    end: int,
    later: int,
    generation: u64,
    newer: u64,
    at: u64,
)
    requires
        extends(b, a),
        end <= later,
        generation <= newer,
        loaded(a, end, generation, at) is Ok,
    ensures
        loaded(b, later, newer, at) == loaded(a, end, generation, at),
{
    chain_stable(a, b, end, later, generation, newer, at, None);
}

#[verifier::rlimit(60)]
/// Concatenated pages, split anywhere between fences.
pub proof fn flat_splits(
    b: Seq<u8>,
    end: int,
    generation: u64,
    x: Seq<(Seq<u8>, Slot)>,
    y: Seq<(Seq<u8>, Slot)>,
)
    ensures
        flat(b, end, generation, x + y) == flat(b, end, generation, x) + flat(
            b,
            end,
            generation,
            y,
        ),
    decreases y.len(),
{
    if y.len() == 0 {
        assert(x + y =~= x);
        assert(flat(b, end, generation, x) + flat(b, end, generation, y) =~= flat(
            b,
            end,
            generation,
            x,
        ));
    } else {
        flat_splits(b, end, generation, x, y.drop_last());
        assert((x + y).drop_last() =~= x + y.drop_last());
        assert((x + y).last() == y.last());
        assert(flat(b, end, generation, x + y) =~= flat(b, end, generation, x) + flat(
            b,
            end,
            generation,
            y,
        ));
    }
}

/// One fence alone.
pub proof fn flat_one(b: Seq<u8>, end: int, generation: u64, fence: (Seq<u8>, Slot))
    ensures
        flat(b, end, generation, seq![fence]) == page_rows(b, end, generation, fence),
{
    assert(seq![fence].drop_last() =~= Seq::empty());
    assert(flat(b, end, generation, seq![fence].drop_last()) =~= Seq::empty());
    assert(flat(b, end, generation, seq![fence]) =~= page_rows(b, end, generation, fence));
}

#[verifier::rlimit(60)]
/// Parts of ordered fences with good pages are such too.
pub proof fn pages_part(
    b: Seq<u8>,
    end: int,
    generation: u64,
    fences: Seq<(Seq<u8>, Slot)>,
    i: int,
    j: int,
)
    requires
        sorted(fences),
        pages_ok(b, end, generation, fences),
        0 <= i <= j <= fences.len(),
    ensures
        sorted(fences.subrange(i, j)),
        pages_ok(b, end, generation, fences.subrange(i, j)),
{
    let part = fences.subrange(i, j);
    assert forall|x: int, y: int| 0 <= x < y < part.len() implies lt(
        #[trigger] part[x].0,
        #[trigger] part[y].0,
    ) by {
        assert(part[x] == fences[i + x] && part[y] == fences[i + y]);
    }
    assert forall|x: int| 0 <= x < part.len() implies #[trigger] page_ok(
        b,
        end,
        generation,
        part,
        x,
    ) by {
        assert(part[x] == fences[i + x]);
        assert(page_ok(b, end, generation, fences, i + x));
        let rows = page_rows(b, end, generation, part[x]);
        assert forall|k: int| 0 <= k < rows.len() implies in_range(
            #[trigger] rows[k].0,
            part[x].0,
            fence_key(part, x + 1),
        ) by {
            assert(in_range(rows[k].0, fences[i + x].0, fence_key(fences, i + x + 1)));
        }
    }
}

#[verifier::rlimit(60)]
/// The rows of good pages are in order, and lie between the first fence and the
/// bound that the last one has.
pub proof fn flat_sorted(
    b: Seq<u8>,
    end: int,
    generation: u64,
    fences: Seq<(Seq<u8>, Slot)>,
)
    requires
        sorted(fences),
        pages_ok(b, end, generation, fences),
    ensures
        sorted(flat(b, end, generation, fences)),
        fences.len() > 0 ==> between(flat(b, end, generation, fences), fences[0].0, None),
    decreases fences.len(),
{
    broadcast use group_order;

    if fences.len() > 0 {
        let n = fences.len() - 1;
        let init = fences.drop_last();
        assert(init =~= fences.subrange(0, n));
        pages_part(b, end, generation, fences, 0, n);
        flat_sorted(b, end, generation, init);
        flat_below(b, end, generation, fences, n);
        assert(page_ok(b, end, generation, fences, n));
        loaded_facts(b, end, generation, fences[n].1.0);
        let x = flat(b, end, generation, init);
        let y = page_rows(b, end, generation, fences[n]);
        let s = x + y;
        assert(fences.take(n) =~= init);
        assert forall|i: int, j: int| 0 <= i < j < s.len() implies lt(
            #[trigger] s[i].0,
            #[trigger] s[j].0,
        ) by {
            if j < x.len() {
                assert(s[i] == x[i] && s[j] == x[j]);
            } else if i >= x.len() {
                assert(s[i] == y[i - x.len()] && s[j] == y[j - x.len()]);
            } else {
                assert(s[i] == x[i] && s[j] == y[j - x.len()]);
                assert(lt(x[i].0, fences[n].0));
                assert(in_range(y[j - x.len()].0, fences[n].0, fence_key(fences, n + 1)));
            }
        }
        assert forall|i: int| 0 <= i < s.len() implies in_range(
            #[trigger] s[i].0,
            fences[0].0,
            None,
        ) by {
            if i < x.len() {
                assert(s[i] == x[i]);
                assert(init[0] == fences[0]);
                assert(in_range(x[i].0, init[0].0, None));
            } else {
                assert(s[i] == y[i - x.len()]);
                assert(in_range(y[i - x.len()].0, fences[n].0, fence_key(fences, n + 1)));
                if n > 0 {
                    assert(lt(fences[0].0, fences[n].0));
                }
            }
        }
    }
}

/// Rows of the pages before fence `n` come before that fence.
pub proof fn flat_below(
    b: Seq<u8>,
    end: int,
    generation: u64,
    fences: Seq<(Seq<u8>, Slot)>,
    n: int,
)
    requires
        sorted(fences),
        pages_ok(b, end, generation, fences),
        0 <= n < fences.len(),
    ensures
        super::overlay::below(flat(b, end, generation, fences.take(n)), fences[n].0),
    decreases n,
{
    broadcast use group_order;

    let x = flat(b, end, generation, fences.take(n));
    if n > 0 {
        flat_below(b, end, generation, fences, n - 1);
        assert(fences.take(n).drop_last() =~= fences.take(n - 1));
        assert(fences.take(n).last() == fences[n - 1]);
        assert(page_ok(b, end, generation, fences, n - 1));
        let y = flat(b, end, generation, fences.take(n - 1));
        let z = page_rows(b, end, generation, fences[n - 1]);
        assert forall|i: int| 0 <= i < x.len() implies lt(#[trigger] x[i].0, fences[n].0) by {
            if i < y.len() {
                assert(x[i] == y[i]);
                assert(lt(y[i].0, fences[n - 1].0));
                assert(lt(fences[n - 1].0, fences[n].0));
            } else {
                assert(x[i] == z[i - y.len()]);
                assert(in_range(z[i - y.len()].0, fences[n - 1].0, fence_key(fences, n)));
            }
        }
    }
}

/// Rows of the pages from fence `n` on do not come before that fence.
pub proof fn flat_above(
    b: Seq<u8>,
    end: int,
    generation: u64,
    fences: Seq<(Seq<u8>, Slot)>,
    n: int,
)
    requires
        sorted(fences),
        pages_ok(b, end, generation, fences),
        0 <= n < fences.len(),
    ensures
        between(flat(b, end, generation, fences.skip(n)), fences[n].0, None),
        sorted(flat(b, end, generation, fences.skip(n))),
{
    pages_part(b, end, generation, fences, n, fences.len() as int);
    assert(fences.skip(n) =~= fences.subrange(n, fences.len() as int));
    flat_sorted(b, end, generation, fences.skip(n));
    assert(fences.skip(n)[0] == fences[n]);
}

/// What two runs of rows hold together: a key before the bound is looked up in
/// the first, any other in the second.
pub proof fn joined_lookup<T>(
    x: Seq<(Seq<u8>, T)>,
    y: Seq<(Seq<u8>, T)>,
    bound: Seq<u8>,
)
    requires
        sorted(x),
        sorted(y),
        super::overlay::below(x, bound),
        between(y, bound, None),
    ensures
        sorted(x + y),
        forall|k: Seq<u8>|
            #![trigger lookup(x + y, k)]
            lookup(x + y, k) == if lt(k, bound) {
                lookup(x, k)
            } else {
                lookup(y, k)
            },
        forall|k: Seq<u8>|
            #![trigger rank(x + y, k)]
            rank(x + y, k) == if lt(k, bound) {
                rank(x, k)
            } else {
                x.len() + rank(y, k)
            },
{
    broadcast use group_order;

    let s = x + y;
    assert forall|i: int, j: int| 0 <= i < j < s.len() implies lt(
        #[trigger] s[i].0,
        #[trigger] s[j].0,
    ) by {
        if j < x.len() {
            assert(s[i] == x[i] && s[j] == x[j]);
        } else if i >= x.len() {
            assert(s[i] == y[i - x.len()] && s[j] == y[j - x.len()]);
        } else {
            assert(s[i] == x[i] && s[j] == y[j - x.len()]);
            assert(in_range(y[j - x.len()].0, bound, None));
        }
    }
    assert forall|k: Seq<u8>| #![trigger rank(s, k)] rank(s, k) == (if lt(k, bound) {
        rank(x, k)
    } else {
        x.len() + rank(y, k)
    }) by {
        rank_splits(x, k);
        rank_splits(y, k);
        let r = if lt(k, bound) {
            rank(x, k) as int
        } else {
            x.len() as int + rank(y, k)
        };
        if r > 0 {
            if r - 1 < x.len() {
                assert(s[r - 1] == x[r - 1]);
                assert(lt(x[r - 1].0, bound));
            } else {
                assert(s[r - 1] == y[r - 1 - x.len()]);
            }
        }
        if r < s.len() {
            if r < x.len() {
                assert(s[r] == x[r]);
            } else {
                assert(s[r] == y[r - x.len()]);
                assert(in_range(y[r - x.len()].0, bound, None));
            }
        }
        rank_is(s, k, r);
    }
    assert forall|k: Seq<u8>| #![trigger lookup(s, k)] lookup(s, k) == (if lt(k, bound) {
        lookup(x, k)
    } else {
        lookup(y, k)
    }) by {
        rank_splits(x, k);
        rank_splits(y, k);
        let r = rank(s, k) as int;
        if lt(k, bound) {
            if r < x.len() {
                assert(s[r] == x[r]);
            } else if r < s.len() {
                assert(s[r] == y[r - x.len()]);
                assert(in_range(y[r - x.len()].0, bound, None));
            }
        } else {
            if r < s.len() {
                assert(s[r] == y[r - x.len()]);
            }
        }
    }
}

/// The only page that can hold a key is the one under its floor fence.
pub proof fn flat_lookup(
    b: Seq<u8>,
    end: int,
    generation: u64,
    fences: Seq<(Seq<u8>, Slot)>,
    i: int,
    key: Seq<u8>,
)
    requires
        sorted(fences),
        pages_ok(b, end, generation, fences),
        0 <= i < fences.len(),
        !lt(key, fences[i].0),
        i + 1 < fences.len() ==> lt(key, fences[i + 1].0),
    ensures
        lookup(flat(b, end, generation, fences), key) == lookup(
            page_rows(b, end, generation, fences[i]),
            key,
        ),
{
    let x = fences.take(i);
    let y = fences.skip(i);
    assert(fences =~= x + y);
    flat_splits(b, end, generation, x, y);
    flat_below(b, end, generation, fences, i);
    flat_above(b, end, generation, fences, i);
    pages_part(b, end, generation, fences, 0, i);
    assert(fences.subrange(0, i) =~= x);
    flat_sorted(b, end, generation, x);
    joined_lookup(flat(b, end, generation, x), flat(b, end, generation, y), fences[i].0);
    let f = fences[i];
    let z = fences.skip(i + 1);
    assert(y =~= seq![f] + z);
    flat_splits(b, end, generation, seq![f], z);
    flat_one(b, end, generation, f);
    assert(page_ok(b, end, generation, fences, i));
    let p = page_rows(b, end, generation, f);
    loaded_facts(b, end, generation, f.1.0);
    if i + 1 < fences.len() {
        flat_above(b, end, generation, fences, i + 1);
        let hi = fences[i + 1].0;
        assert forall|j: int| 0 <= j < p.len() implies lt(#[trigger] p[j].0, hi) by {
            assert(in_range(p[j].0, f.0, fence_key(fences, i + 1)));
        }
        joined_lookup(p, flat(b, end, generation, z), hi);
    } else {
        assert(z =~= Seq::empty());
        assert(p + flat(b, end, generation, z) =~= p);
    }
}

/// Cells and contents have the same keys, and lookups lead to each other.
pub proof fn holds_cells_keys(
    b: Seq<u8>,
    end: int,
    rows: Seq<(Seq<u8>, Cell)>,
    want: Seq<(Seq<u8>, Version)>,
    key: Seq<u8>,
)
    requires
        holds_cells(b, end, rows, want),
    ensures
        rank(rows, key) == rank(want, key),
        sorted(rows) <==> sorted(want),
        lookup(rows, key) is Some <==> lookup(want, key) is Some,
        lookup(rows, key) matches Some(c) ==> cell_leads(b, end, c, lookup(want, key)->0),
{
    assert forall|i: int| 0 <= i < rows.len() implies (#[trigger] rows[i]).0 == want[i].0 by {}
    super::contents::same_rank(rows, want, key);
}

/// Cells keep their meaning when the arena grows.
pub proof fn holds_cells_grows(
    a: Seq<u8>,
    b: Seq<u8>,
    end: int,
    later: int,
    rows: Seq<(Seq<u8>, Cell)>,
    want: Seq<(Seq<u8>, Version)>,
)
    requires
        extends(b, a),
        end <= later,
        holds_cells(a, end, rows, want),
    ensures
        holds_cells(b, later, rows, want),
{
    assert forall|i: int| 0 <= i < rows.len() implies (#[trigger] rows[i]).0 == want[i].0
        && cell_leads(b, later, rows[i].1, want[i].1) by {
        if let Stored::Overflow { at, len } = rows[i].1.1 {
            read_stable(a, b, end, later, at as int, VALUE);
        }
    }
}

/// Pages keep their meaning when the arena and the generation grow.
pub proof fn flat_grows(
    a: Seq<u8>,
    b: Seq<u8>,
    end: int,
    later: int,
    generation: u64,
    newer: u64,
    fences: Seq<(Seq<u8>, Slot)>,
)
    requires
        extends(b, a),
        end <= later,
        generation <= newer,
        pages_ok(a, end, generation, fences),
    ensures
        pages_ok(b, later, newer, fences),
        flat(b, later, newer, fences) == flat(a, end, generation, fences),
        forall|i: int|
            0 <= i < fences.len() ==> page_rows(b, later, newer, #[trigger] fences[i]) == page_rows(
                a,
                end,
                generation,
                fences[i],
            ),
{
    assert forall|i: int| 0 <= i < fences.len() implies page_rows(
        b,
        later,
        newer,
        #[trigger] fences[i],
    ) == page_rows(a, end, generation, fences[i]) && page_ok(b, later, newer, fences, i) by {
        assert(page_ok(a, end, generation, fences, i));
        loaded_stable(a, b, end, later, generation, newer, fences[i].1.0);
    }
    flat_same(a, b, end, later, generation, newer, fences, fences.len() as int);
}

proof fn flat_same(
    a: Seq<u8>,
    b: Seq<u8>,
    end: int,
    later: int,
    generation: u64,
    newer: u64,
    fences: Seq<(Seq<u8>, Slot)>,
    n: int,
)
    requires
        0 <= n <= fences.len(),
        forall|i: int|
            0 <= i < fences.len() ==> page_rows(b, later, newer, #[trigger] fences[i]) == page_rows(
                a,
                end,
                generation,
                fences[i],
            ),
    ensures
        flat(b, later, newer, fences.take(n)) == flat(a, end, generation, fences.take(n)),
        n == fences.len() ==> flat(b, later, newer, fences) == flat(a, end, generation, fences),
    decreases n,
{
    if n > 0 {
        flat_same(a, b, end, later, generation, newer, fences, n - 1);
        assert(fences.take(n).drop_last() =~= fences.take(n - 1));
        assert(fences.take(n).last() == fences[n - 1]);
    }
    if n == fences.len() {
        assert(fences.take(n) =~= fences);
    }
}

/// A packed version keeps its contents when the arena grows.
pub proof fn packed_stores_grows(
    a: Seq<u8>,
    b: Seq<u8>,
    end: int,
    later: int,
    generation: u64,
    newer: u64,
    root: u64,
    want: Seq<(Seq<u8>, Version)>,
)
    requires
        extends(b, a),
        end <= later,
        generation <= newer,
        packed_stores(a, end, generation, root, want),
    ensures
        packed_stores(b, later, newer, root, want),
{
    let fences = (tree_at(a, end, root)->0).rows();
    tree_stable(a, b, end, later, root);
    flat_grows(a, b, end, later, generation, newer, fences);
    holds_cells_grows(a, b, end, later, flat(a, end, generation, fences), want);
}

/// A packed version has one contents only.
pub proof fn packed_stores_determines(
    b: Seq<u8>,
    end: int,
    generation: u64,
    root: u64,
    one: Seq<(Seq<u8>, Version)>,
    other: Seq<(Seq<u8>, Version)>,
)
    requires
        packed_stores(b, end, generation, root, one),
        packed_stores(b, end, generation, root, other),
    ensures
        one == other,
{
    let rows = flat(b, end, generation, (tree_at(b, end, root)->0).rows());
    assert forall|i: int| 0 <= i < rows.len() implies one[i] == other[i] by {
        assert(cell_leads(b, end, rows[i].1, one[i].1));
        assert(cell_leads(b, end, rows[i].1, other[i].1));
        assert(rows[i].0 == one[i].0 && rows[i].0 == other[i].0);
    }
    assert(one =~= other);
}

/// A subtree's stretch of the rows, taken apart at its root.
proof fn taken_apart(
    rows: Seq<(Seq<u8>, Slot)>,
    off: int,
    l: Seq<(Seq<u8>, Slot)>,
    row: (Seq<u8>, Slot),
    r: Seq<(Seq<u8>, Slot)>,
    key: Seq<u8>,
)
    requires
        sorted(around(l, row, r)),
        0 <= off,
        off + l.len() + 1 + r.len() <= rows.len(),
        rows.subrange(off, off + l.len() + 1 + r.len()) == around(l, row, r),
    ensures
        sorted(l),
        sorted(r),
        rows.subrange(off, off + l.len()) == l,
        rows[off + l.len()] == row,
        rows.subrange(off + l.len() + 1, off + l.len() + 1 + r.len()) == r,
        lt(key, row.0) ==> rank_after(around(l, row, r), key) == rank_after(l, key),
        !lt(key, row.0) ==> rank_after(around(l, row, r), key) == l.len() + 1 + rank_after(r, key),
{
    broadcast use group_order;

    let part = around(l, row, r);
    let k = l.len() as int;
    around_sorted(l, row, r);
    around_rank(l, row, r, key);
    assert(part.subrange(0, k) =~= l);
    assert(part.subrange(k + 1, part.len() as int) =~= r);
    assert(part[k] == row);
    assert(rows.subrange(off, off + part.len())[k] == rows[off + k]);
    assert(rows.subrange(off, off + k) =~= part.subrange(0, k));
    assert(rows.subrange(off + k + 1, off + k + 1 + r.len()) =~= part.subrange(
        k + 1,
        part.len() as int,
    ));
    if !lt(key, row.0) && !lt(row.0, key) {
        super::bytes::lt_total(row.0, key);
        if r.len() > 0 {
            assert(lt(row.0, r[0].0));
        }
        rank_is(r, key, 0);
    }
}

/// The last fence on the way from `at` that does not come behind `key`, `best` if there is
/// none; nothing where a node on the way does not read back.
pub open spec fn floor_node(b: Seq<u8>, at: u64, key: Seq<u8>, best: Option<NodeView>) -> Option<
    Option<NodeView>,
>
    decreases at,
{
    if at == 0 {
        Some(best)
    } else {
        match node_at(b, b.len() as int, at as int) {
            Ok(n) => if n.left < at && n.right < at {
                if lt(key, n.key) {
                    floor_node(b, n.left, key, best)
                } else {
                    floor_node(b, n.right, key, Some(n))
                }
            } else {
                None
            },
            Err(_) => None,
        }
    }
}

/// The view of a node that may be missing.
pub open spec fn seen(n: Option<Node>) -> Option<NodeView> {
    match n {
        Some(x) => Some(x@),
        None => None,
    }
}

#[verifier::rlimit(60)]
/// The last fence that does not come behind `key`.
pub fn floor(e: &mut Epoch, root: u64, end: u64, key: &[u8]) -> (r: Result<Option<Node>, Error>)
    requires
        old(e).wf(),
    ensures
        final(e).wf(),
        final(e).same_arena(*old(e)),
        nodes_only(old(e).cache@, final(e).cache@),
        r matches Err(x) ==> super::arena::unreadable(x@),
        r matches Ok(Some(n)) ==> n.key@.len() <= MAX_KEY && n.value >= 8,
        r matches Ok(x) ==> floor_node(old(e).image@, root, key@, None) == Some(seen(x)),
        tree_at(old(e).image@, end as int, root) matches Some(t) ==> (sorted(t.rows()) ==> {
            let i = rank_after(t.rows(), key@);
            &&& 0 <= i <= t.rows().len()
            &&& i == 0 ==> (r matches Ok(None))
            &&& i > 0 ==> (r matches Ok(Some(n)) && row_of_node(n@) == t.rows()[i - 1])
        }),
{
    broadcast use group_order;

    let ghost b = e.image@;
    let ghost lim = end as int;
    let ghost s0 = *e;
    let ghost sound = tree_at(b, lim, root) is Some && sorted((tree_at(b, lim, root)->0).rows());
    let ghost rows = (tree_at(b, lim, root)->0).rows();
    let ghost mut off: int = 0;
    let ghost want = floor_node(b, root, key@, None);
    let mut at: u64 = root;
    let mut found: Option<Node> = None;
    while at != 0
        invariant
            e.wf(),
            e.same_arena(s0),
            nodes_only(s0.cache@, e.cache@),
            s0 == *old(e),
            b == s0.image@,
            found matches Some(n) ==> n.key@.len() <= MAX_KEY && n.value >= 8,
            floor_node(b, at, key@, seen(found)) == want,
            lim == end as int,
            sound == (tree_at(b, lim, root) is Some && sorted((tree_at(b, lim, root)->0).rows())),
            rows == (tree_at(b, lim, root)->0).rows(),
            sound ==> {
                let part = (tree_at(b, lim, at)->0).rows();
                &&& tree_at(b, lim, at) is Some
                &&& sorted(part)
                &&& 0 <= off
                &&& off + part.len() <= rows.len()
                &&& rows.subrange(off, off + part.len()) == part
                &&& rank_after(rows, key@) == off + rank_after(part, key@)
                &&& off == 0 ==> found is None
                &&& off > 0 ==> found is Some && row_of_node((found->0)@) == rows[off - 1]
            },
        decreases at,
    {
        let ghost t = tree_at(b, lim, at)->0;
        let ghost part = t.rows();
        let ghost l = t.left().rows();
        let ghost r = t.right().rows();
        proof {
            if sound {
                tree_root(b, lim, at);
                node_parts(t);
                taken_apart(rows, off, l, (t->key, t->slot), r, key@);
            }
        }
        let n = e.node(at, end)?;
        if before(key, n.key.as_slice()) {
            at = n.left;
        } else {
            at = n.right;
            proof {
                if sound {
                    off = off + l.len() + 1;
                }
            }
            found = Some(n);
        }
    }
    proof {
        if sound {
            let part = (tree_at(b, lim, 0u64)->0).rows();
            assert(part =~= Seq::empty());
            assert(rank(part, key@) == 0);
        }
    }
    Ok(found)
}

#[verifier::rlimit(60)]
/// The first fence behind `key`.
pub fn successor(e: &mut Epoch, root: u64, end: u64, key: &[u8]) -> (r: Result<Option<Node>, Error>)
    requires
        old(e).wf(),
    ensures
        final(e).wf(),
        final(e).same_arena(*old(e)),
        nodes_only(old(e).cache@, final(e).cache@),
        r matches Err(x) ==> super::arena::unreadable(x@),
        tree_at(old(e).image@, end as int, root) matches Some(t) ==> (sorted(t.rows()) ==> {
            let i = rank_after(t.rows(), key@);
            &&& 0 <= i <= t.rows().len()
            &&& i == t.rows().len() ==> (r matches Ok(None))
            &&& i < t.rows().len() ==> (r matches Ok(Some(n)) && row_of_node(n@) == t.rows()[i])
        }),
{
    broadcast use group_order;

    let ghost b = e.image@;
    let ghost lim = end as int;
    let ghost s0 = *e;
    let ghost sound = tree_at(b, lim, root) is Some && sorted((tree_at(b, lim, root)->0).rows());
    let ghost rows = (tree_at(b, lim, root)->0).rows();
    let ghost mut off: int = 0;
    let mut at: u64 = root;
    let mut found: Option<Node> = None;
    proof {
        assert(rows.subrange(0, rows.len() as int) =~= rows);
    }
    while at != 0
        invariant
            e.wf(),
            e.same_arena(s0),
            nodes_only(s0.cache@, e.cache@),
            s0 == *old(e),
            b == s0.image@,
            lim == end as int,
            sound == (tree_at(b, lim, root) is Some && sorted((tree_at(b, lim, root)->0).rows())),
            rows == (tree_at(b, lim, root)->0).rows(),
            sound ==> {
                let part = (tree_at(b, lim, at)->0).rows();
                &&& tree_at(b, lim, at) is Some
                &&& sorted(part)
                &&& 0 <= off
                &&& off + part.len() <= rows.len()
                &&& rows.subrange(off, off + part.len()) == part
                &&& rank_after(rows, key@) == off + rank_after(part, key@)
                &&& off + part.len() == rows.len() ==> found is None
                &&& off + part.len() < rows.len() ==> found is Some && row_of_node((found->0)@)
                    == rows[off + part.len()]
            },
        decreases at,
    {
        let ghost t = tree_at(b, lim, at)->0;
        let ghost part = t.rows();
        let ghost l = t.left().rows();
        let ghost r = t.right().rows();
        proof {
            if sound {
                tree_root(b, lim, at);
                node_parts(t);
                taken_apart(rows, off, l, (t->key, t->slot), r, key@);
            }
        }
        let n = e.node(at, end)?;
        if before(key, n.key.as_slice()) {
            at = n.left;
            found = Some(n);
        } else {
            at = n.right;
            proof {
                if sound {
                    off = off + l.len() + 1;
                }
            }
        }
    }
    proof {
        if sound {
            let part = (tree_at(b, lim, 0u64)->0).rows();
            assert(part =~= Seq::empty());
            assert(rank(part, key@) == 0);
        }
    }
    Ok(found)
}

} // verus!
