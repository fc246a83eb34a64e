//! How the pages of a packed version are laid out: a page that changes little gets a delta over
//! the record that it had, any other is written anew.
use vstd::prelude::*;

use super::arena::{extends, read_stable};
use super::bytes::{group_order, le64, lt};
use super::contents::Change;
use super::epoch::page_at;
use super::page::{
    row_size, rows_size, Cell, BASE, DELTA, DELTA_BYTES, INLINE_BYTES, MAX_DEPTH, PAGE_BYTES,
};
use super::fences::{fence_key, flat, loaded_stable, page_rows};
use super::lineage::loaded;
use super::overlay::below;
use super::rows::{in_range, present, range, rank, rank_is, rank_splits, sorted};
use super::tree::Slot;

verus! {

/// Whether a write changes a page with these rows: it sets a key, or removes one that is there.
pub open spec fn takes_effect(rows: Seq<(Seq<u8>, Cell)>, write: (Seq<u8>, Change)) -> bool {
    write.1 is Some || present(rows, write.0)
}

/// What a write takes as a row of a delta: a value counts only where it is kept in the row.
pub open spec fn change_size(write: (Seq<u8>, Change)) -> int {
    24 + write.0.len() + match write.1 {
        Some(v) => if v.len() <= INLINE_BYTES {
            v.len() as int
        } else {
            0
        },
        None => 0int,
    }
}

/// How many writes change a page with these rows.
pub open spec fn effects(rows: Seq<(Seq<u8>, Cell)>, writes: Seq<(Seq<u8>, Change)>) -> nat
    decreases writes.len(),
{
    if writes.len() == 0 {
        0
    } else {
        effects(rows, writes.drop_last()) + if takes_effect(rows, writes.last()) {
            1nat
        } else {
            0
        }
    }
}

/// What the writes that change a page with these rows take in a delta.
pub open spec fn delta_size(rows: Seq<(Seq<u8>, Cell)>, writes: Seq<(Seq<u8>, Change)>) -> int
    decreases writes.len(),
{
    if writes.len() == 0 {
        0
    } else {
        delta_size(rows, writes.drop_last()) + if takes_effect(rows, writes.last()) {
            change_size(writes.last())
        } else {
            0
        }
    }
}

pub proof fn delta_size_positive(rows: Seq<(Seq<u8>, Cell)>, writes: Seq<(Seq<u8>, Change)>)
    ensures
        delta_size(rows, writes) >= 0,
    decreases writes.len(),
{
    if writes.len() > 0 {
        delta_size_positive(rows, writes.drop_last());
    }
}

/// The newest record of a page: where it stands, the length of its lineage, and what its deltas
/// take together.
pub type Head = (u64, u32, usize);

/// Whether what changes goes into a delta, unless the page is split.
pub open spec fn delta_due(
    head: Option<Head>,
    rows: Seq<(Seq<u8>, Cell)>,
    writes: Seq<(Seq<u8>, Change)>,
) -> bool {
    head matches Some((_, depth, bytes)) && depth < MAX_DEPTH && 32 + delta_size(rows, writes)
        + bytes <= DELTA_BYTES
}

/// Whether the record at `at` is a base page.
pub open spec fn is_base(b: Seq<u8>, end: int, at: u64) -> bool {
    page_at(b, end, at as int) matches Ok(r) && r.kind == BASE
}

/// Whether the record at `at` is a delta over the page of a head, with so much more.
pub open spec fn is_delta(b: Seq<u8>, end: int, at: u64, head: Head, more: int) -> bool {
    &&& page_at(b, end, at as int) matches Ok(r) && r.kind == DELTA && r.prev == head.0 && r.depth
        == head.1 + 1 && r.delta_bytes == head.2 + more
}

/// Whether a page was laid out anew as it should be. Where nothing changed it is where it was.
/// Elsewhere it is split exactly if its rows do not fit in one page. Where what changed is due in a
/// delta and the page was not split, that delta stands under its fence. All else are base pages.
#[verifier::opaque]
pub open spec fn laid(
    b: Seq<u8>,
    end: int,
    generation: u64,
    fences: Seq<(Seq<u8>, Slot)>,
    head: Option<Head>,
    middle: Seq<(Seq<u8>, Slot)>,
    rows: Seq<(Seq<u8>, Cell)>,
    writes: Seq<(Seq<u8>, Change)>,
) -> bool {
    if effects(rows, writes) == 0 {
        fences == middle
    } else {
        &&& fences.len() > 0
        &&& forall|i: int|
            0 <= i < fences.len() ==> loaded(b, end, generation, (#[trigger] fences[i]).1.0) is Ok
        &&& split_well(fences, flat(b, end, generation, fences))
        &&& if delta_due(head, rows, writes) && fences.len() == 1 {
            is_delta(b, end, fences[0].1.0, head->0, 32 + delta_size(rows, writes))
        } else {
            forall|i: int| 0 <= i < fences.len() ==> is_base(b, end, (#[trigger] fences[i]).1.0)
        }
    }
}

/// Whether a page was split exactly if its rows do not fit in one.
pub open spec fn split_well(fences: Seq<(Seq<u8>, Slot)>, rows: Seq<(Seq<u8>, Cell)>) -> bool {
    fences.len() <= 1 <==> 16 + rows_size(rows) <= PAGE_BYTES
}

/// Whether the first pages of a store were laid out as they should be: base pages, and no more
/// than one exactly if the rows fit in one.
pub open spec fn first_laid(
    b: Seq<u8>,
    end: int,
    generation: u64,
    fences: Seq<(Seq<u8>, Slot)>,
) -> bool {
    &&& forall|i: int| 0 <= i < fences.len() ==> is_base(b, end, (#[trigger] fences[i]).1.0)
    &&& split_well(fences, flat(b, end, generation, fences))
}

/// A page record keeps its meaning when the arena grows.
pub proof fn page_stable(a: Seq<u8>, b: Seq<u8>, end: int, later: int, at: u64)
    requires
        extends(b, a),
        end <= later,
        page_at(a, end, at as int) is Ok,
    ensures
        page_at(b, later, at as int) == page_at(a, end, at as int),
{
    let kind = a[at + 8];
    read_stable(a, b, end, later, at as int, kind);
    assert(le64(b, at + 16) == le64(a, at + 16));
}

/// Pages that load keep their rows when the arena grows.
proof fn loaded_grow(
    a: Seq<u8>,
    b: Seq<u8>,
    end: int,
    later: int,
    generation: u64,
    fences: Seq<(Seq<u8>, Slot)>,
)
    requires
        extends(b, a),
        end <= later,
        forall|i: int|
            0 <= i < fences.len() ==> loaded(a, end, generation, (#[trigger] fences[i]).1.0) is Ok,
    ensures
        forall|i: int|
            0 <= i < fences.len() ==> loaded(b, later, generation, (#[trigger] fences[i]).1.0) is Ok,
        flat(b, later, generation, fences) == flat(a, end, generation, fences),
    decreases fences.len(),
{
    if fences.len() > 0 {
        let init = fences.drop_last();
        assert forall|i: int| 0 <= i < init.len() implies loaded(
            a,
            end,
            generation,
            (#[trigger] init[i]).1.0,
        ) is Ok by {
            assert(init[i] == fences[i]);
        }
        loaded_grow(a, b, end, later, generation, init);
        let last = fences[fences.len() - 1];
        loaded_stable(a, b, end, later, generation, generation, last.1.0);
        assert forall|i: int| 0 <= i < fences.len() implies loaded(
            b,
            later,
            generation,
            (#[trigger] fences[i]).1.0,
        ) is Ok by {
            if i < init.len() {
                assert(init[i] == fences[i]);
            }
        }
    }
}

/// What was laid out stays so when the arena grows.
pub proof fn laid_grows(
    a: Seq<u8>,
    b: Seq<u8>,
    end: int,
    later: int,
    generation: u64,
    fences: Seq<(Seq<u8>, Slot)>,
    head: Option<Head>,
    middle: Seq<(Seq<u8>, Slot)>,
    rows: Seq<(Seq<u8>, Cell)>,
    writes: Seq<(Seq<u8>, Change)>,
)
    requires
        extends(b, a),
        end <= later,
        laid(a, end, generation, fences, head, middle, rows, writes),
    ensures
        laid(b, later, generation, fences, head, middle, rows, writes),
{
    reveal(laid);
    if effects(rows, writes) != 0 {
        loaded_grow(a, b, end, later, generation, fences);
        if delta_due(head, rows, writes) && fences.len() == 1 {
            page_stable(a, b, end, later, fences[0].1.0);
        } else {
            assert forall|i: int| 0 <= i < fences.len() implies is_base(
                b,
                later,
                (#[trigger] fences[i]).1.0,
            ) by {
                page_stable(a, b, end, later, fences[i].1.0);
            }
        }
    }
}

/// One more row takes so much more.
pub proof fn rows_size_push(rows: Seq<(Seq<u8>, Cell)>, row: (Seq<u8>, Cell))
    ensures
        rows_size(rows.push(row)) == rows_size(rows) + row_size(row),
{
    assert(rows.push(row).drop_last() =~= rows);
}

/// The head of the page at `at`.
pub open spec fn head_of(b: Seq<u8>, end: int, at: u64) -> Head {
    let r = page_at(b, end, at as int)->Ok_0;
    (at, r.depth, r.delta_bytes as usize)
}

/// An index of pages, and the arena that it stands in.
pub struct Pages {
    pub image: Seq<u8>,
    pub end: int,
    pub generation: u64,
    pub fences: Seq<(Seq<u8>, Slot)>,
}

/// Whether the page under one of the fences before an update was laid out as it should be: what
/// now stands in its range is what its rows and the writes there call for.
pub open spec fn page_laid(
    before: Pages,
    k: int,
    writes: Seq<(Seq<u8>, Change)>,
    image: Seq<u8>,
    end: int,
    generation: u64,
    fences: Seq<(Seq<u8>, Slot)>,
) -> bool {
    let fence = before.fences[k];
    let upper = fence_key(before.fences, k + 1);
    laid(
        image,
        end,
        generation,
        range(fences, fence.0, upper),
        Some(head_of(before.image, before.end, fence.1.0)),
        seq![fence],
        page_rows(before.image, before.end, before.generation, fence),
        range(writes, fence.0, upper),
    )
}

/// What lies in a range, between what comes before it and what comes behind.
pub proof fn range_between<T>(
    p: Seq<(Seq<u8>, T)>,
    mid: Seq<(Seq<u8>, T)>,
    q: Seq<(Seq<u8>, T)>,
    lo: Seq<u8>,
    hi: Option<Seq<u8>>,
)
    requires
        sorted(p + mid + q),
        below(p, lo),
        forall|i: int| 0 <= i < mid.len() ==> in_range((#[trigger] mid[i]).0, lo, hi),
        hi is None ==> q.len() == 0,
        hi matches Some(x) ==> !lt(x, lo) && forall|i: int|
            0 <= i < q.len() ==> !lt((#[trigger] q[i]).0, x),
    ensures
        range(p + mid + q, lo, hi) == mid,
{
    broadcast use group_order;

    let all = p + mid + q;
    let n = p.len() as int;
    let m = n + mid.len();
    if n > 0 {
        assert(all[n - 1] == p[n - 1]);
    }
    if mid.len() > 0 {
        assert(all[n] == mid[0]);
        assert(all[m - 1] == mid[mid.len() - 1]);
    }
    if q.len() > 0 {
        assert(all[m] == q[0]);
    }
    rank_is(all, lo, n);
    if let Some(x) = hi {
        if mid.len() == 0 && n > 0 {
            assert(lt(p[n - 1].0, lo));
        }
        rank_is(all, x, m);
        assert(all.subrange(n, m) =~= mid);
    } else {
        assert(all.skip(n) =~= mid);
    }
}

/// What comes behind a range does not add to it.
pub proof fn range_front<T>(
    a: Seq<(Seq<u8>, T)>,
    rest: Seq<(Seq<u8>, T)>,
    lo: Seq<u8>,
    hi: Seq<u8>,
)
    requires
        sorted(a + rest),
        lt(lo, hi),
        forall|i: int| 0 <= i < rest.len() ==> !lt((#[trigger] rest[i]).0, hi),
    ensures
        range(a + rest, lo, Some(hi)) == range(a, lo, Some(hi)),
{
    broadcast use group_order;

    let all = a + rest;
    assert forall|i: int, j: int| 0 <= i < j < a.len() implies lt(
        #[trigger] a[i].0,
        #[trigger] a[j].0,
    ) by {
        assert(all[i] == a[i] && all[j] == a[j]);
    }
    front_rank(a, rest, lo);
    front_rank(a, rest, hi);
    let (r, s) = (rank(a, lo) as int, rank(a, hi) as int);
    rank_splits(a, lo);
    rank_splits(a, hi);
    if r <= s {
        assert(all.subrange(r, s) =~= a.subrange(r, s));
    }
}

proof fn front_rank<T>(a: Seq<(Seq<u8>, T)>, rest: Seq<(Seq<u8>, T)>, key: Seq<u8>)
    requires
        sorted(a + rest),
        sorted(a),
        forall|i: int| 0 <= i < rest.len() ==> !lt((#[trigger] rest[i]).0, key),
    ensures
        rank(a + rest, key) == rank(a, key),
{
    let all = a + rest;
    rank_splits(a, key);
    let r = rank(a, key) as int;
    if r > 0 {
        assert(all[r - 1] == a[r - 1]);
    }
    if r < a.len() {
        assert(all[r] == a[r]);
    } else if rest.len() > 0 {
        assert(all[r] == rest[0]);
    }
    rank_is(all, key, r);
}

} // verus!
