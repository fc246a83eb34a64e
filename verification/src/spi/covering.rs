//! Runs of packed pages, and contents put together from parts.
use vstd::prelude::*;

use super::bytes::{group_order, lt};
use super::contents::{changed, updated, Change, Version};
use super::fences::{
    between, fence_key, flat, joined_lookup, loaded_stable, page_ok, page_rows, pages_ok,
};
use super::lineage::loaded;
use super::merge::version_changes;
use super::overlay::{below, over};
use super::rows::{in_range, lookup, lookup_finds, present, sorted};
use super::tree::Slot;
use super::writer::ArenaWriter;

verus! {

/// Pages that cover a stretch of keys, up to `upper`.
pub open spec fn covering(
    b: Seq<u8>,
    end: int,
    generation: u64,
    fences: Seq<(Seq<u8>, Slot)>,
    upper: Option<Seq<u8>>,
) -> bool {
    forall|i: int|
        0 <= i < fences.len() ==> {
            &&& loaded(b, end, generation, (#[trigger] fences[i]).1.0) is Ok
            &&& between(
                page_rows(b, end, generation, fences[i]),
                fences[i].0,
                if i + 1 < fences.len() {
                    Some(fences[i + 1].0)
                } else {
                    upper
                },
            )
        }
}

/// Fences cover what their pages need exactly when nothing bounds the last one.
pub proof fn covering_pages(
    b: Seq<u8>,
    end: int,
    generation: u64,
    fences: Seq<(Seq<u8>, Slot)>,
)
    ensures
        covering(b, end, generation, fences, None) <==> pages_ok(b, end, generation, fences),
{
    if covering(b, end, generation, fences, None) {
        assert forall|i: int| 0 <= i < fences.len() implies #[trigger] page_ok(
            b,
            end,
            generation,
            fences,
            i,
        ) by {
            assert(loaded(b, end, generation, fences[i].1.0) is Ok);
        }
    }
    if pages_ok(b, end, generation, fences) {
        assert forall|i: int| 0 <= i < fences.len() implies {
            &&& loaded(b, end, generation, (#[trigger] fences[i]).1.0) is Ok
            &&& between(
                page_rows(b, end, generation, fences[i]),
                fences[i].0,
                if i + 1 < fences.len() {
                    Some(fences[i + 1].0)
                } else {
                    None
                },
            )
        } by {
            assert(page_ok(b, end, generation, fences, i));
        }
    }
}

#[verifier::spinoff_prover]
#[verifier::rlimit(60)]
/// Two stretches that meet at the first fence of the second.
pub proof fn covering_join(
    b: Seq<u8>,
    end: int,
    generation: u64,
    x: Seq<(Seq<u8>, Slot)>,
    y: Seq<(Seq<u8>, Slot)>,
    upper: Option<Seq<u8>>,
)
    requires
        covering(
            b,
            end,
            generation,
            x,
            if y.len() > 0 {
                Some(y[0].0)
            } else {
                upper
            },
        ),
        covering(b, end, generation, y, upper),
    ensures
        covering(b, end, generation, x + y, upper),
{
    let s = x + y;
    assert forall|i: int| 0 <= i < s.len() implies {
        &&& loaded(b, end, generation, (#[trigger] s[i]).1.0) is Ok
        &&& between(
            page_rows(b, end, generation, s[i]),
            s[i].0,
            if i + 1 < s.len() {
                Some(s[i + 1].0)
            } else {
                upper
            },
        )
    } by {
        if i < x.len() {
            assert(s[i] == x[i]);
            if i + 1 < x.len() {
                assert(s[i + 1] == x[i + 1]);
            } else if i + 1 < s.len() {
                assert(s[i + 1] == y[0]);
            }
        } else {
            assert(s[i] == y[i - x.len()]);
            if i + 1 < s.len() {
                assert(s[i + 1] == y[i + 1 - x.len()]);
            }
        }
    }
}

/// A stretch of the fences of a version.
pub proof fn covering_part(
    b: Seq<u8>,
    end: int,
    generation: u64,
    fences: Seq<(Seq<u8>, Slot)>,
    i: int,
    j: int,
)
    requires
        pages_ok(b, end, generation, fences),
        0 <= i <= j <= fences.len(),
    ensures
        covering(b, end, generation, fences.subrange(i, j), fence_key(fences, j)),
{
    let s = fences.subrange(i, j);
    assert forall|k: int| 0 <= k < s.len() implies {
        &&& loaded(b, end, generation, (#[trigger] s[k]).1.0) is Ok
        &&& between(
            page_rows(b, end, generation, s[k]),
            s[k].0,
            if k + 1 < s.len() {
                Some(s[k + 1].0)
            } else {
                fence_key(fences, j)
            },
        )
    } by {
        assert(s[k] == fences[i + k]);
        assert(page_ok(b, end, generation, fences, i + k));
        if k + 1 < s.len() {
            assert(s[k + 1] == fences[i + k + 1]);
        }
    }
}

/// Covering pages stay what they are while the writer goes on.
pub proof fn covering_moves(
    a: ArenaWriter,
    b: ArenaWriter,
    fences: Seq<(Seq<u8>, Slot)>,
    upper: Option<Seq<u8>>,
)
    requires
        b.grew_from(a),
        covering(a.image(), a.end as int, a.generation, fences, upper),
    ensures
        covering(b.image(), b.end as int, b.generation, fences, upper),
        flat(b.image(), b.end as int, b.generation, fences) == flat(
            a.image(),
            a.end as int,
            a.generation,
            fences,
        ),
    decreases fences.len(),
{
    assert forall|i: int| 0 <= i < fences.len() implies {
        &&& loaded(b.image(), b.end as int, b.generation, (#[trigger] fences[i]).1.0) == loaded(
            a.image(),
            a.end as int,
            a.generation,
            fences[i].1.0,
        )
        &&& loaded(a.image(), a.end as int, a.generation, fences[i].1.0) is Ok
    } by {
        loaded_stable(
            a.image(),
            b.image(),
            a.end as int,
            b.end as int,
            a.generation,
            b.generation,
            fences[i].1.0,
        );
    }
    if fences.len() > 0 {
        let init = fences.drop_last();
        assert(fences[fences.len() - 1] == fences.last());
        assert forall|i: int| 0 <= i < init.len() implies {
            &&& loaded(a.image(), a.end as int, a.generation, (#[trigger] init[i]).1.0) is Ok
            &&& between(
                page_rows(a.image(), a.end as int, a.generation, init[i]),
                init[i].0,
                if i + 1 < init.len() {
                    Some(init[i + 1].0)
                } else {
                    Some(fences.last().0)
                },
            )
        } by {
            assert(init[i] == fences[i]);
        }
        covering_moves(a, b, init, Some(fences.last().0));
    }
}

/// Three runs of rows with writes between: what holds of each part holds of
/// the whole.
pub proof fn parts_updated(
    x0: Seq<(Seq<u8>, Version)>,
    x1: Seq<(Seq<u8>, Version)>,
    mid: Seq<(Seq<u8>, Version)>,
    y0: Seq<(Seq<u8>, Version)>,
    y1: Seq<(Seq<u8>, Version)>,
    lo: Seq<u8>,
    fm: Seq<u8>,
    writes: Seq<(Seq<u8>, Change)>,
    i: int,
    j: int,
    revision: u64,
)
    requires
        0 <= i <= j <= writes.len(),
        sorted(writes),
        sorted(x0),
        sorted(mid),
        sorted(y0),
        sorted(y1),
        !lt(fm, lo),
        below(x0, lo),
        below(x1, lo),
        between(mid, lo, Some(fm)),
        between(y0, fm, None),
        between(y1, fm, None),
        updated(x0, x1, writes.take(i), revision),
        over(y0, y1, version_changes(writes.subrange(i, j), revision)),
        below(writes.take(i), lo),
        forall|t: int| i <= t < j ==> !lt((#[trigger] writes[t]).0, fm),
    ensures
        updated(x0 + mid + y0, x1 + mid + y1, writes.take(j), revision),
        sorted(x0 + mid + y0),
        sorted(x1 + mid + y1),
{
    broadcast use group_order;

    let wi = writes.take(i);
    let wj = writes.take(j);
    let ws = writes.subrange(i, j);
    let vc = version_changes(ws, revision);
    assert forall|k: int| 0 <= k < mid.len() implies lt(#[trigger] mid[k].0, fm) by {
        assert(in_range(mid[k].0, lo, Some(fm)));
    }
    assert forall|k: int| 0 <= k < mid.len() implies in_range(#[trigger] mid[k].0, lo, None) by {
        assert(in_range(mid[k].0, lo, Some(fm)));
    }
    let m0 = mid + y0;
    let m1 = mid + y1;
    joined_lookup(mid, y0, fm);
    joined_lookup(mid, y1, fm);
    assert forall|k: int| 0 <= k < m0.len() implies in_range(#[trigger] m0[k].0, lo, None) by {
        if k < mid.len() {
            assert(m0[k] == mid[k]);
        } else {
            assert(m0[k] == y0[k - mid.len()]);
            assert(in_range(y0[k - mid.len()].0, fm, None));
            if lt(m0[k].0, lo) {
                super::bytes::lt_total(m0[k].0, fm);
                super::bytes::lt_total(lo, fm);
            }
        }
    }
    assert forall|k: int| 0 <= k < m1.len() implies in_range(#[trigger] m1[k].0, lo, None) by {
        if k < mid.len() {
            assert(m1[k] == mid[k]);
        } else {
            assert(m1[k] == y1[k - mid.len()]);
            assert(in_range(y1[k - mid.len()].0, fm, None));
            if lt(m1[k].0, lo) {
                super::bytes::lt_total(m1[k].0, fm);
                super::bytes::lt_total(lo, fm);
            }
        }
    }
    joined_lookup(x0, m0, lo);
    joined_lookup(x1, m1, lo);
    assert(x0 + mid + y0 =~= x0 + m0);
    assert(x1 + mid + y1 =~= x1 + m1);
    assert(sorted(wi) && sorted(ws) && sorted(wj)) by {
        assert forall|a: int, b: int| 0 <= a < b < wi.len() implies lt(
            #[trigger] wi[a].0,
            #[trigger] wi[b].0,
        ) by {
            assert(wi[a] == writes[a] && wi[b] == writes[b]);
        }
        assert forall|a: int, b: int| 0 <= a < b < ws.len() implies lt(
            #[trigger] ws[a].0,
            #[trigger] ws[b].0,
        ) by {
            assert(ws[a] == writes[i + a] && ws[b] == writes[i + b]);
        }
        assert forall|a: int, b: int| 0 <= a < b < wj.len() implies lt(
            #[trigger] wj[a].0,
            #[trigger] wj[b].0,
        ) by {
            assert(wj[a] == writes[a] && wj[b] == writes[b]);
        }
    }
    assert forall|k: int| 0 <= k < wi.len() implies lt(#[trigger] wi[k].0, fm) by {
        assert(lt(wi[k].0, lo));
        super::bytes::lt_total(lo, fm);
    }
    assert forall|k: int| 0 <= k < ws.len() implies in_range(#[trigger] ws[k].0, fm, None) by {
        assert(ws[k] == writes[i + k]);
    }
    joined_lookup(wi, ws, fm);
    assert(wj =~= wi + ws);
    let after = x1 + mid + y1;
    let start = x0 + mid + y0;
    assert forall|k: Seq<u8>| #[trigger] lookup(after, k) == changed(
        lookup(wj, k),
        lookup(start, k),
        revision,
    ) by {
        assert(lookup(x1 + m1, k) == if lt(k, lo) {
            lookup(x1, k)
        } else {
            lookup(m1, k)
        });
        assert(lookup(x0 + m0, k) == if lt(k, lo) {
            lookup(x0, k)
        } else {
            lookup(m0, k)
        });
        assert(lookup(wi + ws, k) == if lt(k, fm) {
            lookup(wi, k)
        } else {
            lookup(ws, k)
        });
        assert(lookup(m1, k) == if lt(k, fm) {
            lookup(mid, k)
        } else {
            lookup(y1, k)
        });
        assert(lookup(m0, k) == if lt(k, fm) {
            lookup(mid, k)
        } else {
            lookup(y0, k)
        });
        assert(lookup(x1, k) == changed(lookup(wi, k), lookup(x0, k), revision));
        assert(lookup(y1, k) == (match lookup(vc, k) {
            Some(c) => c,
            None => lookup(y0, k),
        }));
        assert forall|a: int| 0 <= a < ws.len() implies (#[trigger] ws[a]).0 == vc[a].0 by {}
        super::contents::same_rank(ws, vc, k);
        if lt(k, lo) {
            if !lt(k, fm) {
                super::bytes::lt_total(lo, fm);
            }
        } else if lt(k, fm) {
            // No write falls between the two bounds.
            lookup_finds(wi, k);
            if present(wi, k) {
                let a = choose|a: int| 0 <= a < wi.len() && (#[trigger] wi[a]).0 == k;
                assert(lt(wi[a].0, lo));
            }
        }
    }
}

} // verus!
