//! The cells of a market with a straight front: two of them, both with a gap.
use vstd::prelude::*;

use crate::answer_cells::{
    cell_gap, clipped, is_margin, lowest_in, margin, one_margin, one_winner, right_cells, score,
    score_is_height, span, wins, Cell, Product, W_DEN,
};
use crate::hull::meeting;

verus! {

/// A product on the front, somewhere between its two ends.
pub open spec fn on_front(p: Product) -> bool {
    1000 < p.price < 19000 && p.price + p.delivery == 20000
}

/// A product behind the front.
pub open spec fn behind_front(p: Product) -> bool {
    &&& 3000 <= p.price <= 30_000
    &&& 3000 <= p.delivery <= 30_000
    &&& p.price + p.delivery >= 24_000
}

/// Whether the first `f` products are a straight front and all others lie behind it.
pub open spec fn fronted(ps: Seq<Product>, f: int) -> bool {
    &&& 2 <= f <= ps.len()
    &&& ps[0] == (Product { price: 1000, delivery: 19000 })
    &&& ps[f - 1] == (Product { price: 19000, delivery: 1000 })
    &&& forall|t: int| 0 < t < f - 1 ==> on_front(#[trigger] ps[t])
    &&& forall|j: int| f <= j < ps.len() ==> behind_front(#[trigger] ps[j])
}

/// The end of the front that is lowest on one side of the middle weight.
spec fn end_at(f: int, x: int, y: int) -> int {
    if 2 * x < y {
        f - 1
    } else {
        0
    }
}

/// Away from the middle weight one end of the front is below everything else.
proof fn end_lowest(ps: Seq<Product>, f: int, x: int, y: int, j: int)
    requires
        fronted(ps, f),
        y > 0,
        0 <= x <= y,
        2 * x != y,
        0 <= j < ps.len(),
        j != end_at(f, x, y),
    ensures
        ps[end_at(f, x, y)].at(x, y) < ps[j].at(x, y),
{
    let p = ps[j];
    let (c, d) = (p.price as int, p.delivery as int);
    assert(j == 0 || j == f - 1 || (0 < j < f - 1 && on_front(p)) || (f <= j && behind_front(p)));
    if j < f {
        assert(c + d == 20000);
        if 2 * x < y {
            assert(c < 19000);
            assert(1000 * y + 18000 * x < d * y + (c - d) * x) by (nonlinear_arith)
                requires
                    c + d == 20000,
                    c < 19000,
                    2 * x < y,
            {
                assert(d * y + (c - d) * x - (1000 * y + 18000 * x) == (19000 - c) * (y - 2 * x))
                    by (nonlinear_arith)
                    requires
                        c + d == 20000,
                ;
                assert((19000 - c) * (y - 2 * x) > 0) by (nonlinear_arith)
                    requires
                        c < 19000,
                        2 * x < y,
                ;
            }
        } else {
            assert(c > 1000);
            assert(19000 * y + (-18000) * x < d * y + (c - d) * x) by (nonlinear_arith)
                requires
                    c + d == 20000,
                    c > 1000,
                    2 * x > y,
            {
                assert(d * y + (c - d) * x - (19000 * y + (-18000) * x) == (c - 1000) * (2 * x - y))
                    by (nonlinear_arith)
                    requires
                        c + d == 20000,
                ;
                assert((c - 1000) * (2 * x - y) > 0) by (nonlinear_arith)
                    requires
                        c > 1000,
                        2 * x > y,
                ;
            }
        }
    } else {
        if 2 * x < y {
            assert(1000 * y + 18000 * x < d * y + (c - d) * x) by (nonlinear_arith)
                requires
                    c + d >= 24000,
                    d >= 3000,
                    y > 0,
                    0 <= x,
                    2 * x < y,
            {
                assert(c * x >= (24000 - d) * x) by (nonlinear_arith)
                    requires
                        c + d >= 24000,
                        0 <= x,
                ;
                assert(d * (y - 2 * x) >= 3000 * (y - 2 * x)) by (nonlinear_arith)
                    requires
                        d >= 3000,
                        2 * x < y,
                ;
                assert(d * y + (c - d) * x == c * x - (24000 - d) * x + d * (y - 2 * x) + 24000 * x)
                    by (nonlinear_arith);
            }
        } else {
            assert(19000 * y + (-18000) * x < d * y + (c - d) * x) by (nonlinear_arith)
                requires
                    c + d >= 24000,
                    c >= 3000,
                    y > 0,
                    x <= y,
                    2 * x > y,
            {
                assert(d * (y - x) >= (24000 - c) * (y - x)) by (nonlinear_arith)
                    requires
                        c + d >= 24000,
                        x <= y,
                ;
                assert(c * (2 * x - y) >= 3000 * (2 * x - y)) by (nonlinear_arith)
                    requires
                        c >= 3000,
                        2 * x > y,
                ;
                assert(d * y + (c - d) * x == d * (y - x) - (24000 - c) * (y - x) + c * (2 * x - y)
                    + 24000 * (y - x)) by (nonlinear_arith);
            }
        }
    }
}

/// A cell that has such a weight belongs to that end.
proof fn cell_of_end(ps: Seq<Product>, f: int, cells: Seq<Cell>, i: int, x: int, y: int)
    requires
        fronted(ps, f),
        right_cells(ps, cells),
        0 <= i < cells.len(),
        y > 0,
        0 <= x <= y,
        2 * x != y,
        cells[i].w_lo.reaches(x, y),
        cells[i].w_hi.holds_back(x, y),
    ensures
        cells[i].winner == end_at(f, x, y),
{
    let w = cells[i].winner as int;
    let e = end_at(f, x, y);
    assert(lowest_in(ps, cells[i], e));
    assert(ps[w].at(x, y) <= ps[e].at(x, y));
    if w != e {
        end_lowest(ps, f, x, y, w);
    }
}

/// No cell ends behind the weight one.
proof fn ends_inside(ps: Seq<Product>, cells: Seq<Cell>, i: int)
    requires
        right_cells(ps, cells),
        0 <= i < cells.len(),
    ensures
        cells[i].w_hi.n <= cells[i].w_hi.d,
        0 <= cells[i].w_lo.n,
        0 < cells[i].w_hi.d,
    decreases cells.len() - i,
{
    let a = cells[i].w_hi;
    if i + 1 < cells.len() {
        ends_inside(ps, cells, i + 1);
        let b = cells[i + 1].w_hi;
        assert(cells[i + 1].w_lo == a);
        assert(cells[i + 1].w_lo.below(b));
        let (an, ad, bn, bd) = (a.n as int, a.d as int, b.n as int, b.d as int);
        assert(an <= ad) by (nonlinear_arith)
            requires
                an * bd < bn * ad,
                bn <= bd,
                ad > 0,
                bd > 0,
        ;
    }
}

/// Cells can meet only at the middle weight.
proof fn joint_in_the_middle(ps: Seq<Product>, f: int, cells: Seq<Cell>, i: int)
    requires
        fronted(ps, f),
        right_cells(ps, cells),
        0 <= i,
        i + 1 < cells.len(),
    ensures
        2 * cells[i].w_hi.n == cells[i].w_hi.d,
{
    let m = cells[i].w_hi;
    let (x, y) = (m.n as int, m.d as int);
    ends_inside(ps, cells, i);
    assert(cells[i].w_lo.below(m) && m.tidy());
    assert(cells[i + 1].w_lo == m && m.below(cells[i + 1].w_hi));
    if 2 * x != y {
        assert(m.reaches(x, y) && m.holds_back(x, y));
        cell_of_end(ps, f, cells, i, x, y);
        cell_of_end(ps, f, cells, i + 1, x, y);
        assert(m == meeting(ps[cells[i].winner as int], ps[cells[i + 1].winner as int]));
    }
}

proof fn margin_upto(ps: Seq<Product>, k: int, w: int, n: int) -> (best: int)
    requires
        0 <= w < ps.len(),
        2 <= n <= ps.len() || (w > 0 && 1 <= n <= ps.len()),
    ensures
        0 <= best < n,
        best != w,
        forall|j: int|
            0 <= j < n && j != w ==> score(ps[best], k) <= score(#[trigger] ps[j], k),
    decreases n,
{
    let last = n - 1;
    if last == w {
        margin_upto(ps, k, w, n - 1)
    } else if n == 1 || (n == 2 && w == 0) {
        last
    } else {
        let b = margin_upto(ps, k, w, n - 1);
        if score(ps[last], k) < score(ps[b], k) {
            last
        } else {
            b
        }
    }
}

/// Away from the middle weight the winner is ahead.
proof fn ahead(ps: Seq<Product>, f: int, k: int)
    requires
        fronted(ps, f),
        0 <= k <= W_DEN,
        2 * k != W_DEN,
    ensures
        margin(ps, k) > 0,
{
    let e = end_at(f, k, W_DEN as int);
    assert forall|j: int| 0 <= j < ps.len() && j != e implies score(ps[e], k) < score(
        #[trigger] ps[j],
        k,
    ) by {
        end_lowest(ps, f, k, W_DEN as int, j);
        score_is_height(ps[e], k);
        score_is_height(ps[j], k);
    }
    assert(wins(ps, k, e));
    one_winner(ps, k, e);
    let best = margin_upto(ps, k, e, ps.len() as int);
    let g = clipped(score(ps[best], k) - score(ps[e], k));
    assert(is_margin(ps, k, g));
    one_margin(ps, k, g);
}

/// Behind a straight front there are two cells, and both have a gap.
pub proof fn front_has_gaps(ps: Seq<Product>, f: int, cells: Seq<Cell>)
    requires
        fronted(ps, f),
        right_cells(ps, cells),
    ensures
        cells.len() == 2,
        forall|i: int| 0 <= i < cells.len() ==> (#[trigger] cells[i]).min_gap > 0,
{
    if cells.len() == 1 {
        let (lo, hi) = (cells[0].w_lo, cells.last().w_hi);
        assert(lo.n == 0 && lo.d == 1 && hi.n == 1 && hi.d == 1);
        assert(hi.n * 4 >= 1 * hi.d && hi.n * 4 >= 3 * hi.d && lo.n * 4 <= 1 * lo.d && lo.n * 4 <= 3
            * lo.d) by (nonlinear_arith)
            requires
                lo.n == 0,
                lo.d == 1,
                hi.n == 1,
                hi.d == 1,
        ;
        cell_of_end(ps, f, cells, 0, 1, 4);
        cell_of_end(ps, f, cells, 0, 3, 4);
    }
    if cells.len() > 2 {
        joint_in_the_middle(ps, f, cells, 0);
        joint_in_the_middle(ps, f, cells, 1);
        let (a, b) = (cells[0].w_hi, cells[1].w_hi);
        assert(cells[1].w_lo == a);
        assert(a.below(b));
        let (an, ad, bn, bd) = (a.n as int, a.d as int, b.n as int, b.d as int);
        assert(an * bd == bn * ad) by (nonlinear_arith)
            requires
                ad == 2 * an,
                bd == 2 * bn,
        ;
    }
    joint_in_the_middle(ps, f, cells, 0);
    let m = cells[0].w_hi;
    ends_inside(ps, cells, 0);
    let (n, d) = (m.n as int, m.d as int);
    assert(cells[1] == cells.last());
    assert(cells[1].w_lo == m);
    assert(n * W_DEN == 5000 * d) by (nonlinear_arith)
        requires
            d == 2 * n,
            W_DEN == 10_000,
    ;
    assert((5000 * d) / d == 5000) by (nonlinear_arith)
        requires
            d > 0,
    ;
    assert((5000 * d + d - 1) / d == 5000) by (nonlinear_arith)
        requires
            d > 0,
    ;
    assert(span(cells[0].w_lo, m) == (0int, 5000int));
    assert(span(m, cells[1].w_hi) == (5000int, 10_000int));
    ahead(ps, f, 1250);
    ahead(ps, f, 2500);
    ahead(ps, f, 3750);
    ahead(ps, f, 6250);
    ahead(ps, f, 7500);
    ahead(ps, f, 8750);
    assert(cells[0].min_gap == cell_gap(ps, cells[0].w_lo, m));
    assert(cells[1].min_gap == cell_gap(ps, m, cells[1].w_hi));
}

} // verus!
