//! Answer cells: one exact winner for a whole range of query weights.
//!
//! A product's score at weight `k` is `k * price + (W_DEN - k) * delivery`; the
//! lowest score wins, then the smallest index.
use std::cmp::Ordering;
use vstd::prelude::*;

use crate::hull::{
    below_carries, covered, covers_unit, falling, in_unit, joint, lower_hull, lowest, meet, meeting,
    meeting_parts, placed, trimmed, turning,
};

verus! {

pub const W_DEN: i64 = 10_000;

#[derive(Clone, Copy, Debug, PartialEq, Eq, Structural)]
pub struct Product {
    pub price: i64,
    pub delivery: i64,
}

impl Product {
    /// Whether the slope of the score can be held.
    pub open spec fn priced(self) -> bool {
        i64::MIN <= self.rise() <= i64::MAX
    }

    /// Whether two products are near enough for the weight at which they score alike to be
    /// compared with others.
    pub open spec fn near(self, other: Product) -> bool {
        -0x8000_0000_0000_0000 < self.delivery - other.delivery < 0x8000_0000_0000_0000
    }

    /// The slope of the score in the weight.
    pub open spec fn rise(self) -> int {
        self.price - self.delivery
    }

    /// The score at weight `x / y`, times `y`.
    pub open spec fn at(self, x: int, y: int) -> int {
        self.delivery * y + self.rise() * x
    }
}

/// Whether the envelope of the products can be computed.
pub open spec fn all_priced(ps: Seq<Product>) -> bool {
    &&& forall|i: int| 0 <= i < ps.len() ==> (#[trigger] ps[i]).priced()
    &&& forall|i: int, j: int|
        0 <= i < ps.len() && 0 <= j < ps.len() ==> (#[trigger] ps[i]).near(#[trigger] ps[j])
}

/// A weight as a fraction.
#[derive(Clone, Copy, Debug, PartialEq, Eq, Structural)]
pub struct Frac {
    pub n: i128,
    pub d: i128,
}

pub open spec fn fits(x: int) -> bool {
    i128::MIN <= x <= i128::MAX
}

impl Frac {
    /// Whether comparisons with such fractions cannot overflow.
    pub open spec fn tidy(self) -> bool {
        &&& -0x8000_0000_0000_0000 < self.n < 0x8000_0000_0000_0000
        &&& 0 < self.d < 0x1_0000_0000_0000_0000
    }

    pub open spec fn below(self, other: Frac) -> bool {
        self.n * other.d < other.n * self.d
    }

    /// Not above the weight `x / y`.
    pub open spec fn reaches(self, x: int, y: int) -> bool {
        self.n * y <= x * self.d
    }

    /// Not below the weight `x / y`.
    pub open spec fn holds_back(self, x: int, y: int) -> bool {
        self.n * y >= x * self.d
    }

    pub open spec fn equals(self, x: int, y: int) -> bool {
        self.n * y == x * self.d
    }

    /// A fraction, its denominator made positive.
    pub fn new(n: i128, d: i128) -> (f: Self)
        requires
            d < 0 ==> n > i128::MIN && d > i128::MIN,
        ensures
            d < 0 ==> f.n == -n && f.d == -d,
            d >= 0 ==> f.n == n && f.d == d,
    {
        if d < 0 {
            Frac { n: -n, d: -d }
        } else {
            Frac { n, d }
        }
    }

    pub fn cmp(self, other: Self) -> (r: Ordering)
        requires
            fits(self.n * other.d),
            fits(other.n * self.d),
        ensures
            r == if self.n * other.d < other.n * self.d {
                Ordering::Less
            } else if self.n * other.d == other.n * self.d {
                Ordering::Equal
            } else {
                Ordering::Greater
            },
    {
        let a: i128 = self.n * other.d;
        let b: i128 = other.n * self.d;
        if a < b {
            Ordering::Less
        } else if a == b {
            Ordering::Equal
        } else {
            Ordering::Greater
        }
    }

    pub fn le_query(self, k: i64, wden: i64) -> (r: bool)
        requires
            fits(self.n * wden),
            fits(k * self.d),
        ensures
            r == self.reaches(k as int, wden as int),
    {
        self.n * wden as i128 <= k as i128 * self.d
    }

    pub fn ge_query(self, k: i64, wden: i64) -> (r: bool)
        requires
            fits(self.n * wden),
            fits(k * self.d),
        ensures
            r == self.holds_back(k as int, wden as int),
    {
        self.n * wden as i128 >= k as i128 * self.d
    }
}

/// Tidy fractions can be compared with one another and with any query weight.
pub proof fn tidy_compares(a: Frac, b: Frac, k: i64)
    requires
        a.tidy(),
        b.tidy(),
    ensures
        fits(a.n * b.d),
        fits(a.n * W_DEN),
        fits(k * a.d),
{
    let (n, d, e) = (a.n as int, a.d as int, b.d as int);
    let q = k as int;
    assert(-0x8000_0000_0000_0000 * 0x1_0000_0000_0000_0000 <= n * e <= 0x7fff_ffff_ffff_ffff
        * 0x1_0000_0000_0000_0000) by (nonlinear_arith)
        requires
            -0x8000_0000_0000_0000 < n < 0x8000_0000_0000_0000,
            0 < e < 0x1_0000_0000_0000_0000,
    ;
    assert(-0x8000_0000_0000_0000 * 0x1_0000_0000_0000_0000 <= q * d <= 0x7fff_ffff_ffff_ffff
        * 0x1_0000_0000_0000_0000) by (nonlinear_arith)
        requires
            -0x8000_0000_0000_0000 <= q < 0x8000_0000_0000_0000,
            0 < d < 0x1_0000_0000_0000_0000,
    ;
}

/// Whether one weight is below another.
pub fn less(a: Frac, b: Frac) -> (r: bool)
    requires
        a.tidy(),
        b.tidy(),
    ensures
        r == a.below(b),
{
    proof {
        tidy_compares(a, b, 0);
        tidy_compares(b, a, 0);
    }
    match a.cmp(b) {
        Ordering::Less => true,
        _ => false,
    }
}

/// A range of weights with one winner.
#[derive(Clone, Copy, Debug, PartialEq, Eq, Structural)]
pub struct Cell {
    pub w_lo: Frac,
    pub w_hi: Frac,
    pub winner: usize,
    pub min_gap: i128,
}

/// What a product scores at a query weight.
pub open spec fn score(p: Product, k: int) -> int {
    k * p.price + (W_DEN - k) * p.delivery
}

/// A score is the height of the product's line over the query weight.
pub proof fn score_is_height(p: Product, k: int)
    ensures
        score(p, k) == p.at(k, W_DEN as int),
{
    let (a, b, w) = (p.price as int, p.delivery as int, W_DEN as int);
    assert(k * a + (w - k) * b == b * w + (a - b) * k) by (nonlinear_arith);
}

/// Whether the other share of the weight can be computed.
pub open spec fn weight(k: int) -> bool {
    W_DEN - i64::MAX <= k <= i64::MAX
}

pub fn score_k(p: Product, k: i64) -> (s: i128)
    requires
        weight(k as int),
    ensures
        s == score(p, k as int),
{
    proof {
        let (a, b, q, r) = (p.price as int, p.delivery as int, k as int, W_DEN - k);
        assert(-0x4000_0000_0000_0000_0000_0000_0000_0000 < q * a
            < 0x4000_0000_0000_0000_0000_0000_0000_0000) by (nonlinear_arith)
            requires
                -0x8000_0000_0000_0000 < q < 0x8000_0000_0000_0000,
                -0x8000_0000_0000_0000 <= a < 0x8000_0000_0000_0000,
        ;
        assert(-0x4000_0000_0000_0000_0000_0000_0000_0000 < r * b
            < 0x4000_0000_0000_0000_0000_0000_0000_0000) by (nonlinear_arith)
            requires
                -0x8000_0000_0000_0000 < r < 0x8000_0000_0000_0000,
                -0x8000_0000_0000_0000 <= b < 0x8000_0000_0000_0000,
        ;
    }
    k as i128 * p.price as i128 + (W_DEN - k) as i128 * p.delivery as i128
}

/// Whether a product has the lowest score, and the smallest index among its equals.
pub open spec fn wins(ps: Seq<Product>, k: int, w: int) -> bool {
    &&& 0 <= w < ps.len()
    &&& forall|j: int|
        0 <= j < ps.len() ==> score(ps[w], k) < score(#[trigger] ps[j], k) || (score(ps[w], k)
            == score(ps[j], k) && w <= j)
}

/// The winner at a weight.
pub open spec fn winner(ps: Seq<Product>, k: int) -> int {
    if ps.len() == 0 {
        0
    } else {
        choose|w: int| wins(ps, k, w)
    }
}

/// There is but one winner.
pub proof fn one_winner(ps: Seq<Product>, k: int, w: int)
    requires
        wins(ps, k, w),
    ensures
        winner(ps, k) == w,
{
    let v = winner(ps, k);
    assert(wins(ps, k, v));
    assert(score(ps[w], k) <= score(ps[v], k));
    assert(score(ps[v], k) <= score(ps[w], k));
}

/// The largest number that a gap can have.
pub open spec fn clipped(x: int) -> int {
    if x > i128::MAX {
        i128::MAX as int
    } else {
        x
    }
}

/// By how much the best of all others loses.
pub open spec fn is_margin(ps: Seq<Product>, k: int, g: int) -> bool {
    let w = winner(ps, k);
    if ps.len() == 0 {
        g == 0
    } else if ps.len() == 1 {
        g == clipped(i128::MAX - score(ps[w], k))
    } else {
        &&& exists|j: int|
            0 <= j < ps.len() && j != w && g == clipped(score(#[trigger] ps[j], k) - score(ps[w], k))
        &&& forall|j: int|
            0 <= j < ps.len() && j != w ==> g <= clipped(
                score(#[trigger] ps[j], k) - score(ps[w], k),
            )
    }
}

pub open spec fn margin(ps: Seq<Product>, k: int) -> int {
    choose|g: int| is_margin(ps, k, g)
}

/// There is but one margin.
pub proof fn one_margin(ps: Seq<Product>, k: int, g: int)
    requires
        is_margin(ps, k, g),
    ensures
        margin(ps, k) == g,
{
    assert(is_margin(ps, k, margin(ps, k)));
}

/// The winner by a scan, and how far it is ahead.
pub fn brute_winner(ps: &[Product], k: i64) -> (r: (usize, i128))
    requires
        weight(k as int),
    ensures
        r.0 == winner(ps@, k as int),
        ps@.len() > 0 ==> wins(ps@, k as int, r.0 as int),
        is_margin(ps@, k as int, r.1 as int),
        r.1 == margin(ps@, k as int),
{
    let ghost q = k as int;
    let mut best_i: usize = 0;
    let mut best: i128 = i128::MAX;
    let mut second: i128 = i128::MAX;
    let mut i: usize = 0;
    while i < ps.len()
        invariant
            q == k,
            weight(q),
            i <= ps@.len(),
            i == 0 ==> best_i == 0 && best == i128::MAX,
            i <= 1 ==> second == i128::MAX,
            i > 0 ==> best_i < i && best == score(ps@[best_i as int], q),
            forall|j: int|
                0 <= j < i ==> best < score(#[trigger] ps@[j], q) || (best == score(ps@[j], q)
                    && best_i <= j),
            i > 1 ==> exists|j: int|
                0 <= j < i && j != best_i && second == score(#[trigger] ps@[j], q),
            forall|j: int| 0 <= j < i && j != best_i ==> second <= score(#[trigger] ps@[j], q),
        decreases ps@.len() - i,
    {
        let s: i128 = score_k(ps[i], k);
        assert(s == score(ps@[i as int], q));
        if s < best || (s == best && i < best_i) {
            if s != best {
                second = best;
            }
            assert(i > 0 ==> second == score(ps@[best_i as int], q));
            best = s;
            best_i = i;
        } else if s < second {
            second = s;
        } else {
            proof {
                if i > 1 {
                    let j = choose|j: int|
                        0 <= j < i && j != best_i && second == score(#[trigger] ps@[j], q);
                    assert(0 <= j < i + 1 && j != best_i && second == score(ps@[j], q));
                } else if i == 1 {
                    assert(second == score(ps@[1], q));
                }
            }
        }
        i = i + 1;
    }
    let gap: i128 = if second >= 0 && best < 0 && second > i128::MAX + best {
        i128::MAX
    } else {
        proof {
            if ps@.len() > 0 {
                assert(best <= second) by {
                    if ps@.len() > 1 {
                        let j = choose|j: int|
                            0 <= j < ps@.len() && j != best_i && second == score(
                                #[trigger] ps@[j],
                                q,
                            );
                    }
                }
            }
        }
        second - best
    };
    proof {
        if ps@.len() > 0 {
            assert(wins(ps@, q, best_i as int));
            one_winner(ps@, q, best_i as int);
            if ps@.len() > 1 {
                let j = choose|j: int|
                    0 <= j < ps@.len() && j != best_i && second == score(#[trigger] ps@[j], q);
                assert(gap == clipped(score(ps@[j], q) - score(ps@[best_i as int], q)));
            }
        }
        assert(is_margin(ps@, q, gap as int));
        one_margin(ps@, q, gap as int);
    }
    (best_i, gap)
}

/// The first and the last query weight in a range, from zero to one.
pub open spec fn span(lo: Frac, hi: Frac) -> (int, int) {
    (
        bounded((lo.n * W_DEN + lo.d - 1) / (lo.d as int)),
        bounded(hi.n * W_DEN / (hi.d as int)),
    )
}

pub open spec fn bounded(x: int) -> int {
    if x < 0 {
        0
    } else if x > W_DEN {
        W_DEN as int
    } else {
        x
    }
}

fn bound(x: i128) -> (r: i64)
    ensures
        r == bounded(x as int),
{
    if x < 0 {
        0
    } else if x > W_DEN as i128 {
        W_DEN
    } else {
        x as i64
    }
}

pub(crate) fn integer_span(lo: Frac, hi: Frac) -> (r: (i64, i64))
    requires
        lo.tidy(),
        hi.tidy(),
        lo.n >= 0,
        hi.n >= 0,
    ensures
        (r.0 as int, r.1 as int) == span(lo, hi),
{
    assert(lo.n * (W_DEN as int) == lo.n * 10_000);
    assert(hi.n * (W_DEN as int) == hi.n * 10_000);
    let first: i128 = div_ceil(lo.n * W_DEN as i128, lo.d);
    let last: i128 = hi.n * W_DEN as i128 / hi.d;
    (bound(first), bound(last))
}

fn div_ceil(n: i128, d: i128) -> (r: i128)
    requires
        n >= 0,
        d > 0,
        n + d - 1 <= i128::MAX,
    ensures
        r == (n + d - 1) / (d as int),
{
    (n + (d - 1)) / d
}

pub open spec fn lower(a: int, b: int) -> int {
    if a <= b {
        a
    } else {
        b
    }
}

/// The first and the last query weight for which a cell's gap was measured: its
/// quarter points.
pub open spec fn certified_part(lo: Frac, hi: Frac) -> (int, int) {
    let (first, last) = span(lo, hi);
    (first + (last - first) / 4, first + (3 * (last - first)) / 4)
}

/// The smallest margin at the quarter points of a cell, if it is wide enough to
/// have any.
pub open spec fn cell_gap(ps: Seq<Product>, lo: Frac, hi: Frac) -> int {
    let (first, last) = span(lo, hi);
    if last > first + 2 {
        let (a, b) = certified_part(lo, hi);
        lower(lower(margin(ps, first + (last - first) / 2), margin(ps, a)), margin(ps, b))
    } else {
        0
    }
}

fn smaller(a: i128, b: i128) -> (r: i128)
    ensures
        r == lower(a as int, b as int),
{
    if a <= b {
        a
    } else {
        b
    }
}

fn measured_gap(ps: &[Product], lo: Frac, hi: Frac) -> (g: i128)
    requires
        lo.tidy(),
        hi.tidy(),
        lo.n >= 0,
        hi.n >= 0,
    ensures
        g == cell_gap(ps@, lo, hi),
{
    let (k_lo, k_hi): (i64, i64) = integer_span(lo, hi);
    if k_hi > k_lo + 2 {
        let width: i64 = k_hi - k_lo;
        let mid: i64 = k_lo + width / 2;
        let a: i64 = k_lo + width / 4;
        let b: i64 = k_lo + (3 * width) / 4;
        smaller(smaller(brute_winner(ps, mid).1, brute_winner(ps, a).1), brute_winner(ps, b).1)
    } else {
        0
    }
}

/// Whether one product's line is nowhere in a cell above another's.
pub open spec fn lowest_in(ps: Seq<Product>, cell: Cell, u: int) -> bool {
    forall|x: int, y: int|
        y > 0 && cell.w_lo.reaches(x, y) && cell.w_hi.holds_back(x, y) ==> #[trigger]
            ps[cell.winner as int].at(x, y) <= #[trigger] ps[u].at(x, y)
}

/// Whether cells follow one another without a gap.
pub open spec fn tiled(cells: Seq<Cell>) -> bool {
    &&& forall|i: int|
        0 <= i < cells.len() ==> {
            &&& (#[trigger] cells[i]).w_lo.tidy()
            &&& cells[i].w_hi.tidy()
            &&& cells[i].w_lo.below(cells[i].w_hi)
        }
    &&& forall|i: int|
        0 <= i && i + 1 < cells.len() ==> (#[trigger] cells[i]).w_hi == cells[i + 1].w_lo
}

/// Whether the cells are the lower envelope: they cover all weights from zero to
/// one, and the winner of each has the lowest line all over it, or the same line as
/// another and the smaller index.
pub open spec fn right_cells(ps: Seq<Product>, cells: Seq<Cell>) -> bool {
    &&& cells.len() == 0 <==> ps.len() == 0
    &&& tiled(cells)
    &&& cells.len() > 0 ==> cells[0].w_lo == (Frac { n: 0, d: 1 }) && cells.last().w_hi == (Frac {
        n: 1,
        d: 1,
    })
    &&& forall|i: int|
        0 <= i < cells.len() ==> {
            &&& (#[trigger] cells[i]).winner < ps.len()
            &&& cells[i].w_lo.n >= 0
            &&& cells[i].w_hi.n >= 0
            &&& cells[i].min_gap == cell_gap(ps, cells[i].w_lo, cells[i].w_hi)
        }
    &&& forall|i: int|
        0 <= i && i + 1 < cells.len() ==> (#[trigger] cells[i]).w_hi == meeting(
            ps[cells[i].winner as int],
            ps[cells[i + 1].winner as int],
        )
    &&& forall|i: int, u: int|
        0 <= i < cells.len() && 0 <= u < ps.len() ==> {
            &&& lowest_in(ps, #[trigger] cells[i], u)
            &&& #[trigger] ps[u] == ps[cells[i].winner as int] ==> cells[i].winner <= u
        }
}

proof fn joints_inside(ps: Seq<Product>, hull: Seq<usize>, p: int)
    requires
        all_priced(ps),
        falling(ps, hull),
        turning(ps, hull),
        trimmed(ps, hull),
        0 <= p,
        p + 1 < hull.len(),
    ensures
        joint(ps, hull, p).tidy(),
        0 < joint(ps, hull, p).n < joint(ps, hull, p).d,
{
    inside_left(ps, hull, p);
    inside_right(ps, hull, p);
}

proof fn inside_left(ps: Seq<Product>, hull: Seq<usize>, p: int)
    requires
        all_priced(ps),
        falling(ps, hull),
        turning(ps, hull),
        trimmed(ps, hull),
        0 <= p,
        p + 1 < hull.len(),
    ensures
        joint(ps, hull, p).tidy(),
        0 < joint(ps, hull, p).n,
    decreases p,
{
    assert(ps[hull[p] as int].rise() > ps[hull[p + 1] as int].rise());
    meeting_parts(ps[hull[p] as int], ps[hull[p + 1] as int], 0, 1);
    if p > 0 {
        inside_left(ps, hull, p - 1);
        assert(joint(ps, hull, p - 1).below(joint(ps, hull, p)));
        below_carries(joint(ps, hull, p - 1), joint(ps, hull, p), 0, 1);
    }
}

proof fn inside_right(ps: Seq<Product>, hull: Seq<usize>, p: int)
    requires
        all_priced(ps),
        falling(ps, hull),
        turning(ps, hull),
        trimmed(ps, hull),
        0 <= p,
        p + 1 < hull.len(),
    ensures
        joint(ps, hull, p).tidy(),
        joint(ps, hull, p).n < joint(ps, hull, p).d,
    decreases hull.len() - p,
{
    assert(ps[hull[p] as int].rise() > ps[hull[p + 1] as int].rise());
    meeting_parts(ps[hull[p] as int], ps[hull[p + 1] as int], 0, 1);
    if p + 2 < hull.len() {
        inside_right(ps, hull, p + 1);
        assert(joint(ps, hull, p).below(joint(ps, hull, p + 1)));
        below_carries(joint(ps, hull, p), joint(ps, hull, p + 1), 1, 1);
    }
}

/// Where the cell of a line begins.
spec fn cell_start(ps: Seq<Product>, hull: Seq<usize>, p: int) -> Frac {
    if p == 0 {
        Frac { n: 0, d: 1 }
    } else {
        joint(ps, hull, p - 1)
    }
}

/// Where the cell of a line ends.
spec fn cell_end(ps: Seq<Product>, hull: Seq<usize>, p: int) -> Frac {
    if p + 1 == hull.len() {
        Frac { n: 1, d: 1 }
    } else {
        joint(ps, hull, p)
    }
}

#[verifier::opaque]
spec fn hull_right(ps: Seq<Product>, hull: Seq<usize>) -> bool {
    &&& all_priced(ps)
    &&& falling(ps, hull)
    &&& turning(ps, hull)
    &&& trimmed(ps, hull)
    &&& forall|u: int| 0 <= u < ps.len() ==> #[trigger] covers_unit(ps, hull, u)
    &&& forall|p: int, u: int|
        0 <= p < hull.len() && 0 <= u < ps.len() && ps[(#[trigger] hull[p]) as int] == (
        #[trigger] ps[u]) ==> hull[p] <= u
}

/// A cell has a width.
proof fn cell_wide(ps: Seq<Product>, hull: Seq<usize>, p: int)
    requires
        hull_right(ps, hull),
        0 <= p < hull.len(),
    ensures
        all_priced(ps),
        hull[p] < ps.len(),
        p > 0 ==> hull[p - 1] < ps.len() && ps[hull[p - 1] as int].rise() > ps[hull[p] as int].rise(),
        p + 1 < hull.len() ==> hull[p + 1] < ps.len() && ps[hull[p] as int].rise()
            > ps[hull[p + 1] as int].rise(),
        cell_start(ps, hull, p).tidy(),
        cell_end(ps, hull, p).tidy(),
        cell_start(ps, hull, p).n >= 0,
        cell_end(ps, hull, p).n >= 0,
        cell_end(ps, hull, p).n <= cell_end(ps, hull, p).d,
        cell_start(ps, hull, p).below(cell_end(ps, hull, p)),
{
    reveal(hull_right);
    if p > 0 {
        joints_inside(ps, hull, p - 1);
        assert(ps[hull[p - 1] as int].rise() > ps[hull[p] as int].rise());
    }
    if p + 1 < hull.len() {
        joints_inside(ps, hull, p);
        assert(ps[hull[p] as int].rise() > ps[hull[p + 1] as int].rise());
    }
    if 0 < p && p + 1 < hull.len() {
        assert(joint(ps, hull, p - 1).below(joint(ps, hull, p)));
    }
}

/// The line of a cell is the lowest all over it.
proof fn cell_right(ps: Seq<Product>, hull: Seq<usize>, p: int, cell: Cell)
    requires
        hull_right(ps, hull),
        0 <= p < hull.len(),
        cell.w_lo == cell_start(ps, hull, p),
        cell.w_hi == cell_end(ps, hull, p),
        cell.winner == hull[p],
    ensures
        cell.w_lo.tidy(),
        cell.w_hi.tidy(),
        cell.w_lo.n >= 0,
        cell.w_hi.n >= 0,
        cell.w_lo.below(cell.w_hi),
        cell.winner < ps.len(),
        forall|u: int| 0 <= u < ps.len() ==> lowest_in(ps, cell, u),
        forall|u: int| 0 <= u < ps.len() && #[trigger] ps[u] == ps[hull[p] as int] ==> hull[p] <= u,
{
    reveal(hull_right);
    cell_wide(ps, hull, p);
    assert forall|u: int| 0 <= u < ps.len() implies lowest_in(ps, cell, u) by {
        assert(covers_unit(ps, hull, u));
        assert forall|x: int, y: int|
            y > 0 && cell.w_lo.reaches(x, y) && cell.w_hi.holds_back(x, y) implies #[trigger]
            ps[cell.winner as int].at(x, y) <= #[trigger] ps[u].at(x, y) by {
            let (ln, ld, hn, hd) = (
                cell.w_lo.n as int,
                cell.w_lo.d as int,
                cell.w_hi.n as int,
                cell.w_hi.d as int,
            );
            assert(x >= 0) by (nonlinear_arith)
                requires
                    ln * y <= x * ld,
                    ln >= 0,
                    ld > 0,
                    y > 0,
            ;
            assert(x <= y) by (nonlinear_arith)
                requires
                    hn * y >= x * hd,
                    hn <= hd,
                    hd > 0,
                    y > 0,
            ;
            assert(in_unit(x, y));
            assert(covered(ps, hull, u, x, y));
            assert(placed(ps, hull, p, x, y));
            lowest(ps, hull, p, u, x, y);
        }
    }
}

/// Whether a cell is the one of a place in the hull.
spec fn cut(ps: Seq<Product>, hull: Seq<usize>, p: int, cell: Cell) -> bool {
    &&& cell.winner == hull[p]
    &&& cell.w_lo == cell_start(ps, hull, p)
    &&& cell.w_hi == cell_end(ps, hull, p)
    &&& cell.min_gap == cell_gap(ps, cell.w_lo, cell.w_hi)
}

fn cell_at(ps: &[Product], hull: &Vec<usize>, p: usize) -> (cell: Cell)
    requires
        hull_right(ps@, hull@),
        p < hull@.len(),
    ensures
        cut(ps@, hull@, p as int, cell),
{
    proof {
        cell_wide(ps@, hull@, p as int);
    }
    let w: usize = hull[p];
    let lo = if p == 0 {
        Frac::new(0, 1)
    } else {
        meet(ps, hull[p - 1], w)
    };
    let size: usize = hull.len();
    let hi = if p == size - 1 {
        Frac::new(1, 1)
    } else {
        meet(ps, w, hull[p + 1])
    };
    let g: i128 = measured_gap(ps, lo, hi);
    Cell { w_lo: lo, w_hi: hi, winner: w, min_gap: g }
}

/// The lower envelope of the products' lines, as cells with one winner each.
pub fn envelope(ps: &[Product]) -> (cells: Vec<Cell>)
    requires
        all_priced(ps@),
    ensures
        right_cells(ps@, cells@),
{
    if ps.len() == 0 {
        return Vec::new();
    }
    let hull = lower_hull(ps);
    proof {
        reveal(hull_right);
    }
    let mut cells: Vec<Cell> = Vec::new();
    let mut p: usize = 0;
    while p < hull.len()
        invariant
            hull_right(ps@, hull@),
            p <= hull@.len(),
            cells@.len() == p,
            forall|i: int| 0 <= i < p ==> cut(ps@, hull@, i, #[trigger] cells@[i]),
        decreases hull@.len() - p,
    {
        cells.push(cell_at(ps, &hull, p));
        p = p + 1;
    }
    proof {
        assert forall|i: int| 0 <= i < cells@.len() implies {
            &&& (#[trigger] cells@[i]).w_lo.tidy()
            &&& cells@[i].w_hi.tidy()
            &&& cells@[i].w_lo.below(cells@[i].w_hi)
            &&& cells@[i].winner < ps@.len()
            &&& cells@[i].w_lo.n >= 0
            &&& cells@[i].w_hi.n >= 0
            &&& cells@[i].min_gap == cell_gap(ps@, cells@[i].w_lo, cells@[i].w_hi)
        } by {
            assert(cut(ps@, hull@, i, cells@[i]));
            cell_right(ps@, hull@, i, cells@[i]);
        }
        assert forall|i: int, u: int| 0 <= i < cells@.len() && 0 <= u < ps@.len() implies {
            &&& lowest_in(ps@, #[trigger] cells@[i], u)
            &&& #[trigger] ps@[u] == ps@[cells@[i].winner as int] ==> cells@[i].winner <= u
        } by {
            assert(cut(ps@, hull@, i, cells@[i]));
            cell_right(ps@, hull@, i, cells@[i]);
        }
        assert forall|i: int| 0 <= i && i + 1 < cells@.len() implies {
            &&& (#[trigger] cells@[i]).w_hi == cells@[i + 1].w_lo
            &&& cells@[i].w_hi == meeting(
                ps@[cells@[i].winner as int],
                ps@[cells@[i + 1].winner as int],
            )
        } by {
            assert(cut(ps@, hull@, i, cells@[i]));
            assert(cut(ps@, hull@, i + 1, cells@[i + 1]));
        }
        assert(cut(ps@, hull@, 0, cells@[0]));
        assert(cut(ps@, hull@, cells@.len() - 1, cells@.last()));
    }
    cells
}

/// Whether a query weight belongs to a cell: each holds its beginning, the last one
/// its end too.
pub open spec fn belongs(cells: Seq<Cell>, i: int, k: int) -> bool {
    &&& 0 <= i < cells.len()
    &&& cells[i].w_lo.reaches(k, W_DEN as int)
    &&& cells[i].w_hi.holds_back(k, W_DEN as int)
    &&& i + 1 < cells.len() ==> !cells[i].w_hi.equals(k, W_DEN as int)
}

/// The cell of a query weight.
pub open spec fn place(cells: Seq<Cell>, k: int) -> Option<int> {
    if exists|i: int| belongs(cells, i, k) {
        Some(choose|i: int| belongs(cells, i, k))
    } else {
        None
    }
}

/// A weight that has not reached a cell has reached none behind it, and one that is
/// past a cell is past all before it.
proof fn cells_in_order(cells: Seq<Cell>, i: int, j: int, k: int)
    requires
        tiled(cells),
        0 <= i <= j < cells.len(),
    ensures
        cells[j].w_lo.reaches(k, W_DEN as int) ==> cells[i].w_lo.reaches(k, W_DEN as int),
        i < j && cells[j].w_lo.reaches(k, W_DEN as int) ==> cells[i].w_hi.reaches(k, W_DEN as int),
        i < j && cells[i].w_hi.holds_back(k, W_DEN as int) && !cells[i].w_hi.equals(
            k,
            W_DEN as int,
        ) ==> !cells[j].w_lo.reaches(k, W_DEN as int),
    decreases j - i,
{
    if i < j {
        cells_in_order(cells, i + 1, j, k);
        assert(cells[i].w_hi == cells[i + 1].w_lo);
        below_carries(cells[i].w_lo, cells[i].w_hi, k, W_DEN as int);
    }
}

/// A weight belongs to one cell at most.
pub proof fn one_place(cells: Seq<Cell>, i: int, k: int)
    requires
        tiled(cells),
        belongs(cells, i, k),
    ensures
        place(cells, k) == Some(i),
{
    let j = choose|j: int| belongs(cells, j, k);
    assert(belongs(cells, j, k));
    if i < j {
        cells_in_order(cells, i, j, k);
    } else if j < i {
        cells_in_order(cells, j, i, k);
    }
}

fn strictly_before_hi(cell: Cell, k: i64, last: bool) -> (r: bool)
    requires
        cell.w_hi.tidy(),
    ensures
        r == (cell.w_hi.holds_back(k as int, W_DEN as int) && (last || !cell.w_hi.equals(
            k as int,
            W_DEN as int,
        ))),
{
    proof {
        tidy_compares(cell.w_hi, cell.w_hi, k);
    }
    if last {
        cell.w_hi.ge_query(k, W_DEN)
    } else {
        cell.w_hi.n * W_DEN as i128 > k as i128 * cell.w_hi.d
    }
}

pub fn lookup_cell(cells: &[Cell], k: i64) -> (r: Option<(usize, Cell)>)
    requires
        tiled(cells@),
    ensures
        r matches Some((i, c)) ==> belongs(cells@, i as int, k as int) && c == cells@[i as int],
        r is None ==> forall|i: int| !belongs(cells@, i, k as int),
        place(cells@, k as int) == match r {
            Some((i, _)) => Some(i as int),
            None => None,
        },
{
    let mut lo: usize = 0;
    let mut hi: usize = cells.len();
    while lo < hi
        invariant
            tiled(cells@),
            lo <= hi <= cells@.len(),
            forall|i: int| 0 <= i < lo ==> !belongs(cells@, i, k as int),
            forall|i: int| hi <= i < cells@.len() ==> !belongs(cells@, i, k as int),
        decreases hi - lo,
    {
        let mid: usize = lo + (hi - lo) / 2;
        let last: bool = mid + 1 == cells.len();
        proof {
            tidy_compares(cells@[mid as int].w_lo, cells@[mid as int].w_lo, k);
        }
        if !cells[mid].w_lo.le_query(k, W_DEN) {
            proof {
                assert forall|i: int| mid <= i < cells@.len() implies !belongs(
                    cells@,
                    i,
                    k as int,
                ) by {
                    cells_in_order(cells@, mid as int, i, k as int);
                }
            }
            hi = mid;
        } else if !strictly_before_hi(cells[mid], k, last) {
            proof {
                assert forall|i: int| 0 <= i <= mid implies !belongs(cells@, i, k as int) by {
                    if i < mid {
                        cells_in_order(cells@, i, mid as int, k as int);
                        cells_in_order(cells@, mid as int, mid as int, k as int);
                    }
                }
            }
            lo = mid + 1;
        } else {
            proof {
                one_place(cells@, mid as int, k as int);
            }
            return Some((mid, cells[mid]));
        }
    }
    None
}

/// The better of two products at a weight.
pub open spec fn better_of(ps: Seq<Product>, k: int, i: int, j: int) -> int {
    let (a, b) = (score(ps[i], k), score(ps[j], k));
    if b < a || (b == a && j < i) {
        j
    } else {
        i
    }
}

fn better(ps: &[Product], k: i64, i: usize, j: usize) -> (r: usize)
    requires
        weight(k as int),
        i < ps@.len(),
        j < ps@.len(),
    ensures
        r == better_of(ps@, k as int, i as int, j as int),
        r < ps@.len(),
{
    let a: i128 = score_k(ps[i], k);
    let b: i128 = score_k(ps[j], k);
    if b < a || (b == a && j < i) {
        j
    } else {
        i
    }
}

/// What a scan of the first `n` products makes of a winner: one with a lower score
/// takes its place, and so does an equal one with a smaller index.
pub open spec fn settled(ps: Seq<Product>, k: int, win: int, n: int) -> int
    decreases n,
{
    if n <= 0 {
        win
    } else {
        let now = settled(ps, k, win, n - 1);
        let (s, d) = (score(ps[n - 1], k), score(ps[win], k));
        if s < d || (s == d && n - 1 < now) {
            n - 1
        } else {
            now
        }
    }
}

fn settle(ps: &[Product], k: i64, win: usize) -> (r: usize)
    requires
        weight(k as int),
        win < ps@.len(),
    ensures
        r == settled(ps@, k as int, win as int, ps@.len() as int),
        r < ps@.len(),
{
    let d: i128 = score_k(ps[win], k);
    let mut now: usize = win;
    let mut i: usize = 0;
    while i < ps.len()
        invariant
            weight(k as int),
            win < ps@.len(),
            d == score(ps@[win as int], k as int),
            i <= ps@.len(),
            now < ps@.len(),
            now == settled(ps@, k as int, win as int, i as int),
        decreases ps@.len() - i,
    {
        let s: i128 = score_k(ps[i], k);
        if s < d || (s == d && i < now) {
            now = i;
        }
        i = i + 1;
    }
    now
}

/// Whether a weight lies where a cell meets the one before it or the one behind it.
pub open spec fn on_left_joint(cells: Seq<Cell>, i: int, k: int) -> bool {
    i > 0 && cells[i - 1].w_hi.equals(k, W_DEN as int)
}

pub open spec fn on_right_joint(cells: Seq<Cell>, i: int, k: int) -> bool {
    i + 1 < cells.len() && cells[i + 1].w_lo.equals(k, W_DEN as int)
}

/// The winner that the cells give. Where lines can meet, at a joint of two cells and
/// at both ends, an equal product with a smaller index is looked for.
pub open spec fn choice(cells: Seq<Cell>, ps: Seq<Product>, k: int) -> int {
    match place(cells, k) {
        None => winner(ps, k),
        Some(i) => {
            let a = cells[i].winner as int;
            let b = if on_left_joint(cells, i, k) {
                better_of(ps, k, a, cells[i - 1].winner as int)
            } else {
                a
            };
            let c = if on_right_joint(cells, i, k) {
                better_of(ps, k, b, cells[i + 1].winner as int)
            } else {
                b
            };
            if k == 0 || k == W_DEN || on_left_joint(cells, i, k) || on_right_joint(cells, i, k) {
                settled(ps, k, c, ps.len() as int)
            } else {
                c
            }
        },
    }
}

pub fn cell_winner(cells: &[Cell], ps: &[Product], k: i64) -> (r: usize)
    requires
        tiled(cells@),
        forall|i: int| 0 <= i < cells@.len() ==> (#[trigger] cells@[i]).winner < ps@.len(),
        weight(k as int),
    ensures
        r == choice(cells@, ps@, k as int),
        ps@.len() > 0 ==> r < ps@.len(),
{
    let (idx, c): (usize, Cell) = match lookup_cell(cells, k) {
        None => {
            return brute_winner(ps, k).0;
        },
        Some((idx, c)) => (idx, c),
    };
    let mut win: usize = c.winner;
    assert(cells@[idx as int].winner < ps@.len());
    let mut tie: bool = k == 0 || k == W_DEN;
    if idx > 0 {
        let prev = cells[idx - 1];
        proof {
            tidy_compares(prev.w_hi, prev.w_hi, k);
        }
        if prev.w_hi.n * W_DEN as i128 == k as i128 * prev.w_hi.d {
            win = better(ps, k, win, prev.winner);
            tie = true;
        }
    }
    if idx + 1 < cells.len() {
        let nxt = cells[idx + 1];
        proof {
            tidy_compares(nxt.w_lo, nxt.w_lo, k);
        }
        if nxt.w_lo.n * W_DEN as i128 == k as i128 * nxt.w_lo.d {
            win = better(ps, k, win, nxt.winner);
            tie = true;
        }
    }
    if tie {
        settle(ps, k, win)
    } else {
        win
    }
}

/// A scan finds the smallest index among the products that score as low as a winner.
proof fn settled_wins(ps: Seq<Product>, k: int, win: int, n: int)
    requires
        0 <= win < ps.len(),
        0 <= n <= ps.len(),
        forall|j: int| 0 <= j < ps.len() ==> score(ps[win], k) <= score(#[trigger] ps[j], k),
    ensures
        0 <= settled(ps, k, win, n) <= win,
        score(ps[settled(ps, k, win, n)], k) == score(ps[win], k),
        forall|j: int|
            0 <= j < n && score(#[trigger] ps[j], k) == score(ps[win], k) ==> settled(ps, k, win, n)
                <= j,
    decreases n,
{
    if n > 0 {
        settled_wins(ps, k, win, n - 1);
        assert(score(ps[win], k) <= score(ps[n - 1], k));
    }
}

/// Two lines that touch within a cell, and not at its edges, are the same.
proof fn touching_is_same(ps: Seq<Product>, cell: Cell, u: int, k: int)
    requires
        cell.w_lo.tidy(),
        cell.w_hi.tidy(),
        lowest_in(ps, cell, u),
        cell.w_lo.below(cell.w_hi),
        cell.w_lo.n * W_DEN < k * cell.w_lo.d,
        cell.w_hi.n * W_DEN > k * cell.w_hi.d,
        score(ps[cell.winner as int], k) == score(ps[u], k),
    ensures
        ps[u] == ps[cell.winner as int],
{
    let (a, b) = (ps[cell.winner as int], ps[u]);
    score_is_height(a, k);
    score_is_height(b, k);
    let (ln, ld, hn, hd) = (
        cell.w_lo.n as int,
        cell.w_lo.d as int,
        cell.w_hi.n as int,
        cell.w_hi.d as int,
    );
    let w = W_DEN as int;
    assert(cell.w_lo.reaches(ln, ld));
    assert(cell.w_lo.reaches(hn, hd)) by {
        assert(ln * hd <= hn * ld);
    }
    assert(cell.w_hi.holds_back(ln, ld));
    assert(a.at(ln, ld) <= b.at(ln, ld));
    assert(a.at(hn, hd) <= b.at(hn, hd));
    let c = b.delivery - a.delivery;
    let s = b.rise() - a.rise();
    let (ad, bd, ar, br) = (a.delivery as int, b.delivery as int, a.rise(), b.rise());
    assert(c * ld + s * ln >= 0) by (nonlinear_arith)
        requires
            ad * ld + ar * ln <= bd * ld + br * ln,
            c == bd - ad,
            s == br - ar,
    ;
    assert(c * hd + s * hn >= 0) by (nonlinear_arith)
        requires
            ad * hd + ar * hn <= bd * hd + br * hn,
            c == bd - ad,
            s == br - ar,
    ;
    assert(c * w + s * k == 0) by (nonlinear_arith)
        requires
            ad * w + ar * k == bd * w + br * k,
            c == bd - ad,
            s == br - ar,
    ;
    assert(s <= 0) by (nonlinear_arith)
        requires
            c * ld + s * ln >= 0,
            c * w + s * k == 0,
            ln * w < k * ld,
            ld > 0,
            w > 0,
    {
        assert(w * (c * ld + s * ln) == ld * (c * w) + s * (ln * w));
        assert(ld * (c * w) == ld * (-(s * k)));
        assert(ld * (-(s * k)) == -(s * (k * ld)));
        assert(s * (ln * w) - s * (k * ld) == s * (ln * w - k * ld));
        assert(w * (c * ld + s * ln) >= 0);
        assert(s * (ln * w - k * ld) >= 0);
    }
    assert(s >= 0) by (nonlinear_arith)
        requires
            c * hd + s * hn >= 0,
            c * w + s * k == 0,
            hn * w > k * hd,
            hd > 0,
            w > 0,
    {
        assert(w * (c * hd + s * hn) == hd * (c * w) + s * (hn * w));
        assert(hd * (c * w) == hd * (-(s * k)));
        assert(hd * (-(s * k)) == -(s * (k * hd)));
        assert(s * (hn * w) - s * (k * hd) == s * (hn * w - k * hd));
        assert(w * (c * hd + s * hn) >= 0);
        assert(s * (hn * w - k * hd) >= 0);
    }
    assert(c == 0) by (nonlinear_arith)
        requires
            c * w + s * k == 0,
            s == 0,
            w > 0,
    ;
}

/// A cell's winner scores lowest at every weight of the cell.
pub proof fn cell_winner_lowest(ps: Seq<Product>, cells: Seq<Cell>, i: int, k: int, u: int)
    requires
        right_cells(ps, cells),
        0 <= i < cells.len(),
        0 <= u < ps.len(),
        cells[i].w_lo.reaches(k, W_DEN as int),
        cells[i].w_hi.holds_back(k, W_DEN as int),
    ensures
        score(ps[cells[i].winner as int], k) <= score(ps[u], k),
{
    assert(lowest_in(ps, cells[i], u));
    score_is_height(ps[cells[i].winner as int], k);
    score_is_height(ps[u], k);
    assert(ps[cells[i].winner as int].at(k, W_DEN as int) <= ps[u].at(k, W_DEN as int));
}

/// The cells cover every query weight.
pub proof fn every_weight_placed(ps: Seq<Product>, cells: Seq<Cell>, k: int)
    requires
        right_cells(ps, cells),
        ps.len() > 0,
        0 <= k <= W_DEN,
    ensures
        place(cells, k) matches Some(i) && belongs(cells, i, k),
{
    let i = covering_cell(cells, k, cells.len() - 1);
    one_place(cells, i, k);
}

proof fn covering_cell(cells: Seq<Cell>, k: int, from: int) -> (i: int)
    requires
        tiled(cells),
        cells.len() > 0,
        cells[0].w_lo == (Frac { n: 0, d: 1 }),
        0 <= k,
        0 <= from < cells.len(),
        cells[from].w_hi.holds_back(k, W_DEN as int),
        from + 1 < cells.len() ==> !cells[from].w_hi.equals(k, W_DEN as int),
    ensures
        belongs(cells, i, k),
    decreases from,
{
    if cells[from].w_lo.reaches(k, W_DEN as int) {
        from
    } else {
        assert(from > 0) by {
            if from == 0 {
                assert(cells[0].w_lo.reaches(k, W_DEN as int));
            }
        }
        assert(cells[from - 1].w_hi == cells[from].w_lo);
        covering_cell(cells, k, from - 1)
    }
}

/// A weight that is neither an end nor a joint lies strictly inside its cell.
proof fn strictly_inside(ps: Seq<Product>, cells: Seq<Cell>, i: int, k: int)
    requires
        right_cells(ps, cells),
        belongs(cells, i, k),
        0 < k < W_DEN,
        !on_left_joint(cells, i, k),
    ensures
        cells[i].w_lo.n * W_DEN < k * cells[i].w_lo.d,
        cells[i].w_hi.n * W_DEN > k * cells[i].w_hi.d,
{
    let (ln, ld, hn, hd) = (
        cells[i].w_lo.n as int,
        cells[i].w_lo.d as int,
        cells[i].w_hi.n as int,
        cells[i].w_hi.d as int,
    );
    let w = W_DEN as int;
    if i > 0 {
        assert(cells[i - 1].w_hi == cells[i].w_lo);
    } else {
        assert(ln * w < k * ld) by (nonlinear_arith)
            requires
                ln == 0,
                ld == 1,
                k > 0,
        ;
    }
    if i + 1 == cells.len() {
        assert(cells.last() == cells[i]);
        assert(hn * w > k * hd) by (nonlinear_arith)
            requires
                hn == 1,
                hd == 1,
                k < w,
        ;
    }
}

/// The exact winner: the cells of some products give at every query weight the
/// product that a scan of all of them finds.
pub proof fn cells_give_the_winner(ps: Seq<Product>, cells: Seq<Cell>, k: int)
    requires
        right_cells(ps, cells),
        0 <= k <= W_DEN,
    ensures
        choice(cells, ps, k) == winner(ps, k),
        ps.len() > 0 ==> wins(ps, k, winner(ps, k)),
{
    if ps.len() > 0 {
        every_weight_placed(ps, cells, k);
        let i = place(cells, k)->0;
        let a = cells[i].winner as int;
        assert forall|j: int| 0 <= j < ps.len() implies score(ps[a], k) <= score(
            #[trigger] ps[j],
            k,
        ) by {
            cell_winner_lowest(ps, cells, i, k, j);
        }
        if on_left_joint(cells, i, k) {
            assert(cells[i - 1].w_lo.reaches(k, W_DEN as int)) by {
                cells_in_order(cells, i - 1, i, k);
            }
            cell_winner_lowest(ps, cells, i - 1, k, a);
        }
        assert(!on_right_joint(cells, i, k)) by {
            if i + 1 < cells.len() {
                assert(cells[i].w_hi == cells[i + 1].w_lo);
            }
        }
        let c = if on_left_joint(cells, i, k) {
            better_of(ps, k, a, cells[i - 1].winner as int)
        } else {
            a
        };
        assert(0 <= c < ps.len() && score(ps[c], k) == score(ps[a], k)) by {
            if on_left_joint(cells, i, k) {
                assert(cells[i - 1].winner < ps.len());
                assert(score(ps[a], k) <= score(ps[cells[i - 1].winner as int], k));
            }
        }
        if k == 0 || k == W_DEN || on_left_joint(cells, i, k) {
            settled_wins(ps, k, c, ps.len() as int);
            assert(wins(ps, k, settled(ps, k, c, ps.len() as int)));
            one_winner(ps, k, settled(ps, k, c, ps.len() as int));
        } else {
            let cell = cells[i];
            strictly_inside(ps, cells, i, k);
            assert forall|j: int| 0 <= j < ps.len() implies score(ps[a], k) < score(
                #[trigger] ps[j],
                k,
            ) || (score(ps[a], k) == score(ps[j], k) && a <= j) by {
                if score(ps[a], k) == score(ps[j], k) {
                    assert(lowest_in(ps, cells[i], j));
                    touching_is_same(ps, cell, j, k);
                }
            }
            assert(wins(ps, k, a));
            one_winner(ps, k, a);
        }
    }
}

} // verus!
