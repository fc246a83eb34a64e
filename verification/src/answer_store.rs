//! Answers that stay valid while the data drift a little.
use vstd::prelude::*;
use vstd::string::StringExecFns;

use crate::answer_cells::{
    all_priced, belongs, better_of, brute_winner, cell_winner, cells_give_the_winner,
    certified_part, choice, clipped, envelope, integer_span, is_margin, lookup_cell, margin, on_left_joint,
    on_right_joint, one_winner, place, right_cells, score, score_is_height, settled, span, tiled,
    weight, winner, wins, Cell, Product, W_DEN,
};
use crate::front::{front_has_gaps, fronted, on_front};
use crate::numbers::abs;
use crate::random::{between, seeded};

verus! {

/// By how much a product has moved, in the coordinate in which it moved most.
pub open spec fn drift(cert: Product, cur: Product) -> int {
    let (a, b) = (abs(cur.price - cert.price), abs(cur.delivery - cert.delivery));
    if a >= b {
        a
    } else {
        b
    }
}

/// Whether no product has moved by more than a bound.
pub open spec fn drifted(certified: Seq<Product>, current: Seq<Product>, most: int) -> bool {
    &&& certified.len() == current.len()
    &&& forall|i: int|
        0 <= i < certified.len() ==> drift(certified[i], #[trigger] current[i]) <= most
}

/// Products, the cells of what they once were, and how far they have moved since.
pub struct AnswerStore {
    pub certified: Vec<Product>,
    pub current: Vec<Product>,
    pub cells: Vec<Cell>,
    pub max_drift: i64,
    pub rebuilds: u64,
    pub cell_hits: u64,
    pub cell_misses: u64,
}

fn copied(ps: &[Product]) -> (r: Vec<Product>)
    ensures
        r@ == ps@,
{
    let mut r: Vec<Product> = Vec::new();
    let mut i: usize = 0;
    while i < ps.len()
        invariant
            i <= ps@.len(),
            r@ == ps@.take(i as int),
        decreases ps@.len() - i,
    {
        r.push(ps[i]);
        assert(ps@.take(i + 1) =~= ps@.take(i as int).push(ps@[i as int]));
        i = i + 1;
    }
    assert(ps@.take(i as int) =~= ps@);
    r
}

fn copied_cells(cells: &[Cell]) -> (r: Vec<Cell>)
    ensures
        r@ == cells@,
{
    let mut r: Vec<Cell> = Vec::new();
    let mut i: usize = 0;
    while i < cells.len()
        invariant
            i <= cells@.len(),
            r@ == cells@.take(i as int),
        decreases cells@.len() - i,
    {
        r.push(cells[i]);
        assert(cells@.take(i + 1) =~= cells@.take(i as int).push(cells@[i as int]));
        i = i + 1;
    }
    assert(cells@.take(i as int) =~= cells@);
    r
}

impl AnswerStore {
    pub open spec fn wf(&self) -> bool {
        &&& all_priced(self.certified@)
        &&& right_cells(self.certified@, self.cells@)
        &&& 0 <= self.max_drift
        &&& drifted(self.certified@, self.current@, self.max_drift as int)
    }

    pub fn new(ps: Vec<Product>) -> (store: Self)
        requires
            all_priced(ps@),
        ensures
            store.wf(),
            store.certified@ == ps@,
            store.current@ == ps@,
            store.max_drift == 0,
            store.rebuilds == 0,
            store.cell_hits == 0,
            store.cell_misses == 0,
    {
        let cells = envelope(ps.as_slice());
        AnswerStore {
            certified: copied(ps.as_slice()),
            current: ps,
            cells,
            max_drift: 0,
            rebuilds: 0,
            cell_hits: 0,
            cell_misses: 0,
        }
    }

    fn drift_of(cert: Product, cur: Product) -> (d: i64)
        requires
            drift(cert, cur) <= i64::MAX,
        ensures
            d == drift(cert, cur),
    {
        let a: i64 = cur.price - cert.price;
        let b: i64 = cur.delivery - cert.delivery;
        let a: i64 = if a < 0 {
            -a
        } else {
            a
        };
        let b: i64 = if b < 0 {
            -b
        } else {
            b
        };
        if a >= b {
            a
        } else {
            b
        }
    }

    /// Puts in a product's new price and delivery.
    pub fn update(&mut self, i: usize, p: Product)
        requires
            old(self).wf(),
            i < old(self).current@.len(),
            drift(old(self).certified@[i as int], p) <= i64::MAX,
        ensures
            final(self).wf(),
            final(self).current@ == old(self).current@.update(i as int, p),
            final(self).certified@ == old(self).certified@,
            final(self).cells@ == old(self).cells@,
            final(self).max_drift == if drift(old(self).certified@[i as int], p)
                > old(self).max_drift {
                drift(old(self).certified@[i as int], p)
            } else {
                old(self).max_drift as int
            },
            final(self).rebuilds == old(self).rebuilds,
            final(self).cell_hits == old(self).cell_hits,
            final(self).cell_misses == old(self).cell_misses,
    {
        let ghost before = *self;
        self.current.set(i, p);
        let d: i64 = Self::drift_of(self.certified[i], p);
        if d > self.max_drift {
            self.max_drift = d;
        }
        proof {
            assert forall|j: int| 0 <= j < self.certified@.len() implies drift(
                self.certified@[j],
                #[trigger] self.current@[j],
            ) <= self.max_drift by {
                if j != i {
                    assert(self.current@[j] == before.current@[j]);
                }
            }
        }
    }

    /// Whether the drift leaves a cell's gap open: every score moves by at most
    /// `W_DEN` times the drift, and so a gap by at most twice that.
    pub open spec fn valid(&self, cell: Cell) -> bool {
        2 * self.max_drift * W_DEN + 1 < cell.min_gap
    }

    fn valid_for(&self, cell: Cell) -> (r: bool)
        requires
            self.max_drift >= 0,
        ensures
            r == self.valid(cell),
    {
        assert((2 * self.max_drift) * (W_DEN as int) == 20_000 * self.max_drift);
        (2 * self.max_drift as i128) * W_DEN as i128 + 1 < cell.min_gap
    }

    /// Whether a query is answered from the cells as they are.
    pub open spec fn hit(&self, k: int) -> bool {
        place(self.cells@, k) matches Some(i) && self.valid(self.cells@[i])
    }

    /// The winner at a weight: from the cells while they are valid, and else from new
    /// ones. Outside the part of a valid cell for which its gap was measured the drift can
    /// have changed the winner, so there the products are scanned.
    pub fn query(&mut self, k: i64) -> (r: usize)
        requires
            old(self).wf(),
            weight(k as int),
            !old(self).hit(k as int) ==> all_priced(old(self).current@),
            old(self).cell_hits < u64::MAX,
            old(self).cell_misses < u64::MAX,
            old(self).rebuilds < u64::MAX,
        ensures
            final(self).wf(),
            final(self).current@ == old(self).current@,
            r == winner(old(self).current@, k as int),
            old(self).hit(k as int) ==> {
                &&& final(self).cell_hits == old(self).cell_hits + 1
                &&& final(self).cell_misses == old(self).cell_misses
                &&& final(self).rebuilds == old(self).rebuilds
                &&& final(self).certified@ == old(self).certified@
                &&& final(self).cells@ == old(self).cells@
                &&& final(self).max_drift == old(self).max_drift
            },
            !old(self).hit(k as int) ==> {
                &&& final(self).cell_hits == old(self).cell_hits
                &&& final(self).cell_misses == old(self).cell_misses + 1
                &&& final(self).rebuilds == old(self).rebuilds + 1
                &&& final(self).certified@ == old(self).current@
                &&& final(self).max_drift == 0
            },
            old(self).current@.len() > 0 ==> r < old(self).current@.len(),
    {
        proof {
            winners_inside(self.certified@, self.cells@);
        }
        match lookup_cell(self.cells.as_slice(), k) {
            Some((_, cell)) => {
                if self.valid_for(cell) {
                    self.cell_hits = self.cell_hits + 1;
                    let (first, last): (i64, i64) = integer_span(cell.w_lo, cell.w_hi);
                    let width: i64 = last - first;
                    if first + width / 4 <= k && k <= first + (3 * width) / 4 {
                        proof {
                            let i = place(self.cells@, k as int)->0;
                            measured_width(self.certified@, self.cells@, i);
                            drift_keeps_the_winner(*self, i, k as int);
                        }
                        return cell_winner(self.cells.as_slice(), self.current.as_slice(), k);
                    }
                    return brute_winner(self.current.as_slice(), k).0;
                }
            },
            None => {},
        }
        self.cell_misses = self.cell_misses + 1;
        self.rebuild();
        proof {
            winners_inside(self.certified@, self.cells@);
            if 0 <= k <= W_DEN {
                cells_give_the_winner(self.current@, self.cells@, k as int);
            } else {
                unplaced(self.current@, self.cells@, k as int);
            }
        }
        cell_winner(self.cells.as_slice(), self.current.as_slice(), k)
    }

    fn rebuild(&mut self)
        requires
            old(self).wf(),
            all_priced(old(self).current@),
            old(self).rebuilds < u64::MAX,
        ensures
            final(self).wf(),
            final(self).certified@ == old(self).current@,
            final(self).current@ == old(self).current@,
            final(self).max_drift == 0,
            final(self).rebuilds == old(self).rebuilds + 1,
            final(self).cell_hits == old(self).cell_hits,
            final(self).cell_misses == old(self).cell_misses,
    {
        self.certified = copied(self.current.as_slice());
        self.cells = envelope(self.current.as_slice());
        self.max_drift = 0;
        self.rebuilds = self.rebuilds + 1;
    }

    /// Goes back to given products and their cells.
    pub fn reset_from(&mut self, ps: &[Product], cells: &[Cell])
        requires
            all_priced(ps@),
            right_cells(ps@, cells@),
        ensures
            final(self).wf(),
            final(self).certified@ == ps@,
            final(self).current@ == ps@,
            final(self).cells@ == cells@,
            final(self).max_drift == 0,
            final(self).rebuilds == 0,
            final(self).cell_hits == 0,
            final(self).cell_misses == 0,
    {
        self.certified = copied(ps);
        self.current = copied(ps);
        self.cells = copied_cells(cells);
        self.max_drift = 0;
        self.rebuilds = 0;
        self.cell_hits = 0;
        self.cell_misses = 0;
    }
}

/// A cell with a gap is wide.
proof fn measured_width(ps: Seq<Product>, cells: Seq<Cell>, i: int)
    requires
        right_cells(ps, cells),
        0 <= i < cells.len(),
        cells[i].min_gap > 0,
    ensures
        span(cells[i].w_lo, cells[i].w_hi).0 + 2 < span(cells[i].w_lo, cells[i].w_hi).1,
{
}

proof fn winners_inside(ps: Seq<Product>, cells: Seq<Cell>)
    requires
        right_cells(ps, cells),
    ensures
        tiled(cells),
        forall|i: int| 0 <= i < cells.len() ==> (#[trigger] cells[i]).winner < ps.len(),
{
}

/// A weight below zero or above one belongs to no cell.
pub proof fn unplaced(ps: Seq<Product>, cells: Seq<Cell>, k: int)
    requires
        right_cells(ps, cells),
        k < 0 || k > W_DEN,
    ensures
        place(cells, k) is None,
{
    assert forall|i: int| !belongs(cells, i, k) by {
        if belongs(cells, i, k) {
            let (ln, ld) = (cells[i].w_lo.n as int, cells[i].w_lo.d as int);
            let w = W_DEN as int;
            assert(k >= 0) by (nonlinear_arith)
                requires
                    ln * w <= k * ld,
                    ln >= 0,
                    w > 0,
                    ld > 0,
            ;
            end_not_past_one(ps, cells, i, k);
        }
    }
}

proof fn end_not_past_one(ps: Seq<Product>, cells: Seq<Cell>, i: int, k: int)
    requires
        right_cells(ps, cells),
        0 <= i < cells.len(),
        cells[i].w_hi.holds_back(k, W_DEN as int),
    ensures
        k <= W_DEN,
    decreases cells.len() - i,
{
    if i + 1 == cells.len() {
        assert(cells.last() == cells[i]);
        let (n, d, w) = (cells[i].w_hi.n as int, cells[i].w_hi.d as int, W_DEN as int);
        assert(k <= w) by (nonlinear_arith)
            requires
                n * w >= k * d,
                n == 1,
                d == 1,
        ;
    } else {
        assert(cells[i].w_hi == cells[i + 1].w_lo);
        crate::hull::below_carries(cells[i + 1].w_lo, cells[i + 1].w_hi, k, W_DEN as int);
        end_not_past_one(ps, cells, i + 1, k);
    }
}

/// A score moves by at most `W_DEN` times the drift of its product.
proof fn score_moves(a: Product, b: Product, k: int, most: int)
    requires
        0 <= k <= W_DEN,
        drift(a, b) <= most,
    ensures
        abs(score(b, k) - score(a, k)) <= most * W_DEN,
{
    let (x, y, w) = (b.price - a.price, b.delivery - a.delivery, W_DEN as int);
    let (ap, ad, bp, bd) = (a.price as int, a.delivery as int, b.price as int, b.delivery as int);
    assert((k * bp + (w - k) * bd) - (k * ap + (w - k) * ad) == k * x + (w - k) * y)
        by (nonlinear_arith)
        requires
            x == bp - ap,
            y == bd - ad,
    ;
    assert(-(most * w) <= k * x + (w - k) * y <= most * w) by (nonlinear_arith)
        requires
            0 <= k <= w,
            -most <= x <= most,
            -most <= y <= most,
    {
        assert(k * x <= k * most);
        assert((w - k) * y <= (w - k) * most);
        assert(-(k * most) <= k * x);
        assert(-((w - k) * most) <= (w - k) * y);
        assert(k * most + (w - k) * most == w * most);
        assert(w * most == most * w);
    }
}

/// Between two weights, one product's lead over another is no smaller than at the
/// worse of the two.
proof fn lead_between(p: Product, q: Product, a: int, b: int, k: int, g: int)
    requires
        a <= k <= b,
        score(q, a) - score(p, a) >= g,
        score(q, b) - score(p, b) >= g,
    ensures
        score(q, k) - score(p, k) >= g,
{
    let (c, s, w) = (q.delivery - p.delivery, q.rise() - p.rise(), W_DEN as int);
    score_is_height(p, a);
    score_is_height(q, a);
    score_is_height(p, b);
    score_is_height(q, b);
    score_is_height(p, k);
    score_is_height(q, k);
    let (pd, qd, pr, qr) = (p.delivery as int, q.delivery as int, p.rise(), q.rise());
    assert forall|x: int| #[trigger] q.at(x, w) - p.at(x, w) == c * w + s * x by {
        assert((qd * w + qr * x) - (pd * w + pr * x) == (qd - pd) * w + (qr - pr) * x)
            by (nonlinear_arith);
    }
    assert(q.at(a, w) - p.at(a, w) == c * w + s * a);
    assert(q.at(b, w) - p.at(b, w) == c * w + s * b);
    assert(q.at(k, w) - p.at(k, w) == c * w + s * k);
    if s >= 0 {
        assert(s * k >= s * a) by (nonlinear_arith)
            requires
                s >= 0,
                k >= a,
        ;
    } else {
        assert(s * k >= s * b) by (nonlinear_arith)
            requires
                s < 0,
                k <= b,
        ;
    }
}

/// Where a margin is positive, the product with the lowest score leads all others by
/// it.
proof fn margin_is_lead(ps: Seq<Product>, k: int, w: int, j: int, g: int)
    requires
        0 <= w < ps.len(),
        0 <= j < ps.len(),
        j != w,
        forall|u: int| 0 <= u < ps.len() ==> score(ps[w], k) <= score(#[trigger] ps[u], k),
        is_margin(ps, k, g),
        g > 0,
    ensures
        score(ps[j], k) - score(ps[w], k) >= g,
{
    let v = winner(ps, k);
    assert(wins(ps, k, v)) by {
        lowest_exists(ps, k, ps.len() as int);
    }
    if v != w {
        assert(g <= clipped(score(ps[w], k) - score(ps[v], k)));
        assert(score(ps[w], k) <= score(ps[v], k));
    }
    assert(g <= clipped(score(ps[j], k) - score(ps[w], k)));
}

pub proof fn lowest_exists(ps: Seq<Product>, k: int, n: int) -> (w: int)
    requires
        0 < n <= ps.len(),
    ensures
        0 <= w < n,
        forall|j: int|
            0 <= j < n ==> score(ps[w], k) < score(#[trigger] ps[j], k) || (score(ps[w], k)
                == score(ps[j], k) && w <= j),
        n == ps.len() ==> wins(ps, k, w),
    decreases n,
{
    if n == 1 {
        0
    } else {
        let v = lowest_exists(ps, k, n - 1);
        if score(ps[n - 1], k) < score(ps[v], k) {
            n - 1
        } else {
            v
        }
    }
}

/// A scan leaves a winner alone that is ahead of all others.
proof fn settled_stays(ps: Seq<Product>, k: int, win: int, n: int)
    requires
        0 <= win < ps.len(),
        0 <= n <= ps.len(),
        forall|j: int|
            0 <= j < ps.len() && j != win ==> score(ps[win], k) < score(#[trigger] ps[j], k),
    ensures
        settled(ps, k, win, n) == win,
    decreases n,
{
    if n > 0 {
        settled_stays(ps, k, win, n - 1);
        if n - 1 != win {
            assert(score(ps[win], k) < score(ps[n - 1], k));
        }
    }
}

/// A cell's winner leads all others in the cell's certified part by at least the gap.
proof fn certified_lead(ps: Seq<Product>, cells: Seq<Cell>, i: int, j: int, k: int)
    requires
        right_cells(ps, cells),
        0 <= i < cells.len(),
        0 <= j < ps.len(),
        j != cells[i].winner,
        cells[i].min_gap > 0,
        certified_part(cells[i].w_lo, cells[i].w_hi).0 <= k <= certified_part(
            cells[i].w_lo,
            cells[i].w_hi,
        ).1,
    ensures
        score(ps[j], k) - score(ps[cells[i].winner as int], k) >= cells[i].min_gap,
{
    let cell = cells[i];
    let (a, b) = certified_part(cell.w_lo, cell.w_hi);
    let (first, last) = span(cell.w_lo, cell.w_hi);
    assert(first <= a <= b <= last);
    assert(margin(ps, a) >= cell.min_gap);
    assert(margin(ps, b) >= cell.min_gap);
    span_inside(cell, a);
    span_inside(cell, b);
    lead_at(ps, cells, i, j, a);
    lead_at(ps, cells, i, j, b);
    lead_between(ps[cell.winner as int], ps[j], a, b, k, cell.min_gap as int);
}

/// The query weights of a span lie in the cell.
proof fn span_inside(cell: Cell, k: int)
    requires
        cell.w_lo.tidy(),
        cell.w_hi.tidy(),
        cell.w_lo.n >= 0,
        cell.w_hi.n >= 0,
        span(cell.w_lo, cell.w_hi).0 <= k <= span(cell.w_lo, cell.w_hi).1,
        span(cell.w_lo, cell.w_hi).0 < span(cell.w_lo, cell.w_hi).1,
    ensures
        cell.w_lo.reaches(k, W_DEN as int),
        cell.w_hi.holds_back(k, W_DEN as int),
{
    let (ln, ld, hn, hd, w) = (
        cell.w_lo.n as int,
        cell.w_lo.d as int,
        cell.w_hi.n as int,
        cell.w_hi.d as int,
        W_DEN as int,
    );
    let up = (ln * w + ld - 1) / ld;
    let down = hn * w / hd;
    assert(ln * w >= 0) by (nonlinear_arith)
        requires
            ln >= 0,
            w > 0,
    ;
    assert(up >= 0) by (nonlinear_arith)
        requires
            up == (ln * w + ld - 1) / ld,
            ln * w >= 0,
            ld > 0,
    ;
    assert(up <= k);
    assert(ln * w <= up * ld) by (nonlinear_arith)
        requires
            up == (ln * w + ld - 1) / ld,
            ld > 0,
    ;
    assert(up * ld <= k * ld) by (nonlinear_arith)
        requires
            up <= k,
            ld > 0,
    ;
    assert(k <= down);
    assert(down * hd <= hn * w) by (nonlinear_arith)
        requires
            down == hn * w / hd,
            hd > 0,
    ;
    assert(k * hd <= down * hd) by (nonlinear_arith)
        requires
            k <= down,
            hd > 0,
    ;
}

proof fn lead_at(ps: Seq<Product>, cells: Seq<Cell>, i: int, j: int, k: int)
    requires
        right_cells(ps, cells),
        0 <= i < cells.len(),
        0 <= j < ps.len(),
        j != cells[i].winner,
        cells[i].w_lo.reaches(k, W_DEN as int),
        cells[i].w_hi.holds_back(k, W_DEN as int),
        margin(ps, k) > 0,
    ensures
        score(ps[j], k) - score(ps[cells[i].winner as int], k) >= margin(ps, k),
{
    let w = cells[i].winner as int;
    assert forall|u: int| 0 <= u < ps.len() implies score(ps[w], k) <= score(#[trigger] ps[u], k) by {
        crate::answer_cells::cell_winner_lowest(ps, cells, i, k, u);
    }
    margin_exists(ps, k);
    margin_is_lead(ps, k, w, j, margin(ps, k));
}

proof fn margin_exists(ps: Seq<Product>, k: int)
    ensures
        is_margin(ps, k, margin(ps, k)),
{
    if ps.len() == 0 {
        assert(is_margin(ps, k, 0));
    } else {
        let w = lowest_exists(ps, k, ps.len() as int);
        one_winner(ps, k, w);
        if ps.len() == 1 {
            assert(is_margin(ps, k, clipped(i128::MAX - score(ps[w], k))));
        } else {
            let start = if w == 0 {
                1
            } else {
                0int
            };
            let j = second_exists(ps, k, w, start, ps.len() as int);
            let g = clipped(score(ps[j], k) - score(ps[w], k));
            assert(is_margin(ps, k, g));
        }
    }
}

proof fn second_exists(ps: Seq<Product>, k: int, w: int, start: int, n: int) -> (j: int)
    requires
        0 <= start < ps.len(),
        start != w,
        0 <= n <= ps.len(),
    ensures
        0 <= j < ps.len(),
        j != w,
        forall|u: int| 0 <= u < n && u != w ==> score(ps[j], k) <= score(#[trigger] ps[u], k),
    decreases n,
{
    if n == 0 {
        start
    } else {
        let v = second_exists(ps, k, w, start, n - 1);
        if n - 1 != w && score(ps[n - 1], k) < score(ps[v], k) {
            n - 1
        } else {
            v
        }
    }
}

/// Whether the winner at a weight was so far ahead that no drift up to a bound can have
/// changed it.
pub open spec fn safe_lead(certified: Seq<Product>, k: int, most: int) -> bool {
    margin(certified, k) > 2 * W_DEN * most
}

/// Bounded drift: a query that is answered from a valid cell gives the winner among the
/// products as they are now, in the part of the cell for which the gap is certified, and
/// wherever else the winner was far enough ahead.
pub proof fn drift_keeps_the_winner(store: AnswerStore, i: int, k: int)
    requires
        store.wf(),
        place(store.cells@, k) == Some(i),
        belongs(store.cells@, i, k),
        store.valid(store.cells@[i]),
        0 <= k <= W_DEN,
        certified_part(store.cells@[i].w_lo, store.cells@[i].w_hi).0 <= k <= certified_part(
            store.cells@[i].w_lo,
            store.cells@[i].w_hi,
        ).1 || safe_lead(store.certified@, k, store.max_drift as int),
    ensures
        choice(store.cells@, store.current@, k) == winner(store.current@, k),
{
    let (was, now, cells) = (store.certified@, store.current@, store.cells@);
    let w = cells[i].winner as int;
    let most = store.max_drift as int;
    assert forall|j: int| 0 <= j < now.len() && j != w implies score(now[w], k) < score(
        #[trigger] now[j],
        k,
    ) by {
        assert(was[j] == was[j]);
        if safe_lead(was, k, most) {
            lead_at(was, cells, i, j, k);
        } else {
            certified_lead(was, cells, i, j, k);
        }
        assert(drift(was[w], now[w]) <= most);
        assert(drift(was[j], now[j]) <= most);
        score_moves(was[w], now[w], k, most);
        score_moves(was[j], now[j], k, most);
        assert(most * W_DEN == most * 10_000);
        assert(2 * most * W_DEN == most * 20_000);
    }
    settled_stays(now, k, w, now.len() as int);
    assert(wins(now, k, w));
    one_winner(now, k, w);
    if on_left_joint(cells, i, k) {
        assert(cells[i - 1].winner < was.len());
        assert(better_of(now, k, w, cells[i - 1].winner as int) == w);
    }
    if on_right_joint(cells, i, k) {
        assert(cells[i + 1].winner < was.len());
        assert(better_of(now, k, w, cells[i + 1].winner as int) == w);
    }
}

/// How the products of a generated market lie.
#[derive(Clone, Copy, Debug, PartialEq, Eq, Structural)]
pub enum Market {
    /// A front of products none of which beats another in both coordinates, and
    /// dominated ones behind it.
    Pareto,
    /// All over.
    Random,
    /// Close together.
    NearTie,
}

/// Whether a product lies within what a market generates.
pub open spec fn modest(p: Product) -> bool {
    0 <= p.price <= 30_000 && 0 <= p.delivery <= 30_000
}

/// How many products a front has.
pub open spec fn front_size(n: int) -> int {
    if n / 40 < 8 {
        8
    } else if n / 40 > 64 {
        64
    } else {
        n / 40
    }
}

/// The product at a place of a front of a size.
pub open spec fn front_product(i: int, size: int) -> Product {
    let share = 18000 * i / (size - 1);
    Product { price: (1000 + share) as i64, delivery: (19000 - share) as i64 }
}

/// Whether a product lies behind the front, at a place along it.
pub open spec fn at_the_back(p: Product, t: int) -> bool {
    &&& 0 <= t <= 1000
    &&& 3000 + 18 * t <= p.price <= 9000 + 18 * t
    &&& 3000 + 18 * (1000 - t) <= p.delivery <= 9000 + 18 * (1000 - t)
}

/// Whether a product lies behind the front.
pub open spec fn in_the_back(p: Product) -> bool {
    exists|t: int| #[trigger] at_the_back(p, t)
}

/// `n` products, or for a front as many as it has, if those are more.
pub fn gen_products(n: usize, seed: u64, market: Market) -> (ps: Vec<Product>)
    ensures
        ps@.len() >= n,
        ps@.len() == n || market is Pareto && ps@.len() <= 64,
        forall|i: int| 0 <= i < ps@.len() ==> modest(#[trigger] ps@[i]),
        all_priced(ps@),
        market is Pareto ==> fronted(ps@, front_size(n as int)),
        market is Pareto ==> ps@.len() == if n > front_size(n as int) {
            n as int
        } else {
            front_size(n as int)
        },
        market is Pareto ==> forall|i: int|
            0 <= i < front_size(n as int) ==> #[trigger] ps@[i] == front_product(
                i,
                front_size(n as int),
            ),
        market is Pareto ==> forall|i: int|
            front_size(n as int) <= i < ps@.len() ==> in_the_back(#[trigger] ps@[i]),
        market is NearTie ==> forall|i: int|
            0 <= i < ps@.len() ==> 10_000 <= (#[trigger] ps@[i]).price < 10_050 && 10_000
                <= ps@[i].delivery < 10_050,
        market is Random ==> forall|i: int|
            0 <= i < ps@.len() ==> 0 <= (#[trigger] ps@[i]).price <= 20_000 && 0 <= ps@[i].delivery
                <= 20_000,
{
    let mut rng = seeded(seed);
    let mut ps: Vec<Product> = Vec::new();
    match market {
        Market::Pareto => {
            let part: usize = n / 40;
            let front: usize = if part < 8 {
                8
            } else if part > 64 {
                64
            } else {
                part
            };
            let den: i64 = front as i64 - 1;
            let mut t: usize = 0;
            while t < front
                invariant
                    t <= front <= 64,
                    den == front - 1,
                    den > 0,
                    ps@.len() == t,
                    forall|i: int| 0 <= i < ps@.len() ==> modest(#[trigger] ps@[i]),
                    t > 0 ==> ps@[0] == (Product { price: 1000, delivery: 19000 }),
                    t == front ==> ps@[front - 1] == (Product { price: 19000, delivery: 1000 }),
                    forall|i: int| 0 < i < t && i < front - 1 ==> on_front(#[trigger] ps@[i]),
                    forall|i: int|
                        0 <= i < t ==> #[trigger] ps@[i] == front_product(i, front as int),
                decreases front - t,
            {
                let step: i64 = 18000 * t as i64;
                let share: i64 = step / den;
                proof {
                    let (a, b, c) = (step as int, den as int, share as int);
                    assert(0 <= c <= 18000) by (nonlinear_arith)
                        requires
                            c == a / b,
                            0 <= a <= 18000 * b,
                            b > 0,
                    ;
                    if t == 0 {
                        assert(c == 0) by (nonlinear_arith)
                            requires
                                c == a / b,
                                a == 0,
                                b > 0,
                        ;
                    } else if t == den {
                        assert(c == 18000) by (nonlinear_arith)
                            requires
                                c == a / b,
                                a == 18000 * b,
                                b > 0,
                        ;
                    } else {
                        assert(0 < c < 18000) by (nonlinear_arith)
                            requires
                                c == a / b,
                                b <= a <= 18000 * (b - 1),
                                b > 0,
                        ;
                    }
                }
                ps.push(Product { price: 1000 + share, delivery: 19000 - share });
                t = t + 1;
            }
            while ps.len() < n
                invariant
                    ps@.len() >= front,
                    front <= 64,
                    ps@.len() <= n || ps@.len() == front,
                    forall|i: int| 0 <= i < ps@.len() ==> modest(#[trigger] ps@[i]),
                    fronted(ps@, front as int),
                    front == front_size(n as int),
                    forall|i: int|
                        0 <= i < front ==> #[trigger] ps@[i] == front_product(i, front as int),
                    forall|i: int| front <= i < ps@.len() ==> in_the_back(#[trigger] ps@[i]),
                decreases n - ps@.len(),
            {
                let t: i64 = between(&mut rng, 0, 1001);
                let a: i64 = between(&mut rng, 0, 6001);
                let b: i64 = between(&mut rng, 0, 6001);
                let ghost had = ps@;
                ps.push(Product { price: 3000 + 18 * t + a, delivery: 3000 + 18 * (1000 - t) + b });
                proof {
                    assert(at_the_back(ps@.last(), t as int));
                    assert forall|i: int| front <= i < ps@.len() implies in_the_back(
                        #[trigger] ps@[i],
                    ) by {
                        if i < had.len() {
                            assert(ps@[i] == had[i]);
                        }
                    }
                }
            }
        },
        Market::NearTie => {
            while ps.len() < n
                invariant
                    ps@.len() <= n,
                    forall|i: int| 0 <= i < ps@.len() ==> modest(#[trigger] ps@[i]),
                    forall|i: int|
                        0 <= i < ps@.len() ==> 10_000 <= (#[trigger] ps@[i]).price < 10_050
                            && 10_000 <= ps@[i].delivery < 10_050,
                decreases n - ps@.len(),
            {
                let a: i64 = between(&mut rng, 0, 50);
                let b: i64 = between(&mut rng, 0, 50);
                ps.push(Product { price: 10000 + a, delivery: 10000 + b });
            }
        },
        Market::Random => {
            while ps.len() < n
                invariant
                    ps@.len() <= n,
                    forall|i: int| 0 <= i < ps@.len() ==> modest(#[trigger] ps@[i]),
                    forall|i: int|
                        0 <= i < ps@.len() ==> 0 <= (#[trigger] ps@[i]).price <= 20_000 && 0
                            <= ps@[i].delivery <= 20_000,
                decreases n - ps@.len(),
            {
                let a: i64 = between(&mut rng, 0, 20001);
                let b: i64 = between(&mut rng, 0, 20001);
                ps.push(Product { price: a, delivery: b });
            }
        },
    }
    proof {
        assert forall|i: int| 0 <= i < ps@.len() implies (#[trigger] ps@[i]).priced() by {
            assert(modest(ps@[i]));
        }
    }
    ps
}

/// The same products, each a little dearer.
pub open spec fn dearer(ps: Seq<Product>) -> Seq<Product> {
    ps.map_values(|p: Product| Product { price: (p.price + 1) as i64, delivery: p.delivery })
}

/// Whether every cell has a gap.
pub open spec fn all_have_gaps(cells: Seq<Cell>) -> bool {
    forall|i: int| 0 <= i < cells.len() ==> (#[trigger] cells[i]).min_gap > 0
}

/// Whether the cells give the scan's winner at a weight.
pub open spec fn agrees(cells: Seq<Cell>, ps: Seq<Product>, k: int) -> bool {
    choice(cells, ps, k) == winner(ps, k)
}

/// The first weight, a step at a time, at which the cells miss the scan's winner.
fn first_miss(cells: &[Cell], ps: &[Product], step: i64) -> (r: Option<i64>)
    requires
        tiled(cells@),
        forall|i: int| 0 <= i < cells@.len() ==> (#[trigger] cells@[i]).winner < ps@.len(),
        0 < step <= W_DEN,
    ensures
        match r {
            Some(k) => {
                &&& 0 <= k <= W_DEN
                &&& k % step == 0
                &&& !agrees(cells@, ps@, k as int)
                &&& forall|j: int|
                    0 <= j < k && j % (step as int) == 0 ==> #[trigger] agrees(cells@, ps@, j)
            },
            None => forall|j: int|
                0 <= j <= W_DEN && j % (step as int) == 0 ==> #[trigger] agrees(cells@, ps@, j),
        },
{
    let mut k: i64 = 0;
    while k <= W_DEN
        invariant
            0 <= k <= 2 * W_DEN,
            0 < step <= W_DEN,
            k % step == 0,
            tiled(cells@),
            forall|i: int| 0 <= i < cells@.len() ==> (#[trigger] cells@[i]).winner < ps@.len(),
            forall|j: int|
                0 <= j < k && j % (step as int) == 0 ==> #[trigger] agrees(cells@, ps@, j),
        decreases 2 * W_DEN - k,
    {
        if cell_winner(cells, ps, k) != brute_winner(ps, k).0 {
            return Some(k);
        }
        assert(agrees(cells@, ps@, k as int));
        proof {
            next_multiple(k as int, step as int);
        }
        k = k + step;
    }
    None
}

/// Between a multiple and the next one there is none.
proof fn next_multiple(k: int, step: int)
    requires
        step > 0,
        k % step == 0,
    ensures
        (k + step) % step == 0,
        forall|j: int| k < j < k + step ==> #[trigger] (j % step) != 0,
{
    vstd::arithmetic::div_mod::lemma_mod_add_multiples_vanish(k, step);
    assert forall|j: int| k < j < k + step implies #[trigger] (j % step) != 0 by {
        vstd::arithmetic::div_mod::lemma_fundamental_div_mod(k, step);
        let q = k / step;
        assert(q * step == step * q) by (nonlinear_arith);
        assert(j == q * step + (j - k));
        vstd::arithmetic::div_mod::lemma_fundamental_div_mod_converse(j, step, q, j - k);
    }
}

fn all_open(cells: &[Cell]) -> (r: bool)
    ensures
        r == all_have_gaps(cells@),
{
    let mut i: usize = 0;
    while i < cells.len()
        invariant
            i <= cells@.len(),
            forall|j: int| 0 <= j < i ==> (#[trigger] cells@[j]).min_gap > 0,
        decreases cells@.len() - i,
    {
        if cells[i].min_gap <= 0 {
            return false;
        }
        i = i + 1;
    }
    true
}

/// Cells against scans over one market. Its cells give the winners, also when all
/// products are a little dearer; what can fail is that a cell of a front has no gap.
pub fn check_market(ps: &[Product], market: Market) -> (r: Result<(), String>)
    requires
        ps@.len() > 0,
        forall|i: int| 0 <= i < ps@.len() ==> modest(#[trigger] ps@[i]),
    ensures
        exists|cells: Seq<Cell>| #[trigger]
            right_cells(ps@, cells) && (r is Ok <==> (market is Pareto ==> all_have_gaps(cells))),
{
    proof {
        assert forall|i: int| 0 <= i < ps@.len() implies (#[trigger] ps@[i]).priced() by {
            assert(modest(ps@[i]));
        }
    }
    let cells = envelope(ps);
    let ghost right = cells@;
    assert(right_cells(ps@, right));
    match market {
        Market::Pareto => {
            if !all_open(cells.as_slice()) {
                return Err(String::from_str("pareto envelope min_gap must be interior-positive"));
            }
        },
        _ => {},
    }
    let step: i64 = match market {
        Market::NearTie => 200,
        _ => 50,
    };
    proof {
        winners_inside(ps@, cells@);
        assert forall|k: int| 0 <= k <= W_DEN implies #[trigger] agrees(cells@, ps@, k) by {
            cells_give_the_winner(ps@, cells@, k);
        }
    }
    if first_miss(cells.as_slice(), ps, step).is_some() {
        return Err(String::from_str("winner mismatch"));
    }
    let mut store = AnswerStore {
        certified: copied(ps),
        current: copied(ps),
        cells,
        max_drift: 0,
        rebuilds: 0,
        cell_hits: 0,
        cell_misses: 0,
    };
    let mut i: usize = 0;
    while i < ps.len()
        invariant
            i <= ps@.len(),
            ps@.len() > 0,
            forall|j: int| 0 <= j < ps@.len() ==> modest(#[trigger] ps@[j]),
            store.wf(),
            store.certified@ == ps@,
            store.cells@ == right,
            store.max_drift == if i == 0 {
                0int
            } else {
                1
            },
            store.rebuilds == 0,
            store.cell_hits == 0,
            store.cell_misses == 0,
            store.current@.len() == ps@.len(),
            forall|j: int| 0 <= j < i ==> #[trigger] store.current@[j] == dearer(ps@)[j],
            forall|j: int| i <= j < ps@.len() ==> #[trigger] store.current@[j] == ps@[j],
        decreases ps@.len() - i,
    {
        assert(modest(ps@[i as int]));
        let p = Product { price: ps[i].price + 1, delivery: ps[i].delivery };
        assert(drift(ps@[i as int], p) == 1);
        store.update(i, p);
        i = i + 1;
    }
    assert(store.current@ =~= dearer(ps@));
    let expect: usize = brute_winner(store.current.as_slice(), 3700).0;
    let got: usize = store.query(3700);
    if got != expect {
        return Err(String::from_str("store mismatch"));
    }
    Ok(())
}

/// Cells against scans, on three generated markets.
pub fn correctness() -> (r: Result<(), String>)
    ensures
        r is Ok,
{
    let ps = gen_products(200, 99, Market::Pareto);
    proof {
        assert forall|cells: Seq<Cell>| #[trigger] right_cells(ps@, cells) implies all_have_gaps(
            cells,
        ) by {
            front_has_gaps(ps@, front_size(200), cells);
        }
    }
    check_market(ps.as_slice(), Market::Pareto)?;
    let ps = gen_products(200, 99, Market::Random);
    check_market(ps.as_slice(), Market::Random)?;
    let ps = gen_products(200, 99, Market::NearTie);
    check_market(ps.as_slice(), Market::NearTie)
}

} // verus!
