//! The lower envelope of lines over the weights from zero to one.
use std::cmp::Ordering;
use vstd::prelude::*;

use crate::answer_cells::{all_priced, less, Frac, Product};

verus! {

/// Where the lines of two products meet.
pub open spec fn meeting(a: Product, b: Product) -> Frac {
    Frac { n: (b.delivery - a.delivery) as i128, d: (a.rise() - b.rise()) as i128 }
}

/// Up to that weight the steeper line is the lower one.
pub proof fn meeting_parts(a: Product, b: Product, x: int, y: int)
    requires
        a.priced(),
        b.priced(),
        a.near(b),
        a.rise() > b.rise(),
    ensures
        meeting(a, b).tidy(),
        a.at(x, y) <= b.at(x, y) <==> meeting(a, b).holds_back(x, y),
        a.at(x, y) >= b.at(x, y) <==> meeting(a, b).reaches(x, y),
{
    let m = meeting(a, b);
    let (ca, cb, sa, sb) = (a.delivery as int, b.delivery as int, a.rise(), b.rise());
    assert((cb * y + sb * x) - (ca * y + sa * x) == (cb - ca) * y - x * (sa - sb))
        by (nonlinear_arith);
}

/// A weight below a fraction is below every larger one.
pub proof fn below_carries(a: Frac, b: Frac, x: int, y: int)
    requires
        a.d > 0,
        b.d > 0,
        y > 0,
        a.below(b),
    ensures
        a.holds_back(x, y) ==> !b.reaches(x, y),
        b.reaches(x, y) ==> !a.holds_back(x, y),
{
    let (an, ad, bn, bd) = (a.n as int, a.d as int, b.n as int, b.d as int);
    if an * y >= x * ad && bn * y <= x * bd {
        assert(an * bd * y >= x * ad * bd) by (nonlinear_arith)
            requires
                an * y >= x * ad,
                bd > 0,
        ;
        assert(bn * ad * y <= x * ad * bd) by (nonlinear_arith)
            requires
                bn * y <= x * bd,
                ad > 0,
        ;
        assert(an * bd * y < bn * ad * y) by (nonlinear_arith)
            requires
                an * bd < bn * ad,
                y > 0,
        ;
    }
}

/// The weights that count: from zero to one.
pub open spec fn in_unit(x: int, y: int) -> bool {
    y > 0 && 0 <= x <= y
}

/// Steeper lines first.
pub open spec fn falling(ps: Seq<Product>, hull: Seq<usize>) -> bool {
    &&& forall|p: int| 0 <= p < hull.len() ==> (#[trigger] hull[p]) < ps.len()
    &&& forall|p: int, q: int|
        0 <= p < q < hull.len() ==> (#[trigger] ps[hull[p] as int]).rise() > (
        #[trigger] ps[hull[q] as int]).rise()
}

pub open spec fn joint(ps: Seq<Product>, hull: Seq<usize>, p: int) -> Frac {
    meeting(ps[hull[p] as int], ps[hull[p + 1] as int])
}

/// Each line meets the next one later than the one before it.
pub open spec fn turning(ps: Seq<Product>, hull: Seq<usize>) -> bool {
    forall|p: int|
        0 <= p && p + 2 < hull.len() ==> (#[trigger] joint(ps, hull, p)).below(
            joint(ps, hull, p + 1),
        )
}

/// Whether some line of the hull is not above a product's line at a weight.
pub open spec fn covered(ps: Seq<Product>, hull: Seq<usize>, u: int, x: int, y: int) -> bool {
    exists|p: int|
        0 <= p < hull.len() && (#[trigger] ps[hull[p] as int]).at(x, y) <= ps[u].at(x, y)
}

/// Whether the line at a place of the hull is the lowest at a weight, as the
/// meetings with its neighbours tell.
pub open spec fn placed(ps: Seq<Product>, hull: Seq<usize>, p: int, x: int, y: int) -> bool {
    &&& 0 <= p < hull.len()
    &&& p > 0 ==> joint(ps, hull, p - 1).reaches(x, y)
    &&& p + 1 < hull.len() ==> joint(ps, hull, p).holds_back(x, y)
}

proof fn lowest_right(ps: Seq<Product>, hull: Seq<usize>, p: int, q: int, x: int, y: int)
    requires
        all_priced(ps),
        falling(ps, hull),
        turning(ps, hull),
        placed(ps, hull, p, x, y),
        y > 0,
        p <= q < hull.len(),
    ensures
        ps[hull[p] as int].at(x, y) <= ps[hull[q] as int].at(x, y),
        q + 1 < hull.len() ==> joint(ps, hull, q).holds_back(x, y),
    decreases q - p,
{
    if p < q {
        lowest_right(ps, hull, p, q - 1, x, y);
        let a = ps[hull[q - 1] as int];
        let b = ps[hull[q] as int];
        meeting_parts(a, b, x, y);
        if q + 1 < hull.len() {
            let c = ps[hull[q + 1] as int];
            meeting_parts(b, c, x, y);
            assert(joint(ps, hull, q - 1).below(joint(ps, hull, q)));
            below_carries(meeting(a, b), meeting(b, c), x, y);
        }
    }
}

proof fn lowest_left(ps: Seq<Product>, hull: Seq<usize>, p: int, q: int, x: int, y: int)
    requires
        all_priced(ps),
        falling(ps, hull),
        turning(ps, hull),
        placed(ps, hull, p, x, y),
        y > 0,
        0 <= q <= p,
    ensures
        ps[hull[p] as int].at(x, y) <= ps[hull[q] as int].at(x, y),
        q > 0 ==> joint(ps, hull, q - 1).reaches(x, y),
    decreases p - q,
{
    if q < p {
        lowest_left(ps, hull, p, q + 1, x, y);
        let a = ps[hull[q] as int];
        let b = ps[hull[q + 1] as int];
        meeting_parts(a, b, x, y);
        if q > 0 {
            let o = ps[hull[q - 1] as int];
            meeting_parts(o, a, x, y);
            assert(joint(ps, hull, q - 1).below(joint(ps, hull, q)));
            below_carries(meeting(o, a), meeting(a, b), x, y);
        }
    }
}

/// Between its two meetings a line of the hull is the lowest of all that are covered.
pub proof fn lowest(ps: Seq<Product>, hull: Seq<usize>, p: int, u: int, x: int, y: int)
    requires
        all_priced(ps),
        falling(ps, hull),
        turning(ps, hull),
        placed(ps, hull, p, x, y),
        y > 0,
        covered(ps, hull, u, x, y),
    ensures
        ps[hull[p] as int].at(x, y) <= ps[u].at(x, y),
{
    let q = choose|q: int|
        0 <= q < hull.len() && (#[trigger] ps[hull[q] as int]).at(x, y) <= ps[u].at(x, y);
    if q < p {
        lowest_left(ps, hull, p, q, x, y);
    } else {
        lowest_right(ps, hull, p, q, x, y);
    }
}

/// The order in which lines are taken: steep first, then low, then early.
pub open spec fn sooner(ps: Seq<Product>, i: usize, j: usize) -> bool {
    let (a, b) = (ps[i as int], ps[j as int]);
    if a.rise() != b.rise() {
        a.rise() > b.rise()
    } else if a.delivery != b.delivery {
        a.delivery < b.delivery
    } else {
        i < j
    }
}

fn slope(p: Product) -> (s: i64)
    requires
        p.priced(),
    ensures
        s == p.rise(),
{
    p.price - p.delivery
}

fn rank_lines(ps: &[Product], i: usize, j: usize) -> (r: Ordering)
    requires
        all_priced(ps@),
        i < ps@.len(),
        j < ps@.len(),
    ensures
        r == if i == j {
            Ordering::Equal
        } else if sooner(ps@, i, j) {
            Ordering::Less
        } else {
            Ordering::Greater
        },
{
    let a: i64 = slope(ps[i]);
    let b: i64 = slope(ps[j]);
    if a != b {
        if a > b {
            Ordering::Less
        } else {
            Ordering::Greater
        }
    } else if ps[i].delivery != ps[j].delivery {
        if ps[i].delivery < ps[j].delivery {
            Ordering::Less
        } else {
            Ordering::Greater
        }
    } else if i < j {
        Ordering::Less
    } else if i == j {
        Ordering::Equal
    } else {
        Ordering::Greater
    }
}

/// Calls `slice::sort_by` with the order of lines: the indices are put in that
/// order, and stay the same.
#[verifier::external_body]
fn arrange(ps: &[Product], idx: &mut Vec<usize>)
    requires
        all_priced(ps@),
        forall|p: int| 0 <= p < old(idx)@.len() ==> (#[trigger] old(idx)@[p]) < ps@.len(),
    ensures
        final(idx)@.to_multiset() == old(idx)@.to_multiset(),
        forall|p: int, q: int|
            0 <= p < q < final(idx)@.len() ==> !sooner(
                ps@,
                #[trigger] final(idx)@[q],
                #[trigger] final(idx)@[p],
            ),
{
    idx.sort_by(|i, j| rank_lines(ps, *i, *j))
}

/// Whether a product may stand for another one: their lines are parallel, and its
/// own is lower, or the same with a smaller index.
pub open spec fn stands_for(ps: Seq<Product>, u: usize, j: int) -> bool {
    &&& ps[u as int].rise() == ps[j].rise()
    &&& ps[u as int].delivery < ps[j].delivery || (ps[u as int].delivery == ps[j].delivery && u
        <= j)
}

/// Whether every product has one that stands for it.
pub open spec fn represented(ps: Seq<Product>, lines: Seq<usize>, j: int) -> bool {
    exists|p: int| 0 <= p < lines.len() && #[trigger] stands_for(ps, lines[p], j)
}

/// One product for each slope, steep lines first.
fn distinct_lines(ps: &[Product]) -> (lines: Vec<usize>)
    requires
        all_priced(ps@),
    ensures
        falling(ps@, lines@),
        forall|j: int| 0 <= j < ps@.len() ==> #[trigger] represented(ps@, lines@, j),
{
    let mut idx: Vec<usize> = Vec::new();
    let mut i: usize = 0;
    while i < ps.len()
        invariant
            i <= ps@.len(),
            idx@.len() == i,
            forall|p: int| 0 <= p < i ==> #[trigger] idx@[p] == p,
        decreases ps@.len() - i,
    {
        idx.push(i);
        i = i + 1;
    }
    let ghost plain = idx@;
    arrange(ps, &mut idx);
    proof {
        plain.to_multiset_ensures();
        idx@.to_multiset_ensures();
        assert forall|p: int| 0 <= p < idx@.len() implies (#[trigger] idx@[p]) < ps@.len() by {
            assert(idx@.contains(idx@[p]));
            assert(idx@.to_multiset().count(idx@[p]) > 0);
            assert(plain.contains(idx@[p]));
        }
    }
    let mut lines: Vec<usize> = Vec::new();
    let mut q: usize = 0;
    let ghost mut from: int = 0;
    while q < idx.len()
        invariant
            all_priced(ps@),
            q <= idx@.len(),
            forall|p: int| 0 <= p < idx@.len() ==> (#[trigger] idx@[p]) < ps@.len(),
            forall|p: int, r: int|
                0 <= p < r < idx@.len() ==> !sooner(
                    ps@,
                    #[trigger] idx@[r],
                    #[trigger] idx@[p],
                ),
            falling(ps@, lines@),
            q > 0 ==> lines@.len() > 0 && 0 <= from < q && lines@.last() == idx@[from],
            q == 0 ==> lines@.len() == 0,
            forall|r: int| 0 <= r < q ==> represented(ps@, lines@, #[trigger] idx@[r] as int),
        decreases idx@.len() - q,
    {
        let u: usize = idx[q];
        let ghost had = lines@;
        if lines.len() > 0 && slope(ps[u]) == slope(ps[lines[lines.len() - 1]]) {
            assert(!sooner(ps@, idx@[q as int], idx@[from]));
            assert(stands_for(ps@, lines@[lines@.len() - 1], u as int));
        } else {
            lines.push(u);
            proof {
                if q > 0 {
                    assert(!sooner(ps@, idx@[q as int], idx@[from]));
                    assert(ps@[had.last() as int].rise() > ps@[u as int].rise());
                }
                assert forall|p: int, r: int| 0 <= p < r < lines@.len() implies (
                #[trigger] ps@[lines@[p] as int]).rise() > (#[trigger] ps@[lines@[r] as int]).rise() by {
                    assert(lines@[p] == had[p]);
                    if r == had.len() {
                        if p < had.len() - 1 {
                            assert(ps@[had[p] as int].rise() > ps@[had[had.len() - 1] as int].rise());
                        }
                    } else {
                        assert(lines@[r] == had[r]);
                    }
                }
                from = q as int;
                assert(stands_for(ps@, lines@[lines@.len() - 1], u as int));
                assert forall|r: int| 0 <= r < q implies represented(
                    ps@,
                    lines@,
                    #[trigger] idx@[r] as int,
                ) by {
                    assert(represented(ps@, had, idx@[r] as int));
                    let p = choose|p: int|
                        0 <= p < had.len() && #[trigger] stands_for(ps@, had[p], idx@[r] as int);
                    assert(lines@[p] == had[p]);
                    assert(stands_for(ps@, lines@[p], idx@[r] as int));
                }
            }
        }
        q = q + 1;
    }
    proof {
        assert forall|j: int| 0 <= j < ps@.len() implies #[trigger] represented(ps@, lines@, j) by {
            assert(plain[j] == j);
            assert(plain.contains(j as usize));
            assert(plain.to_multiset().count(j as usize) > 0);
            assert(idx@.contains(j as usize));
            let r = choose|r: int| 0 <= r < idx@.len() && idx@[r] == j as usize;
            assert(represented(ps@, lines@, idx@[r] as int));
        }
    }
    lines
}

/// Computes where two lines meet.
pub fn meet(ps: &[Product], i: usize, j: usize) -> (m: Frac)
    requires
        all_priced(ps@),
        i < ps@.len(),
        j < ps@.len(),
        ps@[i as int].rise() > ps@[j as int].rise(),
    ensures
        m == meeting(ps@[i as int], ps@[j as int]),
        m.tidy(),
{
    proof {
        meeting_parts(ps@[i as int], ps@[j as int], 0, 1);
    }
    let num: i128 = ps[i].delivery as i128 - ps[j].delivery as i128;
    let den: i128 = slope(ps[j]) as i128 - slope(ps[i]) as i128;
    Frac::new(num, den)
}

/// Where a line that meets its neighbours in the wrong order is not below both of
/// them.
proof fn crowded_out(a: Product, b: Product, c: Product, x: int, y: int)
    requires
        a.priced(),
        b.priced(),
        c.priced(),
        a.near(b),
        b.near(c),
        a.rise() > b.rise() > c.rise(),
        !meeting(a, b).below(meeting(b, c)),
        y > 0,
    ensures
        a.at(x, y) <= b.at(x, y) || c.at(x, y) <= b.at(x, y),
{
    meeting_parts(a, b, x, y);
    meeting_parts(b, c, x, y);
    let (m, o) = (meeting(a, b), meeting(b, c));
    let (mn, md, on, od) = (m.n as int, m.d as int, o.n as int, o.d as int);
    if mn * y < x * md && on * y > x * od {
        assert(mn * od * y < x * md * od) by (nonlinear_arith)
            requires
                mn * y < x * md,
                od > 0,
        ;
        assert(on * md * y > x * md * od) by (nonlinear_arith)
            requires
                on * y > x * od,
                md > 0,
        ;
        assert(mn * od * y >= on * md * y) by (nonlinear_arith)
            requires
                mn * od >= on * md,
                y > 0,
        ;
    }
}

/// Whether the hull covers a product at every weight.
pub open spec fn covers(ps: Seq<Product>, hull: Seq<usize>, u: int) -> bool {
    forall|x: int, y: int| y > 0 ==> #[trigger] covered(ps, hull, u, x, y)
}

proof fn covers_more(ps: Seq<Product>, hull: Seq<usize>, i: usize, u: int)
    requires
        covers(ps, hull, u),
    ensures
        covers(ps, hull.push(i), u),
{
    assert forall|x: int, y: int| y > 0 implies #[trigger] covered(ps, hull.push(i), u, x, y) by {
        assert(covered(ps, hull, u, x, y));
        let p = choose|p: int|
            0 <= p < hull.len() && (#[trigger] ps[hull[p] as int]).at(x, y) <= ps[u].at(x, y);
        assert(hull.push(i)[p] == hull[p]);
        assert(ps[hull.push(i)[p] as int].at(x, y) <= ps[u].at(x, y));
    }
}

proof fn covers_without(ps: Seq<Product>, hull: Seq<usize>, i: usize, u: int)
    requires
        all_priced(ps),
        falling(ps, hull.push(i)),
        hull.len() >= 2,
        !joint(ps, hull, hull.len() - 2).below(
            meeting(ps[hull[hull.len() - 1] as int], ps[i as int]),
        ),
        covers(ps, hull.push(i), u),
    ensures
        covers(ps, hull.drop_last().push(i), u),
{
    let full = hull.push(i);
    let less = hull.drop_last().push(i);
    let n = hull.len();
    assert(full[n - 2] == hull[n - 2] && full[n - 1] == hull[n - 1] && full[n as int] == i);
    assert forall|x: int, y: int| y > 0 implies #[trigger] covered(ps, less, u, x, y) by {
        assert(covered(ps, full, u, x, y));
        let p = choose|p: int|
            0 <= p < full.len() && (#[trigger] ps[full[p] as int]).at(x, y) <= ps[u].at(x, y);
        if p < n - 1 {
            assert(less[p] == full[p]);
            assert(ps[less[p] as int].at(x, y) <= ps[u].at(x, y));
        } else if p == n {
            assert(less[n - 1] == i);
            assert(ps[less[n - 1] as int].at(x, y) <= ps[u].at(x, y));
        } else {
            let (a, b, c) = (ps[full[n - 2] as int], ps[full[n - 1] as int], ps[full[n as int] as int]);
            crowded_out(a, b, c, x, y);
            assert(less[n - 2] == full[n - 2]);
            assert(less[n - 1] == i);
            if a.at(x, y) <= b.at(x, y) {
                assert(ps[less[n - 2] as int].at(x, y) <= ps[u].at(x, y));
            } else {
                assert(ps[less[n - 1] as int].at(x, y) <= ps[u].at(x, y));
            }
        }
    }
}

/// The lines that are lowest somewhere.
fn chain(ps: &[Product], lines: &Vec<usize>) -> (hull: Vec<usize>)
    requires
        all_priced(ps@),
        falling(ps@, lines@),
    ensures
        falling(ps@, hull@),
        turning(ps@, hull@),
        lines@.len() > 0 ==> hull@.len() > 0,
        forall|p: int| 0 <= p < hull@.len() ==> lines@.contains(#[trigger] hull@[p]),
        forall|q: int| 0 <= q < lines@.len() ==> covers(ps@, hull@, #[trigger] lines@[q] as int),
{
    let mut hull: Vec<usize> = Vec::new();
    let mut i: usize = 0;
    while i < lines.len()
        invariant
            all_priced(ps@),
            falling(ps@, lines@),
            i <= lines@.len(),
            falling(ps@, hull@),
            turning(ps@, hull@),
            i > 0 ==> hull@.len() > 0,
            forall|p: int|
                0 <= p < hull@.len() ==> lines@.take(i as int).contains(#[trigger] hull@[p]),
            forall|q: int| 0 <= q < i ==> covers(ps@, hull@, #[trigger] lines@[q] as int),
        decreases lines@.len() - i,
    {
        let u: usize = lines[i];
        proof {
            assert forall|p: int| 0 <= p < hull@.len() implies ps@[(#[trigger] hull@[p]) as int].rise()
                > ps@[u as int].rise() by {
                let r = choose|r: int|
                    0 <= r < lines@.take(i as int).len() && lines@.take(i as int)[r] == hull@[p];
                assert(ps@[lines@[r] as int].rise() > ps@[lines@[i as int] as int].rise());
            }
            falling_more(ps@, hull@, u);
            assert forall|q: int| 0 <= q < i implies covers(
                ps@,
                hull@.push(u),
                #[trigger] lines@[q] as int,
            ) by {
                covers_more(ps@, hull@, u, lines@[q] as int);
            }
        }
        while hull.len() >= 2
            invariant
                all_priced(ps@),
                i < lines@.len(),
                u < ps@.len(),
                falling(ps@, hull@),
                falling(ps@, hull@.push(u)),
                turning(ps@, hull@),
                forall|p: int|
                    0 <= p < hull@.len() ==> lines@.take(i as int).contains(#[trigger] hull@[p]),
                forall|q: int|
                    0 <= q < i ==> covers(ps@, hull@.push(u), #[trigger] lines@[q] as int),
            ensures
                hull@.len() >= 2 ==> joint(ps@, hull@, hull@.len() - 2).below(
                    meeting(ps@[hull@[hull@.len() - 1] as int], ps@[u as int]),
                ),
            decreases hull@.len(),
        {
            let n: usize = hull.len();
            let a: usize = hull[n - 2];
            let b: usize = hull[n - 1];
            proof {
                assert(hull@.push(u)[n - 1] == b && hull@.push(u)[n as int] == u);
                assert(ps@[hull@.push(u)[n - 1] as int].rise() > ps@[hull@.push(u)[n as int] as int].rise());
                assert(ps@[hull@[n - 2] as int].rise() > ps@[hull@[n - 1] as int].rise());
            }
            if less(meet(ps, a, b), meet(ps, b, u)) {
                break ;
            }
            let ghost had = hull@;
            let _ = hull.pop();
            proof {
                assert(hull@ =~= had.drop_last());
                assert forall|q: int| 0 <= q < i implies covers(
                    ps@,
                    hull@.push(u),
                    #[trigger] lines@[q] as int,
                ) by {
                    covers_without(ps@, had, u, lines@[q] as int);
                }
                assert forall|p: int| 0 <= p && p + 2 < hull@.len() implies (#[trigger] joint(
                    ps@,
                    hull@,
                    p,
                )).below(joint(ps@, hull@, p + 1)) by {
                    assert(joint(ps@, had, p).below(joint(ps@, had, p + 1)));
                }
                assert forall|p: int| 0 <= p < hull@.len() implies ps@[(#[trigger] hull@[p]) as int].rise()
                    > ps@[u as int].rise() by {
                    assert(had.push(u)[p] == hull@[p]);
                    assert(had.push(u)[had.len() as int] == u);
                    assert(ps@[had.push(u)[p] as int].rise() > ps@[had.push(u)[had.len() as int] as int].rise());
                }
                falling_less(ps@, had);
                falling_more(ps@, hull@, u);
            }
        }
        let ghost had = hull@;
        hull.push(u);
        proof {
            assert forall|p: int| 0 <= p && p + 2 < hull@.len() implies (#[trigger] joint(
                ps@,
                hull@,
                p,
            )).below(joint(ps@, hull@, p + 1)) by {
                assert(hull@[p] == had[p] && hull@[p + 1] == had[p + 1]);
                if p + 2 < had.len() {
                    assert(joint(ps@, had, p).below(joint(ps@, had, p + 1)));
                }
            }
            assert forall|p: int| 0 <= p < hull@.len() implies lines@.take(i + 1).contains(
                #[trigger] hull@[p],
            ) by {
                if p < had.len() {
                    assert(lines@.take(i as int).contains(had[p]));
                    let r = choose|r: int|
                        0 <= r < lines@.take(i as int).len() && lines@.take(i as int)[r] == had[p];
                    assert(lines@.take(i + 1)[r] == hull@[p]);
                } else {
                    assert(lines@.take(i + 1)[i as int] == u);
                }
            }
            assert(covers(ps@, hull@, u as int)) by {
                assert forall|x: int, y: int| y > 0 implies #[trigger] covered(
                    ps@,
                    hull@,
                    u as int,
                    x,
                    y,
                ) by {
                    assert(hull@[had.len() as int] == u);
                    assert(ps@[hull@[had.len() as int] as int].at(x, y) <= ps@[u as int].at(x, y));
                }
            }
        }
        i = i + 1;
    }
    proof {
        assert(lines@.take(i as int) =~= lines@);
    }
    hull
}

proof fn falling_less(ps: Seq<Product>, hull: Seq<usize>)
    requires
        falling(ps, hull),
        hull.len() > 0,
    ensures
        falling(ps, hull.drop_last()),
        falling(ps, hull.skip(1)),
{
    let h = hull.drop_last();
    let t = hull.skip(1);
    assert forall|p: int, q: int| 0 <= p < q < h.len() implies (#[trigger] ps[h[p] as int]).rise()
        > (#[trigger] ps[h[q] as int]).rise() by {
        assert(ps[hull[p] as int].rise() > ps[hull[q] as int].rise());
    }
    assert forall|p: int, q: int| 0 <= p < q < t.len() implies (#[trigger] ps[t[p] as int]).rise()
        > (#[trigger] ps[t[q] as int]).rise() by {
        assert(ps[hull[p + 1] as int].rise() > ps[hull[q + 1] as int].rise());
    }
}

proof fn falling_more(ps: Seq<Product>, hull: Seq<usize>, u: usize)
    requires
        falling(ps, hull),
        u < ps.len(),
        forall|p: int|
            0 <= p < hull.len() ==> ps[(#[trigger] hull[p]) as int].rise() > ps[u as int].rise(),
    ensures
        falling(ps, hull.push(u)),
{
    let h = hull.push(u);
    assert forall|p: int, q: int| 0 <= p < q < h.len() implies (#[trigger] ps[h[p] as int]).rise()
        > (#[trigger] ps[h[q] as int]).rise() by {
        assert(h[p] == hull[p]);
        if q < hull.len() {
            assert(h[q] == hull[q]);
        }
    }
}

/// Whether the hull covers a product wherever it counts.
pub open spec fn covers_unit(ps: Seq<Product>, hull: Seq<usize>, u: int) -> bool {
    forall|x: int, y: int| in_unit(x, y) ==> #[trigger] covered(ps, hull, u, x, y)
}

proof fn covers_from_second(ps: Seq<Product>, hull: Seq<usize>, u: int)
    requires
        all_priced(ps),
        falling(ps, hull),
        hull.len() >= 2,
        joint(ps, hull, 0).n <= 0,
        covers_unit(ps, hull, u),
    ensures
        covers_unit(ps, hull.skip(1), u),
{
    let t = hull.skip(1);
    assert forall|x: int, y: int| in_unit(x, y) implies #[trigger] covered(ps, t, u, x, y) by {
        assert(covered(ps, hull, u, x, y));
        let p = choose|p: int|
            0 <= p < hull.len() && (#[trigger] ps[hull[p] as int]).at(x, y) <= ps[u].at(x, y);
        if p > 0 {
            assert(t[p - 1] == hull[p]);
            assert(ps[t[p - 1] as int].at(x, y) <= ps[u].at(x, y));
        } else {
            let (a, b) = (ps[hull[0] as int], ps[hull[1] as int]);
            meeting_parts(a, b, x, y);
            let m = meeting(a, b);
            let (n, d) = (m.n as int, m.d as int);
            assert(n * y <= x * d) by (nonlinear_arith)
                requires
                    n <= 0,
                    y > 0,
                    x >= 0,
                    d > 0,
            ;
            assert(ps[t[0] as int].at(x, y) <= ps[u].at(x, y));
        }
    }
}

proof fn covers_but_last(ps: Seq<Product>, hull: Seq<usize>, u: int)
    requires
        all_priced(ps),
        falling(ps, hull),
        hull.len() >= 2,
        joint(ps, hull, hull.len() - 2).n >= joint(ps, hull, hull.len() - 2).d,
        covers_unit(ps, hull, u),
    ensures
        covers_unit(ps, hull.drop_last(), u),
{
    let h = hull.drop_last();
    let last = hull.len() - 1;
    assert forall|x: int, y: int| in_unit(x, y) implies #[trigger] covered(ps, h, u, x, y) by {
        assert(covered(ps, hull, u, x, y));
        let p = choose|p: int|
            0 <= p < hull.len() && (#[trigger] ps[hull[p] as int]).at(x, y) <= ps[u].at(x, y);
        if p < last {
            assert(h[p] == hull[p]);
            assert(ps[h[p] as int].at(x, y) <= ps[u].at(x, y));
        } else {
            let (a, b) = (ps[hull[last - 1] as int], ps[hull[last] as int]);
            meeting_parts(a, b, x, y);
            let m = meeting(a, b);
            let (n, d) = (m.n as int, m.d as int);
            assert(n * y >= x * d) by (nonlinear_arith)
                requires
                    n >= d,
                    d > 0,
                    0 <= x <= y,
            ;
            assert(ps[h[last - 1] as int].at(x, y) <= ps[u].at(x, y));
        }
    }
}

/// Whether every meeting lies between the two ends.
pub open spec fn trimmed(ps: Seq<Product>, hull: Seq<usize>) -> bool {
    hull.len() >= 2 ==> {
        &&& joint(ps, hull, 0).n > 0
        &&& joint(ps, hull, hull.len() - 2).n < joint(ps, hull, hull.len() - 2).d
    }
}

/// The lines that are lowest somewhere between the weights zero and one, in the
/// order in which they are.
pub fn lower_hull(ps: &[Product]) -> (hull: Vec<usize>)
    requires
        all_priced(ps@),
    ensures
        falling(ps@, hull@),
        turning(ps@, hull@),
        trimmed(ps@, hull@),
        ps@.len() > 0 ==> hull@.len() > 0,
        forall|u: int| 0 <= u < ps@.len() ==> #[trigger] covers_unit(ps@, hull@, u),
        forall|p: int, u: int|
            0 <= p < hull@.len() && 0 <= u < ps@.len() && ps@[(#[trigger] hull@[p]) as int] == (
            #[trigger] ps@[u]) ==> hull@[p] <= u,
{
    let lines = distinct_lines(ps);
    let mut hull = chain(ps, &lines);
    proof {
        if ps@.len() > 0 {
            assert(represented(ps@, lines@, 0));
        }
        assert forall|u: int| 0 <= u < ps@.len() implies #[trigger] covers_unit(ps@, hull@, u) by {
            assert(represented(ps@, lines@, u));
            let q = choose|q: int| 0 <= q < lines@.len() && #[trigger] stands_for(ps@, lines@[q], u);
            assert(covers(ps@, hull@, lines@[q] as int));
            assert forall|x: int, y: int| in_unit(x, y) implies #[trigger] covered(
                ps@,
                hull@,
                u,
                x,
                y,
            ) by {
                assert(covered(ps@, hull@, lines@[q] as int, x, y));
                let (c, e) = (ps@[lines@[q] as int].delivery as int, ps@[u].delivery as int);
                assert(c * y <= e * y) by (nonlinear_arith)
                    requires
                        c <= e,
                        y > 0,
                ;
            }
        }
        assert forall|p: int, u: int|
            0 <= p < hull@.len() && 0 <= u < ps@.len() && ps@[(#[trigger] hull@[p]) as int] == (
            #[trigger] ps@[u]) implies hull@[p] <= u by {
            assert(lines@.contains(hull@[p]));
            let r = choose|r: int| 0 <= r < lines@.len() && lines@[r] == hull@[p];
            assert(represented(ps@, lines@, u));
            let q = choose|q: int| 0 <= q < lines@.len() && #[trigger] stands_for(ps@, lines@[q], u);
            if q < r {
                assert(ps@[lines@[q] as int].rise() > ps@[lines@[r] as int].rise());
            } else if r < q {
                assert(ps@[lines@[r] as int].rise() > ps@[lines@[q] as int].rise());
            }
        }
    }
    let zero = Frac::new(0, 1);
    let one = Frac::new(1, 1);
    while hull.len() >= 2
        invariant
            all_priced(ps@),
            zero == (Frac { n: 0, d: 1 }),
            falling(ps@, hull@),
            turning(ps@, hull@),
            ps@.len() > 0 ==> hull@.len() > 0,
            forall|u: int| 0 <= u < ps@.len() ==> #[trigger] covers_unit(ps@, hull@, u),
            forall|p: int, u: int|
                0 <= p < hull@.len() && 0 <= u < ps@.len() && ps@[(#[trigger] hull@[p]) as int] == (
                #[trigger] ps@[u]) ==> hull@[p] <= u,
        ensures
            hull@.len() >= 2 ==> joint(ps@, hull@, 0).n > 0,
        decreases hull@.len(),
    {
        assert(ps@[hull@[0] as int].rise() > ps@[hull@[1] as int].rise());
        if less(zero, meet(ps, hull[0], hull[1])) {
            break ;
        }
        let ghost had = hull@;
        let _ = hull.remove(0);
        proof {
            assert(hull@ =~= had.skip(1));
            assert forall|u: int| 0 <= u < ps@.len() implies #[trigger] covers_unit(ps@, hull@, u) by {
                covers_from_second(ps@, had, u);
            }
            falling_less(ps@, had);
            assert forall|p: int| 0 <= p && p + 2 < hull@.len() implies (#[trigger] joint(
                ps@,
                hull@,
                p,
            )).below(joint(ps@, hull@, p + 1)) by {
                assert(joint(ps@, had, p + 1).below(joint(ps@, had, p + 2)));
            }
            assert forall|p: int, u: int|
                0 <= p < hull@.len() && 0 <= u < ps@.len() && ps@[(#[trigger] hull@[p]) as int] == (
                #[trigger] ps@[u]) implies hull@[p] <= u by {
                assert(hull@[p] == had[p + 1]);
            }
        }
    }
    while hull.len() >= 2
        invariant
            all_priced(ps@),
            one == (Frac { n: 1, d: 1 }),
            falling(ps@, hull@),
            turning(ps@, hull@),
            hull@.len() >= 2 ==> joint(ps@, hull@, 0).n > 0,
            ps@.len() > 0 ==> hull@.len() > 0,
            forall|u: int| 0 <= u < ps@.len() ==> #[trigger] covers_unit(ps@, hull@, u),
            forall|p: int, u: int|
                0 <= p < hull@.len() && 0 <= u < ps@.len() && ps@[(#[trigger] hull@[p]) as int] == (
                #[trigger] ps@[u]) ==> hull@[p] <= u,
        ensures
            trimmed(ps@, hull@),
        decreases hull@.len(),
    {
        let n: usize = hull.len();
        assert(ps@[hull@[n - 2] as int].rise() > ps@[hull@[n - 1] as int].rise());
        if less(meet(ps, hull[n - 2], hull[n - 1]), one) {
            break ;
        }
        let ghost had = hull@;
        let _ = hull.pop();
        proof {
            assert(hull@ =~= had.drop_last());
            assert forall|u: int| 0 <= u < ps@.len() implies #[trigger] covers_unit(ps@, hull@, u) by {
                covers_but_last(ps@, had, u);
            }
            falling_less(ps@, had);
            assert forall|p: int| 0 <= p && p + 2 < hull@.len() implies (#[trigger] joint(
                ps@,
                hull@,
                p,
            )).below(joint(ps@, hull@, p + 1)) by {
                assert(joint(ps@, had, p).below(joint(ps@, had, p + 1)));
            }
            assert(hull@.len() >= 2 ==> joint(ps@, hull@, 0) == joint(ps@, had, 0));
        }
    }
    hull
}

} // verus!
