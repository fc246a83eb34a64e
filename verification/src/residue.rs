//! Exact rounded aggregates from a histogram of residues.
//!
//! The sum of `(p * x + b) / q` over many numbers, each rounded to the nearest integer
//! and ties to the even one, follows from their count, their sum and how many of them
//! have each residue modulo `2 * q`.
use rand::rngs::SmallRng;
use vstd::prelude::*;
use vstd::string::StringExecFns;

use crate::polynomial::check_poly;
use crate::random::{below, between, seeded};

verus! {

/// The nearest integer to `num / q`, of two equally near ones the even one.
pub open spec fn rounded(num: int, q: int) -> int {
    num / q + rounding(num / q, num % q, q)
}

/// What rounding adds to a quotient.
pub open spec fn rounding(v: int, r: int, q: int) -> int {
    if 2 * r > q || (2 * r == q && v % 2 != 0) {
        1
    } else {
        0
    }
}

/// Numbers with how often each counts; a negative count takes a number away.
pub type Items = Seq<(i64, i64)>;

/// The sum of a function over the items.
pub open spec fn gather(items: Items, f: spec_fn(int) -> int) -> int
    decreases items.len(),
{
    if items.len() == 0 {
        0
    } else {
        gather(items.drop_last(), f) + items.last().1 * f(items.last().0 as int)
    }
}

/// Each number once.
pub open spec fn ones(xs: Seq<i64>) -> Items {
    xs.map_values(|x: i64| (x, 1i64))
}

pub open spec fn one() -> spec_fn(int) -> int {
    |x: int| 1int
}

pub open spec fn itself() -> spec_fn(int) -> int {
    |x: int| x
}

/// One for the numbers of a bin.
pub open spec fn bin(q: int, r: int) -> spec_fn(int) -> int {
    |x: int|
        if x % (2 * q) == r {
            1int
        } else {
            0int
        }
}

pub open spec fn line(p: int, b: int) -> spec_fn(int) -> int {
    |x: int| p * x + b
}

pub proof fn gather_push(items: Items, x: i64, m: i64, f: spec_fn(int) -> int)
    ensures
        gather(items.push((x, m)), f) == gather(items, f) + m * f(x as int),
{
    assert(items.push((x, m)).drop_last() =~= items);
}

pub proof fn gather_joined(a: Items, b: Items, f: spec_fn(int) -> int)
    ensures
        gather(a + b, f) == gather(a, f) + gather(b, f),
    decreases b.len(),
{
    if b.len() == 0 {
        assert(a + b =~= a);
    } else {
        assert((a + b).drop_last() =~= a + b.drop_last());
        gather_joined(a, b.drop_last(), f);
    }
}

/// One number replaced by another.
pub proof fn ones_update(xs: Seq<i64>, i: int, v: i64, f: spec_fn(int) -> int)
    requires
        0 <= i < xs.len(),
    ensures
        gather(ones(xs.update(i, v)), f) == gather(ones(xs), f) - f(xs[i] as int) + f(v as int),
{
    let (a, b) = (ones(xs.take(i)), ones(xs.skip(i + 1)));
    assert(ones(xs) =~= a.push((xs[i], 1i64)) + b);
    assert(ones(xs.update(i, v)) =~= a.push((v, 1i64)) + b);
    gather_joined(a.push((xs[i], 1i64)), b, f);
    gather_joined(a.push((v, 1i64)), b, f);
    gather_push(a, xs[i], 1, f);
    gather_push(a, v, 1, f);
}

pub proof fn ones_push(xs: Seq<i64>, v: i64, f: spec_fn(int) -> int)
    ensures
        gather(ones(xs.push(v)), f) == gather(ones(xs), f) + f(v as int),
{
    assert(ones(xs.push(v)) =~= ones(xs).push((v, 1i64)));
    gather_push(ones(xs), v, 1, f);
}

pub proof fn ones_drop(xs: Seq<i64>, f: spec_fn(int) -> int)
    requires
        xs.len() > 0,
    ensures
        gather(ones(xs), f) == gather(ones(xs.drop_last()), f) + f(xs.last() as int),
{
    assert(xs =~= xs.drop_last().push(xs.last()));
    ones_push(xs.drop_last(), xs.last(), f);
}

/// Sums of bounded values are bounded.
pub proof fn ones_bound(xs: Seq<i64>, f: spec_fn(int) -> int, most: int)
    requires
        most >= 0,
        forall|i: int| 0 <= i < xs.len() ==> -most <= f(#[trigger] xs[i] as int) <= most,
    ensures
        -(most * xs.len()) <= gather(ones(xs), f) <= most * xs.len(),
    decreases xs.len(),
{
    if xs.len() > 0 {
        let init = xs.drop_last();
        assert forall|i: int| 0 <= i < init.len() implies -most <= f(#[trigger] init[i] as int)
            <= most by {
            assert(init[i] == xs[i]);
        }
        ones_bound(init, f, most);
        ones_drop(xs, f);
        assert(-most <= f(xs[xs.len() - 1] as int) <= most);
        let n = xs.len() as int;
        assert(most * n == most * (n - 1) + most) by (nonlinear_arith);
    } else {
        assert(most * 0 == 0);
    }
}

/// The sum over all bins of what each holds times a function of the bin.
pub open spec fn over_bins(hist: Seq<i64>, f: spec_fn(int) -> int, n: int) -> int
    decreases n,
{
    if n <= 0 {
        0
    } else {
        over_bins(hist, f, n - 1) + hist[n - 1] * f(n - 1)
    }
}

/// Whether a histogram is that of the items.
pub open spec fn sorted_in(hist: Seq<i64>, q: int, items: Items) -> bool {
    &&& hist.len() == 2 * q
    &&& forall|r: int| 0 <= r < 2 * q ==> #[trigger] hist[r] == gather(items, bin(q, r))
}

/// A function of the residue, taken of a number.
pub open spec fn of_residue(q: int, f: spec_fn(int) -> int) -> spec_fn(int) -> int {
    |x: int| f(x % (2 * q))
}

spec fn bins_to(items: Items, q: int, f: spec_fn(int) -> int, n: int) -> int
    decreases n,
{
    if n <= 0 {
        0
    } else {
        bins_to(items, q, f, n - 1) + gather(items, bin(q, n - 1)) * f(n - 1)
    }
}

proof fn bins_step(items: Items, q: int, f: spec_fn(int) -> int, n: int)
    requires
        q > 0,
        items.len() > 0,
        0 <= n <= 2 * q,
    ensures
        bins_to(items, q, f, n) == bins_to(items.drop_last(), q, f, n) + if (
        items.last().0 as int) % (2 * q) < n {
            items.last().1 * f((items.last().0 as int) % (2 * q))
        } else {
            0
        },
    decreases n,
{
    if n > 0 {
        bins_step(items, q, f, n - 1);
        let (x, m) = (items.last().0 as int, items.last().1 as int);
        let g = bin(q, n - 1);
        let (a, y) = (gather(items.drop_last(), g), f(n - 1));
        assert(gather(items, g) == a + m * g(x));
        if x % (2 * q) == n - 1 {
            assert(g(x) == 1);
            assert((a + m * 1) * y == a * y + m * y) by (nonlinear_arith);
        } else {
            assert(g(x) == 0);
            assert((a + m * 0) * y == a * y) by (nonlinear_arith);
        }
    }
}

/// What depends on the residue alone can be summed bin by bin.
proof fn bins_sum(items: Items, q: int, f: spec_fn(int) -> int)
    requires
        q > 0,
    ensures
        bins_to(items, q, f, 2 * q) == gather(items, of_residue(q, f)),
    decreases items.len(),
{
    if items.len() > 0 {
        bins_sum(items.drop_last(), q, f);
        bins_step(items, q, f, 2 * q);
        let x = items.last().0 as int;
        assert(0 <= x % (2 * q) < 2 * q);
        assert(of_residue(q, f)(x) == f(x % (2 * q)));
    } else {
        bins_empty(items, q, f, 2 * q);
    }
}

proof fn bins_empty(items: Items, q: int, f: spec_fn(int) -> int, n: int)
    requires
        items.len() == 0,
    ensures
        bins_to(items, q, f, n) == 0,
    decreases n,
{
    if n > 0 {
        bins_empty(items, q, f, n - 1);
        assert(0 * f(n - 1) == 0);
    }
}

proof fn histogram_sum(hist: Seq<i64>, items: Items, q: int, f: spec_fn(int) -> int, n: int)
    requires
        sorted_in(hist, q, items),
        0 <= n <= 2 * q,
    ensures
        over_bins(hist, f, n) == bins_to(items, q, f, n),
    decreases n,
{
    if n > 0 {
        histogram_sum(hist, items, q, f, n - 1);
        assert(hist[n - 1] == gather(items, bin(q, n - 1)));
    }
}

/// What depends on the residue alone is summed over the bins of a histogram.
pub proof fn histogram_gathers(hist: Seq<i64>, items: Items, q: int, f: spec_fn(int) -> int)
    requires
        q > 0,
        sorted_in(hist, q, items),
    ensures
        over_bins(hist, f, 2 * q) == gather(items, of_residue(q, f)),
{
    histogram_sum(hist, items, q, f, 2 * q);
    bins_sum(items, q, f);
}

/// What is left of a division, as a function of the residue.
pub open spec fn left_over(g: spec_fn(int) -> int, q: int) -> spec_fn(int) -> int {
    |r: int| g(r) % q
}

/// What rounding adds, as a function of the residue.
pub open spec fn added_up(g: spec_fn(int) -> int, q: int) -> spec_fn(int) -> int {
    |r: int| rounding(g(r) / q, g(r) % q, q)
}

pub open spec fn rounded_value(g: spec_fn(int) -> int, q: int) -> spec_fn(int) -> int {
    |x: int| rounded(g(x), q)
}

/// Whether a function maps numbers with one residue modulo `2 * q` to values with one
/// residue.
pub open spec fn congruent(g: spec_fn(int) -> int, q: int) -> bool {
    forall|x: int| (#[trigger] g(x) - g(x % (2 * q))) % (2 * q) == 0
}

/// For such a function the residue settles what is left over and how it is rounded.
proof fn residue_settles(g: spec_fn(int) -> int, q: int, x: int)
    requires
        q > 0,
        congruent(g, q),
    ensures
        q * rounded(g(x), q) == g(x) - g(x % (2 * q)) % q + q * rounding(
            g(x % (2 * q)) / q,
            g(x % (2 * q)) % q,
            q,
        ),
{
    let (y, z) = (g(x), g(x % (2 * q)));
    assert((y - z) % (2 * q) == 0);
    let e = (y - z) / (2 * q);
    vstd::arithmetic::div_mod::lemma_fundamental_div_mod(y - z, 2 * q);
    assert(y == z + (2 * q) * e);
    let (v, r) = (z / q, z % q);
    vstd::arithmetic::div_mod::lemma_fundamental_div_mod(z, q);
    assert(z == q * v + r);
    assert(y == (v + 2 * e) * q + r) by (nonlinear_arith)
        requires
            y == z + (2 * q) * e,
            z == q * v + r,
    ;
    vstd::arithmetic::div_mod::lemma_fundamental_div_mod_converse(y, q, v + 2 * e, r);
    assert(y / q == v + 2 * e && y % q == r);
    assert((v + 2 * e) % 2 == v % 2);
    let up = rounding(v, r, q);
    assert(q * (v + 2 * e + up) == y - r + q * up) by (nonlinear_arith)
        requires
            y == (v + 2 * e) * q + r,
    ;
}

/// The rounded sum from the plain sum and the histogram.
pub proof fn rounded_sum(items: Items, g: spec_fn(int) -> int, q: int)
    requires
        q > 0,
        congruent(g, q),
    ensures
        q * gather(items, rounded_value(g, q)) == gather(items, g) - gather(
            items,
            of_residue(q, left_over(g, q)),
        ) + q * gather(items, of_residue(q, added_up(g, q))),
    decreases items.len(),
{
    if items.len() > 0 {
        let init = items.drop_last();
        rounded_sum(init, g, q);
        let (x, m) = (items.last().0 as int, items.last().1 as int);
        residue_settles(g, q, x);
        let (a, b, c) = (
            gather(init, rounded_value(g, q)),
            gather(init, of_residue(q, added_up(g, q))),
            rounded(g(x), q),
        );
        let (y, l, u) = (
            g(x),
            g(x % (2 * q)) % q,
            rounding(g(x % (2 * q)) / q, g(x % (2 * q)) % q, q),
        );
        assert(rounded_value(g, q)(x) == c);
        assert(of_residue(q, left_over(g, q))(x) == l);
        assert(of_residue(q, added_up(g, q))(x) == u);
        assert(q * (a + m * c) == q * a + m * (q * c)) by (nonlinear_arith);
        assert(q * (b + m * u) == q * b + m * (q * u)) by (nonlinear_arith);
        assert(m * (y - l + q * u) == m * y - m * l + m * (q * u)) by (nonlinear_arith);
    } else {
        assert(q * 0 == 0);
    }
}

/// Quotient towards minus infinity, and what is left.
pub(crate) fn euclid_div(num: i64, q: i64) -> (r: (i64, i64))
    requires
        q > 0,
    ensures
        r.0 == (num as int) / (q as int),
        r.1 == (num as int) % (q as int),
        0 <= r.1 < q,
{
    if num >= 0 {
        (num / q, num % q)
    } else {
        let back: i64 = -(num + 1);
        let v: i64 = -(back / q) - 1;
        let left: i64 = (q - 1) - back % q;
        proof {
            let (n, d, k) = (num as int, q as int, back as int);
            vstd::arithmetic::div_mod::lemma_fundamental_div_mod(k, d);
            let (e, f) = (k / d, k % d);
            assert(n == (-e - 1) * d + (d - 1 - f)) by (nonlinear_arith)
                requires
                    n == -k - 1,
                    k == d * e + f,
            ;
            vstd::arithmetic::div_mod::lemma_fundamental_div_mod_converse(n, d, -e - 1, d - 1 - f);
        }
        (v, left)
    }
}

/// The quotient of a multiple.
pub(crate) fn exact_div(num: i128, q: i64, Ghost(r): Ghost<int>) -> (v: i128)
    requires
        q > 0,
        num == q * r,
    ensures
        v == r,
{
    proof {
        let (d, n) = (q as int, num as int);
        assert(n == r * d && -(n + d) == (-r - 1) * d) by (nonlinear_arith)
            requires
                n == d * r,
        ;
        assert(n < 0 ==> n + d <= 0) by (nonlinear_arith)
            requires
                n == r * d,
                d > 0,
        ;
        vstd::arithmetic::div_mod::lemma_fundamental_div_mod_converse(n, d, r, 0);
        vstd::arithmetic::div_mod::lemma_fundamental_div_mod_converse(-(n + d), d, -r - 1, 0);
    }
    if num >= 0 {
        num / q as i128
    } else {
        let back: i128 = -(num + q as i128);
        -(back / q as i128) - 1
    }
}

/// The nearest integer, ties to even.
pub fn round_even(num: i64, q: i64) -> (r: i64)
    requires
        0 < q <= 0x4000_0000_0000_0000,
    ensures
        r == rounded(num as int, q as int),
{
    let (v, left): (i64, i64) = euclid_div(num, q);
    proof {
        let (n, d) = (num as int, q as int);
        vstd::arithmetic::div_mod::lemma_fundamental_div_mod(n, d);
        let (e, f) = (n / d, n % d);
        assert(d >= 2 ==> e <= 0x4000_0000_0000_0000) by (nonlinear_arith)
            requires
                n == d * e + f,
                0 <= f < d,
                n < 0x8000_0000_0000_0000,
        ;
    }
    if 2 * left > q || (2 * left == q && odd(v)) {
        v + 1
    } else {
        v
    }
}

pub(crate) fn odd(v: i64) -> (r: bool)
    ensures
        r == ((v as int) % 2 != 0),
{
    assert((v & 1 == 1) == (v % 2 != 0)) by (bit_vector);
    v & 1 == 1
}

/// A combination of multiples is a multiple.
pub proof fn multiples_combine(m: int, a: int, b: int, s: int, t: int)
    requires
        m > 0,
        a % m == 0,
        b % m == 0,
    ensures
        (s * a + t * b) % m == 0,
{
    vstd::arithmetic::div_mod::lemma_fundamental_div_mod(a, m);
    vstd::arithmetic::div_mod::lemma_fundamental_div_mod(b, m);
    let (d, e) = (a / m, b / m);
    assert(s * a + t * b == (s * d + t * e) * m) by (nonlinear_arith)
        requires
            a == m * d,
            b == m * e,
    ;
    vstd::arithmetic::div_mod::lemma_mod_multiples_basic(s * d + t * e, m);
}

/// A number and its residue.
pub proof fn residue_apart(x: int, m: int)
    requires
        m > 0,
    ensures
        (x - x % m) % m == 0,
{
    vstd::arithmetic::div_mod::lemma_fundamental_div_mod(x, m);
    let e = x / m;
    assert(x - x % m == e * m) by (nonlinear_arith)
        requires
            x == m * e + x % m,
    ;
    vstd::arithmetic::div_mod::lemma_mod_multiples_basic(e, m);
}

proof fn line_congruent(p: int, b: int, q: int)
    requires
        q > 0,
    ensures
        congruent(line(p, b), q),
{
    let g = line(p, b);
    assert forall|x: int| (#[trigger] g(x) - g(x % (2 * q))) % (2 * q) == 0 by {
        let r = x % (2 * q);
        residue_apart(x, 2 * q);
        multiples_combine(2 * q, x - r, 0, p, 0);
        assert((p * x + b) - (p * r + b) == p * (x - r) + 0 * 0) by (nonlinear_arith);
    }
}

proof fn line_sum(items: Items, p: int, b: int)
    ensures
        gather(items, line(p, b)) == p * gather(items, itself()) + b * gather(items, one()),
    decreases items.len(),
{
    if items.len() > 0 {
        let init = items.drop_last();
        line_sum(init, p, b);
        let (x, m) = (items.last().0 as int, items.last().1 as int);
        let (s, n) = (gather(init, itself()), gather(init, one()));
        assert(itself()(x) == x && one()(x) == 1 && line(p, b)(x) == p * x + b);
        assert((p * s + b * n) + m * (p * x + b) == p * (s + m * x) + b * (n + m * 1))
            by (nonlinear_arith);
    } else {
        assert(p * 0 + b * 0 == 0);
    }
}

pub open spec fn fits(x: int) -> bool {
    i64::MIN <= x <= i64::MAX
}

/// Rounds every value by itself.
pub fn naive_sum(xs: &[i64], p: i64, b: i64, q: i64) -> (r: i128)
    requires
        0 < q <= 0x4000_0000_0000_0000,
        forall|i: int| 0 <= i < xs@.len() ==> fits(p * #[trigger] xs@[i] + b),
    ensures
        r == gather(ones(xs@), rounded_value(line(p as int, b as int), q as int)),
{
    let ghost f = rounded_value(line(p as int, b as int), q as int);
    let size: usize = xs.len();
    let mut r: i128 = 0;
    let mut i: usize = 0;
    assert(ones(xs@.take(0)) =~= Seq::empty());
    while i < size
        invariant
            size == xs@.len(),
            0 < q <= 0x4000_0000_0000_0000,
            forall|i: int| 0 <= i < xs@.len() ==> fits(p * #[trigger] xs@[i] + b),
            f == rounded_value(line(p as int, b as int), q as int),
            i <= size,
            r == gather(ones(xs@.take(i as int)), f),
            -0x8000_0000_0000_0000 * i <= r <= 0x8000_0000_0000_0000 * i,
        decreases size - i,
    {
        let x: i64 = xs[i];
        proof {
            let (u, v) = (p as int, x as int);
            assert(-0x4000_0000_0000_0000_0000_0000_0000_0000 <= u * v
                <= 0x4000_0000_0000_0000_0000_0000_0000_0000) by (nonlinear_arith)
                requires
                    -0x8000_0000_0000_0000 <= u < 0x8000_0000_0000_0000,
                    -0x8000_0000_0000_0000 <= v < 0x8000_0000_0000_0000,
            ;
            assert(fits(p * xs@[i as int] + b));
            assert(xs@.take(i + 1) =~= xs@.take(i as int).push(x));
            ones_push(xs@.take(i as int), x, f);
        }
        let num: i64 = (p as i128 * x as i128 + b as i128) as i64;
        let one: i64 = round_even(num, q);
        r = r + one as i128;
        i = i + 1;
    }
    assert(xs@.take(i as int) =~= xs@);
    r
}

/// The count, the sum and the histogram of some numbers.
pub struct Residue {
    pub q: i64,
    pub n: i64,
    pub sum: i64,
    pub hist: Vec<i64>,
}

/// Whether `2 * q` bins can be numbered.
pub open spec fn slots(q: int) -> bool {
    0 < q && 2 * q <= i64::MAX && 2 * q <= usize::MAX
}

/// Whether a number can be held in the width that sums are computed in.
pub open spec fn wide(x: int) -> bool {
    i128::MIN <= x <= i128::MAX
}

/// Whether what the bins add up to can be computed: the value of every residue that occurs,
/// and the running sums.
pub open spec fn bins_fit(hist: Seq<i64>, g: spec_fn(int) -> int, q: int) -> bool {
    &&& forall|r: int| 0 <= r < 2 * q && hist[r] != 0 ==> fits(#[trigger] g(r))
    &&& forall|k: int| 0 <= k <= 2 * q ==> wide(#[trigger] over_bins(hist, left_over(g, q), k))
    &&& forall|k: int| 0 <= k <= 2 * q ==> wide(#[trigger] over_bins(hist, added_up(g, q), k))
}

/// Whether a query can be computed whose values sum to `total` before they are rounded.
pub open spec fn query_fits(hist: Seq<i64>, g: spec_fn(int) -> int, q: int, total: int) -> bool {
    let rest = over_bins(hist, left_over(g, q), 2 * q);
    &&& bins_fit(hist, g, q)
    &&& wide(total)
    &&& wide(total - rest)
    &&& wide((total - rest) / q + over_bins(hist, added_up(g, q), 2 * q))
}

/// With few bins every query can be computed whose values, and their sum, are not too large.
pub proof fn few_bins_fit(hist: Seq<i64>, g: spec_fn(int) -> int, q: int, total: int)
    requires
        0 < q <= 0x4000_0000,
        hist.len() == 2 * q,
        forall|r: int| 0 <= r < 2 * q ==> fits(#[trigger] g(r)),
        -0x4000_0000_0000_0000_0000_0000_0000_0000 <= total
            <= 0x4000_0000_0000_0000_0000_0000_0000_0000,
    ensures
        query_fits(hist, g, q, total),
{
    assert forall|k: int| 0 <= k <= 2 * q implies wide(
        #[trigger] over_bins(hist, left_over(g, q), k),
    ) by {
        bins_bound(hist, g, q, k);
    }
    assert forall|k: int| 0 <= k <= 2 * q implies wide(
        #[trigger] over_bins(hist, added_up(g, q), k),
    ) by {
        bins_bound(hist, g, q, k);
    }
    bins_bound(hist, g, q, 2 * q);
    let x = total - over_bins(hist, left_over(g, q), 2 * q);
    assert(-0x6000_0000_0000_0000_0000_0000_0000_0000 <= x / q
        <= 0x6000_0000_0000_0000_0000_0000_0000_0000) by (nonlinear_arith)
        requires
            q > 0,
            -0x6000_0000_0000_0000_0000_0000_0000_0000 <= x
                <= 0x6000_0000_0000_0000_0000_0000_0000_0000,
    ;
}

proof fn bins_bound(hist: Seq<i64>, g: spec_fn(int) -> int, q: int, k: int)
    requires
        0 < q <= 0x4000_0000,
        hist.len() == 2 * q,
        0 <= k <= 2 * q,
    ensures
        -0x2000_0000_0000_0000_0000_0000 * k <= over_bins(hist, left_over(g, q), k)
            <= 0x2000_0000_0000_0000_0000_0000 * k,
        -0x8000_0000_0000_0000 * k <= over_bins(hist, added_up(g, q), k) <= 0x8000_0000_0000_0000
            * k,
    decreases k,
{
    if k > 0 {
        bins_bound(hist, g, q, k - 1);
        let (w, l, u) = (
            hist[k - 1] as int,
            left_over(g, q)(k - 1),
            added_up(g, q)(k - 1),
        );
        assert(0 <= l < q);
        assert(-0x2000_0000_0000_0000_0000_0000 <= w * l <= 0x2000_0000_0000_0000_0000_0000)
            by (nonlinear_arith)
            requires
                -0x8000_0000_0000_0000 <= w < 0x8000_0000_0000_0000,
                0 <= l < 0x4000_0000,
        ;
        assert(w * 1 == w && w * 0 == 0);
    }
}

/// The bin of a number.
pub(crate) fn bin_of(x: i64, q: i64) -> (r: usize)
    requires
        slots(q as int),
    ensures
        r == (x as int) % (2 * q),
        r < 2 * q,
{
    euclid_div(x, 2 * q).1 as usize
}

pub(crate) fn empty_bins(q: i64) -> (hist: Vec<i64>)
    requires
        slots(q as int),
    ensures
        sorted_in(hist@, q as int, Seq::empty()),
        hist@.len() == 2 * q,
        forall|r: int| 0 <= r < hist@.len() ==> #[trigger] hist@[r] == 0,
{
    let mut hist: Vec<i64> = Vec::new();
    let mut i: i64 = 0;
    while i < 2 * q
        invariant
            slots(q as int),
            0 <= i <= 2 * q,
            hist@.len() == i,
            forall|r: int| 0 <= r < i ==> #[trigger] hist@[r] == 0,
        decreases 2 * q - i,
    {
        hist.push(0);
        i = i + 1;
    }
    hist
}

/// A bin grows by what is put into it.
pub proof fn bins_grow(hist: Seq<i64>, q: int, items: Items, x: i64, m: i64, now: i64)
    requires
        q > 0,
        sorted_in(hist, q, items),
        now == hist[(x as int) % (2 * q)] + m,
    ensures
        sorted_in(hist.update((x as int) % (2 * q), now), q, items.push((x, m))),
{
    let r = (x as int) % (2 * q);
    let next = hist.update(r, now);
    assert forall|k: int| 0 <= k < 2 * q implies #[trigger] next[k] == gather(
        items.push((x, m)),
        bin(q, k),
    ) by {
        gather_push(items, x, m, bin(q, k));
        assert(hist[k] == gather(items, bin(q, k)));
        if k == r {
            assert(bin(q, k)(x as int) == 1);
        } else {
            assert(bin(q, k)(x as int) == 0);
        }
    }
}

impl Residue {
    /// Whether this is the state of the items.
    pub open spec fn holds(&self, items: Items) -> bool {
        &&& self.n == gather(items, one())
        &&& self.sum == gather(items, itself())
        &&& sorted_in(self.hist@, self.q as int, items)
    }

    pub open spec fn wf(&self) -> bool {
        &&& slots(self.q as int)
        &&& exists|items: Items| self.holds(items)
    }

    pub fn new(q: i64) -> (s: Self)
        requires
            slots(q as int),
        ensures
            s.q == q,
            s.wf(),
            s.holds(Seq::empty()),
            s.n == 0,
            s.sum == 0,
            forall|r: int| 0 <= r < s.hist@.len() ==> #[trigger] s.hist@[r] == 0,
    {
        let s = Residue { q, n: 0, sum: 0, hist: empty_bins(q) };
        assert(s.holds(Seq::empty()));
        s
    }

    /// Counts a number `m` times more.
    pub fn add(&mut self, x: i64, m: i64)
        requires
            old(self).wf(),
            fits(old(self).n + m),
            fits(m * x),
            fits(old(self).sum + m * x),
            fits(old(self).hist@[(x as int) % (2 * old(self).q)] + m),
        ensures
            final(self).q == old(self).q,
            final(self).wf(),
            forall|items: Items| #[trigger]
                old(self).holds(items) ==> final(self).holds(items.push((x, m))),
            final(self).n == old(self).n + m,
            final(self).sum == old(self).sum + m * x,
            final(self).hist@ == old(self).hist@.update(
                (x as int) % (2 * old(self).q),
                (old(self).hist@[(x as int) % (2 * old(self).q)] + m) as i64,
            ),
    {
        let ghost before = *self;
        self.n = self.n + m;
        self.sum = self.sum + m * x;
        let r: usize = bin_of(x, self.q);
        let now: i64 = self.hist[r] + m;
        self.hist.set(r, now);
        proof {
            assert forall|items: Items| #[trigger] before.holds(items) implies self.holds(
                items.push((x, m)),
            ) by {
                bins_grow(before.hist@, self.q as int, items, x, m, now);
                gather_push(items, x, m, one());
                gather_push(items, x, m, itself());
                assert(m * 1 == m);
            }
            let items = choose|items: Items| before.holds(items);
            assert(before.holds(items));
            assert(self.holds(items.push((x, m))));
        }
    }

    /// The state of some numbers.
    pub fn from_values(q: i64, xs: &[i64]) -> (s: Self)
        requires
            slots(q as int),
            xs@.len() <= i64::MAX,
            forall|n: int|
                0 <= n <= xs@.len() ==> fits(gather(ones(#[trigger] xs@.take(n)), itself())),
        ensures
            s.q == q,
            s.wf(),
            s.holds(ones(xs@)),
    {
        let mut s = Self::new(q);
        let mut i: usize = 0;
        assert(ones(xs@.take(0)) =~= Seq::empty());
        while i < xs.len()
            invariant
                i <= xs@.len() <= i64::MAX,
                forall|n: int|
                    0 <= n <= xs@.len() ==> fits(gather(ones(#[trigger] xs@.take(n)), itself())),
                s.q == q,
                s.wf(),
                s.holds(ones(xs@.take(i as int))),
                forall|r: int| 0 <= r < s.hist@.len() ==> #[trigger] s.hist@[r] <= i,
                s.n == i,
            decreases xs@.len() - i,
        {
            let x: i64 = xs[i];
            proof {
                assert(xs@.take(i + 1) =~= xs@.take(i as int).push(x));
                assert(ones(xs@.take(i + 1)) =~= ones(xs@.take(i as int)).push((x, 1i64)));
                ones_push(xs@.take(i as int), x, itself());
                assert(fits(gather(ones(xs@.take(i + 1)), itself())));
                let r = (x as int) % (2 * s.q);
                assert(0 <= r < 2 * s.q);
                assert(s.hist@[r] == gather(ones(xs@.take(i as int)), bin(s.q as int, r)));
                count_positive(xs@.take(i as int), s.q as int, r);
            }
            s.add(x, 1);
            i = i + 1;
        }
        assert(xs@.take(i as int) =~= xs@);
        s
    }

    /// The sum of all rounded values of `(p * x + b) / q`.
    pub fn query(&self, p: i64, b: i64) -> (r: i128)
        requires
            self.wf(),
            query_fits(
                self.hist@,
                line(p as int, b as int),
                self.q as int,
                p * self.sum + self.n * b,
            ),
        ensures
            forall|items: Items| #[trigger]
                self.holds(items) ==> r == gather(
                    items,
                    rounded_value(line(p as int, b as int), self.q as int),
                ),
    {
        let q: i64 = self.q;
        let ghost g = line(p as int, b as int);
        let mut residual: i128 = 0;
        let mut inc: i128 = 0;
        let mut k: i64 = 0;
        while k < 2 * q
            invariant
                q == self.q,
                slots(q as int),
                self.hist@.len() == 2 * q,
                g == line(p as int, b as int),
                bins_fit(self.hist@, g, q as int),
                0 <= k <= 2 * q,
                residual == over_bins(self.hist@, left_over(g, q as int), k as int),
                inc == over_bins(self.hist@, added_up(g, q as int), k as int),
            decreases 2 * q - k,
        {
            let c: i64 = self.hist[k as usize];
            proof {
                let (u, v) = (p as int, k as int);
                assert(-0x4000_0000_0000_0000_0000_0000_0000_0000 <= u * v
                    <= 0x4000_0000_0000_0000_0000_0000_0000_0000) by (nonlinear_arith)
                    requires
                        -0x8000_0000_0000_0000 <= u < 0x8000_0000_0000_0000,
                        0 <= v < 0x8000_0000_0000_0000,
                ;
                assert(self.hist@[k as int] != 0 ==> fits(g(k as int)));
                assert(wide(over_bins(self.hist@, left_over(g, q as int), k + 1)));
                assert(wide(over_bins(self.hist@, added_up(g, q as int), k + 1)));
                assert(0 * left_over(g, q as int)(k as int) == 0);
                assert(0 * added_up(g, q as int)(k as int) == 0);
            }
            if c != 0 {
                let num: i64 = (p as i128 * k as i128 + b as i128) as i64;
                let (z, t): (i64, i64) = euclid_div(num, q);
                let up: i64 = if 2 * t > q || (2 * t == q && odd(z)) {
                    1
                } else {
                    0
                };
                proof {
                    let (w, l) = (c as int, t as int);
                    assert(wide(w * l)) by (nonlinear_arith)
                        requires
                            -0x8000_0000_0000_0000 <= w < 0x8000_0000_0000_0000,
                            0 <= l < 0x8000_0000_0000_0000,
                    ;
                    assert(up == added_up(g, q as int)(k as int));
                    assert(w * 1 == w && w * 0 == 0);
                }
                residual = residual + c as i128 * t as i128;
                inc = inc + c as i128 * up as i128;
            }
            k = k + 1;
        }
        proof {
            let (u, v, w, x) = (p as int, self.sum as int, self.n as int, b as int);
            assert(-0x4000_0000_0000_0000_0000_0000_0000_0000 <= u * v
                <= 0x4000_0000_0000_0000_0000_0000_0000_0000) by (nonlinear_arith)
                requires
                    -0x8000_0000_0000_0000 <= u < 0x8000_0000_0000_0000,
                    -0x8000_0000_0000_0000 <= v < 0x8000_0000_0000_0000,
            ;
            assert(-0x4000_0000_0000_0000_0000_0000_0000_0000 <= w * x
                <= 0x4000_0000_0000_0000_0000_0000_0000_0000) by (nonlinear_arith)
                requires
                    -0x8000_0000_0000_0000 <= w < 0x8000_0000_0000_0000,
                    -0x8000_0000_0000_0000 <= x < 0x8000_0000_0000_0000,
            ;
        }
        let numerator: i128 = p as i128 * self.sum as i128 + self.n as i128 * b as i128 - residual;
        let ghost items = choose|items: Items| self.holds(items);
        proof {
            query_exact(*self, items, p as int, b as int);
        }
        let ghost whole = gather(items, rounded_value(g, q as int)) - inc;
        let v: i128 = exact_div(numerator, q, Ghost(whole));
        proof {
            let (m, n) = (q as int, numerator as int);
            assert(n / m == whole) by {
                assert(n == whole * m) by (nonlinear_arith)
                    requires
                        n == m * whole,
                ;
                vstd::arithmetic::div_mod::lemma_fundamental_div_mod_converse(n, m, whole, 0);
            }
            assert forall|other: Items| #[trigger] self.holds(other) implies v + inc == gather(
                other,
                rounded_value(g, q as int),
            ) by {
                query_exact(*self, other, p as int, b as int);
                let (d, e) = (
                    gather(other, rounded_value(g, q as int)) - inc,
                    gather(items, rounded_value(g, q as int)) - inc,
                );
                let m = q as int;
                assert(d == e) by (nonlinear_arith)
                    requires
                        m * d == m * e,
                        m > 0,
                ;
            }
        }
        v + inc
    }
}

/// One for a single number.
pub open spec fn only(v: i64) -> spec_fn(int) -> int {
    |x: int|
        if x == v {
            1int
        } else {
            0int
        }
}

/// The items but for one number.
spec fn without(items: Items, v: i64) -> Items
    decreases items.len(),
{
    if items.len() == 0 {
        Seq::empty()
    } else if items.last().0 == v {
        without(items.drop_last(), v)
    } else {
        without(items.drop_last(), v).push(items.last())
    }
}

/// A number counts as often as it was put in, less as often as it was taken out.
proof fn without_meaning(items: Items, v: i64, f: spec_fn(int) -> int)
    ensures
        gather(items, f) == gather(without(items, v), f) + gather(items, only(v)) * f(v as int),
        forall|w: i64|
            gather(without(items, v), #[trigger] only(w)) == if w == v {
                0
            } else {
                gather(items, only(w))
            },
        without(items, v).len() <= items.len(),
        items.len() > 0 && items.last().0 == v ==> without(items, v).len() < items.len(),
    decreases items.len(),
{
    if items.len() == 0 {
        assert(0 * f(v as int) == 0);
    } else {
        let init = items.drop_last();
        let (x, m) = items.last();
        without_meaning(init, v, f);
        let (c, y) = (gather(init, only(v)), f(v as int));
        if x == v {
            assert(only(v)(x as int) == 1);
            assert(m * 1 == m);
            assert((c + m) * y == c * y + m * y) by (nonlinear_arith);
            assert forall|w: i64| gather(without(items, v), #[trigger] only(w)) == if w == v {
                0
            } else {
                gather(items, only(w))
            } by {
                if w != v {
                    assert(only(w)(x as int) == 0);
                    assert(m * 0 == 0);
                }
            }
        } else {
            assert(only(v)(x as int) == 0);
            assert(m * 0 == 0);
            gather_push(without(init, v), x, m, f);
            assert forall|w: i64| gather(without(items, v), #[trigger] only(w)) == if w == v {
                0
            } else {
                gather(items, only(w))
            } by {
                gather_push(without(init, v), x, m, only(w));
            }
        }
    }
}

/// Items in which nothing is left over sum to nothing.
proof fn nothing_left(items: Items, f: spec_fn(int) -> int)
    requires
        forall|v: i64| gather(items, #[trigger] only(v)) == 0,
    ensures
        gather(items, f) == 0,
    decreases items.len(),
{
    if items.len() > 0 {
        let v = items.last().0;
        without_meaning(items, v, f);
        assert(gather(items, only(v)) == 0);
        assert(0 * f(v as int) == 0);
        assert forall|w: i64| gather(without(items, v), #[trigger] only(w)) == 0 by {
            assert(gather(items, only(w)) == 0);
        }
        nothing_left(without(items, v), f);
    }
}

/// The items with every count turned round, but for one count that has no opposite.
spec fn undone(items: Items) -> Items {
    items.map_values(|e: (i64, i64)| (e.0, (-e.1) as i64))
}

proof fn undone_sum(items: Items, f: spec_fn(int) -> int)
    requires
        forall|i: int| 0 <= i < items.len() ==> (#[trigger] items[i]).1 > i64::MIN,
    ensures
        gather(undone(items), f) == -gather(items, f),
    decreases items.len(),
{
    if items.len() > 0 {
        let init = items.drop_last();
        assert forall|i: int| 0 <= i < init.len() implies (#[trigger] init[i]).1 > i64::MIN by {
            assert(init[i] == items[i]);
        }
        undone_sum(init, f);
        let (x, m) = items[items.len() - 1];
        assert(undone(items).drop_last() =~= undone(init));
        assert(undone(items).last() == (x, (-m) as i64));
        let y = f(x as int);
        assert((-m) * y == -(m * y)) by (nonlinear_arith);
    }
}

/// Items that leave the same counts give the same sums, whatever was put in and taken out on
/// the way.
pub proof fn counts_settle_sums(run: Items, xs: Seq<i64>, f: spec_fn(int) -> int)
    requires
        forall|v: i64| gather(run, #[trigger] only(v)) == gather(ones(xs), only(v)),
    ensures
        gather(run, f) == gather(ones(xs), f),
{
    let back = undone(ones(xs));
    let both = run + back;
    assert forall|v: i64| gather(both, #[trigger] only(v)) == 0 by {
        gather_joined(run, back, only(v));
        undone_sum(ones(xs), only(v));
    }
    nothing_left(both, f);
    gather_joined(run, back, f);
    undone_sum(ones(xs), f);
}

/// After any run of additions and removals that leaves certain numbers, a query gives what
/// rounding each of these numbers and adding up gives.
pub proof fn any_run_is_the_naive_sum(
    states: Seq<Residue>,
    run: Items,
    xs: Seq<i64>,
    p: int,
    b: int,
)
    requires
        states.len() == run.len() + 1,
        states[0].holds(Seq::empty()),
        forall|i: int, items: Items|
            0 <= i < run.len() && #[trigger] states[i].holds(items) ==> states[i + 1].holds(
                items.push(run[i]),
            ),
        forall|v: i64| gather(run, #[trigger] only(v)) == gather(ones(xs), only(v)),
    ensures
        states.last().holds(run),
        gather(run, rounded_value(line(p, b), states.last().q as int)) == gather(
            ones(xs),
            rounded_value(line(p, b), states.last().q as int),
        ),
{
    run_is_held(states, run, run.len() as int);
    assert(run.take(run.len() as int) =~= run);
    counts_settle_sums(run, xs, rounded_value(line(p, b), states.last().q as int));
}

proof fn run_is_held(states: Seq<Residue>, run: Items, n: int)
    requires
        states.len() == run.len() + 1,
        states[0].holds(Seq::empty()),
        forall|i: int, items: Items|
            0 <= i < run.len() && #[trigger] states[i].holds(items) ==> states[i + 1].holds(
                items.push(run[i]),
            ),
        0 <= n <= run.len(),
    ensures
        states[n].holds(run.take(n)),
    decreases n,
{
    if n == 0 {
        assert(run.take(0) =~= Seq::empty());
    } else {
        run_is_held(states, run, n - 1);
        assert(run.take(n) =~= run.take(n - 1).push(run[n - 1]));
        assert(states[n - 1].holds(run.take(n - 1)));
    }
}

/// The rounded sum is what the state gives.
proof fn query_exact(s: Residue, items: Items, p: int, b: int)
    requires
        s.q > 0,
        s.holds(items),
    ensures
        ({
            let (g, q) = (line(p, b), s.q as int);
            q * (gather(items, rounded_value(g, q)) - over_bins(s.hist@, added_up(g, q), 2 * q))
                == p * s.sum + s.n * b - over_bins(s.hist@, left_over(g, q), 2 * q)
        }),
{
    let (g, q) = (line(p, b), s.q as int);
    line_congruent(p, b, q);
    rounded_sum(items, g, q);
    line_sum(items, p, b);
    histogram_gathers(s.hist@, items, q, left_over(g, q));
    histogram_gathers(s.hist@, items, q, added_up(g, q));
    let (t, i, n) = (
        gather(items, rounded_value(g, q)),
        over_bins(s.hist@, added_up(g, q), 2 * q),
        s.n as int,
    );
    assert(q * (t - i) == q * t - q * i) by (nonlinear_arith);
    assert(n * b == b * n) by (nonlinear_arith);
}

/// A bin holds no more than there is.
pub proof fn count_positive(xs: Seq<i64>, q: int, r: int)
    ensures
        0 <= gather(ones(xs), bin(q, r)) <= xs.len(),
    decreases xs.len(),
{
    if xs.len() > 0 {
        count_positive(xs.drop_last(), q, r);
        ones_drop(xs, bin(q, r));
    }
}

/// Rounding loses what count and sum cannot tell: the same count and the same sum, and
/// yet two rounded sums.
pub proof fn count_and_sum_do_not_suffice()
    ensures
        ({
            let (a, b) = (seq![0i64, 2i64], seq![1i64, 1i64]);
            &&& gather(ones(a), one()) == gather(ones(b), one())
            &&& gather(ones(a), itself()) == gather(ones(b), itself())
            &&& gather(ones(a), rounded_value(line(1, 0), 2)) != gather(
                ones(b),
                rounded_value(line(1, 0), 2),
            )
        }),
{
    let (a, b) = (seq![0i64, 2i64], seq![1i64, 1i64]);
    reveal_with_fuel(gather, 3);
    let f = rounded_value(line(1, 0), 2);
    assert(f(0) == 0 && f(1) == 0 && f(2) == 1);
}

/// Numbers of a moderate size.
pub open spec fn moderate(xs: Seq<i64>, most: int) -> bool {
    forall|i: int| 0 <= i < xs.len() ==> -most <= #[trigger] xs[i] <= most
}

proof fn moderate_sums(xs: Seq<i64>, most: int, q: int)
    requires
        moderate(xs, most),
        0 <= most <= 5_000,
        xs.len() <= 1_000,
    ensures
        -5_000_000 <= gather(ones(xs), itself()) <= 5_000_000,
        gather(ones(xs), one()) == xs.len(),
        forall|r: int| 0 <= #[trigger] gather(ones(xs), bin(q, r)) <= 1_000,
{
    assert forall|i: int| 0 <= i < xs.len() implies -most <= itself()(#[trigger] xs[i] as int)
        <= most by {}
    ones_bound(xs, itself(), most);
    let n = xs.len() as int;
    assert(most * n <= 5_000_000) by (nonlinear_arith)
        requires
            0 <= most <= 5_000,
            0 <= n <= 1_000,
    ;
    ones_count(xs);
    assert forall|r: int| 0 <= #[trigger] gather(ones(xs), bin(q, r)) <= 1_000 by {
        count_positive(xs, q, r);
    }
}

pub proof fn ones_count(xs: Seq<i64>)
    ensures
        gather(ones(xs), one()) == xs.len(),
    decreases xs.len(),
{
    if xs.len() > 0 {
        ones_count(xs.drop_last());
        ones_drop(xs, one());
    }
}

/// A state after one number was taken for another.
proof fn replaced(s: Residue, xs: Seq<i64>, i: int, v: i64)
    requires
        s.q > 0,
        0 <= i < xs.len(),
        s.holds(ones(xs).push((xs[i], -1i64)).push((v, 1i64))),
    ensures
        s.holds(ones(xs.update(i, v))),
{
    let (o, items) = (xs[i], ones(xs).push((xs[i], -1i64)));
    assert forall|f: spec_fn(int) -> int| #[trigger]
        gather(items.push((v, 1i64)), f) == gather(ones(xs.update(i, v)), f) by {
        gather_push(ones(xs), o, -1i64, f);
        gather_push(items, v, 1, f);
        ones_update(xs, i, v, f);
    }
    assert(gather(items.push((v, 1i64)), one()) == gather(ones(xs.update(i, v)), one()));
    assert(gather(items.push((v, 1i64)), itself()) == gather(ones(xs.update(i, v)), itself()));
    assert forall|r: int| 0 <= r < 2 * s.q implies #[trigger] s.hist@[r] == gather(
        ones(xs.update(i, v)),
        bin(s.q as int, r),
    ) by {
        assert(s.hist@[r] == gather(items.push((v, 1i64)), bin(s.q as int, r)));
    }
}

/// A state after the last number was taken out.
proof fn removed(s: Residue, xs: Seq<i64>)
    requires
        s.q > 0,
        xs.len() > 0,
        s.holds(ones(xs).push((xs.last(), -1i64))),
    ensures
        s.holds(ones(xs.drop_last())),
{
    let items = ones(xs).push((xs.last(), -1i64));
    assert forall|f: spec_fn(int) -> int| #[trigger]
        gather(items, f) == gather(ones(xs.drop_last()), f) by {
        gather_push(ones(xs), xs.last(), -1i64, f);
        ones_drop(xs, f);
    }
    assert(gather(items, one()) == gather(ones(xs.drop_last()), one()));
    assert(gather(items, itself()) == gather(ones(xs.drop_last()), itself()));
    assert forall|r: int| 0 <= r < 2 * s.q implies #[trigger] s.hist@[r] == gather(
        ones(xs.drop_last()),
        bin(s.q as int, r),
    ) by {
        assert(s.hist@[r] == gather(items, bin(s.q as int, r)));
    }
}

pub(crate) fn random_numbers(rng: &mut SmallRng, n: usize, most: i64) -> (xs: Vec<i64>)
    requires
        0 < most <= 5_000,
    ensures
        xs@.len() == n,
        moderate(xs@, most as int),
{
    let mut xs: Vec<i64> = Vec::new();
    while xs.len() < n
        invariant
            0 < most <= 5_000,
            xs@.len() <= n,
            moderate(xs@, most as int),
        decreases n - xs@.len(),
    {
        xs.push(between(rng, -most, most));
    }
    xs
}

/// A maintained state against rounding every value, over random updates.
fn check_affine(rng: &mut SmallRng, q: i64) -> (r: bool)
    requires
        0 < q <= 100,
    ensures
        r,
{
    let mut xs = random_numbers(rng, 400, 5_000);
    proof {
        assert forall|n: int| 0 <= n <= xs@.len() implies fits(
            gather(ones(#[trigger] xs@.take(n)), itself()),
        ) by {
            assert(moderate(xs@.take(n), 5_000));
            moderate_sums(xs@.take(n), 5_000, q as int);
        }
    }
    let mut st = Residue::from_values(q, xs.as_slice());
    let mut step: usize = 0;
    while step < 80
        invariant
            0 < q <= 100,
            step <= 80,
            xs@.len() <= 400 + step,
            moderate(xs@, 5_000),
            st.q == q,
            st.wf(),
            st.holds(ones(xs@)),
        decreases 80 - step,
    {
        proof {
            moderate_sums(xs@, 5_000, q as int);
        }
        let p: i64 = between(rng, -20, 21);
        let b: i64 = between(rng, -50, 51);
        proof {
            small_lines(xs@, st.sum as int, st.n as int, p as int, b as int, q as int);
            few_bins_fit(
                st.hist@,
                line(p as int, b as int),
                q as int,
                p * st.sum + st.n * b,
            );
        }
        if st.query(p, b) != naive_sum(xs.as_slice(), p, b, q) {
            return false;
        }
        let ghost before = xs@;
        let kind: usize = step % 3;
        if kind == 0 {
            let x: i64 = between(rng, -5_000, 5_000);
            proof {
                bins_room(st, before, x);
            }
            xs.push(x);
            st.add(x, 1);
            assert(ones(before).push((x, 1i64)) =~= ones(xs@));
        } else if xs.len() > 10 {
            if kind == 1 {
                let i: usize = below(rng, xs.len() as u64) as usize;
                let o: i64 = xs[i];
                let x: i64 = between(rng, -5_000, 5_000);
                xs.set(i, x);
                proof {
                    bins_room(st, before, o);
                }
                st.add(o, -1);
                assert(st.hist@[(x as int) % (2 * st.q)] <= 1_000) by {
                    bins_room_after(st, ones(before), o, x);
                }
                st.add(x, 1);
                proof {
                    replaced(st, before, i as int, x);
                }
            } else {
                let o: i64 = xs[xs.len() - 1];
                let _ = xs.pop();
                proof {
                    bins_room(st, before, o);
                    assert(xs@ =~= before.drop_last());
                }
                st.add(o, -1);
                proof {
                    removed(st, before);
                }
            }
        }
        step = step + 1;
    }
    true
}

proof fn small_lines(xs: Seq<i64>, sum: int, n: int, p: int, b: int, q: int)
    requires
        moderate(xs, 5_000),
        -20 <= p <= 20,
        -50 <= b <= 50,
        0 < q <= 100,
        -5_000_000 <= sum <= 5_000_000,
        0 <= n <= 1_000,
    ensures
        forall|i: int| 0 <= i < xs.len() ==> fits(p * #[trigger] xs[i] + b),
        forall|r: int| 0 <= r < 2 * q ==> fits(#[trigger] line(p, b)(r)),
        -1_000_000_000 <= p * sum + n * b <= 1_000_000_000,
{
    assert forall|i: int| 0 <= i < xs.len() implies fits(p * #[trigger] xs[i] + b) by {
        let x = xs[i] as int;
        assert(-100_000 <= p * x <= 100_000) by (nonlinear_arith)
            requires
                -20 <= p <= 20,
                -5_000 <= x <= 5_000,
        ;
    }
    assert forall|r: int| 0 <= r < 2 * q implies fits(#[trigger] line(p, b)(r)) by {
        assert(-4_000 <= p * r <= 4_000) by (nonlinear_arith)
            requires
                -20 <= p <= 20,
                0 <= r < 200,
        ;
    }
    assert(-100_000_000 <= p * sum <= 100_000_000) by (nonlinear_arith)
        requires
            -20 <= p <= 20,
            -5_000_000 <= sum <= 5_000_000,
    ;
    assert(-50_000 <= n * b <= 50_000) by (nonlinear_arith)
        requires
            -50 <= b <= 50,
            0 <= n <= 1_000,
    ;
}

proof fn bins_room(s: Residue, xs: Seq<i64>, x: i64)
    requires
        s.q > 0,
        s.holds(ones(xs)),
        xs.len() <= 1_000,
        moderate(xs, 5_000),
    ensures
        0 <= s.hist@[(x as int) % (2 * s.q)] <= 1_000,
{
    let r = (x as int) % (2 * s.q);
    assert(0 <= r < 2 * s.q);
    moderate_sums(xs, 5_000, s.q as int);
    assert(s.hist@[r] == gather(ones(xs), bin(s.q as int, r)));
}

proof fn bins_room_after(s: Residue, items: Items, o: i64, x: i64)
    requires
        s.q > 0,
        s.holds(items.push((o, -1i64))),
        forall|r: int| 0 <= #[trigger] gather(items, bin(s.q as int, r)) <= 1_000,
    ensures
        -1 <= s.hist@[(x as int) % (2 * s.q)] <= 1_000,
{
    let r = (x as int) % (2 * s.q);
    assert(0 <= r < 2 * s.q);
    assert(s.hist@[r] == gather(items.push((o, -1i64)), bin(s.q as int, r)));
    gather_push(items, o, -1i64, bin(s.q as int, r));
    assert(0 <= gather(items, bin(s.q as int, r)) <= 1_000);
    assert(bin(s.q as int, r)(o as int) == 0 || bin(s.q as int, r)(o as int) == 1);
}

/// Maintained states give what rounding every value gives.
pub fn correctness() -> (r: Result<(), String>)
    ensures
        r is Ok,
{
    let a: Vec<i64> = vec![0, 2];
    let b: Vec<i64> = vec![1, 1];
    proof {
        count_and_sum_do_not_suffice();
        assert(a@ =~= seq![0i64, 2i64]);
        assert(b@ =~= seq![1i64, 1i64]);
        pair_fits(a@);
        pair_fits(b@);
    }
    let qa: i128 = naive_sum(a.as_slice(), 1, 0, 2);
    let qb: i128 = naive_sum(b.as_slice(), 1, 0, 2);
    if qa == qb {
        return Err(String::from_str("count and sum would collide"));
    }
    let sa = Residue::from_values(2, a.as_slice());
    let sb = Residue::from_values(2, b.as_slice());
    proof {
        small_lines(a@, sa.sum as int, sa.n as int, 1, 0, 2);
        small_lines(b@, sb.sum as int, sb.n as int, 1, 0, 2);
        few_bins_fit(sa.hist@, line(1, 0), 2, 1 * sa.sum + sa.n * 0);
        few_bins_fit(sb.hist@, line(1, 0), 2, 1 * sb.sum + sb.n * 0);
    }
    if sa.query(1, 0) != qa || sb.query(1, 0) != qb {
        return Err(String::from_str("histogram missed [0,2] vs [1,1]"));
    }
    let mut rng = seeded(7);
    let qs: Vec<i64> = vec![2, 3, 4, 5, 10, 100];
    let mut i: usize = 0;
    while i < qs.len()
        invariant
            i <= qs@.len(),
            forall|k: int| 0 <= k < qs@.len() ==> 0 < #[trigger] qs@[k] <= 100,
        decreases qs@.len() - i,
    {
        if !check_affine(&mut rng, qs[i]) {
            return Err(String::from_str("affine mismatch"));
        }
        i = i + 1;
    }
    if !check_poly(&mut rng, 4) || !check_poly(&mut rng, 10) {
        return Err(String::from_str("poly mismatch"));
    }
    Ok(())
}

proof fn pair_fits(xs: Seq<i64>)
    requires
        xs.len() == 2,
        moderate(xs, 5_000),
    ensures
        forall|n: int| 0 <= n <= xs.len() ==> fits(gather(ones(#[trigger] xs.take(n)), itself())),
        forall|i: int| 0 <= i < xs.len() ==> fits(1 * #[trigger] xs[i] + 0),
        -5_000_000 <= gather(ones(xs), itself()) <= 5_000_000,
        gather(ones(xs), one()) == 2,
{
    assert forall|n: int| 0 <= n <= xs.len() implies fits(
        gather(ones(#[trigger] xs.take(n)), itself()),
    ) by {
        moderate_sums(xs.take(n), 5_000, 1);
    }
    moderate_sums(xs, 5_000, 1);
}

} // verus!
