//! Rounded sums of polynomials, from moments and a histogram of residues.
use rand::rngs::SmallRng;
use vstd::prelude::*;
use vstd::string::StringExecFns;

use crate::random::{below, between};
use crate::residue::{
    added_up, bin, bin_of, bins_fit, bins_grow, congruent, count_positive, empty_bins, euclid_div,
    exact_div, few_bins_fit, fits, gather, gather_push, histogram_gathers, left_over, moderate,
    multiples_combine, odd, one, ones, ones_bound, ones_push, ones_update, over_bins,
    query_fits, random_numbers, residue_apart, round_even, rounded_sum, rounded_value, slots, sorted_in,
    wide, Items,
};

verus! {

pub open spec fn power(x: int, k: nat) -> int
    decreases k,
{
    if k == 0 {
        1
    } else {
        x * power(x, (k - 1) as nat)
    }
}

pub open spec fn powers(k: nat) -> spec_fn(int) -> int {
    |x: int| power(x, k)
}

/// The polynomial of the coefficients from `k` on.
pub open spec fn tail(c: Seq<i64>, x: int, k: int) -> int
    decreases c.len() - k,
{
    if k >= c.len() {
        0
    } else {
        c[k] + x * tail(c, x, k + 1)
    }
}

/// The polynomial with given coefficients, the constant one first.
pub open spec fn poly(c: Seq<i64>) -> spec_fn(int) -> int {
    |x: int| tail(c, x, 0)
}

/// The first `n` terms.
pub open spec fn terms(c: Seq<i64>, x: int, n: int) -> int
    decreases n,
{
    if n <= 0 {
        0
    } else {
        terms(c, x, n - 1) + c[n - 1] * power(x, (n - 1) as nat)
    }
}

proof fn terms_tail(c: Seq<i64>, x: int, k: int)
    requires
        0 <= k <= c.len(),
    ensures
        tail(c, x, 0) == terms(c, x, k) + power(x, k as nat) * tail(c, x, k),
    decreases k,
{
    if k == 0 {
        assert(1 * tail(c, x, 0) == tail(c, x, 0));
    } else {
        terms_tail(c, x, k - 1);
        let (w, a, t) = (power(x, (k - 1) as nat), c[k - 1] as int, tail(c, x, k));
        assert(w * (a + x * t) == a * w + (x * w) * t) by (nonlinear_arith);
    }
}

/// The polynomial is the sum of its terms.
proof fn poly_terms(c: Seq<i64>, x: int)
    ensures
        poly(c)(x) == terms(c, x, c.len() as int),
{
    terms_tail(c, x, c.len() as int);
    let w = power(x, c.len());
    assert(w * 0 == 0);
}

proof fn tail_congruent(c: Seq<i64>, x: int, y: int, m: int, k: int)
    requires
        m > 0,
        (x - y) % m == 0,
        0 <= k,
    ensures
        (tail(c, x, k) - tail(c, y, k)) % m == 0,
    decreases c.len() - k,
{
    if k < c.len() {
        tail_congruent(c, x, y, m, k + 1);
        let (a, b) = (tail(c, x, k + 1), tail(c, y, k + 1));
        multiples_combine(m, a - b, x - y, x, b);
        assert(x * a - y * b == x * (a - b) + b * (x - y)) by (nonlinear_arith);
    } else {
        assert(0int % m == 0) by (nonlinear_arith)
            requires
                m > 0,
        ;
    }
}

proof fn poly_congruent(c: Seq<i64>, q: int)
    requires
        q > 0,
    ensures
        congruent(poly(c), q),
{
    let g = poly(c);
    assert forall|x: int| (#[trigger] g(x) - g(x % (2 * q))) % (2 * q) == 0 by {
        residue_apart(x, 2 * q);
        tail_congruent(c, x, x % (2 * q), 2 * q, 0);
    }
}

/// Coefficients times moments, the first `n` of them.
pub open spec fn dot(c: Seq<i64>, moments: Seq<i128>, n: int) -> int
    decreases n,
{
    if n <= 0 {
        0
    } else {
        dot(c, moments, n - 1) + c[n - 1] * moments[n - 1]
    }
}

pub open spec fn first_terms(c: Seq<i64>, n: int) -> spec_fn(int) -> int {
    |x: int| terms(c, x, n)
}

proof fn gather_terms(items: Items, c: Seq<i64>, moments: Seq<i128>, n: int)
    requires
        0 <= n <= c.len(),
        n <= moments.len(),
        forall|k: int| 0 <= k < n ==> #[trigger] moments[k] == gather(items, powers(k as nat)),
    ensures
        gather(items, first_terms(c, n)) == dot(c, moments, n),
    decreases n,
{
    if n == 0 {
        gather_nothing(items, first_terms(c, 0));
    } else {
        gather_terms(items, c, moments, n - 1);
        assert(moments[n - 1] == gather(items, powers((n - 1) as nat)));
        gather_sum(
            items,
            first_terms(c, n),
            first_terms(c, n - 1),
            powers((n - 1) as nat),
            c[n - 1] as int,
        );
    }
}

proof fn gather_nothing(items: Items, f: spec_fn(int) -> int)
    requires
        forall|x: int| #[trigger] f(x) == 0,
    ensures
        gather(items, f) == 0,
    decreases items.len(),
{
    if items.len() > 0 {
        gather_nothing(items.drop_last(), f);
        assert(f(items.last().0 as int) == 0);
        assert(items.last().1 * 0 == 0);
    }
}

proof fn gather_sum(
    items: Items,
    f: spec_fn(int) -> int,
    g: spec_fn(int) -> int,
    h: spec_fn(int) -> int,
    a: int,
)
    requires
        forall|x: int| #[trigger] f(x) == g(x) + a * h(x),
    ensures
        gather(items, f) == gather(items, g) + a * gather(items, h),
    decreases items.len(),
{
    if items.len() > 0 {
        let init = items.drop_last();
        gather_sum(init, f, g, h, a);
        let (x, m) = (items.last().0 as int, items.last().1 as int);
        let (u, v, s) = (g(x), h(x), gather(init, h));
        assert(f(x) == u + a * v);
        assert(m * (u + a * v) + a * s == m * u + a * (s + m * v)) by (nonlinear_arith);
    } else {
        assert(a * 0 == 0);
    }
}

proof fn gather_same(items: Items, f: spec_fn(int) -> int, g: spec_fn(int) -> int)
    requires
        forall|x: int| #[trigger] f(x) == g(x),
    ensures
        gather(items, f) == gather(items, g),
    decreases items.len(),
{
    if items.len() > 0 {
        gather_same(items.drop_last(), f, g);
        assert(f(items.last().0 as int) == g(items.last().0 as int));
    }
}

/// Whether a number's powers, each counted `m` times, can be computed.
pub open spec fn powers_fit(x: int, m: int, degree: int) -> bool {
    forall|k: nat|
        k <= degree ==> wide(#[trigger] power(x, k)) && wide(m * power(x, k))
}

/// Whether a polynomial can be computed step by step.
pub open spec fn eval_fits(c: Seq<i64>, x: int) -> bool {
    forall|k: int|
        0 <= k <= c.len() ==> fits(#[trigger] tail(c, x, k)) && fits(x * tail(c, x, k))
}

/// Whether the sum over the moments can be computed term by term.
pub open spec fn terms_fit(c: Seq<i64>, moments: Seq<i128>) -> bool {
    &&& forall|n: int| 0 <= n <= c.len() ==> wide(#[trigger] dot(c, moments, n))
    &&& forall|k: int| 0 <= k < c.len() ==> wide(#[trigger] c[k] * moments[k])
}

/// The moments and the histogram of some numbers.
pub struct PolyState {
    pub q: i64,
    pub degree: usize,
    pub hist: Vec<i64>,
    pub moments: Vec<i128>,
}

impl PolyState {
    /// Whether this is the state of the items.
    pub open spec fn holds(&self, items: Items) -> bool {
        &&& sorted_in(self.hist@, self.q as int, items)
        &&& self.moments@.len() == self.degree + 1
        &&& forall|k: int|
            0 <= k <= self.degree ==> #[trigger] self.moments@[k] == gather(
                items,
                powers(k as nat),
            )
    }

    pub open spec fn wf(&self) -> bool {
        &&& slots(self.q as int)
        &&& self.degree < usize::MAX
        &&& exists|items: Items| self.holds(items)
    }

    pub fn new(q: i64, degree: usize) -> (s: Self)
        requires
            slots(q as int),
            degree < usize::MAX,
        ensures
            s.wf(),
            s.q == q,
            s.degree == degree,
            s.holds(Seq::empty()),
    {
        let mut moments: Vec<i128> = Vec::new();
        let mut k: usize = 0;
        while k <= degree
            invariant
                degree < usize::MAX,
                k <= degree + 1,
                moments@.len() == k,
                forall|j: int| 0 <= j < k ==> #[trigger] moments@[j] == 0,
            decreases degree + 1 - k,
        {
            moments.push(0);
            k = k + 1;
        }
        let s = PolyState { q, degree, hist: empty_bins(q), moments };
        assert(s.holds(Seq::empty()));
        s
    }

    /// Counts a number `m` times more.
    pub fn add(&mut self, x: i64, m: i64)
        requires
            old(self).wf(),
            fits(old(self).hist@[(x as int) % (2 * old(self).q)] + m),
            powers_fit(x as int, m as int, old(self).degree as int),
            forall|k: int|
                0 <= k <= old(self).degree ==> wide(
                    #[trigger] old(self).moments@[k] + m * power(x as int, k as nat),
                ),
        ensures
            final(self).wf(),
            final(self).q == old(self).q,
            final(self).degree == old(self).degree,
            forall|items: Items| #[trigger]
                old(self).holds(items) ==> final(self).holds(items.push((x, m))),
    {
        let ghost before = *self;
        let ghost some = choose|items: Items| before.holds(items);
        assert(before.holds(some));
        let r: usize = bin_of(x, self.q);
        let now: i64 = self.hist[r] + m;
        self.hist.set(r, now);
        let mut of_x: i128 = 1;
        let mut k: usize = 0;
        while k <= self.degree
            invariant
                self.degree == before.degree,
                self.degree < usize::MAX,
                self.q == before.q,
                self.hist@ == before.hist@.update(r as int, now),
                k <= self.degree + 1,
                self.moments@.len() == self.degree + 1,
                before.moments@.len() == self.degree + 1,
                k <= self.degree ==> of_x == power(x as int, k as nat),
                powers_fit(x as int, m as int, self.degree as int),
                forall|j: int|
                    0 <= j <= self.degree ==> wide(
                        #[trigger] before.moments@[j] + m * power(x as int, j as nat),
                    ),
                forall|j: int|
                    0 <= j < k ==> #[trigger] self.moments@[j] == before.moments@[j] + m * power(
                        x as int,
                        j as nat,
                    ),
                forall|j: int|
                    k <= j <= self.degree ==> #[trigger] self.moments@[j] == before.moments@[j],
            decreases self.degree + 1 - k,
        {
            assert(wide(power(x as int, k as nat)) && wide(m * power(x as int, k as nat)));
            assert(wide(before.moments@[k as int] + m * power(x as int, k as nat)));
            let sum: i128 = self.moments[k] + m as i128 * of_x;
            self.moments.set(k, sum);
            if k < self.degree {
                proof {
                    assert(wide(power(x as int, (k + 1) as nat)));
                    let (u, v) = (of_x as int, x as int);
                    assert(u * v == v * u) by (nonlinear_arith);
                }
                of_x = of_x * x as i128;
            }
            k = k + 1;
        }
        proof {
            assert forall|items: Items| #[trigger] before.holds(items) implies self.holds(
                items.push((x, m)),
            ) by {
                bins_grow(before.hist@, self.q as int, items, x, m, now);
                assert forall|j: int| 0 <= j <= self.degree implies #[trigger] self.moments@[j]
                    == gather(items.push((x, m)), powers(j as nat)) by {
                    gather_push(items, x, m, powers(j as nat));
                    assert(before.moments@[j] == gather(items, powers(j as nat)));
                }
            }
            assert(self.holds(some.push((x, m))));
        }
    }

    pub fn eval(c: &[i64], x: i64) -> (y: i64)
        requires
            eval_fits(c@, x as int),
        ensures
            y == poly(c@)(x as int),
    {
        let mut y: i64 = 0;
        let mut k: usize = c.len();
        while k > 0
            invariant
                eval_fits(c@, x as int),
                k <= c@.len(),
                y == tail(c@, x as int, k as int),
            decreases k,
        {
            k = k - 1;
            proof {
                assert(fits(tail(c@, x as int, k + 1)) && fits(x * tail(c@, x as int, k + 1)));
                assert(fits(tail(c@, x as int, k as int)));
                let (u, v) = (x as int, y as int);
                assert(u * v == v * u) by (nonlinear_arith);
            }
            y = y * x + c[k];
        }
        y
    }

    /// The sum of all rounded values of the polynomial over `q`.
    pub fn query(&self, c: &[i64]) -> (r: i128)
        requires
            self.wf(),
            c@.len() <= self.degree + 1,
            forall|r: int|
                0 <= r < 2 * self.q && self.hist@[r] != 0 ==> #[trigger] eval_fits(c@, r),
            terms_fit(c@, self.moments@),
            query_fits(
                self.hist@,
                poly(c@),
                self.q as int,
                dot(c@, self.moments@, c@.len() as int),
            ),
        ensures
            forall|items: Items| #[trigger]
                self.holds(items) ==> r == gather(items, rounded_value(poly(c@), self.q as int)),
    {
        let q: i64 = self.q;
        let ghost g = poly(c@);
        let mut numerator: i128 = 0;
        let mut k: usize = 0;
        while k < c.len()
            invariant
                k <= c@.len(),
                c@.len() <= self.moments@.len(),
                terms_fit(c@, self.moments@),
                numerator == dot(c@, self.moments@, k as int),
            decreases c@.len() - k,
        {
            assert(wide(dot(c@, self.moments@, k + 1)));
            assert(wide(c@[k as int] * self.moments@[k as int]));
            numerator = numerator + c[k] as i128 * self.moments[k];
            k = k + 1;
        }
        let mut residual: i128 = 0;
        let mut up: i128 = 0;
        let mut r: i64 = 0;
        while r < 2 * q
            invariant
                q == self.q,
                slots(q as int),
                self.hist@.len() == 2 * q,
                g == poly(c@),
                forall|r: int|
                    0 <= r < 2 * q && self.hist@[r] != 0 ==> #[trigger] eval_fits(c@, r),
                bins_fit(self.hist@, g, q as int),
                0 <= r <= 2 * q,
                residual == over_bins(self.hist@, left_over(g, q as int), r as int),
                up == over_bins(self.hist@, added_up(g, q as int), r as int),
            decreases 2 * q - r,
        {
            let n: i64 = self.hist[r as usize];
            proof {
                assert(self.hist@[r as int] != 0 ==> eval_fits(c@, r as int));
                assert(wide(over_bins(self.hist@, left_over(g, q as int), r + 1)));
                assert(wide(over_bins(self.hist@, added_up(g, q as int), r + 1)));
                assert(0 * left_over(g, q as int)(r as int) == 0);
                assert(0 * added_up(g, q as int)(r as int) == 0);
            }
            if n != 0 {
                let y: i64 = Self::eval(c, r);
                let (a, b): (i64, i64) = euclid_div(y, q);
                let one: i64 = if 2 * b > q || (2 * b == q && odd(a)) {
                    1
                } else {
                    0
                };
                proof {
                    let (w, l) = (n as int, b as int);
                    assert(wide(w * l)) by (nonlinear_arith)
                        requires
                            -0x8000_0000_0000_0000 <= w < 0x8000_0000_0000_0000,
                            0 <= l < 0x8000_0000_0000_0000,
                    ;
                    assert(one == added_up(g, q as int)(r as int));
                    assert(w * 1 == w && w * 0 == 0);
                }
                residual = residual + n as i128 * b as i128;
                up = up + n as i128 * one as i128;
            }
            r = r + 1;
        }
        let left: i128 = numerator - residual;
        let ghost items = choose|items: Items| self.holds(items);
        proof {
            poly_exact(*self, items, c@);
        }
        let ghost whole = gather(items, rounded_value(g, q as int)) - up;
        let v: i128 = exact_div(left, q, Ghost(whole));
        proof {
            let (m, n) = (q as int, left as int);
            assert(n / m == whole) by {
                assert(n == whole * m) by (nonlinear_arith)
                    requires
                        n == m * whole,
                ;
                vstd::arithmetic::div_mod::lemma_fundamental_div_mod_converse(n, m, whole, 0);
            }
            assert forall|other: Items| #[trigger] self.holds(other) implies v + up == gather(
                other,
                rounded_value(g, q as int),
            ) by {
                poly_exact(*self, other, c@);
                let (d, e) = (
                    gather(other, rounded_value(g, q as int)) - up,
                    gather(items, rounded_value(g, q as int)) - up,
                );
                assert(d == e) by (nonlinear_arith)
                    requires
                        m * d == m * e,
                        m > 0,
                ;
            }
        }
        v + up
    }
}

/// The rounded sum is what the state gives.
proof fn poly_exact(s: PolyState, items: Items, c: Seq<i64>)
    requires
        s.q > 0,
        s.holds(items),
        c.len() <= s.degree + 1,
    ensures
        ({
            let (g, q) = (poly(c), s.q as int);
            q * (gather(items, rounded_value(g, q)) - over_bins(s.hist@, added_up(g, q), 2 * q))
                == dot(c, s.moments@, c.len() as int) - over_bins(
                s.hist@,
                left_over(g, q),
                2 * q,
            )
        }),
{
    let (g, q) = (poly(c), s.q as int);
    poly_congruent(c, q);
    rounded_sum(items, g, q);
    gather_terms(items, c, s.moments@, c.len() as int);
    assert forall|x: int| #[trigger] g(x) == first_terms(c, c.len() as int)(x) by {
        poly_terms(c, x);
    }
    gather_same(items, g, first_terms(c, c.len() as int));
    histogram_gathers(s.hist@, items, q, left_over(g, q));
    histogram_gathers(s.hist@, items, q, added_up(g, q));
    let (t, i) = (gather(items, rounded_value(g, q)), over_bins(s.hist@, added_up(g, q), 2 * q));
    assert(q * (t - i) == q * t - q * i) by (nonlinear_arith);
}

/// Rounds every value by itself.
pub fn naive_poly(xs: &[i64], c: &[i64], q: i64) -> (r: i128)
    requires
        0 < q <= 0x4000_0000_0000_0000,
        forall|i: int| 0 <= i < xs@.len() ==> eval_fits(c@, #[trigger] xs@[i] as int),
    ensures
        r == gather(ones(xs@), rounded_value(poly(c@), q as int)),
{
    let ghost f = rounded_value(poly(c@), q as int);
    let size: usize = xs.len();
    let mut r: i128 = 0;
    let mut i: usize = 0;
    assert(ones(xs@.take(0)) =~= Seq::empty());
    while i < size
        invariant
            size == xs@.len(),
            0 < q <= 0x4000_0000_0000_0000,
            forall|i: int| 0 <= i < xs@.len() ==> eval_fits(c@, #[trigger] xs@[i] as int),
            f == rounded_value(poly(c@), q as int),
            i <= size,
            r == gather(ones(xs@.take(i as int)), f),
            -0x8000_0000_0000_0000 * i <= r <= 0x8000_0000_0000_0000 * i,
        decreases size - i,
    {
        let x: i64 = xs[i];
        proof {
            assert(eval_fits(c@, xs@[i as int] as int));
            assert(xs@.take(i + 1) =~= xs@.take(i as int).push(x));
            ones_push(xs@.take(i as int), x, f);
        }
        let one: i64 = round_even(PolyState::eval(c, x), q);
        r = r + one as i128;
        i = i + 1;
    }
    assert(xs@.take(i as int) =~= xs@);
    r
}

/// A state after one number was taken for another.
proof fn poly_replaced(s: PolyState, xs: Seq<i64>, i: int, v: i64)
    requires
        s.q > 0,
        0 <= i < xs.len(),
        s.holds(ones(xs).push((xs[i], -1i64)).push((v, 1i64))),
    ensures
        s.holds(ones(xs.update(i, v))),
{
    let (o, items) = (xs[i], ones(xs).push((xs[i], -1i64)));
    assert forall|f: spec_fn(int) -> int| #[trigger]
        gather(items.push((v, 1i64)), f) == gather(ones(xs.update(i, v)), f) by {
        gather_push(ones(xs), o, -1i64, f);
        gather_push(items, v, 1, f);
        ones_update(xs, i, v, f);
    }
    assert forall|r: int| 0 <= r < 2 * s.q implies #[trigger] s.hist@[r] == gather(
        ones(xs.update(i, v)),
        bin(s.q as int, r),
    ) by {
        assert(s.hist@[r] == gather(items.push((v, 1i64)), bin(s.q as int, r)));
    }
    assert forall|k: int| 0 <= k <= s.degree implies #[trigger] s.moments@[k] == gather(
        ones(xs.update(i, v)),
        powers(k as nat),
    ) by {
        assert(s.moments@[k] == gather(items.push((v, 1i64)), powers(k as nat)));
    }
}

proof fn small_powers(x: int)
    requires
        -40 <= x <= 40,
    ensures
        power(x, 0) == 1,
        power(x, 1) == x,
        0 <= power(x, 2) <= 1_600,
        power(x, 2) == x * x,
        forall|k: nat| k <= 2 ==> -1_600 <= #[trigger] power(x, k) <= 1_600,
        powers_fit(x, 1, 2),
        powers_fit(x, -1, 2),
{
    reveal_with_fuel(power, 3);
    assert(x * 1 == x);
    assert(0 <= x * x <= 1_600) by (nonlinear_arith)
        requires
            -40 <= x <= 40,
    ;
    assert forall|k: nat| k <= 2 implies -1_600 <= #[trigger] power(x, k) <= 1_600 by {
        if k == 0 {
        } else if k == 1 {
        } else {
            assert(k == 2);
        }
    }
    assert forall|m: int| -1 <= m <= 1 && m != 0 implies #[trigger] powers_fit(x, m, 2) by {
        assert forall|k: nat| k <= 2 implies wide(#[trigger] power(x, k)) && wide(
            m * power(x, k),
        ) by {
            let p = power(x, k);
            assert(-1_600 <= p <= 1_600);
            assert(1 * p == p && -1 * p == -p);
        }
    }
}

/// The moments of a few small numbers are small.
proof fn small_moments(s: PolyState, xs: Seq<i64>)
    requires
        s.holds(ones(xs)),
        s.degree == 2,
        xs.len() <= 1_000,
        moderate(xs, 40),
    ensures
        forall|k: int| 0 <= k <= 2 ==> -1_600_000 <= #[trigger] s.moments@[k] <= 1_600_000,
{
    assert forall|k: int| 0 <= k <= 2 implies -1_600_000 <= #[trigger] s.moments@[k] <= 1_600_000 by {
        let f = powers(k as nat);
        assert forall|i: int| 0 <= i < xs.len() implies -1_600 <= f(#[trigger] xs[i] as int)
            <= 1_600 by {
            small_powers(xs[i] as int);
        }
        ones_bound(xs, f, 1_600);
        assert(s.moments@[k] == gather(ones(xs), f));
    }
}

/// A polynomial with small coefficients can be computed for small numbers.
proof fn small_eval(c: Seq<i64>, x: int)
    requires
        c.len() == 3,
        forall|k: int| 0 <= k < 3 ==> -3 <= #[trigger] c[k] <= 3,
        -40 <= x <= 40,
    ensures
        eval_fits(c, x),
{
    reveal_with_fuel(tail, 4);
    let (t, u) = (tail(c, x, 2), tail(c, x, 1));
    assert(x * 0 == 0);
    assert(tail(c, x, 3) == 0);
    assert(t == c[2] + x * tail(c, x, 3));
    assert(-3 <= t <= 3);
    assert(-120 <= x * t <= 120) by (nonlinear_arith)
        requires
            -40 <= x <= 40,
            -3 <= t <= 3,
    ;
    assert(u == c[1] + x * t);
    assert(-4_920 <= x * u <= 4_920) by (nonlinear_arith)
        requires
            -40 <= x <= 40,
            -123 <= u <= 123,
    ;
    let v = tail(c, x, 0);
    assert(v == c[0] + x * u);
    assert(-200_000 <= x * v <= 200_000) by (nonlinear_arith)
        requires
            -40 <= x <= 40,
            -4_923 <= v <= 4_923,
    ;
    assert forall|k: int| 0 <= k <= c.len() implies fits(#[trigger] tail(c, x, k)) && fits(
        x * tail(c, x, k),
    ) by {
        if k == 0 {
        } else if k == 1 {
        } else if k == 2 {
        } else {
            assert(k == 3);
        }
    }
}

proof fn small_dot(c: Seq<i64>, moments: Seq<i128>)
    requires
        c.len() == 3,
        moments.len() == 3,
        forall|k: int| 0 <= k < 3 ==> -3 <= #[trigger] c[k] <= 3,
        forall|k: int| 0 <= k <= 2 ==> -1_600_000 <= #[trigger] moments[k] <= 1_600_000,
    ensures
        forall|n: int| 0 <= n <= 3 ==> -100_000_000 <= #[trigger] dot(c, moments, n) <= 100_000_000,
        terms_fit(c, moments),
{
    reveal_with_fuel(dot, 4);
    assert forall|k: int| 0 <= k < 3 implies -4_800_000 <= #[trigger] c[k] * moments[k]
        <= 4_800_000 by {
        let (a, b) = (c[k] as int, moments[k] as int);
        assert(-4_800_000 <= a * b <= 4_800_000) by (nonlinear_arith)
            requires
                -3 <= a <= 3,
                -1_600_000 <= b <= 1_600_000,
        ;
    }
    assert forall|n: int| 0 <= n <= 3 implies -100_000_000 <= #[trigger] dot(c, moments, n)
        <= 100_000_000 by {
        let (a, b, d) = (c[0] * moments[0], c[1] * moments[1], c[2] * moments[2]);
        assert(dot(c, moments, 1) == a);
        assert(dot(c, moments, 2) == a + b);
        assert(dot(c, moments, 3) == a + b + d);
        if n == 0 {
        } else if n == 1 {
        } else if n == 2 {
        } else {
            assert(n == 3);
        }
    }
}

/// Whether there is room for one more, or one fewer, of a number.
proof fn room(s: PolyState, items: Items, xs: Seq<i64>, x: i64, m: i64)
    requires
        s.wf(),
        s.q <= 20,
        s.degree == 2,
        s.holds(items),
        xs.len() <= 1_000,
        moderate(xs, 40),
        -40 <= x <= 40,
        m == 1 || m == -1,
        items == ones(xs) || exists|o: i64|
            -40 <= o <= 40 && items == #[trigger] ones(xs).push((o, -1i64)),
    ensures
        fits(s.hist@[(x as int) % (2 * s.q)] + m),
        powers_fit(x as int, m as int, 2),
        forall|k: int|
            0 <= k <= 2 ==> wide(#[trigger] s.moments@[k] + m * power(x as int, k as nat)),
{
    let r = (x as int) % (2 * s.q);
    assert(0 <= r < 2 * s.q);
    small_powers(x as int);
    assert(s.hist@[r] == gather(items, bin(s.q as int, r)));
    count_positive(xs, s.q as int, r);
    let o = choose|o: i64| -40 <= o <= 40 && items == #[trigger] ones(xs).push((o, -1i64));
    if items != ones(xs) {
        gather_push(ones(xs), o, -1i64, bin(s.q as int, r));
        assert(bin(s.q as int, r)(o as int) == 0 || bin(s.q as int, r)(o as int) == 1);
    }
    assert forall|k: int| 0 <= k <= 2 implies wide(
        #[trigger] s.moments@[k] + m * power(x as int, k as nat),
    ) by {
        let f = powers(k as nat);
        assert forall|i: int| 0 <= i < xs.len() implies -1_600 <= f(#[trigger] xs[i] as int)
            <= 1_600 by {
            small_powers(xs[i] as int);
        }
        ones_bound(xs, f, 1_600);
        assert(s.moments@[k] == gather(items, f));
        if items != ones(xs) {
            gather_push(ones(xs), o, -1i64, f);
            small_powers(o as int);
            assert(-1 * f(o as int) == -f(o as int));
        }
        let p = power(x as int, k as nat);
        assert(-1_600 <= p <= 1_600);
        assert(1 * p == p && -1 * p == -p);
    }
}

/// A maintained state against rounding every value, over random replacements.
pub(crate) fn check_poly(rng: &mut SmallRng, q: i64) -> (r: bool)
    requires
        0 < q <= 20,
    ensures
        r,
{
    let mut xs = random_numbers(rng, 120, 40);
    let mut st = PolyState::new(q, 2);
    let mut i: usize = 0;
    assert(ones(xs@.take(0)) =~= Seq::empty());
    while i < xs.len()
        invariant
            0 < q <= 20,
            i <= xs@.len(),
            xs@.len() == 120,
            moderate(xs@, 40),
            st.wf(),
            st.q == q,
            st.degree == 2,
            st.holds(ones(xs@.take(i as int))),
        decreases xs@.len() - i,
    {
        let x: i64 = xs[i];
        proof {
            room(st, ones(xs@.take(i as int)), xs@.take(i as int), x, 1);
            assert(ones(xs@.take(i + 1)) =~= ones(xs@.take(i as int)).push((x, 1i64)));
        }
        st.add(x, 1);
        i = i + 1;
    }
    assert(xs@.take(i as int) =~= xs@);
    let mut step: usize = 0;
    while step < 40
        invariant
            0 < q <= 20,
            step <= 40,
            xs@.len() == 120,
            moderate(xs@, 40),
            st.wf(),
            st.q == q,
            st.degree == 2,
            st.holds(ones(xs@)),
        decreases 40 - step,
    {
        let c: Vec<i64> = vec![between(rng, -3, 4), between(rng, -3, 4), between(rng, -2, 3)];
        proof {
            small_moments(st, xs@);
            small_dot(c@, st.moments@);
            assert forall|r: int| 0 <= r < 2 * q implies #[trigger] eval_fits(c@, r) by {
                small_eval(c@, r);
            }
            assert forall|r: int| 0 <= r < 2 * q implies fits(#[trigger] poly(c@)(r)) by {
                assert(eval_fits(c@, r));
                assert(fits(tail(c@, r, 0)));
            }
            few_bins_fit(st.hist@, poly(c@), q as int, dot(c@, st.moments@, 3));
            assert forall|i: int| 0 <= i < xs@.len() implies eval_fits(
                c@,
                #[trigger] xs@[i] as int,
            ) by {
                small_eval(c@, xs@[i] as int);
            }
        }
        if st.query(c.as_slice()) != naive_poly(xs.as_slice(), c.as_slice(), q) {
            return false;
        }
        let ghost before = xs@;
        let at: usize = below(rng, xs.len() as u64) as usize;
        let o: i64 = xs[at];
        let x: i64 = between(rng, -40, 41);
        xs.set(at, x);
        proof {
            room(st, ones(before), before, o, -1i64);
        }
        st.add(o, -1);
        proof {
            assert(st.holds(ones(before).push((o, -1i64))));
            room(st, ones(before).push((o, -1i64)), before, x, 1);
        }
        st.add(x, 1);
        proof {
            poly_replaced(st, before, at as int, x);
        }
        step = step + 1;
    }
    true
}

} // verus!
