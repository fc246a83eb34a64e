//! Certificates that a ranking's winner cannot change while the query weights and the
//! data stay near what they were.
use vstd::prelude::*;
use vstd::string::StringExecFns;

verus! {

/// The weighted sum of the first `n` coordinates.
pub open spec fn dot(q: Seq<i64>, z: Seq<i64>, n: int) -> int
    decreases n,
{
    if n <= 0 {
        0
    } else {
        dot(q, z, n - 1) + q[n - 1] * z[n - 1]
    }
}

/// How many coordinates two vectors have in common.
pub open spec fn shorter(a: int, b: int) -> int {
    if a <= b {
        a
    } else {
        b
    }
}

pub open spec fn scored(q: Seq<i64>, z: Seq<i64>) -> int {
    dot(q, z, shorter(q.len() as int, z.len() as int))
}

/// Whether the weighted sum can be computed term by term.
pub open spec fn dot_fits(q: Seq<i64>, z: Seq<i64>) -> bool {
    forall|n: int|
        0 <= n <= shorter(q.len() as int, z.len() as int) ==> i128::MIN <= #[trigger] dot(q, z, n)
            <= i128::MAX
}

pub fn score(q: &[i64], z: &[i64]) -> (s: i128)
    requires
        dot_fits(q@, z@),
    ensures
        s == scored(q@, z@),
{
    let n: usize = if q.len() <= z.len() {
        q.len()
    } else {
        z.len()
    };
    let mut s: i128 = 0;
    let mut i: usize = 0;
    while i < n
        invariant
            n == shorter(q@.len() as int, z@.len() as int),
            i <= n,
            dot_fits(q@, z@),
            s == dot(q@, z@, i as int),
        decreases n - i,
    {
        proof {
            let (a, b) = (q@[i as int] as int, z@[i as int] as int);
            assert(-0x4000_0000_0000_0000_0000_0000_0000_0000 <= a * b
                <= 0x4000_0000_0000_0000_0000_0000_0000_0000) by (nonlinear_arith)
                requires
                    -0x8000_0000_0000_0000 <= a < 0x8000_0000_0000_0000,
                    -0x8000_0000_0000_0000 <= b < 0x8000_0000_0000_0000,
            ;
            assert(dot(q@, z@, i + 1) == s + a * b);
        }
        s = s + q[i] as i128 * z[i] as i128;
        i = i + 1;
    }
    s
}

/// Whether a product has the lowest score, and the smallest index among its equals.
pub open spec fn wins(zs: Seq<Vec<i64>>, q: Seq<i64>, w: int) -> bool {
    &&& 0 <= w < zs.len()
    &&& forall|j: int|
        0 <= j < zs.len() ==> scored(q, zs[w]@) < scored(q, (#[trigger] zs[j])@) || (scored(
            q,
            zs[w]@,
        ) == scored(q, zs[j]@) && w <= j)
}

pub fn winner(zs: &[Vec<i64>], q: &[i64]) -> (r: usize)
    requires
        forall|j: int| 0 <= j < zs@.len() ==> dot_fits(q@, (#[trigger] zs@[j])@),
    ensures
        zs@.len() == 0 ==> r == 0,
        zs@.len() > 0 ==> wins(zs@, q@, r as int),
{
    let mut best_i: usize = 0;
    let mut best: i128 = i128::MAX;
    let mut i: usize = 0;
    while i < zs.len()
        invariant
            forall|j: int| 0 <= j < zs@.len() ==> dot_fits(q@, (#[trigger] zs@[j])@),
            i <= zs@.len(),
            i == 0 ==> best_i == 0 && best == i128::MAX,
            i > 0 ==> best_i < i && best == scored(q@, zs@[best_i as int]@),
            forall|j: int|
                0 <= j < i ==> best < scored(q@, (#[trigger] zs@[j])@) || (best == scored(
                    q@,
                    zs@[j]@,
                ) && best_i <= j),
        decreases zs@.len() - i,
    {
        assert(dot_fits(q@, zs@[i as int]@));
        let s: i128 = score(q, zs[i].as_slice());
        proof {
            let n = shorter(q@.len() as int, zs@[i as int]@.len() as int);
            assert(dot(q@, zs@[i as int]@, n) <= i128::MAX);
        }
        if s < best || (s == best && i < best_i) {
            best = s;
            best_i = i;
        }
        i = i + 1;
    }
    best_i
}

/// The largest magnitude of a difference.
pub open spec fn farthest(d: Seq<i64>) -> int
    decreases d.len(),
{
    if d.len() == 0 {
        0
    } else {
        let rest = farthest(d.drop_last());
        let x = if d.last() < 0 {
            -(d.last() as int)
        } else {
            d.last() as int
        };
        if x > rest {
            x
        } else {
            rest
        }
    }
}

pub open spec fn largest(d: Seq<i64>) -> int
    decreases d.len(),
{
    if d.len() == 0 {
        0
    } else if d.len() == 1 {
        d[0] as int
    } else {
        let rest = largest(d.drop_last());
        if d.last() > rest {
            d.last() as int
        } else {
            rest
        }
    }
}

pub open spec fn smallest(d: Seq<i64>) -> int
    decreases d.len(),
{
    if d.len() == 0 {
        0
    } else if d.len() == 1 {
        d[0] as int
    } else {
        let rest = smallest(d.drop_last());
        if d.last() < rest {
            d.last() as int
        } else {
            rest
        }
    }
}

/// A lead of `m` that changes of the weights by `r` in all, and of the data by `eps` in
/// each coordinate, cannot use up.
pub open spec fn ordinary(m: int, d: Seq<i64>, r: int, eps: int, q1: int) -> bool {
    &&& farthest(d) > 0
    &&& m - 2 * eps * q1 > 0
    &&& r * farthest(d) < m - 2 * eps * q1
}

/// The same where the weights keep their sum: only the spread of the differences counts.
pub open spec fn simplex(m: int, d: Seq<i64>, r: int, eps: int, q1: int) -> bool {
    &&& largest(d) - smallest(d) > 0
    &&& (m - 2 * eps * q1) * 2 > 0
    &&& r * (largest(d) - smallest(d)) < (m - 2 * eps * q1) * 2
}

/// Whether a number can be held in the width that certificates are computed in.
pub open spec fn holds_wide(x: int) -> bool {
    i128::MIN <= x <= i128::MAX
}

/// Whether what is left of a lead can be computed.
pub open spec fn cert_fits(m: int, eps: int, q1: int) -> bool {
    holds_wide(2 * eps * q1) && holds_wide(m - 2 * eps * q1)
}

pub fn ordinary_ok(m: i128, d: &[i64], r: i64, eps: i64, q1: i64) -> (ok: bool)
    requires
        cert_fits(m as int, eps as int, q1 as int),
    ensures
        ok == ordinary(m as int, d@, r as int, eps as int, q1 as int),
{
    let mut l: i128 = 0;
    let mut i: usize = 0;
    assert(d@.take(0) =~= Seq::empty());
    while i < d.len()
        invariant
            i <= d@.len(),
            l == farthest(d@.take(i as int)),
            0 <= l <= 0x8000_0000_0000_0000,
        decreases d@.len() - i,
    {
        assert(d@.take(i + 1).drop_last() =~= d@.take(i as int));
        let x: i128 = if d[i] < 0 {
            -(d[i] as i128)
        } else {
            d[i] as i128
        };
        if x > l {
            l = x;
        }
        i = i + 1;
    }
    assert(d@.take(i as int) =~= d@);
    proof {
        cert_product(r as int, l as int);
    }
    let num: i128 = m - 2 * eps as i128 * q1 as i128;
    l > 0 && num > 0 && r as i128 * l < num
}

proof fn cert_product(r: int, l: int)
    requires
        -0x8000_0000_0000_0000 <= r < 0x8000_0000_0000_0000,
        0 <= l < 0x1_0000_0000_0000_0000,
    ensures
        holds_wide(r * l),
{
    assert(-0x8000_0000_0000_0000 * 0x1_0000_0000_0000_0000 <= r * l <= 0x7fff_ffff_ffff_ffff
        * 0x1_0000_0000_0000_0000) by (nonlinear_arith)
        requires
            -0x8000_0000_0000_0000 <= r < 0x8000_0000_0000_0000,
            0 <= l < 0x1_0000_0000_0000_0000,
    ;
}

pub fn simplex_ok(m: i128, d: &[i64], r: i64, eps: i64, q1: i64) -> (ok: bool)
    requires
        cert_fits(m as int, eps as int, q1 as int),
        holds_wide((m - 2 * eps * q1) * 2),
    ensures
        ok == simplex(m as int, d@, r as int, eps as int, q1 as int),
{
    if d.len() == 0 {
        return false;
    }
    let mut mx: i64 = d[0];
    let mut mn: i64 = d[0];
    let mut i: usize = 1;
    assert(d@.take(1).len() == 1);
    while i < d.len()
        invariant
            1 <= i <= d@.len(),
            mx == largest(d@.take(i as int)),
            mn == smallest(d@.take(i as int)),
            mn <= mx,
        decreases d@.len() - i,
    {
        assert(d@.take(i + 1).drop_last() =~= d@.take(i as int));
        if d[i] > mx {
            mx = d[i];
        }
        if d[i] < mn {
            mn = d[i];
        }
        i = i + 1;
    }
    assert(d@.take(i as int) =~= d@);
    proof {
        cert_product(r as int, mx - mn);
    }
    let num: i128 = (m - 2 * eps as i128 * q1 as i128) * 2;
    let den: i128 = mx as i128 - mn as i128;
    den > 0 && num > 0 && r as i128 * den < num
}

/// The sum of all weights.
pub open spec fn mass(q: Seq<i64>, n: int) -> int
    decreases n,
{
    if n <= 0 {
        0
    } else {
        mass(q, n - 1) + q[n - 1]
    }
}

/// By how much two weightings differ in all.
pub open spec fn distance(p: Seq<i64>, q: Seq<i64>, n: int) -> int
    decreases n,
{
    if n <= 0 {
        0
    } else {
        let x = p[n - 1] - q[n - 1];
        distance(p, q, n - 1) + if x < 0 {
            -x
        } else {
            x
        }
    }
}

/// Whether no coordinate of one product is farther than `eps` from another's.
pub open spec fn near(a: Seq<i64>, b: Seq<i64>, eps: int) -> bool {
    &&& a.len() == b.len()
    &&& forall|t: int| 0 <= t < a.len() ==> -eps <= #[trigger] a[t] - b[t] <= eps
}

/// The differences of two products.
pub open spec fn differences(d: Seq<i64>, a: Seq<i64>, b: Seq<i64>) -> bool {
    &&& d.len() == a.len()
    &&& a.len() == b.len()
    &&& forall|t: int| 0 <= t < d.len() ==> #[trigger] d[t] == a[t] - b[t]
}

proof fn dot_differences(q: Seq<i64>, d: Seq<i64>, a: Seq<i64>, b: Seq<i64>, n: int)
    requires
        differences(d, a, b),
        0 <= n <= d.len(),
    ensures
        dot(q, d, n) == dot(q, a, n) - dot(q, b, n),
    decreases n,
{
    if n > 0 {
        dot_differences(q, d, a, b, n - 1);
        let (x, y, z, w) = (q[n - 1] as int, d[n - 1] as int, a[n - 1] as int, b[n - 1] as int);
        assert(d[n - 1] == a[n - 1] - b[n - 1]);
        assert(x * y == x * z - x * w) by (nonlinear_arith)
            requires
                y == z - w,
        ;
    }
}

/// Data that move a little move a score by no more than that times all weights.
proof fn dot_near(q: Seq<i64>, a: Seq<i64>, b: Seq<i64>, eps: int, n: int)
    requires
        near(a, b, eps),
        0 <= eps,
        0 <= n <= a.len(),
        n <= q.len(),
        forall|t: int| 0 <= t < q.len() ==> #[trigger] q[t] >= 0,
    ensures
        -(eps * mass(q, n)) <= dot(q, a, n) - dot(q, b, n) <= eps * mass(q, n),
    decreases n,
{
    if n > 0 {
        dot_near(q, a, b, eps, n - 1);
        let (x, y, z, m) = (q[n - 1] as int, a[n - 1] as int, b[n - 1] as int, mass(q, n - 1));
        assert(-eps <= a[n - 1] - b[n - 1] <= eps);
        assert(q[n - 1] >= 0);
        assert(-(eps * x) <= x * y - x * z <= eps * x) by (nonlinear_arith)
            requires
                x >= 0,
                -eps <= y - z <= eps,
        ;
        assert(eps * (m + x) == eps * m + eps * x) by (nonlinear_arith);
    } else {
        assert(eps * 0 == 0);
    }
}

/// Weights that move a little move a weighted sum by no more than that times the largest
/// magnitude, whatever is first taken off every difference.
proof fn dot_moves(p: Seq<i64>, q: Seq<i64>, d: Seq<i64>, c: int, most: int, n: int)
    requires
        0 <= n <= d.len(),
        n <= p.len(),
        n <= q.len(),
        most >= 0,
        forall|t: int| 0 <= t < d.len() ==> -most <= 2 * #[trigger] d[t] - c <= most,
    ensures
        2 * (dot(q, d, n) - dot(p, d, n)) - c * (mass(q, n) - mass(p, n)) >= -(most * distance(
            q,
            p,
            n,
        )),
        distance(q, p, n) >= 0,
    decreases n,
{
    if n > 0 {
        dot_moves(p, q, d, c, most, n - 1);
        let (x, y, z) = (q[n - 1] as int, p[n - 1] as int, d[n - 1] as int);
        assert(-most <= 2 * d[n - 1] - c <= most);
        let u = x - y;
        let a = if u < 0 {
            -u
        } else {
            u
        };
        let (e, f) = (mass(q, n - 1) - mass(p, n - 1), distance(q, p, n - 1));
        assert(2 * (x * z - y * z) - c * u >= -(most * a)) by (nonlinear_arith)
            requires
                u == x - y,
                -most <= 2 * z - c <= most,
                a == u || a == -u,
                a >= 0,
        {
            assert(2 * (x * z - y * z) - c * u == u * (2 * z - c));
            if u >= 0 {
                assert(u * (2 * z - c) >= u * (-most));
                assert(u * (-most) == -(most * u));
            } else {
                assert((-u) * (2 * z - c) <= (-u) * most);
                assert(u * (2 * z - c) == -((-u) * (2 * z - c)));
                assert((-u) * most == most * (-u));
            }
        }
        assert(c * (e + u) == c * e + c * u) by (nonlinear_arith);
        assert(most * (f + a) == most * f + most * a) by (nonlinear_arith);
    } else {
        assert(c * 0 == 0);
        assert(most * 0 == 0);
    }
}

proof fn farthest_bounds(d: Seq<i64>, t: int)
    requires
        0 <= t < d.len(),
    ensures
        -farthest(d) <= d[t] <= farthest(d),
    decreases d.len(),
{
    if t < d.len() - 1 {
        farthest_bounds(d.drop_last(), t);
        assert(d.drop_last()[t] == d[t]);
    }
}

proof fn spread_bounds(d: Seq<i64>, t: int)
    requires
        0 <= t < d.len(),
    ensures
        smallest(d) <= d[t] <= largest(d),
    decreases d.len(),
{
    if d.len() > 1 {
        if t < d.len() - 1 {
            spread_bounds(d.drop_last(), t);
            assert(d.drop_last()[t] == d[t]);
        }
    }
}

/// What a certificate speaks of: two products with their differences at a query, then
/// both products and the query after they have moved a little.
pub struct Moved {
    pub a: Seq<i64>,
    pub b: Seq<i64>,
    pub d: Seq<i64>,
    pub q0: Seq<i64>,
    pub a2: Seq<i64>,
    pub b2: Seq<i64>,
    pub q: Seq<i64>,
}

impl Moved {
    /// Whether the moves are within the bounds: the data by `eps` in each coordinate, the
    /// weights by `r` in all; weights are not negative and sum to `q1`.
    pub open spec fn within(self, r: int, eps: int, q1: int) -> bool {
        let n = self.d.len() as int;
        &&& differences(self.d, self.a, self.b)
        &&& near(self.a2, self.a, eps)
        &&& near(self.b2, self.b, eps)
        &&& self.q.len() == n
        &&& self.q0.len() == n
        &&& forall|t: int| 0 <= t < n ==> #[trigger] self.q[t] >= 0
        &&& mass(self.q, n) == q1
        &&& distance(self.q, self.q0, n) <= r
        &&& eps >= 0
    }
}

/// A certified lead is not lost: while data and weights stay within the bounds, the
/// product that was behind stays behind.
pub proof fn ordinary_certifies(v: Moved, r: int, eps: int, q1: int)
    requires
        v.within(r, eps, q1),
        ordinary(scored(v.q0, v.d), v.d, r, eps, q1),
    ensures
        scored(v.q, v.b2) < scored(v.q, v.a2),
{
    let n = v.d.len() as int;
    let most = farthest(v.d);
    assert forall|t: int| 0 <= t < v.d.len() implies -(2 * most) <= 2 * #[trigger] v.d[t] - 0 <= 2
        * most by {
        farthest_bounds(v.d, t);
    }
    dot_moves(v.q0, v.q, v.d, 0, 2 * most, n);
    dot_near(v.q, v.a2, v.a, eps, n);
    dot_near(v.q, v.b2, v.b, eps, n);
    dot_differences(v.q, v.d, v.a, v.b, n);
    let (dist, m) = (distance(v.q, v.q0, n), scored(v.q0, v.d));
    let e = mass(v.q, n) - mass(v.q0, n);
    assert(0 * e == 0);
    assert(2 * most * dist <= 2 * (r * most)) by (nonlinear_arith)
        requires
            dist <= r,
            most >= 0,
    ;
    assert(eps * q1 + eps * q1 == 2 * eps * q1) by (nonlinear_arith);
}

/// The same for weights that keep their sum.
pub proof fn simplex_certifies(v: Moved, r: int, eps: int, q1: int)
    requires
        v.within(r, eps, q1),
        mass(v.q0, v.d.len() as int) == q1,
        simplex(scored(v.q0, v.d), v.d, r, eps, q1),
    ensures
        scored(v.q, v.b2) < scored(v.q, v.a2),
{
    let n = v.d.len() as int;
    let (lo, hi) = (smallest(v.d), largest(v.d));
    let c = lo + hi;
    let most = hi - lo;
    assert forall|t: int| 0 <= t < v.d.len() implies -most <= 2 * #[trigger] v.d[t] - c <= most by {
        spread_bounds(v.d, t);
    }
    dot_moves(v.q0, v.q, v.d, c, most, n);
    dot_near(v.q, v.a2, v.a, eps, n);
    dot_near(v.q, v.b2, v.b, eps, n);
    dot_differences(v.q, v.d, v.a, v.b, n);
    let dist = distance(v.q, v.q0, n);
    assert(c * 0 == 0);
    assert(most * dist <= r * most) by (nonlinear_arith)
        requires
            dist <= r,
            most >= 0,
    ;
    assert(eps * q1 + eps * q1 == 2 * eps * q1) by (nonlinear_arith);
}

/// Two coordinates of moderate size can be weighted.
proof fn pair_fits(q: Seq<i64>, z: Seq<i64>)
    requires
        q.len() == 2,
        z.len() == 2,
        forall|t: int| 0 <= t < 2 ==> -1_000 <= #[trigger] q[t] <= 1_000,
        forall|t: int| 0 <= t < 2 ==> -1_000 <= #[trigger] z[t] <= 1_000,
    ensures
        dot_fits(q, z),
        scored(q, z) == q[0] * z[0] + q[1] * z[1],
        -2_000_000 <= scored(q, z) <= 2_000_000,
{
    reveal_with_fuel(dot, 3);
    let (a, b, c, d) = (q[0] as int, z[0] as int, q[1] as int, z[1] as int);
    assert(-1_000_000 <= a * b <= 1_000_000) by (nonlinear_arith)
        requires
            -1_000 <= a <= 1_000,
            -1_000 <= b <= 1_000,
    ;
    assert(-1_000_000 <= c * d <= 1_000_000) by (nonlinear_arith)
        requires
            -1_000 <= c <= 1_000,
            -1_000 <= d <= 1_000,
    ;
    assert forall|n: int|
        0 <= n <= shorter(q.len() as int, z.len() as int) implies i128::MIN <= #[trigger] dot(q, z, n)
        <= i128::MAX by {
        if n == 0 {
        } else if n == 1 {
        } else {
            assert(n == 2);
        }
    }
}

/// A product of two coordinates, each moved by a digit of `n` less two.
fn moved(x: i64, y: i64, n: u32) -> (z: Vec<i64>)
    requires
        0 <= x <= 100,
        0 <= y <= 100,
    ensures
        z@.len() == 2,
        -2 <= z@[0] - x <= 2,
        -2 <= z@[1] - y <= 2,
{
    let e: i64 = (n % 5) as i64 - 2;
    let f: i64 = (n / 5 % 5) as i64 - 2;
    vec![x + e, y + f]
}

/// Three products: the middle one wins, and while a certificate says so, no data and no
/// weights within its bounds make another one win.
pub fn correctness() -> (r: Result<(), String>)
    ensures
        r is Ok,
{
    let a: Vec<i64> = vec![10, 90];
    let b: Vec<i64> = vec![40, 40];
    let c: Vec<i64> = vec![90, 10];
    let q0: Vec<i64> = vec![50, 50];
    let da: Vec<i64> = vec![-30, 50];
    let dc: Vec<i64> = vec![50, -30];
    proof {
        pair_fits(q0@, a@);
        pair_fits(q0@, b@);
        pair_fits(q0@, c@);
        pair_fits(q0@, da@);
        pair_fits(q0@, dc@);
    }
    let zs: Vec<Vec<i64>> = vec![a, b, c];
    let k: usize = winner(zs.as_slice(), q0.as_slice());
    proof {
        assert(scored(q0@, zs@[0]@) == 5_000);
        assert(scored(q0@, zs@[1]@) == 4_000);
        assert(scored(q0@, zs@[2]@) == 5_000);
        assert(scored(q0@, zs@[k as int]@) <= scored(q0@, zs@[1]@));
    }
    if k != 1 {
        return Err(String::from_str("expected middle product to win"));
    }
    let ma: i128 = score(q0.as_slice(), da.as_slice());
    let mc: i128 = score(q0.as_slice(), dc.as_slice());
    let all_ok: bool = simplex_ok(ma, da.as_slice(), 10, 2, 100) && simplex_ok(
        mc,
        dc.as_slice(),
        10,
        2,
        100,
    );
    let mut n: u32 = 0;
    while n < 15_625
        invariant
            n <= 15_625,
            zs@.len() == 3,
            zs@[0]@ == seq![10i64, 90i64],
            zs@[1]@ == seq![40i64, 40i64],
            zs@[2]@ == seq![90i64, 10i64],
            q0@ == seq![50i64, 50i64],
            da@ == seq![-30i64, 50i64],
            dc@ == seq![50i64, -30i64],
            all_ok ==> simplex(scored(q0@, da@), da@, 10, 2, 100) && simplex(
                scored(q0@, dc@),
                dc@,
                10,
                2,
                100,
            ),
        decreases 15_625 - n,
    {
        let cur: Vec<Vec<i64>> = vec![
            moved(10, 90, n),
            moved(40, 40, n / 25),
            moved(90, 10, n / 625),
        ];
        let mut wi: i64 = 45;
        while wi <= 55
            invariant
                45 <= wi <= 56,
                cur@.len() == 3,
                zs@.len() == 3,
                zs@[0]@ == seq![10i64, 90i64],
                zs@[1]@ == seq![40i64, 40i64],
                zs@[2]@ == seq![90i64, 10i64],
                q0@ == seq![50i64, 50i64],
                da@ == seq![-30i64, 50i64],
                dc@ == seq![50i64, -30i64],
                near(cur@[0]@, zs@[0]@, 2),
                near(cur@[1]@, zs@[1]@, 2),
                near(cur@[2]@, zs@[2]@, 2),
                all_ok ==> simplex(scored(q0@, da@), da@, 10, 2, 100) && simplex(
                    scored(q0@, dc@),
                    dc@,
                    10,
                    2,
                    100,
                ),
            decreases 56 - wi,
        {
            let rest: i64 = 100 - wi;
            let q: Vec<i64> = vec![wi, rest];
            proof {
                assert(-2 <= cur@[0]@[0] - zs@[0]@[0] <= 2 && -2 <= cur@[0]@[1] - zs@[0]@[1] <= 2);
                assert(-2 <= cur@[1]@[0] - zs@[1]@[0] <= 2 && -2 <= cur@[1]@[1] - zs@[1]@[1] <= 2);
                assert(-2 <= cur@[2]@[0] - zs@[2]@[0] <= 2 && -2 <= cur@[2]@[1] - zs@[2]@[1] <= 2);
                pair_fits(q@, cur@[0]@);
                pair_fits(q@, cur@[1]@);
                pair_fits(q@, cur@[2]@);
                if all_ok {
                    reveal_with_fuel(mass, 3);
                    reveal_with_fuel(distance, 3);
                    let v = Moved {
                        a: zs@[0]@,
                        b: zs@[1]@,
                        d: da@,
                        q0: q0@,
                        a2: cur@[0]@,
                        b2: cur@[1]@,
                        q: q@,
                    };
                    assert(v.within(10, 2, 100));
                    simplex_certifies(v, 10, 2, 100);
                    let w = Moved {
                        a: zs@[2]@,
                        b: zs@[1]@,
                        d: dc@,
                        q0: q0@,
                        a2: cur@[2]@,
                        b2: cur@[1]@,
                        q: q@,
                    };
                    assert(w.within(10, 2, 100));
                    simplex_certifies(w, 10, 2, 100);
                }
            }
            let act: usize = winner(cur.as_slice(), q.as_slice());
            proof {
                if all_ok {
                    assert(scored(q@, cur@[act as int]@) <= scored(q@, cur@[1]@));
                    assert(scored(q@, cur@[1]@) < scored(q@, cur@[0]@));
                    assert(scored(q@, cur@[1]@) < scored(q@, cur@[2]@));
                    assert(act == 1);
                }
            }
            if all_ok && act != 1 {
                return Err(String::from_str("false certificate on 3-product"));
            }
            wi = wi + 1;
        }
        n = n + 1;
    }
    Ok(())
}

} // verus!
