//! Factorized join-aggregates against the expansion into pairs.
//!
//! The sum over all pairs of `a * b` is the sum of the `a` times the sum of the
//! `b`, so that no pair has to be made; a change of one number changes the
//! result by that number times the other sum.
use rand::rngs::SmallRng;
use vstd::prelude::*;
use vstd::string::StringExecFns;

use crate::numbers::{
    abs, magnitude, magnitude_part, sum, sum_bound, sum_push, sum_step, sum_update, total,
};
use crate::random::{between, seeded};

verus! {

/// Two relations that share a join key.
pub struct Group {
    pub a: Vec<i64>,
    pub b: Vec<i64>,
}

/// The sum of `x * b` over all `b`.
pub open spec fn scaled_sum(x: int, b: Seq<i64>) -> int
    decreases b.len(),
{
    if b.len() == 0 {
        0
    } else {
        scaled_sum(x, b.drop_last()) + x * b.last()
    }
}

/// The sum of `a * b` over all pairs.
pub open spec fn pair_sum(a: Seq<i64>, b: Seq<i64>) -> int
    decreases a.len(),
{
    if a.len() == 0 {
        0
    } else {
        pair_sum(a.drop_last(), b) + scaled_sum(a.last() as int, b)
    }
}

/// The sum over the pairs up to one of them, row by row.
pub open spec fn pairs_upto(a: Seq<i64>, b: Seq<i64>, i: int, j: int) -> int {
    pair_sum(a.take(i), b) + scaled_sum(a[i] as int, b.take(j))
}

/// Whether every running sum over the pairs can be held.
pub open spec fn fits(a: Seq<i64>, b: Seq<i64>) -> bool {
    forall|i: int, j: int|
        0 <= i < a.len() && 0 <= j <= b.len() ==> i128::MIN <= #[trigger] pairs_upto(a, b, i, j)
            <= i128::MAX
}

pub proof fn scaled_sum_is(x: int, b: Seq<i64>)
    ensures
        scaled_sum(x, b) == x * sum(b),
    decreases b.len(),
{
    if b.len() == 0 {
        assert(x * 0 == 0) by (nonlinear_arith);
    } else {
        scaled_sum_is(x, b.drop_last());
        let s = sum(b.drop_last());
        let l = b.last() as int;
        assert(x * (s + l) == x * s + x * l) by (nonlinear_arith);
    }
}

/// The sum over all pairs is the product of the sums.
pub proof fn pairs_factorize(a: Seq<i64>, b: Seq<i64>)
    ensures
        pair_sum(a, b) == sum(a) * sum(b),
    decreases a.len(),
{
    if a.len() == 0 {
        assert(0 * sum(b) == 0) by (nonlinear_arith);
    } else {
        pairs_factorize(a.drop_last(), b);
        scaled_sum_is(a.last() as int, b);
        let s = sum(a.drop_last());
        let l = a.last() as int;
        let t = sum(b);
        assert((s + l) * t == s * t + l * t) by (nonlinear_arith);
    }
}

/// A product of bounded factors is bounded.
proof fn product_bound(x: int, y: int, p: int, q: int)
    requires
        abs(x) <= p,
        abs(y) <= q,
    ensures
        abs(x * y) <= p * q,
{
    assert(abs(x * y) == abs(x) * abs(y)) by (nonlinear_arith);
    assert(abs(x) * abs(y) <= p * q) by (nonlinear_arith)
        requires
            0 <= abs(x) <= p,
            0 <= abs(y) <= q,
    ;
}

/// Makes every pair.
pub fn naive_pair_sum(g: &Group) -> (r: i128)
    requires
        fits(g.a@, g.b@),
    ensures
        r == pair_sum(g.a@, g.b@),
{
    let ghost a = g.a@;
    let ghost b = g.b@;
    let mut s: i128 = 0;
    let mut i: usize = 0;
    assert(a.take(0) =~= Seq::empty());
    while i < g.a.len()
        invariant
            a == g.a@,
            b == g.b@,
            fits(a, b),
            i <= a.len(),
            s == pair_sum(a.take(i as int), b),
        decreases a.len() - i,
    {
        let x: i64 = g.a[i];
        let mut j: usize = 0;
        assert(b.take(0) =~= Seq::empty());
        while j < g.b.len()
            invariant
                a == g.a@,
                b == g.b@,
                fits(a, b),
                i < a.len(),
                x == a[i as int],
                j <= b.len(),
                s == pair_sum(a.take(i as int), b) + scaled_sum(x as int, b.take(j as int)),
            decreases b.len() - j,
        {
            proof {
                assert(b.take(j + 1).drop_last() =~= b.take(j as int));
                assert(i128::MIN <= pairs_upto(a, b, i as int, j + 1) <= i128::MAX);
                product_bound(
                    x as int,
                    b[j as int] as int,
                    0x8000_0000_0000_0000,
                    0x8000_0000_0000_0000,
                );
            }
            s = s + x as i128 * g.b[j] as i128;
            j = j + 1;
        }
        proof {
            assert(b.take(j as int) =~= b);
            assert(a.take(i + 1).drop_last() =~= a.take(i as int));
        }
        i = i + 1;
    }
    assert(a.take(i as int) =~= a);
    s
}

/// No running sum over pairs is more than the magnitudes give.
proof fn partial_fits(a: Seq<i64>, b: Seq<i64>, i: int, j: int)
    requires
        magnitude(a) * magnitude(b) <= i128::MAX,
        0 <= i < a.len(),
        0 <= j <= b.len(),
    ensures
        abs(pairs_upto(a, b, i, j)) <= i128::MAX,
{
    pairs_factorize(a.take(i), b);
    scaled_sum_is(a[i] as int, b.take(j));
    sum_bound(a.take(i));
    sum_bound(b);
    sum_bound(b.take(j));
    magnitude_part(b, j);
    magnitude_part(a, i + 1);
    sum_step(a, i);
    product_bound(sum(a.take(i)), sum(b), magnitude(a.take(i)), magnitude(b));
    product_bound(a[i] as int, sum(b.take(j)), abs(a[i] as int), magnitude(b));
    let p = magnitude(a.take(i));
    let q = abs(a[i] as int);
    let m = magnitude(b);
    let w = magnitude(a);
    assert(p * m + q * m == (p + q) * m) by (nonlinear_arith);
    assert((p + q) * m <= w * m) by (nonlinear_arith)
        requires
            p + q <= w,
            m >= 0,
    ;
}

/// Never makes a pair.
pub fn factorized_sum(g: &Group) -> (r: i128)
    requires
        i128::MIN <= sum(g.a@) * sum(g.b@) <= i128::MAX,
    ensures
        r == pair_sum(g.a@, g.b@),
{
    proof {
        pairs_factorize(g.a@, g.b@);
    }
    let sa: i128 = total(&g.a);
    let sb: i128 = total(&g.b);
    sa * sb
}

/// After the join key matches, the product over pairs remains.
pub fn hashjoin_style_sum(g: &Group) -> (r: i128)
    requires
        fits(g.a@, g.b@),
    ensures
        r == pair_sum(g.a@, g.b@),
{
    naive_pair_sum(g)
}

/// The two sums, maintained under changes of the group.
pub struct Maintained {
    pub sum_a: i128,
    pub sum_b: i128,
}

impl Maintained {
    /// Whether these are the sums of a group.
    pub open spec fn of(self, a: Seq<i64>, b: Seq<i64>) -> bool {
        self.sum_a == sum(a) && self.sum_b == sum(b)
    }

    pub fn from_group(g: &Group) -> (m: Maintained)
        ensures
            m.of(g.a@, g.b@),
    {
        Maintained { sum_a: total(&g.a), sum_b: total(&g.b) }
    }

    pub fn result(&self) -> (r: i128)
        requires
            i128::MIN <= self.sum_a * self.sum_b <= i128::MAX,
        ensures
            r == self.sum_a * self.sum_b,
            forall|a: Seq<i64>, b: Seq<i64>| #[trigger] self.of(a, b) ==> r == pair_sum(a, b),
    {
        proof {
            assert forall|a: Seq<i64>, b: Seq<i64>| #[trigger] self.of(a, b) implies self.sum_a
                * self.sum_b == pair_sum(a, b) by {
                pairs_factorize(a, b);
            }
        }
        self.sum_a * self.sum_b
    }

    pub fn insert_a(&mut self, x: i64)
        requires
            i128::MIN <= old(self).sum_a + x <= i128::MAX,
        ensures
            final(self).sum_a == old(self).sum_a + x,
            final(self).sum_b == old(self).sum_b,
            forall|a: Seq<i64>, b: Seq<i64>| #[trigger]
                old(self).of(a, b) ==> final(self).of(a.push(x), b),
    {
        proof {
            assert forall|a: Seq<i64>| #[trigger] sum(a.push(x)) == sum(a) + x by {
                sum_push(a, x);
            }
        }
        self.sum_a = self.sum_a + x as i128;
    }

    pub fn delete_a(&mut self, x: i64)
        requires
            i128::MIN <= old(self).sum_a - x <= i128::MAX,
        ensures
            final(self).sum_a == old(self).sum_a - x,
            final(self).sum_b == old(self).sum_b,
            forall|a: Seq<i64>, b: Seq<i64>| #[trigger]
                old(self).of(a, b) && a.len() > 0 && a.last() == x ==> final(self).of(
                    a.drop_last(),
                    b,
                ),
    {
        self.sum_a = self.sum_a - x as i128;
    }

    pub fn insert_b(&mut self, x: i64)
        requires
            i128::MIN <= old(self).sum_b + x <= i128::MAX,
        ensures
            final(self).sum_b == old(self).sum_b + x,
            final(self).sum_a == old(self).sum_a,
            forall|a: Seq<i64>, b: Seq<i64>| #[trigger]
                old(self).of(a, b) ==> final(self).of(a, b.push(x)),
    {
        proof {
            assert forall|b: Seq<i64>| #[trigger] sum(b.push(x)) == sum(b) + x by {
                sum_push(b, x);
            }
        }
        self.sum_b = self.sum_b + x as i128;
    }

    pub fn update_a(&mut self, old_value: i64, new_value: i64)
        requires
            i128::MIN <= old(self).sum_a + new_value - old_value <= i128::MAX,
        ensures
            final(self).sum_a == old(self).sum_a + new_value - old_value,
            final(self).sum_b == old(self).sum_b,
            forall|a: Seq<i64>, b: Seq<i64>, i: int|
                #![trigger old(self).of(a, b), a[i]]
                old(self).of(a, b) && 0 <= i < a.len() && a[i] == old_value ==> final(self).of(
                    a.update(i, new_value),
                    b,
                ),
    {
        proof {
            assert forall|a: Seq<i64>, i: int| 0 <= i < a.len() implies sum(
                #[trigger] a.update(i, new_value),
            ) == sum(a) - a[i] + new_value by {
                sum_update(a, i, new_value);
            }
        }
        self.sum_a = self.sum_a + (new_value as i128 - old_value as i128);
    }
}

/// Inserting a number changes the result by that number times the other sum.
pub proof fn insertion_delta(a: Seq<i64>, b: Seq<i64>, x: i64)
    ensures
        pair_sum(a.push(x), b) == pair_sum(a, b) + x * sum(b),
{
    pairs_factorize(a, b);
    pairs_factorize(a.push(x), b);
    sum_push(a, x);
    let s = sum(a);
    let t = sum(b);
    assert((s + x) * t == s * t + x * t) by (nonlinear_arith);
}

/// The sum over `b` of `x * b * (i xor j)`.
pub open spec fn twisted_row(x: int, i: int, b: Seq<i64>) -> int
    decreases b.len(),
{
    if b.len() == 0 {
        0
    } else {
        let j = b.len() - 1;
        twisted_row(x, i, b.drop_last()) + x * b.last() * ((i as u64) ^ (j as u64))
    }
}

/// The sum over all pairs of `a * b * (i xor j)`, which no product of sums gives.
pub open spec fn twisted_sum(a: Seq<i64>, b: Seq<i64>) -> int
    decreases a.len(),
{
    if a.len() == 0 {
        0
    } else {
        twisted_sum(a.drop_last(), b) + twisted_row(a.last() as int, a.len() - 1, b)
    }
}

/// One term of a twisted sum.
pub open spec fn twisted_term(a: Seq<i64>, b: Seq<i64>, i: int, j: int) -> int {
    a[i] * b[j] * ((i as u64) ^ (j as u64))
}

/// The twisted sum up to a pair, row by row.
pub open spec fn twisted_upto(a: Seq<i64>, b: Seq<i64>, i: int, j: int) -> int {
    twisted_sum(a.take(i), b) + twisted_row(a[i] as int, i, b.take(j))
}

/// Whether every term and every running sum of a twisted sum can be held.
pub open spec fn twisted_fits(a: Seq<i64>, b: Seq<i64>) -> bool {
    &&& forall|i: int, j: int|
        0 <= i < a.len() && 0 <= j < b.len() ==> i128::MIN <= #[trigger] twisted_term(a, b, i, j)
            <= i128::MAX
    &&& forall|i: int, j: int|
        0 <= i < a.len() && 0 <= j <= b.len() ==> i128::MIN <= #[trigger] twisted_upto(a, b, i, j)
            <= i128::MAX
}

proof fn xor_bound(i: int, j: int)
    requires
        0 <= i <= u64::MAX,
        0 <= j <= u64::MAX,
    ensures
        0 <= ((i as u64) ^ (j as u64)) <= i + j,
{
    let p = i as u64;
    let q = j as u64;
    assert((p ^ q) <= p + q) by (bit_vector);
}

proof fn twisted_row_bound(x: int, i: int, b: Seq<i64>, top: int)
    requires
        0 <= i <= u64::MAX,
        b.len() <= u64::MAX,
        i + b.len() <= top,
    ensures
        abs(twisted_row(x, i, b)) <= abs(x) * magnitude(b) * top,
    decreases b.len(),
{
    sum_bound(b);
    if b.len() > 0 {
        let init = b.drop_last();
        twisted_row_bound(x, i, init, top);
        let j = b.len() - 1;
        let l = b.last() as int;
        xor_bound(i, j);
        let t = ((i as u64) ^ (j as u64)) as int;
        product_bound(x, l, abs(x), abs(l));
        product_bound(x * l, t, abs(x) * abs(l), top);
        let p = abs(x);
        let m = magnitude(init);
        let q = abs(l);
        assert(p * m * top + p * q * top == p * (m + q) * top) by (nonlinear_arith);
    } else {
        assert(abs(x) * 0 * top == 0) by (nonlinear_arith);
    }
}

proof fn twisted_sum_bound(a: Seq<i64>, b: Seq<i64>, top: int)
    requires
        a.len() <= u64::MAX,
        b.len() <= u64::MAX,
        a.len() + b.len() <= top,
    ensures
        abs(twisted_sum(a, b)) <= magnitude(a) * magnitude(b) * top,
    decreases a.len(),
{
    sum_bound(b);
    if a.len() > 0 {
        let init = a.drop_last();
        twisted_sum_bound(init, b, top);
        twisted_row_bound(a.last() as int, a.len() - 1, b, top);
        let m = magnitude(init);
        let q = abs(a.last() as int);
        let w = magnitude(b);
        assert(m * w * top + q * w * top == (m + q) * w * top) by (nonlinear_arith);
    } else {
        assert(0 * magnitude(b) * top == 0) by (nonlinear_arith);
    }
}

/// No running twisted sum is more than the magnitudes give.
proof fn twisted_partial(a: Seq<i64>, b: Seq<i64>, i: int, j: int)
    requires
        magnitude(a) * magnitude(b) * (a.len() + b.len()) <= i128::MAX,
        a.len() <= u64::MAX,
        b.len() <= u64::MAX,
        0 <= i < a.len(),
        0 <= j <= b.len(),
    ensures
        abs(twisted_upto(a, b, i, j)) <= i128::MAX,
{
    let top = (a.len() + b.len()) as int;
    twisted_sum_bound(a.take(i), b, top);
    twisted_row_bound(a[i] as int, i, b.take(j), top);
    magnitude_part(b, j);
    magnitude_part(a, i + 1);
    magnitude_part(a, i);
    sum_step(a, i);
    let p = magnitude(a.take(i));
    let q = abs(a[i] as int);
    let m = magnitude(b);
    let n = magnitude(b.take(j));
    let w = magnitude(a);
    assert(q * n * top <= q * m * top) by (nonlinear_arith)
        requires
            0 <= q,
            0 <= n <= m,
            0 <= top,
    ;
    assert(p * m * top + q * m * top == (p + q) * m * top) by (nonlinear_arith);
    assert((p + q) * m * top <= w * m * top) by (nonlinear_arith)
        requires
            p + q <= w,
            0 <= m,
            0 <= top,
    ;
}

/// A pair sum that does not factorize, for comparison.
pub fn inseparable_pair_sum(g: &Group) -> (r: i128)
    requires
        twisted_fits(g.a@, g.b@),
    ensures
        r == twisted_sum(g.a@, g.b@),
{
    let ghost a = g.a@;
    let ghost b = g.b@;
    let rows: usize = g.a.len();
    let columns: usize = g.b.len();
    let mut s: i128 = 0;
    let mut i: usize = 0;
    assert(a.take(0) =~= Seq::empty());
    while i < rows
        invariant
            a == g.a@,
            b == g.b@,
            rows == a.len(),
            columns == b.len(),
            twisted_fits(a, b),
            i <= rows,
            s == twisted_sum(a.take(i as int), b),
        decreases rows - i,
    {
        let x: i64 = g.a[i];
        let mut j: usize = 0;
        assert(b.take(0) =~= Seq::empty());
        while j < columns
            invariant
                a == g.a@,
                b == g.b@,
                rows == a.len(),
                columns == b.len(),
                twisted_fits(a, b),
                i < rows,
                x == a[i as int],
                j <= columns,
                s == twisted_sum(a.take(i as int), b) + twisted_row(
                    x as int,
                    i as int,
                    b.take(j as int),
                ),
            decreases columns - j,
        {
            let y: i64 = g.b[j];
            let t: u64 = i as u64 ^ j as u64;
            proof {
                assert(b.take(j + 1).drop_last() =~= b.take(j as int));
                assert(i128::MIN <= twisted_upto(a, b, i as int, j + 1) <= i128::MAX);
                product_bound(
                    x as int,
                    y as int,
                    0x8000_0000_0000_0000,
                    0x8000_0000_0000_0000,
                );
                assert(i128::MIN <= twisted_term(a, b, i as int, j as int) <= i128::MAX);
            }
            s = s + x as i128 * y as i128 * t as i128;
            j = j + 1;
        }
        proof {
            assert(b.take(j as int) =~= b);
            assert(a.take(i + 1).drop_last() =~= a.take(i as int));
        }
        i = i + 1;
    }
    assert(a.take(i as int) =~= a);
    s
}

/// No term of a twisted sum is more than the magnitudes give.
proof fn one_term(a: Seq<i64>, b: Seq<i64>, i: int, j: int)
    requires
        magnitude(a) * magnitude(b) * (a.len() + b.len()) <= i128::MAX,
        a.len() <= u64::MAX,
        b.len() <= u64::MAX,
        0 <= i < a.len(),
        0 <= j < b.len(),
    ensures
        abs(twisted_term(a, b, i, j)) <= i128::MAX,
{
    let top = (a.len() + b.len()) as int;
    let x = a[i] as int;
    let y = b[j] as int;
    xor_bound(i, j);
    let t = ((i as u64) ^ (j as u64)) as int;
    magnitude_part(a, i + 1);
    magnitude_part(a, i);
    magnitude_part(b, j + 1);
    magnitude_part(b, j);
    sum_step(a, i);
    sum_step(b, j);
    product_bound(x, y, magnitude(a), magnitude(b));
    product_bound(x * y, t, magnitude(a) * magnitude(b), top);
}

/// Numbers between one and `limit`, so that all sums are small.
pub open spec fn small(s: Seq<i64>, limit: int) -> bool {
    forall|i: int| 0 <= i < s.len() ==> 0 < #[trigger] s[i] <= limit
}

proof fn small_magnitude(s: Seq<i64>, limit: int)
    requires
        small(s, limit),
        limit >= 0,
    ensures
        magnitude(s) <= limit * s.len(),
    decreases s.len(),
{
    if s.len() > 0 {
        let init = s.drop_last();
        assert forall|i: int| 0 <= i < init.len() implies 0 < #[trigger] init[i] <= limit by {
            assert(init[i] == s[i]);
        }
        small_magnitude(init, limit);
        assert(s[s.len() - 1] == s.last());
        let n = init.len() as int;
        assert(limit * (n + 1) == limit * n + limit) by (nonlinear_arith);
    } else {
        assert(limit * 0 == 0) by (nonlinear_arith);
    }
}

proof fn small_fits(a: Seq<i64>, b: Seq<i64>)
    requires
        small(a, 1000),
        small(b, 1000),
        a.len() <= 1000,
        b.len() <= 1000,
    ensures
        fits(a, b),
        i128::MIN <= sum(a) * sum(b) <= i128::MAX,
        abs(sum(a)) <= 1_000_000,
        abs(sum(b)) <= 1_000_000,
{
    small_magnitude(a, 1000);
    small_magnitude(b, 1000);
    sum_bound(a);
    sum_bound(b);
    let p = magnitude(a);
    let q = magnitude(b);
    assert(p * q <= 1_000_000 * 1_000_000) by (nonlinear_arith)
        requires
            0 <= p <= 1_000_000,
            0 <= q <= 1_000_000,
    ;
    product_bound(sum(a), sum(b), p, q);
    assert forall|i: int, j: int| 0 <= i < a.len() && 0 <= j <= b.len() implies i128::MIN
        <= #[trigger] pairs_upto(a, b, i, j) <= i128::MAX by {
        partial_fits(a, b, i, j);
    }
}

/// A run of random numbers from one up to forty-nine.
fn gen_numbers(rng: &mut SmallRng, n: usize) -> (v: Vec<i64>)
    ensures
        v@.len() == n,
        small(v@, 49),
{
    let mut v: Vec<i64> = Vec::new();
    let mut i: usize = 0;
    while i < n
        invariant
            i <= n,
            v@.len() == i,
            small(v@, 49),
        decreases n - i,
    {
        let ghost had = v@;
        v.push(between(rng, 1, 50));
        assert forall|k: int| 0 <= k < v@.len() implies 0 < #[trigger] v@[k] <= 49 by {
            if k < had.len() {
                assert(v@[k] == had[k]);
            }
        }
        i = i + 1;
    }
    v
}

/// Random groups, each with `per` numbers on both sides.
pub fn gen_groups(groups: usize, per: usize, seed: u64) -> (v: Vec<Group>)
    ensures
        v@.len() == groups,
        forall|i: int|
            0 <= i < groups ==> {
                &&& (#[trigger] v@[i]).a@.len() == per
                &&& v@[i].b@.len() == per
                &&& small(v@[i].a@, 49)
                &&& small(v@[i].b@, 49)
            },
{
    let mut rng = seeded(seed);
    let mut v: Vec<Group> = Vec::new();
    let mut i: usize = 0;
    while i < groups
        invariant
            i <= groups,
            v@.len() == i,
            forall|k: int|
                0 <= k < i ==> {
                    &&& (#[trigger] v@[k]).a@.len() == per
                    &&& v@[k].b@.len() == per
                    &&& small(v@[k].a@, 49)
                    &&& small(v@[k].b@, 49)
                },
        decreases groups - i,
    {
        let a = gen_numbers(&mut rng, per);
        let b = gen_numbers(&mut rng, per);
        v.push(Group { a, b });
        i = i + 1;
    }
    v
}

/// The first numbers, up to `n` of them.
fn head(v: &Vec<i64>, n: usize) -> (r: Vec<i64>)
    ensures
        r@ == v@.take(if n <= v@.len() { n as int } else { v@.len() as int }),
{
    let k: usize = if n <= v.len() {
        n
    } else {
        v.len()
    };
    let mut r: Vec<i64> = Vec::new();
    let mut i: usize = 0;
    while i < k
        invariant
            i <= k <= v@.len(),
            r@ == v@.take(i as int),
        decreases k - i,
    {
        r.push(v[i]);
        assert(r@ =~= v@.take(i + 1));
        i = i + 1;
    }
    r
}

proof fn small_twisted_fits(a: Seq<i64>, b: Seq<i64>)
    requires
        small(a, 1000),
        small(b, 1000),
        a.len() <= 6,
        b.len() <= 6,
    ensures
        twisted_fits(a, b),
{
    small_magnitude(a, 1000);
    small_magnitude(b, 1000);
    sum_bound(a);
    sum_bound(b);
    let p = magnitude(a);
    let q = magnitude(b);
    let n = (a.len() + b.len()) as int;
    assert(p * q <= 6000 * 6000) by (nonlinear_arith)
        requires
            0 <= p <= 6000,
            0 <= q <= 6000,
    ;
    assert(p * q * n <= 36_000_000 * 12) by (nonlinear_arith)
        requires
            p * q <= 36_000_000,
            0 <= n <= 12,
            0 <= p * q,
    ;
    assert forall|i: int, j: int| 0 <= i < a.len() && 0 <= j < b.len() implies i128::MIN
        <= #[trigger] twisted_term(a, b, i, j) <= i128::MAX by {
        one_term(a, b, i, j);
    }
    assert forall|i: int, j: int| 0 <= i < a.len() && 0 <= j <= b.len() implies i128::MIN
        <= #[trigger] twisted_upto(a, b, i, j) <= i128::MAX by {
        twisted_partial(a, b, i, j);
    }
}

/// The first list after a step: one number is added, the last one is taken away, or one is
/// raised by two.
spec fn changed_a(a: Seq<i64>, step: int) -> Seq<i64> {
    if step % 5 == 0 {
        a.push((3 + step % 17) as i64)
    } else if step % 5 == 1 && a.len() > 0 {
        a.drop_last()
    } else if step % 5 == 3 && a.len() > 0 {
        let i = step % (a.len() as int);
        a.update(i, (a[i] + 2) as i64)
    } else {
        a
    }
}

/// The second list after a step.
spec fn changed_b(b: Seq<i64>, step: int) -> Seq<i64> {
    if step % 5 == 2 {
        b.push((5 + step % 11) as i64)
    } else {
        b
    }
}

/// One change of a group and of its maintained sums.
fn mutate(g: &mut Group, m: &mut Maintained, step: u64)
    requires
        old(m).of(old(g).a@, old(g).b@),
        small(old(g).a@, 100 + 2 * step),
        small(old(g).b@, 100),
        old(g).a@.len() <= 100 + step,
        old(g).b@.len() <= 100 + step,
        step <= 80,
    ensures
        final(g).a@ == changed_a(old(g).a@, step as int),
        final(g).b@ == changed_b(old(g).b@, step as int),
        final(m).of(final(g).a@, final(g).b@),
        small(final(g).a@, 102 + 2 * step),
        small(final(g).b@, 100),
        final(g).a@.len() <= 101 + step,
        final(g).b@.len() <= 101 + step,
{
    let ghost a = g.a@;
    let ghost b = g.b@;
    proof {
        small_fits(a, b);
    }
    let k: u64 = step % 5;
    if k == 0 {
        let x: i64 = 3 + (step % 17) as i64;
        g.a.push(x);
        m.insert_a(x);
        assert forall|i: int| 0 <= i < g.a@.len() implies 0 < #[trigger] g.a@[i] <= 102 + 2
            * step by {
            if i < a.len() {
                assert(g.a@[i] == a[i]);
            }
        }
    } else if k == 1 {
        if let Some(x) = g.a.pop() {
            assert(a.last() == x);
            assert(a[a.len() - 1] == x);
            m.delete_a(x);
            assert(g.a@ =~= a.drop_last());
            assert forall|i: int| 0 <= i < g.a@.len() implies 0 < #[trigger] g.a@[i] <= 102 + 2
                * step by {
                assert(g.a@[i] == a[i]);
            }
        }
    } else if k == 2 {
        let x: i64 = 5 + (step % 11) as i64;
        g.b.push(x);
        m.insert_b(x);
        assert forall|i: int| 0 <= i < g.b@.len() implies 0 < #[trigger] g.b@[i] <= 100 by {
            if i < b.len() {
                assert(g.b@[i] == b[i]);
            }
        }
    } else if k == 3 {
        if g.a.len() > 0 {
            let i: usize = step as usize % g.a.len();
            let before: i64 = g.a[i];
            assert(a[i as int] == before);
            let after: i64 = before + 2;
            g.a.set(i, after);
            m.update_a(before, after);
            assert(g.a@ =~= a.update(i as int, after));
            assert forall|j: int| 0 <= j < g.a@.len() implies 0 < #[trigger] g.a@[j] <= 102 + 2
                * step by {
                if j != i {
                    assert(g.a@[j] == a[j]);
                }
            }
        }
    }
    proof {
        assert forall|i: int| 0 <= i < g.a@.len() implies 0 < #[trigger] g.a@[i] <= 102 + 2
            * step by {
            if g.a@ == a {
                assert(0 < a[i] <= 100 + 2 * step);
            }
        }
    }
}

/// Expanded, factorized and maintained sums agree under a stream of changes.
pub fn correctness() -> (r: Result<(), String>)
    ensures
        r is Ok,
{
    let groups = gen_groups(32, 48, 7);
    let mut i: usize = 0;
    while i < groups.len()
        invariant
            i <= groups@.len(),
            forall|k: int|
                0 <= k < groups@.len() ==> {
                    &&& (#[trigger] groups@[k]).a@.len() == 48
                    &&& groups@[k].b@.len() == 48
                    &&& small(groups@[k].a@, 49)
                    &&& small(groups@[k].b@, 49)
                },
        decreases groups@.len() - i,
    {
        let g = &groups[i];
        let mut cur = Group { a: g.a.clone(), b: g.b.clone() };
        assert(cur.a@ =~= g.a@);
        assert(cur.b@ =~= g.b@);
        let mut m = Maintained::from_group(&cur);
        let mut step: u64 = 0;
        while step < 80
            invariant
                step <= 80,
                m.of(cur.a@, cur.b@),
                small(cur.a@, 100 + 2 * step),
                small(cur.b@, 100),
                cur.a@.len() <= 100 + step,
                cur.b@.len() <= 100 + step,
            decreases 80 - step,
        {
            proof {
                small_fits(cur.a@, cur.b@);
            }
            let naive: i128 = naive_pair_sum(&cur);
            let fact: i128 = factorized_sum(&cur);
            let maint: i128 = m.result();
            if naive != fact || fact != maint {
                return Err(String::from_str("factorized mismatch"));
            }
            if step % 5 == 4 {
                let part = Group { a: head(&cur.a, 6), b: head(&cur.b, 6) };
                proof {
                    small_twisted_fits(part.a@, part.b@);
                }
                let twisted: i128 = inseparable_pair_sum(&part);
            }
            mutate(&mut cur, &mut m, step);
            step = step + 1;
        }
        i = i + 1;
    }
    Ok(())
}

} // verus!
