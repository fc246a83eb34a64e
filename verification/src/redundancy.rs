//! Queryable redundancy: a parity block that restores either source and answers queries
//! on their sum.
use rand::rngs::SmallRng;
use vstd::prelude::*;
use vstd::string::StringExecFns;

use crate::numbers::{sum, sum_bound, sum_step, total};
use crate::random::{seeded, word};

verus! {

/// Two columns and their sum, in a type that holds it exactly.
pub struct Blocks {
    pub a: Vec<i64>,
    pub b: Vec<i64>,
    pub c: Vec<i128>,
}

/// The sum of the parity values above a threshold.
pub open spec fn sum_above(c: Seq<i128>, t: int) -> int
    decreases c.len(),
{
    if c.len() == 0 {
        0
    } else {
        sum_above(c.drop_last(), t) + if c.last() > t {
            c.last() as int
        } else {
            0
        }
    }
}

pub open spec fn sum_all(c: Seq<i128>) -> int
    decreases c.len(),
{
    if c.len() == 0 {
        0
    } else {
        sum_all(c.drop_last()) + c.last()
    }
}

impl Blocks {
    pub open spec fn wf(&self) -> bool {
        &&& self.a@.len() == self.b@.len()
        &&& self.c@.len() == self.a@.len()
        &&& self.c@.len() < 0x1000_0000_0000_0000
        &&& forall|i: int|
            0 <= i < self.c@.len() ==> #[trigger] self.c@[i] == self.a@[i] + self.b@[i]
    }

    pub fn new(a: Vec<i64>, b: Vec<i64>) -> (s: Self)
        requires
            a@.len() == b@.len(),
            a@.len() < 0x1000_0000_0000_0000,
        ensures
            s.wf(),
            s.a@ == a@,
            s.b@ == b@,
    {
        let mut c: Vec<i128> = Vec::new();
        let mut i: usize = 0;
        while i < a.len()
            invariant
                i <= a@.len(),
                a@.len() == b@.len(),
                c@.len() == i,
                forall|k: int| 0 <= k < i ==> #[trigger] c@[k] == a@[k] + b@[k],
            decreases a@.len() - i,
        {
            c.push(a[i] as i128 + b[i] as i128);
            i = i + 1;
        }
        Blocks { a, b, c }
    }

    /// The first column, from the other one and the parity alone.
    pub fn recover_a(&self) -> (r: Vec<i64>)
        requires
            self.wf(),
        ensures
            r@ == self.a@,
    {
        let mut r: Vec<i64> = Vec::new();
        let mut i: usize = 0;
        while i < self.c.len()
            invariant
                self.wf(),
                i <= self.c@.len(),
                r@.len() == i,
                forall|k: int| 0 <= k < i ==> #[trigger] r@[k] == self.a@[k],
            decreases self.c@.len() - i,
        {
            assert(self.c@[i as int] == self.a@[i as int] + self.b@[i as int]);
            r.push((self.c[i] - self.b[i] as i128) as i64);
            i = i + 1;
        }
        assert(r@ =~= self.a@);
        r
    }

    pub fn sum_a_plus_b_from_c(&self) -> (s: i128)
        requires
            self.wf(),
        ensures
            s == sum_all(self.c@),
            s == sum(self.a@) + sum(self.b@),
    {
        let mut s: i128 = 0;
        let mut i: usize = 0;
        assert(self.c@.take(0) =~= Seq::empty());
        assert(self.a@.take(0) =~= Seq::empty());
        assert(self.b@.take(0) =~= Seq::empty());
        while i < self.c.len()
            invariant
                self.wf(),
                i <= self.c@.len(),
                s == sum_all(self.c@.take(i as int)),
                s == sum(self.a@.take(i as int)) + sum(self.b@.take(i as int)),
                -0x1_0000_0000_0000_0000 * i <= s <= 0x1_0000_0000_0000_0000 * i,
            decreases self.c@.len() - i,
        {
            proof {
                assert(self.c@[i as int] == self.a@[i as int] + self.b@[i as int]);
                sum_step(self.a@, i as int);
                sum_step(self.b@, i as int);
                assert(self.c@.take(i + 1).drop_last() =~= self.c@.take(i as int));
            }
            s = s + self.c[i];
            i = i + 1;
        }
        assert(self.c@.take(i as int) =~= self.c@);
        assert(self.a@.take(i as int) =~= self.a@);
        assert(self.b@.take(i as int) =~= self.b@);
        s
    }

    pub fn sum_a_plus_b_from_sources(&self) -> (s: i128)
        requires
            self.wf(),
        ensures
            s == sum(self.a@) + sum(self.b@),
    {
        proof {
            sum_bound(self.a@);
            sum_bound(self.b@);
        }
        total(&self.a) + total(&self.b)
    }

    pub fn filter_sum_gt_from_c(&self, t: i64) -> (s: i128)
        requires
            self.wf(),
        ensures
            s == sum_above(self.c@, t as int),
    {
        let mut s: i128 = 0;
        let mut i: usize = 0;
        assert(self.c@.take(0) =~= Seq::empty());
        while i < self.c.len()
            invariant
                self.wf(),
                i <= self.c@.len(),
                s == sum_above(self.c@.take(i as int), t as int),
                -0x1_0000_0000_0000_0000 * i <= s <= 0x1_0000_0000_0000_0000 * i,
            decreases self.c@.len() - i,
        {
            proof {
                assert(self.c@[i as int] == self.a@[i as int] + self.b@[i as int]);
                assert(self.c@.take(i + 1).drop_last() =~= self.c@.take(i as int));
            }
            let v: i128 = self.c[i];
            if v > t as i128 {
                s = s + v;
            }
            i = i + 1;
        }
        assert(self.c@.take(i as int) =~= self.c@);
        s
    }
}

/// A random column.
fn gen_column(rng: &mut SmallRng, n: usize) -> (v: Vec<i64>)
    ensures
        v@.len() == n,
{
    let mut v: Vec<i64> = Vec::new();
    while v.len() < n
        invariant
            v@.len() <= n,
        decreases n - v@.len(),
    {
        v.push(word(rng) as i64);
    }
    v
}

fn equal(a: &Vec<i64>, b: &Vec<i64>) -> (r: bool)
    ensures
        r == (a@ == b@),
{
    if a.len() != b.len() {
        return false;
    }
    let mut i: usize = 0;
    while i < a.len()
        invariant
            i <= a@.len(),
            a@.len() == b@.len(),
            forall|k: int| 0 <= k < i ==> a@[k] == b@[k],
        decreases a@.len() - i,
    {
        if a[i] != b[i] {
            return false;
        }
        i = i + 1;
    }
    assert(a@ =~= b@);
    true
}

/// Parity restores a column, and sums as the columns do.
pub fn correctness() -> (r: Result<(), String>)
    ensures
        r is Ok,
{
    let mut rng = seeded(2);
    let a = gen_column(&mut rng, 10_000);
    let b = gen_column(&mut rng, 10_000);
    let blocks = Blocks::new(a, b);
    if !equal(&blocks.recover_a(), &blocks.a) {
        return Err(String::from_str("recovery of A from C-B failed"));
    }
    if blocks.sum_a_plus_b_from_c() != blocks.sum_a_plus_b_from_sources() {
        return Err(String::from_str("coded sum mismatch"));
    }
    Ok(())
}

} // verus!
