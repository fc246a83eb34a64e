//! Sums and sorted runs of numbers, shared by the kernels.
use vstd::prelude::*;

verus! {

/// The sum of all numbers.
pub open spec fn sum(s: Seq<i64>) -> int
    decreases s.len(),
{
    if s.len() == 0 {
        0
    } else {
        sum(s.drop_last()) + s.last()
    }
}

/// The sum of all magnitudes.
pub open spec fn magnitude(s: Seq<i64>) -> int
    decreases s.len(),
{
    if s.len() == 0 {
        0
    } else {
        magnitude(s.drop_last()) + abs(s.last() as int)
    }
}

pub open spec fn abs(x: int) -> int {
    if x < 0 {
        -x
    } else {
        x
    }
}

/// A sum is no larger than the sum of the magnitudes.
pub proof fn sum_bound(s: Seq<i64>)
    ensures
        abs(sum(s)) <= magnitude(s),
        magnitude(s) <= 0x8000_0000_0000_0000 * s.len(),
    decreases s.len(),
{
    if s.len() > 0 {
        sum_bound(s.drop_last());
    }
}

/// One more number.
pub proof fn sum_step(s: Seq<i64>, i: int)
    requires
        0 <= i < s.len(),
    ensures
        sum(s.take(i + 1)) == sum(s.take(i)) + s[i],
        magnitude(s.take(i + 1)) == magnitude(s.take(i)) + abs(s[i] as int),
{
    assert(s.take(i + 1).drop_last() =~= s.take(i));
}

/// The magnitudes of a part sum to no more than those of the whole.
pub proof fn magnitude_part(s: Seq<i64>, i: int)
    requires
        0 <= i <= s.len(),
    ensures
        0 <= magnitude(s.take(i)) <= magnitude(s),
    decreases s.len(),
{
    if i == s.len() {
        assert(s.take(i) =~= s);
        sum_bound(s);
    } else {
        magnitude_part(s.drop_last(), i);
        assert(s.drop_last().take(i) =~= s.take(i));
    }
}

pub proof fn sum_push(s: Seq<i64>, x: i64)
    ensures
        sum(s.push(x)) == sum(s) + x,
        magnitude(s.push(x)) == magnitude(s) + abs(x as int),
{
    assert(s.push(x).drop_last() =~= s);
}

/// Sums of two runs, one behind the other.
pub proof fn sum_joined(a: Seq<i64>, b: Seq<i64>)
    ensures
        sum(a + b) == sum(a) + sum(b),
        magnitude(a + b) == magnitude(a) + magnitude(b),
    decreases b.len(),
{
    if b.len() == 0 {
        assert(a + b =~= a);
    } else {
        assert((a + b).drop_last() =~= a + b.drop_last());
        sum_joined(a, b.drop_last());
    }
}

/// Replacing one number.
pub proof fn sum_update(s: Seq<i64>, i: int, x: i64)
    requires
        0 <= i < s.len(),
    ensures
        sum(s.update(i, x)) == sum(s) - s[i] + x,
        magnitude(s.update(i, x)) == magnitude(s) - abs(s[i] as int) + abs(x as int),
{
    let a = s.take(i);
    let b = s.skip(i + 1);
    assert(s =~= a.push(s[i]) + b);
    assert(s.update(i, x) =~= a.push(x) + b);
    sum_joined(a.push(s[i]), b);
    sum_joined(a.push(x), b);
    sum_push(a, s[i]);
    sum_push(a, x);
}

/// Adds all numbers up.
pub fn total(v: &Vec<i64>) -> (r: i128)
    ensures
        r == sum(v@),
{
    let mut r: i128 = 0;
    let mut i: usize = 0;
    assert(v@.take(0) =~= Seq::empty());
    while i < v.len()
        invariant
            i <= v@.len(),
            r == sum(v@.take(i as int)),
        decreases v@.len() - i,
    {
        proof {
            sum_step(v@, i as int);
            sum_bound(v@.take(i as int));
            sum_bound(v@.take(i + 1));
            let n = i + 1;
            assert(0x8000_0000_0000_0000 * n <= 0x8000_0000_0000_0000 * 0xffff_ffff_ffff_ffff)
                by (nonlinear_arith)
                requires
                    n <= 0xffff_ffff_ffff_ffff,
            ;
        }
        r = r + v[i] as i128;
        i = i + 1;
    }
    assert(v@.take(i as int) =~= v@);
    r
}

/// Numbers in order, none before a smaller one.
pub open spec fn ascending(s: Seq<u64>) -> bool {
    forall|i: int, j: int| 0 <= i <= j < s.len() ==> s[i] <= s[j]
}

/// Numbers in order, each but once.
pub open spec fn increasing(s: Seq<u64>) -> bool {
    forall|i: int, j: int| 0 <= i < j < s.len() ==> s[i] < s[j]
}

/// Calls `slice::sort_unstable`: the numbers are put in order, and stay the same.
#[verifier::external_body]
pub(crate) fn sort(v: &mut Vec<u64>)
    ensures
        ascending(final(v)@),
        final(v)@.to_multiset() == old(v)@.to_multiset(),
{
    v.sort_unstable()
}

/// How many numbers of an ordered run are smaller than `x`.
pub fn lower_bound(s: &[u64], x: u64) -> (r: usize)
    requires
        ascending(s@),
    ensures
        r <= s@.len(),
        forall|i: int| 0 <= i < r ==> s@[i] < x,
        forall|i: int| r <= i < s@.len() ==> s@[i] >= x,
{
    let mut lo: usize = 0;
    let mut hi: usize = s.len();
    while lo < hi
        invariant
            lo <= hi <= s@.len(),
            ascending(s@),
            forall|i: int| 0 <= i < lo ==> s@[i] < x,
            forall|i: int| hi <= i < s@.len() ==> s@[i] >= x,
        decreases hi - lo,
    {
        let mid: usize = lo + (hi - lo) / 2;
        if s[mid] < x {
            lo = mid + 1;
        } else {
            hi = mid;
        }
    }
    lo
}

/// An ordered run without repetitions.
pub fn distinct(v: &Vec<u64>) -> (r: Vec<u64>)
    requires
        ascending(v@),
    ensures
        increasing(r@),
        r@.len() <= v@.len(),
        forall|x: u64| v@.contains(x) <==> r@.contains(x),
{
    let mut r: Vec<u64> = Vec::new();
    let mut i: usize = 0;
    while i < v.len()
        invariant
            i <= v@.len(),
            ascending(v@),
            increasing(r@),
            r@.len() <= i,
            i > 0 ==> r@.len() > 0 && r@.last() == v@[i - 1],
            i == 0 ==> r@.len() == 0,
            forall|k: int| 0 <= k < i ==> r@.contains(#[trigger] v@[k]),
            forall|k: int| 0 <= k < r@.len() ==> v@.contains(#[trigger] r@[k]),
        decreases v@.len() - i,
    {
        let ghost had = r@;
        if i == 0 || v[i] != v[i - 1] {
            r.push(v[i]);
            proof {
                assert(r@[had.len() as int] == v@[i as int]);
                assert forall|k: int| 0 <= k < i + 1 implies r@.contains(#[trigger] v@[k]) by {
                    if k < i {
                        let p = choose|p: int| 0 <= p < had.len() && had[p] == v@[k];
                        assert(r@[p] == v@[k]);
                    }
                }
                assert forall|k: int| 0 <= k < r@.len() implies v@.contains(#[trigger] r@[k]) by {
                    if k < had.len() {
                        assert(r@[k] == had[k]);
                    }
                }
                assert forall|a: int, b: int| 0 <= a < b < r@.len() implies r@[a] < r@[b] by {
                    if b == had.len() {
                        assert(r@[a] == had[a]);
                        assert(had[a] <= had.last());
                    }
                }
            }
        } else {
            assert(v@[i as int] == v@[i - 1]);
        }
        i = i + 1;
    }
    r
}

} // verus!
