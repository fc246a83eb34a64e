//! Joins of sorted sets whose cost follows from a certificate rather than from
//! the input: merging, galloping, and a proof of emptiness from two numbers.
use vstd::prelude::*;
use vstd::string::StringExecFns;

use crate::numbers::{ascending, distinct, increasing, sort};
use crate::random::{below, seeded};

verus! {

/// How many numbers of `a` are in `b`.
pub open spec fn shared(a: Seq<u64>, b: Seq<u64>) -> nat
    decreases a.len(),
{
    if a.len() == 0 {
        0
    } else {
        shared(a.drop_last(), b) + if b.contains(a.last()) {
            1nat
        } else {
            0nat
        }
    }
}

/// For sets, that is the size of the intersection.
pub proof fn shared_is_intersection(a: Seq<u64>, b: Seq<u64>)
    requires
        increasing(a),
    ensures
        shared(a, b) == a.to_set().intersect(b.to_set()).len(),
        shared(a, b) <= a.len(),
    decreases a.len(),
{
    if a.len() == 0 {
        assert(a.to_set().intersect(b.to_set()) =~= Set::empty());
    } else {
        let init = a.drop_last();
        let x = a.last();
        shared_is_intersection(init, b);
        let before = init.to_set().intersect(b.to_set());
        let now = a.to_set().intersect(b.to_set());
        assert(!init.contains(x)) by {
            if init.contains(x) {
                let i = choose|i: int| 0 <= i < init.len() && init[i] == x;
                assert(a[i] < a[a.len() - 1]);
            }
        }
        assert forall|y: u64| a.contains(y) <==> init.contains(y) || y == x by {
            if a.contains(y) {
                let i = choose|i: int| 0 <= i < a.len() && a[i] == y;
                if i < init.len() {
                    assert(init[i] == y);
                }
            }
            if init.contains(y) {
                let i = choose|i: int| 0 <= i < init.len() && init[i] == y;
                assert(a[i] == y);
            }
            assert(a[a.len() - 1] == x);
        }
        vstd::seq_lib::seq_to_set_is_finite(init);
        assert(before.finite());
        if b.contains(x) {
            assert(now =~= before.insert(x));
            assert(!before.contains(x));
        } else {
            assert(now =~= before);
        }
    }
}

/// It does not matter which of the two sets is searched for in the other.
pub proof fn shared_symmetric(a: Seq<u64>, b: Seq<u64>)
    requires
        increasing(a),
        increasing(b),
    ensures
        shared(a, b) == shared(b, a),
{
    shared_is_intersection(a, b);
    shared_is_intersection(b, a);
    assert(a.to_set().intersect(b.to_set()) =~= b.to_set().intersect(a.to_set()));
}

/// One more number of `a`.
proof fn shared_step(a: Seq<u64>, b: Seq<u64>, i: int)
    requires
        0 <= i < a.len(),
    ensures
        shared(a.take(i + 1), b) == shared(a.take(i), b) + if b.contains(a[i]) {
            1nat
        } else {
            0nat
        },
        shared(a.take(i), b) <= i,
    decreases i,
{
    assert(a.take(i + 1).drop_last() =~= a.take(i));
    if i > 0 {
        shared_step(a, b, i - 1);
    }
}

/// The rest of `a` has nothing in common with `b`.
proof fn shared_rest(a: Seq<u64>, b: Seq<u64>, i: int)
    requires
        0 <= i <= a.len(),
        forall|k: int| i <= k < a.len() ==> !b.contains(#[trigger] a[k]),
    ensures
        shared(a, b) == shared(a.take(i), b),
    decreases a.len(),
{
    if i == a.len() {
        assert(a.take(i) =~= a);
    } else {
        let init = a.drop_last();
        assert forall|k: int| i <= k < init.len() implies !b.contains(#[trigger] init[k]) by {
            assert(init[k] == a[k]);
        }
        shared_rest(init, b, i);
        assert(init.take(i) =~= a.take(i));
        assert(!b.contains(a[a.len() - 1]));
    }
}

/// Walks both sets side by side.
pub fn merge_intersect(a: &[u64], b: &[u64]) -> (c: usize)
    requires
        increasing(a@),
        increasing(b@),
    ensures
        c == shared(a@, b@),
{
    let mut i: usize = 0;
    let mut j: usize = 0;
    let mut c: usize = 0;
    assert(a@.take(0) =~= Seq::empty());
    while i < a.len() && j < b.len()
        invariant
            increasing(a@),
            increasing(b@),
            i <= a@.len(),
            j <= b@.len(),
            c == shared(a@.take(i as int), b@),
            c <= i,
            forall|k: int| 0 <= k < j && i < a@.len() ==> b@[k] < a@[i as int],
        decreases a@.len() - i + b@.len() - j,
    {
        proof {
            shared_step(a@, b@, i as int);
        }
        if a[i] < b[j] {
            proof {
                assert(!b@.contains(a@[i as int])) by {
                    if b@.contains(a@[i as int]) {
                        let p = choose|p: int| 0 <= p < b@.len() && b@[p] == a@[i as int];
                        if p > j {
                            assert(b@[j as int] < b@[p]);
                        }
                    }
                }
                assert forall|k: int| 0 <= k < j && i + 1 < a@.len() implies b@[k] < a@[i + 1] by {
                    assert(a@[i as int] < a@[i + 1]);
                }
            }
            i = i + 1;
        } else if b[j] < a[i] {
            j = j + 1;
        } else {
            proof {
                assert(b@[j as int] == a@[i as int]);
                assert(b@.contains(a@[i as int]));
                assert forall|k: int| 0 <= k < j + 1 && i + 1 < a@.len() implies b@[k] < a@[i
                    + 1] by {
                    assert(a@[i as int] < a@[i + 1]);
                }
            }
            c = c + 1;
            i = i + 1;
            j = j + 1;
        }
    }
    proof {
        assert forall|k: int| i <= k < a@.len() implies !b@.contains(#[trigger] a@[k]) by {
            if b@.contains(a@[k]) {
                let p = choose|p: int| 0 <= p < b@.len() && b@[p] == a@[k];
                if k > i {
                    assert(a@[i as int] < a@[k]);
                }
            }
        }
        shared_rest(a@, b@, i as int);
    }
    c
}

/// The first place from `lo` on whose number is not below the target.
pub fn gallop_seek(xs: &[u64], lo: usize, target: u64) -> (r: usize)
    requires
        ascending(xs@),
    ensures
        lo >= xs@.len() ==> r == lo,
        lo < xs@.len() ==> {
            &&& lo <= r <= xs@.len()
            &&& forall|k: int| lo <= k < r ==> xs@[k] < target
            &&& forall|k: int| r <= k < xs@.len() ==> xs@[k] >= target
        },
{
    let from = lo;
    let mut lo = lo;
    let size: usize = xs.len();
    if lo >= size || xs[lo] >= target {
        return lo;
    }
    let mut step: usize = 1;
    let mut hi: usize = lo + 1;
    while hi < size && xs[hi] < target
        invariant
            ascending(xs@),
            size == xs@.len(),
            from <= lo < hi <= size,
            xs@[lo as int] < target,
            step > 0,
        decreases size - hi,
    {
        lo = hi;
        hi = if step < size - hi {
            hi + step
        } else {
            size
        };
        step = if step <= usize::MAX / 2 {
            step * 2
        } else {
            step
        };
    }
    while lo < hi
        invariant
            ascending(xs@),
            size == xs@.len(),
            from <= lo <= hi <= size,
            forall|k: int| from <= k < lo ==> xs@[k] < target,
            forall|k: int| hi <= k < size ==> xs@[k] >= target,
        decreases hi - lo,
    {
        let mid: usize = lo + (hi - lo) / 2;
        if xs[mid] < target {
            lo = mid + 1;
        } else {
            hi = mid;
        }
    }
    lo
}

/// Seeks each number of the smaller set in the larger one.
pub fn gallop_intersect(a: &[u64], b: &[u64]) -> (c: usize)
    requires
        increasing(a@),
        increasing(b@),
    ensures
        c == shared(a@, b@),
{
    proof {
        shared_symmetric(a@, b@);
    }
    if a.len() <= b.len() {
        gallop_from(a, b)
    } else {
        gallop_from(b, a)
    }
}

fn gallop_from(small: &[u64], large: &[u64]) -> (c: usize)
    requires
        increasing(small@),
        increasing(large@),
    ensures
        c == shared(small@, large@),
{
    let mut i: usize = 0;
    let mut j: usize = 0;
    let mut c: usize = 0;
    assert(small@.take(0) =~= Seq::empty());
    while i < small.len()
        invariant
            increasing(small@),
            increasing(large@),
            i <= small@.len(),
            j <= large@.len(),
            c == shared(small@.take(i as int), large@),
            c <= i,
            forall|k: int| 0 <= k < j && i < small@.len() ==> large@[k] < small@[i as int],
        decreases small@.len() - i,
    {
        let x: u64 = small[i];
        let ghost before = j;
        j = gallop_seek(large, j, x);
        proof {
            shared_step(small@, large@, i as int);
            assert forall|k: int| 0 <= k < j implies large@[k] < x by {
                if k >= before {
                    assert(before < large@.len());
                }
            }
        }
        if j >= large.len() {
            proof {
                assert forall|k: int| i <= k < small@.len() implies !large@.contains(
                    #[trigger] small@[k],
                ) by {
                    if large@.contains(small@[k]) {
                        let p = choose|p: int| 0 <= p < large@.len() && large@[p] == small@[k];
                        assert(large@[p] < x);
                        if k > i {
                            assert(small@[i as int] < small@[k]);
                        }
                    }
                }
                shared_rest(small@, large@, i as int);
            }
            return c;
        }
        if large[j] == x {
            assert(large@.contains(x));
            c = c + 1;
            j = j + 1;
        } else {
            assert(!large@.contains(x)) by {
                if large@.contains(x) {
                    let p = choose|p: int| 0 <= p < large@.len() && large@[p] == x;
                    if p > j {
                        assert(large@[j as int] < large@[p]);
                    }
                }
            }
        }
        proof {
            assert forall|k: int| 0 <= k < j && i + 1 < small@.len() implies large@[k] < small@[i
                + 1] by {
                assert(small@[i as int] < small@[i + 1]);
            }
        }
        i = i + 1;
    }
    assert(small@.take(i as int) =~= small@);
    c
}

/// Whether the ends alone show that nothing is shared.
pub open spec fn apart(a: Seq<u64>, b: Seq<u64>) -> bool {
    a.len() == 0 || b.len() == 0 || a.last() < b[0] || b.last() < a[0]
}

/// The certificate: two numbers.
pub fn bound_disjoint(a: &[u64], b: &[u64]) -> (r: bool)
    ensures
        r == apart(a@, b@),
{
    if a.len() == 0 || b.len() == 0 {
        return true;
    }
    a[a.len() - 1] < b[0] || b[b.len() - 1] < a[0]
}

/// Sets whose ends are apart share nothing.
pub proof fn apart_shares_nothing(a: Seq<u64>, b: Seq<u64>)
    requires
        increasing(a),
        increasing(b),
        apart(a, b),
    ensures
        shared(a, b) == 0,
{
    assert forall|k: int| 0 <= k < a.len() implies !b.contains(#[trigger] a[k]) by {
        if b.contains(a[k]) {
            let p = choose|p: int| 0 <= p < b.len() && b[p] == a[k];
            assert(a[0] <= a[k] <= a[a.len() - 1]);
            assert(b[0] <= b[p] <= b[b.len() - 1]);
        }
    }
    shared_rest(a, b, 0);
    assert(a.take(0) =~= Seq::empty());
}

/// A sorted set of up to `n` random numbers below `max`.
pub fn gen_sorted(n: usize, max: u64, seed: u64) -> (v: Vec<u64>)
    requires
        max > 0,
    ensures
        increasing(v@),
        v@.len() <= n,
        n > 0 ==> v@.len() > 0,
        forall|i: int| 0 <= i < v@.len() ==> v@[i] < max,
{
    let mut rng = seeded(seed);
    let mut v: Vec<u64> = Vec::new();
    let mut i: usize = 0;
    while i < n
        invariant
            max > 0,
            i <= n,
            v@.len() == i,
            forall|k: int| 0 <= k < i ==> v@[k] < max,
        decreases n - i,
    {
        v.push(below(&mut rng, max));
        i = i + 1;
    }
    let ghost drawn = v@;
    sort(&mut v);
    let r = distinct(&v);
    proof {
        drawn.to_multiset_ensures();
        v@.to_multiset_ensures();
        if n > 0 {
            assert(v@.contains(v@[0]));
            assert(r@.contains(v@[0]));
        }
        assert forall|k: int| 0 <= k < r@.len() implies r@[k] < max by {
            assert(r@.contains(r@[k]));
            assert(v@.contains(r@[k]));
            assert(v@.to_multiset().count(r@[k]) > 0);
            assert(drawn.contains(r@[k]));
        }
    }
    r
}

/// The numbers from `lo` up to `hi`.
fn run_of(lo: u64, hi: u64) -> (v: Vec<u64>)
    requires
        lo <= hi,
    ensures
        increasing(v@),
        v@.len() == hi - lo,
        forall|i: int| 0 <= i < v@.len() ==> v@[i] == lo + i,
{
    let mut v: Vec<u64> = Vec::new();
    let mut x: u64 = lo;
    while x < hi
        invariant
            lo <= x <= hi,
            v@.len() == x - lo,
            forall|i: int| 0 <= i < v@.len() ==> v@[i] == lo + i,
        decreases hi - x,
    {
        v.push(x);
        x = x + 1;
    }
    v
}

/// Merging and galloping agree, and the certificate never errs.
pub fn correctness() -> (r: Result<(), String>)
    ensures
        r is Ok,
{
    let mut seed: u64 = 0;
    while seed < 20
        invariant
            seed <= 20,
        decreases 20 - seed,
    {
        let a = gen_sorted(5_000, 20_000, seed);
        let b = gen_sorted(5_000, 20_000, seed + 50);
        let m: usize = merge_intersect(a.as_slice(), b.as_slice());
        let g: usize = gallop_intersect(a.as_slice(), b.as_slice());
        if m != g {
            return Err(String::from_str("intersect mismatch"));
        }
        proof {
            if apart(a@, b@) {
                apart_shares_nothing(a@, b@);
            }
        }
        if bound_disjoint(a.as_slice(), b.as_slice()) && m != 0 {
            return Err(String::from_str("bound claimed disjoint but intersection nonempty"));
        }
        seed = seed + 1;
    }
    let a = run_of(0, 10_000);
    let b = run_of(20_000, 30_000);
    proof {
        assert(a@.last() == 9_999);
        assert(b@[0] == 20_000);
        apart_shares_nothing(a@, b@);
    }
    if !bound_disjoint(a.as_slice(), b.as_slice()) || merge_intersect(a.as_slice(), b.as_slice())
        != 0 {
        return Err(String::from_str("separated ranges should be empty"));
    }
    Ok(())
}

} // verus!
