//! Searches that a model's prediction may narrow: the prediction says where to look, and
//! never what is there.
use vstd::prelude::*;

use crate::numbers::{ascending, increasing, lower_bound};
use crate::random::{below, seeded};

verus! {

/// The last segment that does not begin behind a key, or the first one.
pub fn find_seg(starts: &[u64], key: u64) -> (r: usize)
    requires
        starts@.len() > 0,
        ascending(starts@),
    ensures
        r < starts@.len(),
        r > 0 ==> starts@[r as int] <= key,
        forall|i: int| r < i < starts@.len() ==> starts@[i] > key,
{
    let mut lo: usize = 0;
    let mut hi: usize = starts.len();
    while hi - lo > 1
        invariant
            lo < hi <= starts@.len(),
            ascending(starts@),
            lo > 0 ==> starts@[lo as int] <= key,
            forall|i: int| hi <= i < starts@.len() ==> starts@[i] > key,
        decreases hi - lo,
    {
        let mid: usize = lo + (hi - lo) / 2;
        if starts[mid] <= key {
            lo = mid;
        } else {
            hi = mid;
        }
    }
    lo
}

/// The first and the last place of the window round a prediction.
pub open spec fn window(size: int, pred: int, err: int) -> (int, int) {
    (
        if pred > err + 2 {
            pred - (err + 2)
        } else {
            0
        },
        if pred + err + 2 < size - 1 {
            pred + err + 2
        } else {
            size - 1
        },
    )
}

/// Looks for a key near a predicted place.
pub fn window_get(keys: &[u64], pred: usize, err: usize, key: u64) -> (r: Option<usize>)
    requires
        increasing(keys@),
        keys@.len() > 0,
        pred < keys@.len(),
        err <= usize::MAX - 2,
    ensures
        r matches Some(i) ==> i < keys@.len() && keys@[i as int] == key && window(
            keys@.len() as int,
            pred as int,
            err as int,
        ).0 <= i <= window(keys@.len() as int, pred as int, err as int).1,
        r is None ==> forall|i: int|
            window(keys@.len() as int, pred as int, err as int).0 <= i <= window(
                keys@.len() as int,
                pred as int,
                err as int,
            ).1 ==> keys@[i] != key,
{
    let reach: usize = err + 2;
    let size: usize = keys.len();
    let mut lo: usize = if pred > reach {
        pred - reach
    } else {
        0
    };
    let last: usize = if reach < size - 1 - pred {
        pred + reach
    } else {
        size - 1
    };
    let ghost from = lo;
    let mut hi: usize = last + 1;
    while lo < hi
        invariant
            increasing(keys@),
            size == keys@.len(),
            from <= lo <= hi <= last + 1 <= size,
            forall|i: int| from <= i < lo ==> keys@[i] < key,
            forall|i: int| hi <= i <= last ==> keys@[i] >= key,
        decreases hi - lo,
    {
        let mid: usize = lo + (hi - lo) / 2;
        if keys[mid] < key {
            proof {
                assert forall|i: int| from <= i < mid + 1 implies keys@[i] < key by {
                    if i < mid {
                        assert(keys@[i] < keys@[mid as int]);
                    }
                }
            }
            lo = mid + 1;
        } else {
            proof {
                assert forall|i: int| mid <= i <= last implies keys@[i] >= key by {
                    if i > mid {
                        assert(keys@[mid as int] < keys@[i]);
                    }
                }
            }
            hi = mid;
        }
    }
    if lo <= last && keys[lo] == key {
        Some(lo)
    } else {
        proof {
            assert forall|i: int| from <= i <= last implies keys@[i] != key by {
                if i > lo {
                    assert(keys@[lo as int] < keys@[i]);
                }
            }
        }
        None
    }
}

/// A prediction that is off by no more than the bound finds every key that is there.
pub proof fn close_prediction_finds(keys: Seq<u64>, pred: int, err: int, i: int)
    requires
        0 <= i < keys.len(),
        0 <= pred < keys.len(),
        err >= 0,
        i - pred <= err + 2,
        pred - i <= err + 2,
    ensures
        window(keys.len() as int, pred, err).0 <= i <= window(keys.len() as int, pred, err).1,
{
}

pub fn binary_get(keys: &[u64], key: u64) -> (r: Option<usize>)
    requires
        increasing(keys@),
    ensures
        r matches Some(i) ==> i < keys@.len() && keys@[i as int] == key,
        r is None <==> !keys@.contains(key),
{
    assert(ascending(keys@));
    let i: usize = lower_bound(keys, key);
    if i < keys.len() && keys[i] == key {
        assert(keys@.contains(keys@[i as int]));
        Some(i)
    } else {
        proof {
            if keys@.contains(key) {
                let j = choose|j: int| 0 <= j < keys@.len() && keys@[j] == key;
                if j > i {
                    assert(keys@[i as int] < keys@[j]);
                }
            }
        }
        None
    }
}

pub fn gen_linear(n: usize) -> (v: Vec<u64>)
    requires
        10 * (n - 1) <= u64::MAX,
    ensures
        v@.len() == n,
        forall|i: int| 0 <= i < n ==> #[trigger] v@[i] == i * 10,
        increasing(v@),
{
    let mut v: Vec<u64> = Vec::new();
    let mut i: usize = 0;
    while i < n
        invariant
            i <= n,
            10 * (n - 1) <= u64::MAX,
            v@.len() == i,
            forall|k: int| 0 <= k < i ==> #[trigger] v@[k] == k * 10,
        decreases n - i,
    {
        v.push(i as u64 * 10);
        i = i + 1;
    }
    v
}

/// Keys with random gaps of one to fifty.
pub fn gen_gaps(n: usize, seed: u64) -> (v: Vec<u64>)
    requires
        50 * n <= u64::MAX,
    ensures
        v@.len() == n,
        increasing(v@),
        n > 0 ==> 1 <= v@[0] <= 50,
        forall|i: int| 0 < i < n ==> 1 <= #[trigger] v@[i] - v@[i - 1] <= 50,
{
    let mut rng = seeded(seed);
    let mut x: u64 = 0;
    let mut v: Vec<u64> = Vec::new();
    while v.len() < n
        invariant
            50 * n <= u64::MAX,
            v@.len() <= n,
            x <= 50 * v@.len(),
            v@.len() == 0 ==> x == 0,
            v@.len() > 0 ==> v@.last() == x && 1 <= v@[0] <= 50,
            increasing(v@),
            forall|i: int| 0 < i < v@.len() ==> 1 <= #[trigger] v@[i] - v@[i - 1] <= 50,
        decreases n - v@.len(),
    {
        x = x + 1 + below(&mut rng, 50);
        let ghost had = v@;
        v.push(x);
        proof {
            grows(had, x);
        }
    }
    v
}

/// A larger key at the end keeps the order.
proof fn grows(had: Seq<u64>, x: u64)
    requires
        increasing(had),
        had.len() > 0 ==> had.last() < x,
    ensures
        increasing(had.push(x)),
{
    let v = had.push(x);
    assert forall|i: int, j: int| 0 <= i < j < v.len() implies v[i] < v[j] by {
        assert(v[i] == had[i]);
        if j == had.len() && i < had.len() - 1 {
            assert(had[i] < had[had.len() - 1]);
        }
    }
}

/// How far apart two neighbouring keys of clusters are: next to each other within a run, and
/// far apart between two runs.
pub open spec fn clustered(step: int) -> bool {
    step == 1 || 10_001 <= step <= 80_000
}

/// Runs of consecutive keys, far apart.
pub fn gen_clusters(n: usize, seed: u64) -> (v: Vec<u64>)
    requires
        80_001 * n <= u64::MAX,
    ensures
        v@.len() == n,
        increasing(v@),
        n > 0 ==> v@[0] == 1,
        forall|i: int| 0 < i < v@.len() ==> clustered(#[trigger] v@[i] - v@[i - 1]),
        forall|i: int| 0 < i < v@.len() && i < 50 ==> #[trigger] v@[i] - v@[i - 1] == 1,
{
    let mut rng = seeded(seed);
    let mut v: Vec<u64> = Vec::new();
    let mut x: u64 = 0;
    while v.len() < n
        invariant
            80_001 * n <= u64::MAX,
            v@.len() <= n,
            x <= 80_001 * v@.len(),
            v@.len() == 0 ==> x == 0,
            v@.len() > 0 ==> v@[0] == 1 && 10_000 <= x - v@.last() < 80_000,
            v@.len() == 0 || v@.len() >= 50 || v@.len() == n,
            increasing(v@),
            forall|i: int| 0 < i < v@.len() ==> clustered(#[trigger] v@[i] - v@[i - 1]),
            forall|i: int| 0 < i < v@.len() && i < 50 ==> #[trigger] v@[i] - v@[i - 1] == 1,
        decreases n - v@.len(),
    {
        let ghost start = v@.len();
        let run: usize = 50 + below(&mut rng, 350) as usize;
        let end: usize = if run < n - v.len() {
            v.len() + run
        } else {
            n
        };
        while v.len() < end
            invariant
                80_001 * n <= u64::MAX,
                start <= v@.len() <= end <= n,
                start < end,
                start == 0 || start >= 50,
                x <= 80_001 * start + (v@.len() - start),
                v@.len() == 0 ==> x == 0,
                v@.len() > 0 ==> v@[0] == 1 && x >= v@.last(),
                v@.len() > 0 && v@.len() == start ==> 10_000 <= x - v@.last() < 80_000,
                v@.len() > start ==> x == v@.last(),
                increasing(v@),
                forall|i: int| 0 < i < v@.len() ==> clustered(#[trigger] v@[i] - v@[i - 1]),
                forall|i: int| 0 < i < v@.len() && i < 50 ==> #[trigger] v@[i] - v@[i - 1] == 1,
            decreases end - v@.len(),
        {
            x = x + 1;
            let ghost had = v@;
            v.push(x);
            proof {
                grows(had, x);
                if had.len() > 0 {
                    assert(v@[had.len() - 1] == had.last());
                }
            }
        }
        x = x + 10_000 + below(&mut rng, 70_000);
    }
    v
}

} // verus!
