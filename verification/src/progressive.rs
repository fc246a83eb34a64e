//! Progressive revelation: a value's upper half decides first, its lower half only
//! where the upper one leaves the decision open.
use vstd::prelude::*;
use vstd::string::StringExecFns;

use crate::numbers::{ascending, sort};
use crate::random::{below, seeded};

verus! {

pub fn split(v: u32) -> (r: (u16, u16))
    ensures
        r.0 == v / 0x1_0000,
        r.1 == v % 0x1_0000,
{
    assert((v >> 16) as u16 == v / 0x1_0000 && v as u16 == v % 0x1_0000) by (bit_vector);
    ((v >> 16) as u16, v as u16)
}

/// The value of two halves.
pub open spec fn joined(hi: u16, lo: u16) -> int {
    hi * 0x1_0000 + lo
}

pub fn join(hi: u16, lo: u16) -> (v: u32)
    ensures
        v == joined(hi, lo),
{
    let (h, l) = (hi as u32, lo as u32);
    assert((h << 16) | l == h * 0x1_0000 + l) by (bit_vector)
        requires
            h <= 0xffff,
            l <= 0xffff,
    ;
    (h << 16) | l
}

/// A value joined from its own halves is the value, and halves split from a joined
/// value are the halves.
pub proof fn joining_undoes_splitting(v: u32, hi: u16, lo: u16)
    ensures
        joined((v / 0x1_0000) as u16, (v % 0x1_0000) as u16) == v,
        joined(hi, lo) / 0x1_0000 == hi,
        joined(hi, lo) % 0x1_0000 == lo,
{
}

fn bucket_bounds(hi: u16) -> (r: (u32, u32))
    ensures
        r.0 == joined(hi, 0),
        r.1 == joined(hi, 0xffff),
{
    (join(hi, 0), join(hi, 0xffff))
}

/// How many values are above a threshold.
pub open spec fn above(values: Seq<int>, t: int) -> nat
    decreases values.len(),
{
    if values.len() == 0 {
        0
    } else {
        above(values.drop_last(), t) + if values.last() > t {
            1nat
        } else {
            0nat
        }
    }
}

pub open spec fn plain(values: Seq<u32>) -> Seq<int> {
    values.map_values(|v: u32| v as int)
}

/// The values of two columns of halves.
pub open spec fn paired(hi: Seq<u16>, lo: Seq<u16>) -> Seq<int> {
    Seq::new(hi.len(), |i: int| joined(hi[i], lo[i]))
}

proof fn above_step(values: Seq<int>, t: int, i: int)
    requires
        0 <= i < values.len(),
    ensures
        above(values.take(i + 1), t) == above(values.take(i), t) + if values[i] > t {
            1nat
        } else {
            0nat
        },
        above(values.take(i), t) <= i,
    decreases i,
{
    assert(values.take(i + 1).drop_last() =~= values.take(i));
    if i > 0 {
        above_step(values, t, i - 1);
    }
}

pub fn filter_full(values: &[u32], t: u32) -> (c: u64)
    ensures
        c == above(plain(values@), t as int),
{
    let ghost all = plain(values@);
    let mut c: u64 = 0;
    let mut i: usize = 0;
    assert(all.take(0) =~= Seq::empty());
    while i < values.len()
        invariant
            all == plain(values@),
            i <= values@.len(),
            c == above(all.take(i as int), t as int),
            c <= i,
        decreases values@.len() - i,
    {
        proof {
            above_step(all, t as int, i as int);
        }
        if values[i] > t {
            c = c + 1;
        }
        i = i + 1;
    }
    assert(all.take(i as int) =~= all);
    c
}

pub fn filter_progressive(hi: &[u16], lo: &[u16], t: u32) -> (c: u64)
    requires
        lo@.len() >= hi@.len(),
    ensures
        c == above(paired(hi@, lo@), t as int),
{
    let ghost all = paired(hi@, lo@);
    let t_hi: u16 = split(t).0;
    let mut c: u64 = 0;
    let mut i: usize = 0;
    assert(all.take(0) =~= Seq::empty());
    while i < hi.len()
        invariant
            all == paired(hi@, lo@),
            lo@.len() >= hi@.len(),
            t_hi == t / 0x1_0000,
            i <= hi@.len(),
            c == above(all.take(i as int), t as int),
            c <= i,
        decreases hi@.len() - i,
    {
        proof {
            above_step(all, t as int, i as int);
        }
        let h: u16 = hi[i];
        if h > t_hi {
            c = c + 1;
        } else if h == t_hi {
            if join(h, lo[i]) > t {
                c = c + 1;
            }
        }
        i = i + 1;
    }
    assert(all.take(i as int) =~= all);
    c
}

/// How many upper halves from `i` on, of the next `n`, are above another one.
fn wider(hi: &[u16], i: usize, n: usize, t_hi: u16) -> (r: (u64, bool))
    requires
        i + n <= hi@.len(),
    ensures
        r.0 == above(plain_halves(hi@.subrange(i as int, i + n)), t_hi as int),
        r.0 <= n,
        !r.1 ==> !hi@.subrange(i as int, i + n).contains(t_hi),
{
    let ghost part = hi@.subrange(i as int, i + n);
    let ghost all = plain_halves(part);
    let size: usize = hi.len();
    let mut c: u64 = 0;
    let mut same: bool = false;
    let mut k: usize = 0;
    assert(all.take(0) =~= Seq::empty());
    while k < n
        invariant
            i + n <= size,
            size == hi@.len(),
            part == hi@.subrange(i as int, i + n),
            all == plain_halves(part),
            k <= n,
            c == above(all.take(k as int), t_hi as int),
            c <= k,
            !same ==> forall|j: int| 0 <= j < k ==> #[trigger] part[j] != t_hi,
        decreases n - k,
    {
        proof {
            above_step(all, t_hi as int, k as int);
        }
        if hi[i + k] > t_hi {
            c = c + 1;
        } else if hi[i + k] == t_hi {
            same = true;
        }
        k = k + 1;
    }
    assert(all.take(k as int) =~= all);
    (c, same)
}

pub open spec fn plain_halves(hi: Seq<u16>) -> Seq<int> {
    hi.map_values(|h: u16| h as int)
}

/// How many values of a part have the threshold's own upper half and are above it.
spec fn decided_late(hi: Seq<u16>, lo: Seq<u16>, t: int) -> nat
    decreases hi.len(),
{
    if hi.len() == 0 {
        0
    } else {
        decided_late(hi.drop_last(), lo, t) + if hi.last() == t / 0x1_0000 && joined(
            hi.last(),
            lo[hi.len() - 1],
        ) > t {
            1nat
        } else {
            0nat
        }
    }
}

proof fn halves_add_up(hi: Seq<u16>, lo: Seq<u16>, t: int)
    requires
        0 <= t <= u32::MAX,
    ensures
        above(paired(hi, lo), t) == above(plain_halves(hi), t / 0x1_0000) + decided_late(hi, lo, t),
        decided_late(hi, lo, t) <= hi.len(),
    decreases hi.len(),
{
    if hi.len() > 0 {
        let init = hi.drop_last();
        halves_add_up(init, lo, t);
        assert(paired(hi, lo).drop_last() =~= paired(init, lo));
        assert(plain_halves(hi).drop_last() =~= plain_halves(init));
    }
}

proof fn none_late(hi: Seq<u16>, lo: Seq<u16>, t: int)
    requires
        forall|j: int| 0 <= j < hi.len() ==> #[trigger] hi[j] != t / 0x1_0000,
    ensures
        decided_late(hi, lo, t) == 0,
    decreases hi.len(),
{
    if hi.len() > 0 {
        assert(hi[hi.len() - 1] != t / 0x1_0000);
        assert forall|j: int| 0 <= j < hi.drop_last().len() implies #[trigger] hi.drop_last()[j] != t
            / 0x1_0000 by {
            assert(hi.drop_last()[j] == hi[j]);
        }
        none_late(hi.drop_last(), lo, t);
    }
}

proof fn above_joined(a: Seq<int>, b: Seq<int>, t: int)
    ensures
        above(a + b, t) == above(a, t) + above(b, t),
    decreases b.len(),
{
    if b.len() == 0 {
        assert(a + b =~= a);
    } else {
        assert((a + b).drop_last() =~= a + b.drop_last());
        above_joined(a, b.drop_last(), t);
    }
}

/// The values of a part that its upper halves leave open.
fn residual(hi: &[u16], lo: &[u16], i: usize, n: usize, t: u32) -> (c: u64)
    requires
        i + n <= hi@.len() <= lo@.len(),
    ensures
        c == decided_late(
            hi@.subrange(i as int, i + n),
            lo@.subrange(i as int, i + n),
            t as int,
        ),
        c <= n,
{
    let ghost h = hi@.subrange(i as int, i + n);
    let ghost l = lo@.subrange(i as int, i + n);
    let t_hi: u16 = split(t).0;
    let size: usize = hi.len();
    let mut c: u64 = 0;
    let mut k: usize = 0;
    assert(h.take(0) =~= Seq::empty());
    while k < n
        invariant
            i + n <= size <= lo@.len(),
            size == hi@.len(),
            h == hi@.subrange(i as int, i + n),
            l == lo@.subrange(i as int, i + n),
            t_hi == t / 0x1_0000,
            k <= n,
            c == decided_late(h.take(k as int), l, t as int),
            c <= k,
        decreases n - k,
    {
        assert(h.take(k + 1).drop_last() =~= h.take(k as int));
        if hi[i + k] == t_hi && join(hi[i + k], lo[i + k]) > t {
            c = c + 1;
        }
        k = k + 1;
    }
    assert(h.take(k as int) =~= h);
    c
}

/// Sixteen upper halves at a time; lower halves only where one of them equals the
/// threshold's own.
pub fn filter_progressive_avx2(hi: &[u16], lo: &[u16], t: u32) -> (c: u64)
    requires
        lo@.len() >= hi@.len(),
    ensures
        c == above(paired(hi@, lo@), t as int),
{
    let t_hi: u16 = split(t).0;
    let ghost all = paired(hi@, lo@);
    let size: usize = hi.len();
    let mut c: u64 = 0;
    let mut i: usize = 0;
    assert(all.take(0) =~= Seq::empty());
    while i < size
        invariant
            all == paired(hi@, lo@),
            size == hi@.len(),
            lo@.len() >= size,
            t_hi == t / 0x1_0000,
            i <= size,
            c == above(all.take(i as int), t as int),
            c <= i,
        decreases size - i,
    {
        let n: usize = if size - i < 16 {
            size - i
        } else {
            16
        };
        let (wide, same): (u64, bool) = wider(hi, i, n, t_hi);
        let late: u64 = if same {
            residual(hi, lo, i, n, t)
        } else {
            0
        };
        proof {
            let h = hi@.subrange(i as int, i + n);
            let l = lo@.subrange(i as int, i + n);
            if !same {
                assert forall|j: int| 0 <= j < h.len() implies #[trigger] h[j] != (t as int)
                    / 0x1_0000 by {
                    assert(h.contains(h[j]));
                }
                none_late(h, l, t as int);
            }
            halves_add_up(h, l, t as int);
            above_joined(all.take(i as int), paired(h, l), t as int);
            assert(all.take(i + n) =~= all.take(i as int) + paired(h, l));
            above_bound(paired(h, l), t as int);
        }
        c = c + (wide + late);
        i = i + n;
    }
    assert(all.take(i as int) =~= all);
    c
}

proof fn above_bound(values: Seq<int>, t: int)
    ensures
        above(values, t) <= values.len(),
    decreases values.len(),
{
    if values.len() > 0 {
        above_bound(values.drop_last(), t);
    }
}

/// Whether a place holds the smallest value, and the first of its equals.
pub open spec fn first_least(values: Seq<int>, r: int) -> bool {
    &&& 0 <= r < values.len()
    &&& forall|j: int|
        0 <= j < values.len() ==> values[r] < #[trigger] values[j] || (values[r] == values[j] && r
            <= j)
}

/// The place of the smallest value. A value whose upper half alone cannot beat the best
/// one so far is not decoded.
pub fn argmin_progressive(hi: &[u16], lo: &[u16]) -> (r: usize)
    requires
        hi@.len() > 0,
        lo@.len() >= hi@.len(),
    ensures
        first_least(paired(hi@, lo@), r as int),
{
    let ghost all = paired(hi@, lo@);
    let mut best_i: usize = 0;
    let mut best: u32 = join(hi[0], lo[0]);
    let mut i: usize = 1;
    while i < hi.len()
        invariant
            all == paired(hi@, lo@),
            lo@.len() >= hi@.len(),
            1 <= i <= hi@.len(),
            best_i < i,
            best == all[best_i as int],
            forall|j: int|
                0 <= j < i ==> best < #[trigger] all[j] || (best == all[j] && best_i <= j),
        decreases hi@.len() - i,
    {
        let (min_v, _max_v): (u32, u32) = bucket_bounds(hi[i]);
        assert(all[i as int] == joined(hi@[i as int], lo@[i as int]));
        if min_v < best {
            let v: u32 = join(hi[i], lo[i]);
            if v < best {
                best = v;
                best_i = i;
            }
        }
        i = i + 1;
    }
    best_i
}

pub fn argmin_full(values: &[u32]) -> (r: usize)
    ensures
        values@.len() == 0 ==> r == 0,
        values@.len() > 0 ==> first_least(plain(values@), r as int),
{
    let ghost all = plain(values@);
    let mut best: usize = 0;
    let mut i: usize = 1;
    while i < values.len()
        invariant
            all == plain(values@),
            1 <= i,
            values@.len() > 0 ==> i <= values@.len(),
            best < i,
            values@.len() == 0 ==> best == 0,
            forall|j: int|
                0 <= j < i && j < values@.len() ==> all[best as int] < #[trigger] all[j] || (
                all[best as int] == all[j] && best <= j),
        decreases values@.len() - i,
    {
        assert(all[i as int] == values@[i as int]);
        assert(all[best as int] == values@[best as int]);
        if values[i] < values[best] {
            best = i;
        }
        i = i + 1;
    }
    best
}

pub const BLOCK: usize = 1024;

/// Where a block begins, or the end of the values.
pub open spec fn edge(size: int, b: int) -> int {
    if b * BLOCK < size {
        b * BLOCK
    } else {
        size
    }
}

/// Whether the bounds of the first `n` blocks hold, and all of them are blocks.
pub open spec fn bounded(values: Seq<u32>, mins: Seq<u32>, maxs: Seq<u32>, n: int) -> bool {
    &&& mins.len() >= n
    &&& maxs.len() >= n
    &&& forall|b: int, i: int|
        0 <= b < n && edge(values.len() as int, b) <= i < edge(values.len() as int, b + 1)
            ==> #[trigger] mins[b] <= #[trigger] values[i] <= maxs[b]
}

/// Whether a bound is reached in its block.
pub open spec fn reached(values: Seq<u32>, b: int, v: u32) -> bool {
    exists|i: int|
        edge(values.len() as int, b) <= i < edge(values.len() as int, b + 1) && #[trigger] values[i]
            == v
}

/// Whether all bounds are reached.
pub open spec fn tight(values: Seq<u32>, mins: Seq<u32>, maxs: Seq<u32>) -> bool {
    forall|b: int|
        0 <= b < mins.len() ==> reached(values, b, #[trigger] mins[b]) && reached(
            values,
            b,
            maxs[b],
        )
}

/// The smallest and the largest value of each block.
pub fn block_bounds(values: &[u32]) -> (r: (Vec<u32>, Vec<u32>))
    ensures
        r.0@.len() == r.1@.len(),
        edge(values@.len() as int, r.0@.len() as int) == values@.len(),
        bounded(values@, r.0@, r.1@, r.0@.len() as int),
        tight(values@, r.0@, r.1@),
{
    let mut mins: Vec<u32> = Vec::new();
    let mut maxs: Vec<u32> = Vec::new();
    let size: usize = values.len();
    let mut i: usize = 0;
    while i < size
        invariant
            size == values@.len(),
            i <= size,
            mins@.len() == maxs@.len(),
            i == edge(size as int, mins@.len() as int),
            bounded(values@, mins@, maxs@, mins@.len() as int),
            tight(values@, mins@, maxs@),
        decreases size - i,
    {
        let n: usize = if size - i < BLOCK {
            size - i
        } else {
            BLOCK
        };
        let ghost b = mins@.len() as int;
        assert(edge(size as int, b + 1) == i + n) by {
            assert((b + 1) * BLOCK == b * BLOCK + BLOCK);
        }
        let mut mn: u32 = values[i];
        let mut mx: u32 = values[i];
        let mut k: usize = i;
        while k < i + n
            invariant
                size == values@.len(),
                i <= k <= i + n <= size,
                i < i + n,
                k > i ==> exists|j: int| i <= j < k && #[trigger] values@[j] == mn,
                k > i ==> exists|j: int| i <= j < k && #[trigger] values@[j] == mx,
                k == i ==> mn == values@[i as int] && mx == mn,
                forall|j: int| i <= j < k ==> mn <= #[trigger] values@[j] <= mx,
            decreases i + n - k,
        {
            let v: u32 = values[k];
            if v < mn {
                mn = v;
            }
            if v > mx {
                mx = v;
            }
            proof {
                assert(values@[k as int] == v);
                if k > i {
                    if mn != v {
                        let j = choose|j: int| i <= j < k && #[trigger] values@[j] == mn;
                        assert(i <= j < k + 1 && values@[j] == mn);
                    }
                    if mx != v {
                        let j = choose|j: int| i <= j < k && #[trigger] values@[j] == mx;
                        assert(i <= j < k + 1 && values@[j] == mx);
                    }
                }
            }
            k = k + 1;
        }
        let ghost (had_mins, had_maxs) = (mins@, maxs@);
        mins.push(mn);
        maxs.push(mx);
        proof {
            assert(reached(values@, b, mn));
            assert(reached(values@, b, mx));
            assert forall|c: int| 0 <= c < mins@.len() implies reached(
                values@,
                c,
                #[trigger] mins@[c],
            ) && reached(values@, c, maxs@[c]) by {
                if c < b {
                    assert(reached(values@, c, had_mins[c]));
                }
            }
            assert forall|c: int, j: int|
                0 <= c < mins@.len() && edge(size as int, c) <= j < edge(size as int, c + 1) implies
                #[trigger] mins@[c] <= #[trigger] values@[j] <= maxs@[c] by {
                if c < b {
                    assert(had_mins[c] <= values@[j] <= had_maxs[c]);
                }
            }
        }
        i = i + n;
    }
    (mins, maxs)
}

proof fn above_none(values: Seq<int>, t: int)
    requires
        forall|i: int| 0 <= i < values.len() ==> #[trigger] values[i] <= t,
    ensures
        above(values, t) == 0,
    decreases values.len(),
{
    if values.len() > 0 {
        let init = values.drop_last();
        assert forall|i: int| 0 <= i < init.len() implies #[trigger] init[i] <= t by {
            assert(init[i] == values[i]);
        }
        above_none(init, t);
        assert(values[values.len() - 1] <= t);
    }
}

proof fn above_all(values: Seq<int>, t: int)
    requires
        forall|i: int| 0 <= i < values.len() ==> #[trigger] values[i] > t,
    ensures
        above(values, t) == values.len(),
    decreases values.len(),
{
    if values.len() > 0 {
        let init = values.drop_last();
        assert forall|i: int| 0 <= i < init.len() implies #[trigger] init[i] > t by {
            assert(init[i] == values[i]);
        }
        above_all(init, t);
        assert(values[values.len() - 1] > t);
    }
}

fn filter_part(values: &[u32], i: usize, n: usize, t: u32) -> (c: u64)
    requires
        i + n <= values@.len(),
    ensures
        c == above(plain(values@.subrange(i as int, i + n)), t as int),
{
    let ghost all = plain(values@.subrange(i as int, i + n));
    let size: usize = values.len();
    let mut c: u64 = 0;
    let mut k: usize = 0;
    assert(all.take(0) =~= Seq::empty());
    while k < n
        invariant
            i + n <= size,
            size == values@.len(),
            all == plain(values@.subrange(i as int, i + n)),
            k <= n,
            c == above(all.take(k as int), t as int),
            c <= k,
        decreases n - k,
    {
        proof {
            above_step(all, t as int, k as int);
        }
        if values[i + k] > t {
            c = c + 1;
        }
        k = k + 1;
    }
    assert(all.take(k as int) =~= all);
    c
}

/// Blocks whose bounds decide are not read.
pub fn filter_blocks(values: &[u32], mins: &[u32], maxs: &[u32], t: u32) -> (c: u64)
    requires
        edge(values@.len() as int, mins@.len() as int) == values@.len(),
        bounded(values@, mins@, maxs@, mins@.len() as int),
    ensures
        c == above(plain(values@), t as int),
{
    let ghost all = plain(values@);
    let size: usize = values.len();
    let mut c: u64 = 0;
    let mut i: usize = 0;
    let mut b: usize = 0;
    assert(all.take(0) =~= Seq::empty());
    while i < size
        invariant
            all == plain(values@),
            size == values@.len(),
            i <= size,
            i == edge(size as int, b as int),
            edge(size as int, mins@.len() as int) == size,
            bounded(values@, mins@, maxs@, mins@.len() as int),
            c == above(all.take(i as int), t as int),
            c <= i,
        decreases size - i,
    {
        let n: usize = if size - i < BLOCK {
            size - i
        } else {
            BLOCK
        };
        assert(b < mins@.len()) by {
            if b >= mins@.len() {
                assert(b * BLOCK >= mins@.len() * BLOCK) by (nonlinear_arith)
                    requires
                        b >= mins@.len(),
                        BLOCK > 0,
                ;
            }
        }
        assert(edge(size as int, b + 1) == i + n) by {
            assert((b + 1) * BLOCK == b * BLOCK + BLOCK);
        }
        let ghost part = plain(values@.subrange(i as int, i + n));
        proof {
            assert forall|j: int| 0 <= j < part.len() implies mins@[b as int] <= #[trigger] part[j]
                <= maxs@[b as int] by {
                assert(edge(size as int, b as int) <= i + j < edge(size as int, b as int + 1));
                assert(part[j] == values@[i + j]);
                assert(mins@[b as int] <= values@[i + j]);
            }
            above_joined(all.take(i as int), part, t as int);
            assert(all.take(i + n) =~= all.take(i as int) + part);
            above_bound(part, t as int);
        }
        if maxs[b] <= t {
            proof {
                above_none(part, t as int);
            }
        } else if mins[b] > t {
            proof {
                above_all(part, t as int);
            }
            c = c + n as u64;
        } else {
            c = c + filter_part(values, i, n, t);
        }
        i = i + n;
        b = b + 1;
    }
    assert(all.take(i as int) =~= all);
    c
}

/// Random values: grouped in order within a narrow range, or all over.
pub fn gen(n: usize, seed: u64, clustered: bool) -> (values: Vec<u32>)
    ensures
        values@.len() == n,
        clustered ==> forall|i: int, j: int|
            0 <= i <= j < n ==> 1_000_000 <= #[trigger] values@[i] <= #[trigger] values@[j] < 1_050_000,
        !clustered ==> forall|i: int| 0 <= i < n ==> #[trigger] values@[i] < 0x1000_0000,
{
    let mut rng = seeded(seed);
    let mut values: Vec<u32> = Vec::new();
    if clustered {
        let mut wide: Vec<u64> = Vec::new();
        while wide.len() < n
            invariant
                wide@.len() <= n,
                forall|i: int| 0 <= i < wide@.len() ==> 1_000_000 <= #[trigger] wide@[i] < 1_050_000,
            decreases n - wide@.len(),
        {
            wide.push(1_000_000 + below(&mut rng, 50_000));
        }
        let ghost drawn = wide@;
        sort(&mut wide);
        proof {
            drawn.to_multiset_ensures();
            wide@.to_multiset_ensures();
            assert forall|i: int| 0 <= i < wide@.len() implies 1_000_000 <= #[trigger] wide@[i]
                < 1_050_000 by {
                assert(wide@.contains(wide@[i]));
                assert(wide@.to_multiset().count(wide@[i]) > 0);
                assert(drawn.contains(wide@[i]));
            }
        }
        let mut i: usize = 0;
        while i < wide.len()
            invariant
                wide@.len() == n,
                i <= n,
                values@.len() == i,
                ascending(wide@),
                forall|k: int|
                    0 <= k < wide@.len() ==> 1_000_000 <= #[trigger] wide@[k] < 1_050_000,
                forall|k: int| 0 <= k < i ==> #[trigger] values@[k] == wide@[k],
            decreases n - i,
        {
            values.push(wide[i] as u32);
            i = i + 1;
        }
    } else {
        while values.len() < n
            invariant
                values@.len() <= n,
                forall|i: int| 0 <= i < values@.len() ==> #[trigger] values@[i] < 0x1000_0000,
            decreases n - values@.len(),
        {
            values.push(below(&mut rng, 0x1000_0000) as u32);
        }
    }
    values
}

/// Both halves of every value.
pub fn halves(values: &[u32]) -> (r: (Vec<u16>, Vec<u16>))
    ensures
        r.0@.len() == values@.len(),
        r.1@.len() == values@.len(),
        paired(r.0@, r.1@) == plain(values@),
{
    let mut hi: Vec<u16> = Vec::new();
    let mut lo: Vec<u16> = Vec::new();
    let mut i: usize = 0;
    while i < values.len()
        invariant
            i <= values@.len(),
            hi@.len() == i,
            lo@.len() == i,
            forall|k: int| 0 <= k < i ==> joined(#[trigger] hi@[k], lo@[k]) == values@[k],
        decreases values@.len() - i,
    {
        let (h, l): (u16, u16) = split(values[i]);
        hi.push(h);
        lo.push(l);
        i = i + 1;
    }
    assert(paired(hi@, lo@) =~= plain(values@));
    (hi, lo)
}

/// All filters count the same, and both searches find the same place.
pub fn check_values(values: &[u32]) -> (r: Result<(), String>)
    requires
        values@.len() > 0,
    ensures
        r is Ok,
{
    let (hi, lo): (Vec<u16>, Vec<u16>) = halves(values);
    let (mins, maxs): (Vec<u32>, Vec<u32>) = block_bounds(values);
    let marks: Vec<u32> = vec![0, 50_000, 1_010_000, 2_000_000, u32::MAX - 10];
    let mut m: usize = 0;
    while m < marks.len()
        invariant
            m <= marks@.len(),
            hi@.len() == values@.len(),
            lo@.len() == values@.len(),
            paired(hi@, lo@) == plain(values@),
            edge(values@.len() as int, mins@.len() as int) == values@.len(),
            bounded(values@, mins@, maxs@, mins@.len() as int),
        decreases marks@.len() - m,
    {
        let t: u32 = marks[m];
        let a: u64 = filter_full(values, t);
        let b: u64 = filter_progressive(hi.as_slice(), lo.as_slice(), t);
        let c: u64 = filter_progressive_avx2(hi.as_slice(), lo.as_slice(), t);
        let d: u64 = filter_blocks(values, mins.as_slice(), maxs.as_slice(), t);
        if a != b || a != c || a != d {
            return Err(String::from_str("filter mismatch"));
        }
        m = m + 1;
    }
    let i: usize = argmin_full(values);
    let j: usize = argmin_progressive(hi.as_slice(), lo.as_slice());
    proof {
        let all = plain(values@);
        assert(all[i as int] <= all[j as int] && all[j as int] <= all[i as int]);
        assert(values@[i as int] == all[i as int] && values@[j as int] == all[j as int]);
    }
    if values[i] != values[j] {
        return Err(String::from_str("argmin mismatch"));
    }
    Ok(())
}

pub fn correctness() -> (r: Result<(), String>)
    ensures
        r is Ok,
{
    check_values(gen(10_000, 4, true).as_slice())?;
    check_values(gen(10_000, 4, false).as_slice())
}

} // verus!
