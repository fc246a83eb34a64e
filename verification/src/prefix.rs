//! The sum of all values whose key is at most a bound: scans of rows and of columns,
//! block summaries, and a Fenwick tree over dense unique keys.
use vstd::prelude::*;
use vstd::string::StringExecFns;

use crate::fenwick::{added_upto, additions_add_up, grows, narrow, narrow_fits, Fenwick};
use crate::numbers::{sum, sum_update};
use crate::random::{seeded, shuffle};

verus! {

pub const BLOCK: usize = 512;

/// A wide row.
#[derive(Clone, Copy)]
pub struct Row {
    pub key: u32,
    pub value: i32,
    pub pad: [u8; 56],
}

/// What is known of a block of rows: its smallest and largest key and its sum.
#[derive(Clone, Copy, Debug, PartialEq, Eq, Structural)]
pub struct Block {
    pub lo: u32,
    pub hi: u32,
    pub sum: i64,
}

/// The sum of the values whose keys are at most `t`.
pub open spec fn upto(keys: Seq<u32>, vals: Seq<i32>, t: int) -> int
    decreases keys.len(),
{
    if keys.len() == 0 {
        0
    } else {
        upto(keys.drop_last(), vals, t) + if keys.last() <= t {
            vals[keys.len() - 1] as int
        } else {
            0
        }
    }
}

pub open spec fn row_keys(rows: Seq<Row>) -> Seq<u32> {
    rows.map_values(|r: Row| r.key)
}

pub open spec fn row_vals(rows: Seq<Row>) -> Seq<i32> {
    rows.map_values(|r: Row| r.value)
}

proof fn upto_step(keys: Seq<u32>, vals: Seq<i32>, t: int, i: int)
    requires
        0 <= i < keys.len(),
    ensures
        upto(keys.take(i + 1), vals, t) == upto(keys.take(i), vals, t) + if keys[i] <= t {
            vals[i] as int
        } else {
            0
        },
        -0x8000_0000 * i <= upto(keys.take(i), vals, t) <= 0x8000_0000 * i,
    decreases i,
{
    assert(keys.take(i + 1).drop_last() =~= keys.take(i));
    if i > 0 {
        upto_step(keys, vals, t, i - 1);
    }
}

/// Whether every running sum up to a bound can be held.
pub open spec fn sums_fit(keys: Seq<u32>, vals: Seq<i32>, t: int) -> bool {
    forall|n: int|
        0 <= n <= keys.len() ==> i64::MIN <= #[trigger] upto(keys.take(n), vals, t) <= i64::MAX
}

/// The sums of no more rows than there are keys can be held.
pub proof fn few_rows_fit(keys: Seq<u32>, vals: Seq<i32>, t: int)
    requires
        keys.len() <= 0x1_0000_0000,
    ensures
        sums_fit(keys, vals, t),
{
    assert forall|n: int| 0 <= n <= keys.len() implies i64::MIN <= #[trigger] upto(
        keys.take(n),
        vals,
        t,
    ) <= i64::MAX by {
        upto_bound(keys.take(n), vals, t);
    }
}

pub fn scan_rows(rows: &[Row], t: u32) -> (s: i64)
    requires
        sums_fit(row_keys(rows@), row_vals(rows@), t as int),
    ensures
        s == upto(row_keys(rows@), row_vals(rows@), t as int),
{
    let ghost (keys, vals) = (row_keys(rows@), row_vals(rows@));
    let mut s: i64 = 0;
    let mut i: usize = 0;
    assert(keys.take(0) =~= Seq::empty());
    while i < rows.len()
        invariant
            sums_fit(keys, vals, t as int),
            keys == row_keys(rows@),
            vals == row_vals(rows@),
            i <= rows@.len(),
            s == upto(keys.take(i as int), vals, t as int),
        decreases rows@.len() - i,
    {
        proof {
            upto_step(keys, vals, t as int, i as int);
            assert(i64::MIN <= upto(keys.take(i + 1), vals, t as int) <= i64::MAX);
        }
        if rows[i].key <= t {
            s = s + rows[i].value as i64;
        }
        i = i + 1;
    }
    assert(keys.take(i as int) =~= keys);
    s
}

pub fn scan_cols(keys: &[u32], vals: &[i32], t: u32) -> (s: i64)
    requires
        sums_fit(keys@, vals@, t as int),
        vals@.len() >= keys@.len(),
    ensures
        s == upto(keys@, vals@, t as int),
{
    let mut s: i64 = 0;
    let mut i: usize = 0;
    assert(keys@.take(0) =~= Seq::empty());
    while i < keys.len()
        invariant
            sums_fit(keys@, vals@, t as int),
            vals@.len() >= keys@.len(),
            i <= keys@.len(),
            s == upto(keys@.take(i as int), vals@, t as int),
        decreases keys@.len() - i,
    {
        proof {
            upto_step(keys@, vals@, t as int, i as int);
            assert(i64::MIN <= upto(keys@.take(i + 1), vals@, t as int) <= i64::MAX);
        }
        if keys[i] <= t {
            s = s + vals[i] as i64;
        }
        i = i + 1;
    }
    assert(keys@.take(i as int) =~= keys@);
    s
}

/// Where a block begins, or the end of the rows.
pub open spec fn edge(size: int, g: int) -> int {
    if g * BLOCK < size {
        g * BLOCK
    } else {
        size
    }
}

/// The sum of a run of values.
pub open spec fn run_sum(vals: Seq<i32>, a: int, b: int) -> int
    decreases b - a,
{
    if b <= a {
        0
    } else {
        run_sum(vals, a, b - 1) + vals[b - 1]
    }
}

/// Whether a block is a summary of its rows.
pub open spec fn sums_up(keys: Seq<u32>, vals: Seq<i32>, g: int, block: Block) -> bool {
    let (a, b) = (edge(keys.len() as int, g), edge(keys.len() as int, g + 1));
    &&& forall|i: int| a <= i < b ==> block.lo <= #[trigger] keys[i] <= block.hi
    &&& block.sum == run_sum(vals, a, b)
}

/// Whether blocks are the summaries of all rows.
pub open spec fn summarized(keys: Seq<u32>, vals: Seq<i32>, blocks: Seq<Block>) -> bool {
    &&& edge(keys.len() as int, blocks.len() as int) == keys.len()
    &&& forall|g: int| 0 <= g < blocks.len() ==> sums_up(keys, vals, g, #[trigger] blocks[g])
}

proof fn run_bound(vals: Seq<i32>, a: int, b: int)
    requires
        a <= b,
    ensures
        -0x8000_0000 * (b - a) <= run_sum(vals, a, b) <= 0x8000_0000 * (b - a),
    decreases b - a,
{
    if a < b {
        run_bound(vals, a, b - 1);
    }
}

/// Whether the bounds of a block are keys of it.
pub open spec fn bounds_met(keys: Seq<u32>, g: int, block: Block) -> bool {
    let (a, b) = (edge(keys.len() as int, g), edge(keys.len() as int, g + 1));
    &&& exists|i: int| a <= i < b && #[trigger] keys[i] == block.lo
    &&& exists|i: int| a <= i < b && #[trigger] keys[i] == block.hi
}

fn make_block(keys: &[u32], vals: &[i32], from: usize, end: usize) -> (block: Block)
    requires
        from < end <= keys@.len() <= vals@.len(),
        end - from <= BLOCK,
    ensures
        forall|i: int| from <= i < end ==> block.lo <= #[trigger] keys@[i] <= block.hi,
        exists|i: int| from <= i < end && #[trigger] keys@[i] == block.lo,
        exists|i: int| from <= i < end && #[trigger] keys@[i] == block.hi,
        block.sum == run_sum(vals@, from as int, end as int),
{
    let mut lo: u32 = keys[from];
    let mut hi: u32 = keys[from];
    let mut s: i64 = vals[from] as i64;
    let mut j: usize = from + 1;
    assert(run_sum(vals@, from as int, from as int) == 0);
    assert(keys@[from as int] == lo);
    while j < end
        invariant
            from < j <= end <= keys@.len() <= vals@.len(),
            end - from <= BLOCK,
            forall|i: int| from <= i < j ==> lo <= #[trigger] keys@[i] <= hi,
            exists|i: int| from <= i < j && #[trigger] keys@[i] == lo,
            exists|i: int| from <= i < j && #[trigger] keys@[i] == hi,
            s == run_sum(vals@, from as int, j as int),
        decreases end - j,
    {
        proof {
            run_bound(vals@, from as int, j as int);
        }
        let k: u32 = keys[j];
        assert(keys@[j as int] == k);
        if k < lo {
            lo = k;
        }
        if k > hi {
            hi = k;
        }
        s = s + vals[j] as i64;
        j = j + 1;
    }
    Block { lo, hi, sum: s }
}

pub fn make_blocks(keys: &[u32], vals: &[i32]) -> (blocks: Vec<Block>)
    requires
        keys@.len() <= vals@.len(),
    ensures
        summarized(keys@, vals@, blocks@),
        forall|g: int| 0 <= g < blocks@.len() ==> bounds_met(keys@, g, #[trigger] blocks@[g]),
{
    let mut blocks: Vec<Block> = Vec::new();
    let size: usize = keys.len();
    let mut i: usize = 0;
    while i < size
        invariant
            size == keys@.len(),
            size <= vals@.len(),
            i <= size,
            i == edge(size as int, blocks@.len() as int),
            forall|g: int|
                0 <= g < blocks@.len() ==> sums_up(keys@, vals@, g, #[trigger] blocks@[g])
                    && bounds_met(keys@, g, blocks@[g]),
        decreases size - i,
    {
        let end: usize = if size - i < BLOCK {
            size
        } else {
            i + BLOCK
        };
        let ghost g = blocks@.len() as int;
        assert(edge(size as int, g + 1) == end) by {
            assert((g + 1) * BLOCK == g * BLOCK + BLOCK);
        }
        let block = make_block(keys, vals, i, end);
        assert(sums_up(keys@, vals@, g, block));
        assert(bounds_met(keys@, g, block));
        blocks.push(block);
        i = end;
    }
    blocks
}

/// A run of rows, all of which count.
proof fn run_all(keys: Seq<u32>, vals: Seq<i32>, t: int, a: int, b: int)
    requires
        0 <= a <= b <= keys.len(),
        forall|i: int| a <= i < b ==> #[trigger] keys[i] <= t,
    ensures
        upto(keys.take(b), vals, t) == upto(keys.take(a), vals, t) + run_sum(vals, a, b),
    decreases b - a,
{
    if a < b {
        run_all(keys, vals, t, a, b - 1);
        upto_step(keys, vals, t, b - 1);
        assert(keys[b - 1] <= t);
    }
}

/// A run of rows, none of which counts.
proof fn run_none(keys: Seq<u32>, vals: Seq<i32>, t: int, a: int, b: int)
    requires
        0 <= a <= b <= keys.len(),
        forall|i: int| a <= i < b ==> #[trigger] keys[i] > t,
    ensures
        upto(keys.take(b), vals, t) == upto(keys.take(a), vals, t),
    decreases b - a,
{
    if a < b {
        run_none(keys, vals, t, a, b - 1);
        upto_step(keys, vals, t, b - 1);
        assert(keys[b - 1] > t);
    }
}

proof fn upto_bound(keys: Seq<u32>, vals: Seq<i32>, t: int)
    ensures
        -0x8000_0000 * keys.len() <= upto(keys, vals, t) <= 0x7fff_ffff * keys.len(),
    decreases keys.len(),
{
    if keys.len() > 0 {
        upto_bound(keys.drop_last(), vals, t);
    }
}

/// Reads only the blocks that the bound cuts.
pub fn block_query_cols(keys: &[u32], vals: &[i32], blocks: &[Block], t: u32) -> (s: i64)
    requires
        sums_fit(keys@, vals@, t as int),
        vals@.len() >= keys@.len(),
        summarized(keys@, vals@, blocks@),
    ensures
        s == upto(keys@, vals@, t as int),
{
    let size: usize = keys.len();
    let mut s: i64 = 0;
    let mut i: usize = 0;
    let mut g: usize = 0;
    assert(keys@.take(0) =~= Seq::empty());
    while i < size
        invariant
            size == keys@.len(),
            sums_fit(keys@, vals@, t as int),
            vals@.len() >= size,
            summarized(keys@, vals@, blocks@),
            i <= size,
            i == edge(size as int, g as int),
            s == upto(keys@.take(i as int), vals@, t as int),
        decreases size - i,
    {
        let end: usize = if size - i < BLOCK {
            size
        } else {
            i + BLOCK
        };
        proof {
            next_block(size as int, g as int, blocks@.len() as int, i as int, end as int);
            assert(sums_up(keys@, vals@, g as int, blocks@[g as int]));
            assert(i64::MIN <= upto(keys@.take(end as int), vals@, t as int) <= i64::MAX);
        }
        let b = blocks[g];
        if b.lo > t {
            proof {
                run_none(keys@, vals@, t as int, i as int, end as int);
            }
        } else if b.hi <= t {
            proof {
                run_all(keys@, vals@, t as int, i as int, end as int);
            }
            s = s + b.sum;
        } else {
            let mut j: usize = i;
            while j < end
                invariant
                    size == keys@.len(),
                    sums_fit(keys@, vals@, t as int),
                    vals@.len() >= size,
                    i <= j <= end <= size,
                    s == upto(keys@.take(j as int), vals@, t as int),
                decreases end - j,
            {
                proof {
                    upto_step(keys@, vals@, t as int, j as int);
                    assert(i64::MIN <= upto(keys@.take(j + 1), vals@, t as int) <= i64::MAX);
                }
                if keys[j] <= t {
                    s = s + vals[j] as i64;
                }
                j = j + 1;
            }
        }
        i = end;
        g = g + 1;
    }
    assert(keys@.take(i as int) =~= keys@);
    s
}

proof fn next_block(size: int, g: int, n: int, i: int, end: int)
    requires
        0 <= g,
        0 <= n,
        i == edge(size, g),
        i < size,
        edge(size, n) == size,
        end == if size - i < BLOCK {
            size
        } else {
            i + BLOCK
        },
    ensures
        g < n,
        edge(size, g + 1) == end,
{
    assert((g + 1) * BLOCK == g * BLOCK + BLOCK);
    if g >= n {
        let b = BLOCK as int;
        assert(g * b >= n * b) by (nonlinear_arith)
            requires
                g >= n,
                b > 0,
        ;
    }
}

/// The same over rows.
pub fn block_query_rows(rows: &[Row], blocks: &[Block], t: u32) -> (s: i64)
    requires
        sums_fit(row_keys(rows@), row_vals(rows@), t as int),
        summarized(row_keys(rows@), row_vals(rows@), blocks@),
    ensures
        s == upto(row_keys(rows@), row_vals(rows@), t as int),
{
    let ghost (keys, vals) = (row_keys(rows@), row_vals(rows@));
    let size: usize = rows.len();
    let mut s: i64 = 0;
    let mut i: usize = 0;
    let mut g: usize = 0;
    assert(keys.take(0) =~= Seq::empty());
    while i < size
        invariant
            size == rows@.len(),
            sums_fit(keys, vals, t as int),
            keys == row_keys(rows@),
            vals == row_vals(rows@),
            summarized(keys, vals, blocks@),
            i <= size,
            i == edge(size as int, g as int),
            s == upto(keys.take(i as int), vals, t as int),
        decreases size - i,
    {
        let end: usize = if size - i < BLOCK {
            size
        } else {
            i + BLOCK
        };
        proof {
            next_block(size as int, g as int, blocks@.len() as int, i as int, end as int);
            assert(sums_up(keys, vals, g as int, blocks@[g as int]));
            assert(i64::MIN <= upto(keys.take(end as int), vals, t as int) <= i64::MAX);
        }
        let b = blocks[g];
        if b.lo > t {
            proof {
                run_none(keys, vals, t as int, i as int, end as int);
            }
        } else if b.hi <= t {
            proof {
                run_all(keys, vals, t as int, i as int, end as int);
            }
            s = s + b.sum;
        } else {
            let mut j: usize = i;
            while j < end
                invariant
                    size == rows@.len(),
                    sums_fit(keys, vals, t as int),
                    keys == row_keys(rows@),
                    vals == row_vals(rows@),
                    i <= j <= end <= size,
                    s == upto(keys.take(j as int), vals, t as int),
                decreases end - j,
            {
                proof {
                    upto_step(keys, vals, t as int, j as int);
                    assert(i64::MIN <= upto(keys.take(j + 1), vals, t as int) <= i64::MAX);
                }
                if rows[j].key <= t {
                    s = s + rows[j].value as i64;
                }
                j = j + 1;
            }
        }
        i = end;
        g = g + 1;
    }
    assert(keys.take(i as int) =~= keys);
    s
}

/// Whether the keys are the numbers from zero on, each once, in some order.
pub open spec fn dense(keys: Seq<u32>) -> bool {
    &&& keys.no_duplicates()
    &&& forall|i: int| 0 <= i < keys.len() ==> #[trigger] keys[i] < keys.len()
}

/// The values of the first `n` rows, by their keys; zero where no key is yet.
pub open spec fn by_key(keys: Seq<u32>, vals: Seq<i32>, n: int) -> Seq<i64>
    decreases n,
{
    if n <= 0 {
        Seq::new(keys.len(), |i: int| 0i64)
    } else {
        by_key(keys, vals, n - 1).update(keys[n - 1] as int, vals[n - 1] as i64)
    }
}

proof fn by_key_shape(keys: Seq<u32>, vals: Seq<i32>, n: int, k: int)
    requires
        dense(keys),
        0 <= n <= keys.len(),
        0 <= k < keys.len(),
    ensures
        by_key(keys, vals, n).len() == keys.len(),
        (forall|i: int| 0 <= i < n ==> #[trigger] keys[i] != k) ==> by_key(keys, vals, n)[k] == 0,
        forall|i: int|
            0 <= i < n && #[trigger] keys[i] == k ==> by_key(keys, vals, n)[k] == vals[i],
    decreases n,
{
    if n > 0 {
        by_key_shape(keys, vals, n - 1, k);
        assert(keys[n - 1] < keys.len());
        assert forall|i: int| 0 <= i < n && #[trigger] keys[i] == k implies by_key(keys, vals, n)[k]
            == vals[i] by {
            if i < n - 1 && keys[n - 1] == k {
                assert(keys[i] != keys[n - 1]);
            }
        }
    }
}

proof fn zeros_sum(s: Seq<i64>)
    requires
        forall|i: int| 0 <= i < s.len() ==> #[trigger] s[i] == 0,
    ensures
        sum(s) == 0,
    decreases s.len(),
{
    if s.len() > 0 {
        zeros_sum(s.drop_last());
        assert(s[s.len() - 1] == 0);
    }
}

/// The values whose keys are at most a bound are the first ones by their keys.
pub proof fn prefix_by_key(keys: Seq<u32>, vals: Seq<i32>, n: int, t: int)
    requires
        dense(keys),
        0 <= n <= keys.len(),
        0 <= t < keys.len(),
    ensures
        upto(keys.take(n), vals, t) == sum(by_key(keys, vals, n).take(t + 1)),
    decreases n,
{
    if n == 0 {
        assert(keys.take(0) =~= Seq::empty());
        by_key_shape(keys, vals, 0, 0);
        zeros_sum(by_key(keys, vals, 0).take(t + 1));
    } else {
        prefix_by_key(keys, vals, n - 1, t);
        upto_step(keys, vals, t, n - 1);
        let w = by_key(keys, vals, n - 1);
        let k = keys[n - 1] as int;
        let v = vals[n - 1] as i64;
        by_key_shape(keys, vals, n - 1, k);
        assert forall|i: int| 0 <= i < n - 1 implies #[trigger] keys[i] != k by {
            assert(keys[i] != keys[n - 1]);
        }
        assert(w[k] == 0);
        sum_update(w, k, v);
        if k <= t {
            assert(w.update(k, v).take(t + 1) =~= w.take(t + 1).update(k, v));
            sum_update(w.take(t + 1), k, v);
        } else {
            assert(w.update(k, v).take(t + 1) =~= w.take(t + 1));
        }
    }
}

/// The values in the order of their keys.
pub fn arranged(keys: &[u32], vals: &[i32]) -> (w: Vec<i64>)
    requires
        dense(keys@),
        vals@.len() >= keys@.len(),
    ensures
        w@ == by_key(keys@, vals@, keys@.len() as int),
        w@.len() == keys@.len(),
{
    let size: usize = keys.len();
    let mut w: Vec<i64> = Vec::new();
    let mut i: usize = 0;
    while i < size
        invariant
            size == keys@.len(),
            i <= size,
            w@.len() == i,
            forall|k: int| 0 <= k < i ==> #[trigger] w@[k] == 0,
        decreases size - i,
    {
        w.push(0);
        i = i + 1;
    }
    assert(w@ =~= by_key(keys@, vals@, 0));
    let mut i: usize = 0;
    while i < size
        invariant
            size == keys@.len(),
            dense(keys@),
            vals@.len() >= size,
            i <= size,
            w@ == by_key(keys@, vals@, i as int),
            w@.len() == size,
        decreases size - i,
    {
        assert(keys@[i as int] < keys@.len());
        w.set(keys[i] as usize, vals[i] as i64);
        i = i + 1;
    }
    w
}

/// There are no more keys that differ than numbers of their width.
proof fn dense_few(keys: Seq<u32>)
    requires
        dense(keys),
    ensures
        keys.len() <= 0x1_0000_0000,
{
    let named = keys.map_values(|k: u32| k as int);
    assert(named.no_duplicates()) by {
        assert forall|i: int, j: int| 0 <= i < named.len() && 0 <= j < named.len() && i
            != j implies named[i] != named[j] by {
            assert(keys[i] != keys[j]);
        }
    }
    named.unique_seq_to_set();
    let all = vstd::set_lib::set_int_range(0, 0x1_0000_0000);
    vstd::set_lib::lemma_int_range(0, 0x1_0000_0000);
    assert(named.to_set().subset_of(all));
    vstd::set_lib::lemma_len_subset(named.to_set(), all);
}

/// Values by their keys are no larger than they are by themselves.
proof fn by_key_narrow(keys: Seq<u32>, vals: Seq<i32>, n: int)
    requires
        dense(keys),
        0 <= n <= keys.len(),
    ensures
        narrow(by_key(keys, vals, n)),
    decreases n,
{
    dense_few(keys);
    if n > 0 {
        by_key_narrow(keys, vals, n - 1);
        assert(keys[n - 1] < keys.len());
        by_key_shape(keys, vals, n - 1, 0);
    }
}

/// Where the keys are dense, every running sum can be held.
proof fn dense_sums_fit(keys: Seq<u32>, vals: Seq<i32>, t: int)
    requires
        dense(keys),
    ensures
        sums_fit(keys, vals, t),
{
    dense_few(keys);
    few_rows_fit(keys, vals, t);
}

/// A Fenwick tree of the values by their keys.
pub fn tree_of(keys: &[u32], vals: &[i32]) -> (f: Fenwick)
    requires
        dense(keys@),
        keys@.len() < usize::MAX,
        vals@.len() >= keys@.len(),
    ensures
        f.wf(),
        f@ == by_key(keys@, vals@, keys@.len() as int),
{
    let w = arranged(keys, vals);
    proof {
        by_key_narrow(keys@, vals@, keys@.len() as int);
        narrow_fits(w@, 0);
    }
    Fenwick::new(&w)
}

/// A value that changes, changes at its key.
pub proof fn by_key_update(keys: Seq<u32>, vals: Seq<i32>, n: int, i: int, v: i32)
    requires
        dense(keys),
        0 <= i < n <= keys.len() <= vals.len(),
    ensures
        by_key(keys, vals.update(i, v), n) == by_key(keys, vals, n).update(
            keys[i] as int,
            v as i64,
        ),
    decreases n,
{
    let next = vals.update(i, v);
    assert(keys[i] < keys.len());
    by_key_shape(keys, vals, n - 1, keys[i] as int);
    if n - 1 > i {
        by_key_update(keys, vals, n - 1, i, v);
        assert(keys[i] != keys[n - 1]);
        let w = by_key(keys, vals, n - 1);
        assert(w.update(keys[i] as int, v as i64).update(keys[n - 1] as int, vals[n - 1] as i64)
            =~= w.update(keys[n - 1] as int, vals[n - 1] as i64).update(keys[i] as int, v as i64));
    } else {
        by_key_same(keys, vals, next, n - 1);
        let w = by_key(keys, vals, n - 1);
        assert(w.update(keys[i] as int, v as i64) =~= w.update(keys[i] as int, vals[i] as i64).update(
            keys[i] as int,
            v as i64,
        ));
    }
}

proof fn by_key_same(keys: Seq<u32>, a: Seq<i32>, b: Seq<i32>, n: int)
    requires
        forall|i: int| 0 <= i < n ==> a[i] == b[i],
    ensures
        by_key(keys, a, n) == by_key(keys, b, n),
    decreases n,
{
    if n > 0 {
        by_key_same(keys, a, b, n - 1);
    }
}

proof fn run_update(vals: Seq<i32>, i: int, v: i32, a: int, b: int)
    requires
        0 <= a <= b <= vals.len(),
        0 <= i < vals.len(),
    ensures
        run_sum(vals.update(i, v), a, b) == run_sum(vals, a, b) + if a <= i < b {
            v - vals[i]
        } else {
            0
        },
    decreases b - a,
{
    if a < b {
        run_update(vals, i, v, a, b - 1);
    }
}

/// Changes one value, in its column and in its block's summary.
pub fn block_update(
    keys: &[u32],
    vals: &mut Vec<i32>,
    blocks: &mut Vec<Block>,
    i: usize,
    delta: i32,
)
    requires
        keys@.len() == old(vals)@.len(),
        summarized(keys@, old(vals)@, old(blocks)@),
        i < keys@.len(),
        i32::MIN <= old(vals)@[i as int] + delta <= i32::MAX,
    ensures
        final(vals)@ == old(vals)@.update(i as int, (old(vals)@[i as int] + delta) as i32),
        summarized(keys@, final(vals)@, final(blocks)@),
        final(blocks)@.len() == old(blocks)@.len(),
{
    let ghost was = vals@;
    let v: i32 = vals[i] + delta;
    vals.set(i, v);
    let ghost had = blocks@;
    let g: usize = i / BLOCK;
    let ghost size = keys@.len() as int;
    proof {
        assert(g * BLOCK <= i < (g + 1) * BLOCK);
        if g >= had.len() {
            let (x, y, b) = (g as int, had.len() as int, BLOCK as int);
            assert(x * b >= y * b) by (nonlinear_arith)
                requires
                    x >= y,
                    b > 0,
            ;
        }
        assert(sums_up(keys@, was, g as int, had[g as int]));
        let (a, b) = (edge(size, g as int), edge(size, g + 1));
        run_update(was, i as int, v, a, b);
        run_bound(vals@, a, b);
    }
    let b = blocks[g];
    let now = Block { lo: b.lo, hi: b.hi, sum: b.sum + delta as i64 };
    blocks.set(g, now);
    proof {
        assert forall|h: int| 0 <= h < blocks@.len() implies sums_up(
            keys@,
            vals@,
            h,
            #[trigger] blocks@[h],
        ) by {
            assert(sums_up(keys@, was, h, had[h]));
            let (a, b) = (edge(size, h), edge(size, h + 1));
            edges_rise(size, h);
            run_update(was, i as int, v, a, b);
            if h != g {
                edge_apart(size, i as int, g as int, h);
            }
        }
    }
}

proof fn edges_rise(size: int, g: int)
    requires
        0 <= g,
        0 <= size,
    ensures
        0 <= edge(size, g) <= edge(size, g + 1) <= size,
{
    assert((g + 1) * BLOCK == g * BLOCK + BLOCK);
    let b = BLOCK as int;
    assert(g * b >= 0) by (nonlinear_arith)
        requires
            g >= 0,
            b > 0,
    ;
}

proof fn edge_apart(size: int, i: int, g: int, h: int)
    requires
        0 <= g,
        0 <= h,
        g != h,
        0 <= i < size,
        g * BLOCK <= i < (g + 1) * BLOCK,
    ensures
        !(edge(size, h) <= i < edge(size, h + 1)),
{
    let b = BLOCK as int;
    if h < g {
        assert((h + 1) * b <= g * b) by (nonlinear_arith)
            requires
                h + 1 <= g,
                b > 0,
        ;
    } else {
        assert(h * b >= (g + 1) * b) by (nonlinear_arith)
            requires
                h >= g + 1,
                b > 0,
        ;
    }
}

/// All five ways at once.
pub struct Catalogue {
    pub keys: Vec<u32>,
    pub vals: Vec<i32>,
    pub rows: Vec<Row>,
    pub blocks: Vec<Block>,
    pub tree: Fenwick,
}

fn rows_of(keys: &[u32], vals: &[i32]) -> (rows: Vec<Row>)
    requires
        keys@.len() == vals@.len(),
    ensures
        row_keys(rows@) == keys@,
        row_vals(rows@) == vals@,
{
    let mut rows: Vec<Row> = Vec::new();
    let mut i: usize = 0;
    while i < keys.len()
        invariant
            i <= keys@.len(),
            keys@.len() == vals@.len(),
            rows@.len() == i,
            forall|k: int|
                0 <= k < i ==> (#[trigger] rows@[k]).key == keys@[k] && rows@[k].value == vals@[k],
        decreases keys@.len() - i,
    {
        rows.push(Row { key: keys[i], value: vals[i], pad: [0; 56] });
        i = i + 1;
    }
    assert(row_keys(rows@) =~= keys@);
    assert(row_vals(rows@) =~= vals@);
    rows
}

impl Catalogue {
    pub open spec fn wf(&self) -> bool {
        &&& dense(self.keys@)
        &&& self.vals@.len() == self.keys@.len()
        &&& row_keys(self.rows@) == self.keys@
        &&& row_vals(self.rows@) == self.vals@
        &&& summarized(self.keys@, self.vals@, self.blocks@)
        &&& self.tree.wf()
        &&& self.tree@ == by_key(self.keys@, self.vals@, self.keys@.len() as int)
    }

    pub fn new(keys: Vec<u32>, vals: Vec<i32>) -> (c: Self)
        requires
            dense(keys@),
            keys@.len() < usize::MAX,
            vals@.len() == keys@.len(),
        ensures
            c.wf(),
            c.keys@ == keys@,
            c.vals@ == vals@,
    {
        let rows = rows_of(keys.as_slice(), vals.as_slice());
        let blocks = make_blocks(keys.as_slice(), vals.as_slice());
        let tree = tree_of(keys.as_slice(), vals.as_slice());
        Catalogue { keys, vals, rows, blocks, tree }
    }

    /// Adds to a row's value, everywhere.
    pub fn update(&mut self, i: usize, delta: i32)
        requires
            old(self).wf(),
            i < old(self).keys@.len(),
            i32::MIN <= old(self).vals@[i as int] + delta <= i32::MAX,
        ensures
            final(self).wf(),
            final(self).keys@ == old(self).keys@,
            final(self).vals@ == old(self).vals@.update(
                i as int,
                (old(self).vals@[i as int] + delta) as i32,
            ),
    {
        let ghost was = self.vals@;
        let ghost n = self.keys@.len() as int;
        let row = self.rows[i];
        proof {
            assert(row_vals(self.rows@)[i as int] == was[i as int]);
            assert(row_keys(self.rows@)[i as int] == self.keys@[i as int]);
        }
        let changed = Row { key: row.key, value: row.value + delta, pad: row.pad };
        self.rows.set(i, changed);
        block_update(self.keys.as_slice(), &mut self.vals, &mut self.blocks, i, delta);
        proof {
            assert(row_keys(self.rows@) =~= self.keys@);
            assert(row_vals(self.rows@) =~= self.vals@);
            by_key_update(self.keys@, was, n, i as int, self.vals@[i as int]);
            by_key_shape(self.keys@, was, n, self.keys@[i as int] as int);
            assert(self.keys@[i as int] < self.keys@.len());
            by_key_narrow(self.keys@, self.vals@, n);
            narrow_fits(
                by_key(self.keys@, self.vals@, n),
                self.keys@[i as int] as int,
            );
        }
        self.tree.add(self.keys[i] as usize, delta);
    }

    /// The sum up to a key, if all five ways agree.
    pub fn query(&self, t: u32) -> (r: Option<i64>)
        requires
            self.wf(),
            t < self.keys@.len(),
        ensures
            r == Some(upto(self.keys@, self.vals@, t as int) as i64),
            r is Some ==> r->0 == upto(self.keys@, self.vals@, t as int),
    {
        proof {
            dense_sums_fit(self.keys@, self.vals@, t as int);
        }
        let a: i64 = scan_rows(self.rows.as_slice(), t);
        let b: i64 = scan_cols(self.keys.as_slice(), self.vals.as_slice(), t);
        let c: i64 = block_query_rows(self.rows.as_slice(), self.blocks.as_slice(), t);
        let d: i64 = block_query_cols(
            self.keys.as_slice(),
            self.vals.as_slice(),
            self.blocks.as_slice(),
            t,
        );
        proof {
            by_key_shape(self.keys@, self.vals@, self.keys@.len() as int, 0);
            by_key_narrow(self.keys@, self.vals@, self.keys@.len() as int);
            narrow_fits(self.tree@, t + 1);
        }
        let e: i64 = self.tree.get(t as usize);
        proof {
            prefix_by_key(self.keys@, self.vals@, self.keys@.len() as int, t as int);
            assert(self.keys@.take(self.keys@.len() as int) =~= self.keys@);
        }
        if a != b || a != c || a != d || a != e {
            return None;
        }
        Some(a)
    }
}

/// A tree of the values by their keys answers as the scans do, and after any run of additions
/// it answers by what was added at or before the bound more.
pub proof fn tree_answers_the_scan(
    keys: Seq<u32>,
    vals: Seq<i32>,
    states: Seq<Fenwick>,
    run: Seq<(usize, i32)>,
    t: int,
)
    requires
        dense(keys),
        0 <= t < keys.len() <= vals.len(),
        states[0]@ == by_key(keys, vals, keys.len() as int),
        grows(states, run),
    ensures
        sum(states[0]@.take(t + 1)) == upto(keys, vals, t),
        sum(states.last()@.take(t + 1)) == upto(keys, vals, t) + added_upto(run, t),
{
    let n = keys.len() as int;
    prefix_by_key(keys, vals, n, t);
    by_key_shape(keys, vals, n, t);
    assert(keys.take(n) =~= keys);
    additions_add_up(states, run, t);
}

/// A shuffled run of keys stays dense.
proof fn shuffled_dense(a: Seq<u32>, b: Seq<u32>)
    requires
        forall|i: int| 0 <= i < a.len() ==> #[trigger] a[i] == i,
        a.to_multiset() == b.to_multiset(),
    ensures
        dense(b),
        b.len() == a.len(),
{
    a.to_multiset_ensures();
    b.to_multiset_ensures();
    assert(a.no_duplicates());
    a.lemma_multiset_has_no_duplicates();
    b.lemma_multiset_has_no_duplicates_conv();
    assert forall|i: int| 0 <= i < b.len() implies #[trigger] b[i] < b.len() by {
        assert(b.contains(b[i]));
        assert(b.to_multiset().count(b[i]) > 0);
        assert(a.contains(b[i]));
    }
}

/// Rows, columns, blocks and tree agree after changes of values.
pub fn correctness() -> (r: Result<(), String>)
    ensures
        r is Ok,
{
    let mut keys: Vec<u32> = Vec::new();
    let mut vals: Vec<i32> = Vec::new();
    let mut i: u32 = 0;
    while i < 4_096
        invariant
            i <= 4_096,
            keys@.len() == i,
            vals@.len() == i,
            forall|k: int| 0 <= k < i ==> #[trigger] keys@[k] == k,
            forall|k: int| 0 <= k < i ==> -8 <= #[trigger] vals@[k] <= 8,
        decreases 4_096 - i,
    {
        keys.push(i);
        vals.push((i % 17) as i32 - 8);
        i = i + 1;
    }
    let ghost plain = keys@;
    let mut rng = seeded(1);
    shuffle(&mut rng, &mut keys);
    proof {
        shuffled_dense(plain, keys@);
    }
    let ghost (names, first) = (keys@, vals@);
    let mut all = Catalogue::new(keys, vals);
    all.update(10, 3);
    if all.query(100).is_none() {
        return Err(String::from_str("prefix mismatch t=100"));
    }
    all.update(2000, -5);
    if all.query(4095).is_none() {
        return Err(String::from_str("prefix mismatch t=4095"));
    }
    Ok(())
}

} // verus!
