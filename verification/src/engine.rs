//! What is left to do: scans over rows and columns, and batches of point lookups.
use vstd::prelude::*;
use vstd::string::StringExecFns;

use crate::numbers::{ascending, increasing, lower_bound};
use crate::random::{below, seeded};

verus! {

#[derive(Clone, Copy, Debug, PartialEq, Eq, Structural)]
pub struct Row {
    pub id: u64,
    pub price: u32,
    pub qty: u32,
    pub flags: u32,
    pub pad: u32,
}

/// Rows with random prices and quantities, numbered from zero.
pub fn gen_rows(n: usize, seed: u64) -> (rows: Vec<Row>)
    ensures
        rows@.len() == n,
        forall|i: int|
            0 <= i < n ==> {
                &&& (#[trigger] rows@[i]).id == i
                &&& 1 <= rows@[i].price < 10_000
                &&& rows@[i].qty < 500
                &&& rows@[i].flags < 16
                &&& rows@[i].pad == 0
            },
{
    let mut rng = seeded(seed);
    let mut rows: Vec<Row> = Vec::new();
    let mut i: usize = 0;
    while i < n
        invariant
            i <= n,
            rows@.len() == i,
            forall|k: int|
                0 <= k < i ==> {
                    &&& (#[trigger] rows@[k]).id == k
                    &&& 1 <= rows@[k].price < 10_000
                    &&& rows@[k].qty < 500
                    &&& rows@[k].flags < 16
                    &&& rows@[k].pad == 0
                },
        decreases n - i,
    {
        rows.push(
            Row {
                id: i as u64,
                price: 1 + below(&mut rng, 9_999) as u32,
                qty: below(&mut rng, 500) as u32,
                flags: below(&mut rng, 16) as u32,
                pad: 0,
            },
        );
        i = i + 1;
    }
    rows
}

pub open spec fn row_prices(rows: Seq<Row>) -> Seq<u32> {
    rows.map_values(|r: Row| r.price)
}

pub open spec fn row_quantities(rows: Seq<Row>) -> Seq<u32> {
    rows.map_values(|r: Row| r.qty)
}

/// How many rows are dearer than a bound and in stock, and what they cost together.
pub open spec fn tally(price: Seq<u32>, qty: Seq<u32>, min_price: int) -> (nat, nat)
    decreases price.len(),
{
    if price.len() == 0 {
        (0, 0)
    } else {
        let (c, s) = tally(price.drop_last(), qty, min_price);
        if price.last() > min_price && qty[price.len() - 1] > 0 {
            (c + 1, s + price.last() as nat)
        } else {
            (c, s)
        }
    }
}

proof fn tally_step(price: Seq<u32>, qty: Seq<u32>, min_price: int, i: int)
    requires
        0 <= i < price.len(),
    ensures
        ({
            let (c, s) = tally(price.take(i), qty, min_price);
            &&& tally(price.take(i + 1), qty, min_price) == if price[i] > min_price && qty[i] > 0 {
                (c + 1, s + price[i] as nat)
            } else {
                (c, s)
            }
            &&& c <= i
        }),
    decreases i,
{
    assert(price.take(i + 1).drop_last() =~= price.take(i));
    if i > 0 {
        tally_step(price, qty, min_price, i - 1);
    }
}

/// A longer run costs no less.
proof fn tally_rises(price: Seq<u32>, qty: Seq<u32>, min_price: int, i: int, n: int)
    requires
        0 <= i <= n <= price.len(),
    ensures
        tally(price.take(i), qty, min_price).1 <= tally(price.take(n), qty, min_price).1,
    decreases n - i,
{
    if i < n {
        tally_rises(price, qty, min_price, i, n - 1);
        tally_step(price, qty, min_price, n - 1);
    }
}

/// What fewer than four billion rows cost together can be held.
pub proof fn few_rows_fit(price: Seq<u32>, qty: Seq<u32>, min_price: int)
    requires
        price.len() < 0x1_0000_0000,
    ensures
        tally(price, qty, min_price).1 <= u64::MAX,
{
    tally_bound(price, qty, min_price);
}

proof fn tally_bound(price: Seq<u32>, qty: Seq<u32>, min_price: int)
    ensures
        tally(price, qty, min_price).1 <= 0xffff_ffff * price.len(),
    decreases price.len(),
{
    if price.len() > 0 {
        tally_bound(price.drop_last(), qty, min_price);
    }
}

pub fn scan_row(rows: &[Row], min_price: u32) -> (r: (u64, u64))
    requires
        tally(row_prices(rows@), row_quantities(rows@), min_price as int).1 <= u64::MAX,
    ensures
        (r.0 as nat, r.1 as nat) == tally(row_prices(rows@), row_quantities(rows@), min_price as int),
{
    let ghost (p, q) = (row_prices(rows@), row_quantities(rows@));
    let mut c: u64 = 0;
    let mut s: u64 = 0;
    let mut i: usize = 0;
    assert(p.take(0) =~= Seq::empty());
    while i < rows.len()
        invariant
            tally(p, q, min_price as int).1 <= u64::MAX,
            p == row_prices(rows@),
            q == row_quantities(rows@),
            i <= rows@.len(),
            (c as nat, s as nat) == tally(p.take(i as int), q, min_price as int),
        decreases rows@.len() - i,
    {
        proof {
            tally_step(p, q, min_price as int, i as int);
            tally_rises(p, q, min_price as int, i + 1, p.len() as int);
            assert(p.take(p.len() as int) =~= p);
        }
        if rows[i].price > min_price && rows[i].qty > 0 {
            c = c + 1;
            s = s + rows[i].price as u64;
        }
        i = i + 1;
    }
    assert(p.take(i as int) =~= p);
    (c, s)
}

pub fn scan_col(price: &[u32], qty: &[u32], min_price: u32) -> (r: (u64, u64))
    requires
        tally(price@, qty@, min_price as int).1 <= u64::MAX,
        qty@.len() >= price@.len(),
    ensures
        (r.0 as nat, r.1 as nat) == tally(price@, qty@, min_price as int),
{
    let mut c: u64 = 0;
    let mut s: u64 = 0;
    let mut i: usize = 0;
    assert(price@.take(0) =~= Seq::empty());
    while i < price.len()
        invariant
            tally(price@, qty@, min_price as int).1 <= u64::MAX,
            qty@.len() >= price@.len(),
            i <= price@.len(),
            (c as nat, s as nat) == tally(price@.take(i as int), qty@, min_price as int),
        decreases price@.len() - i,
    {
        proof {
            tally_step(price@, qty@, min_price as int, i as int);
            tally_rises(price@, qty@, min_price as int, i + 1, price@.len() as int);
            assert(price@.take(price@.len() as int) =~= price@);
        }
        if price[i] > min_price && qty[i] > 0 {
            c = c + 1;
            s = s + price[i] as u64;
        }
        i = i + 1;
    }
    assert(price@.take(i as int) =~= price@);
    (c, s)
}

/// Eight rows at a time, without a branch on any of them.
pub fn scan_col_avx2(price: &[u32], qty: &[u32], min_price: u32) -> (r: (u64, u64))
    requires
        tally(price@, qty@, min_price as int).1 <= u64::MAX,
        qty@.len() >= price@.len(),
    ensures
        (r.0 as nat, r.1 as nat) == tally(price@, qty@, min_price as int),
{
    let size: usize = price.len();
    let mut c: u64 = 0;
    let mut s: u64 = 0;
    let mut i: usize = 0;
    assert(price@.take(0) =~= Seq::empty());
    while i < size
        invariant
            size == price@.len(),
            tally(price@, qty@, min_price as int).1 <= u64::MAX,
            qty@.len() >= size,
            i <= size,
            (c as nat, s as nat) == tally(price@.take(i as int), qty@, min_price as int),
        decreases size - i,
    {
        let end: usize = if size - i < 8 {
            size
        } else {
            i + 8
        };
        let mut j: usize = i;
        while j < end
            invariant
                size == price@.len(),
                tally(price@, qty@, min_price as int).1 <= u64::MAX,
                qty@.len() >= size,
                i <= j <= end <= size,
                (c as nat, s as nat) == tally(price@.take(j as int), qty@, min_price as int),
            decreases end - j,
        {
            proof {
                tally_step(price@, qty@, min_price as int, j as int);
                tally_rises(price@, qty@, min_price as int, j + 1, size as int);
                assert(price@.take(size as int) =~= price@);
            }
            let keep: u32 = if price[j] > min_price && qty[j] > 0 {
                1
            } else {
                0
            };
            let kept: u32 = if keep == 1 {
                price[j]
            } else {
                0
            };
            c = c + keep as u64;
            s = s + kept as u64;
            j = j + 1;
        }
        i = end;
    }
    assert(price@.take(i as int) =~= price@);
    (c, s)
}

/// The payload of an id, zero where there is none.
pub open spec fn payload_of(ids: Seq<u64>, payload: Seq<u32>, k: u64) -> u32 {
    if ids.contains(k) {
        payload[choose|i: int| 0 <= i < ids.len() && ids[i] == k]
    } else {
        0
    }
}

/// All requested payloads folded into one word; a repeated request counts again.
pub open spec fn folded(ids: Seq<u64>, payload: Seq<u32>, keys: Seq<u64>) -> u32
    decreases keys.len(),
{
    if keys.len() == 0 {
        0
    } else {
        folded(ids, payload, keys.drop_last()) ^ payload_of(ids, payload, keys.last())
    }
}

proof fn payload_at(ids: Seq<u64>, payload: Seq<u32>, k: u64, i: int)
    requires
        increasing(ids),
        0 <= i <= ids.len(),
        forall|j: int| 0 <= j < i ==> ids[j] < k,
        forall|j: int| i <= j < ids.len() ==> ids[j] >= k,
    ensures
        payload_of(ids, payload, k) == if i < ids.len() && ids[i] == k {
            payload[i]
        } else {
            0
        },
{
    if ids.contains(k) {
        let c = choose|j: int| 0 <= j < ids.len() && ids[j] == k;
        assert(0 <= c < ids.len() && ids[c] == k);
        if c < i {
            assert(ids[c] < k);
        } else if c > i {
            assert(ids[i] < ids[c]);
            assert(ids[i] >= k);
        }
    } else if i < ids.len() && ids[i] == k {
        assert(ids.contains(k));
    }
}

/// A zero changes nothing.
proof fn fold_zero(x: u32)
    ensures
        x ^ 0 == x,
{
    assert(x ^ 0 == x) by (bit_vector);
}

/// One search for each request.
pub fn gather_ids(ids: &[u64], payload: &[u32], keys: &[u64]) -> (s: u32)
    requires
        increasing(ids@),
        payload@.len() >= ids@.len(),
    ensures
        s == folded(ids@, payload@, keys@),
{
    let mut s: u32 = 0;
    let mut n: usize = 0;
    assert(keys@.take(0) =~= Seq::empty());
    while n < keys.len()
        invariant
            increasing(ids@),
            payload@.len() >= ids@.len(),
            n <= keys@.len(),
            s == folded(ids@, payload@, keys@.take(n as int)),
        decreases keys@.len() - n,
    {
        let k: u64 = keys[n];
        assert(ascending(ids@));
        let i: usize = lower_bound(ids, k);
        proof {
            payload_at(ids@, payload@, k, i as int);
            assert(keys@.take(n + 1).drop_last() =~= keys@.take(n as int));
            fold_zero(s);
        }
        if i < ids.len() && ids[i] == k {
            s = s ^ payload[i];
        }
        n = n + 1;
    }
    assert(keys@.take(n as int) =~= keys@);
    s
}

/// One walk over the ids for requests in order.
pub fn batch_merge(ids: &[u64], payload: &[u32], keys: &[u64]) -> (s: u32)
    requires
        increasing(ids@),
        payload@.len() >= ids@.len(),
        ascending(keys@),
    ensures
        s == folded(ids@, payload@, keys@),
{
    let mut s: u32 = 0;
    let mut i: usize = 0;
    let mut n: usize = 0;
    assert(keys@.take(0) =~= Seq::empty());
    while n < keys.len()
        invariant
            increasing(ids@),
            payload@.len() >= ids@.len(),
            ascending(keys@),
            n <= keys@.len(),
            i <= ids@.len(),
            forall|j: int| 0 <= j < i && n < keys@.len() ==> ids@[j] < keys@[n as int],
            s == folded(ids@, payload@, keys@.take(n as int)),
        decreases keys@.len() - n,
    {
        let k: u64 = keys[n];
        while i < ids.len() && ids[i] < k
            invariant
                increasing(ids@),
                i <= ids@.len(),
                forall|j: int| 0 <= j < i ==> ids@[j] < k,
            decreases ids@.len() - i,
        {
            i = i + 1;
        }
        proof {
            assert forall|j: int| i <= j < ids@.len() implies ids@[j] >= k by {
                if j > i {
                    assert(ids@[i as int] < ids@[j]);
                }
            }
            payload_at(ids@, payload@, k, i as int);
            assert(keys@.take(n + 1).drop_last() =~= keys@.take(n as int));
            fold_zero(s);
            assert forall|j: int| 0 <= j < i && n + 1 < keys@.len() implies ids@[j] < keys@[n + 1] by {
                assert(keys@[n as int] <= keys@[n + 1]);
            }
        }
        if i < ids.len() && ids[i] == k {
            s = s ^ payload[i];
        }
        n = n + 1;
    }
    assert(keys@.take(n as int) =~= keys@);
    s
}

/// All ids from zero on.
pub open spec fn all_ids(n: nat) -> Seq<u64> {
    Seq::new(n, |i: int| i as u64)
}

/// Where the ids are all numbers from zero on, the id is the place.
pub fn batch_direct(payload: &[u32], keys: &[u64]) -> (s: u32)
    ensures
        s == folded(all_ids(payload@.len()), payload@, keys@),
{
    let ghost ids = all_ids(payload@.len());
    let mut s: u32 = 0;
    let size: u64 = payload.len() as u64;
    let mut n: usize = 0;
    assert(keys@.take(0) =~= Seq::empty());
    while n < keys.len()
        invariant
            ids == all_ids(payload@.len()),
            size == payload@.len(),
            n <= keys@.len(),
            s == folded(ids, payload@, keys@.take(n as int)),
        decreases keys@.len() - n,
    {
        let k: u64 = keys[n];
        proof {
            payload_at(
                ids,
                payload@,
                k,
                if k < size {
                    k as int
                } else {
                    size as int
                },
            );
            assert(keys@.take(n + 1).drop_last() =~= keys@.take(n as int));
            fold_zero(s);
        }
        if k < size {
            s = s ^ payload[k as usize];
        }
        n = n + 1;
    }
    assert(keys@.take(n as int) =~= keys@);
    s
}

/// All scans count the same, and all lookups fold the same.
pub fn correctness() -> (r: Result<(), String>)
    ensures
        r is Ok,
{
    let rows = gen_rows(5_000, 1);
    let mut price: Vec<u32> = Vec::new();
    let mut qty: Vec<u32> = Vec::new();
    let mut ids: Vec<u64> = Vec::new();
    let mut i: usize = 0;
    while i < rows.len()
        invariant
            i <= rows@.len(),
            rows@.len() == 5_000,
            price@ == row_prices(rows@).take(i as int),
            qty@ == row_quantities(rows@).take(i as int),
            ids@ == all_ids(i as nat),
        decreases rows@.len() - i,
    {
        price.push(rows[i].price);
        qty.push(rows[i].qty);
        ids.push(i as u64);
        proof {
            assert(row_prices(rows@).take(i + 1) =~= row_prices(rows@).take(i as int).push(
                rows@[i as int].price,
            ));
            assert(row_quantities(rows@).take(i + 1) =~= row_quantities(rows@).take(i as int).push(
                rows@[i as int].qty,
            ));
            assert(ids@ =~= all_ids((i + 1) as nat));
        }
        i = i + 1;
    }
    assert(row_prices(rows@).take(i as int) =~= row_prices(rows@));
    assert(row_quantities(rows@).take(i as int) =~= row_quantities(rows@));
    proof {
        few_rows_fit(price@, qty@, 100);
    }
    let a: (u64, u64) = scan_row(rows.as_slice(), 100);
    let b: (u64, u64) = scan_col(price.as_slice(), qty.as_slice(), 100);
    let c: (u64, u64) = scan_col_avx2(price.as_slice(), qty.as_slice(), 100);
    if a.0 != b.0 || a.1 != b.1 || a.0 != c.0 || a.1 != c.1 {
        return Err(String::from_str("scan mismatch"));
    }
    let keys: Vec<u64> = vec![0, 10, 11, 4999, 9_999];
    let g: u32 = gather_ids(ids.as_slice(), price.as_slice(), keys.as_slice());
    let m: u32 = batch_merge(ids.as_slice(), price.as_slice(), keys.as_slice());
    let d: u32 = batch_direct(price.as_slice(), keys.as_slice());
    if g != m || g != d {
        return Err(String::from_str("batch lookup mismatch"));
    }
    Ok(())
}

} // verus!
