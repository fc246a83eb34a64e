//! Executable regions: a bulk change of all prices is one adjustment.
//!
//! A row's price is its base, plus what the adjustment has gained since the row was
//! born, plus its exception.
use vstd::prelude::*;
use vstd::string::StringExecFns;

use crate::numbers::{sum, sum_bound, sum_push, sum_update, total};

verus! {

#[derive(Clone, Copy, Debug, PartialEq, Eq, Structural)]
pub struct Row {
    pub base: i64,
    pub birth_adj: i64,
    pub exception: i64,
}

impl Row {
    pub open spec fn with_exception(self, e: i64) -> Row {
        Row { base: self.base, birth_adj: self.birth_adj, exception: e }
    }
}

/// Rows, one adjustment for all of them, and sums that make the total a formula.
pub struct Region {
    pub rows: Vec<Row>,
    pub adj: i64,
    pub base_sum: i128,
    pub birth_sum: i128,
    pub exception_sum: i128,
}

pub open spec fn bases(rows: Seq<Row>) -> Seq<i64> {
    rows.map_values(|r: Row| r.base)
}

pub open spec fn births(rows: Seq<Row>) -> Seq<i64> {
    rows.map_values(|r: Row| r.birth_adj)
}

pub open spec fn exceptions(rows: Seq<Row>) -> Seq<i64> {
    rows.map_values(|r: Row| r.exception)
}

/// The price of a row under an adjustment.
pub open spec fn price_of(r: Row, adj: int) -> int {
    r.base + (adj - r.birth_adj) + r.exception
}

/// All prices.
pub open spec fn prices(rows: Seq<Row>, adj: int) -> Seq<int> {
    rows.map_values(|r: Row| price_of(r, adj))
}

pub open spec fn whole(s: Seq<int>) -> int
    decreases s.len(),
{
    if s.len() == 0 {
        0
    } else {
        whole(s.drop_last()) + s.last()
    }
}

/// The total is a formula over the sums.
proof fn total_formula(rows: Seq<Row>, adj: int)
    ensures
        whole(prices(rows, adj)) == sum(bases(rows)) + adj * rows.len() - sum(births(rows)) + sum(
            exceptions(rows),
        ),
    decreases rows.len(),
{
    if rows.len() > 0 {
        let init = rows.drop_last();
        total_formula(init, adj);
        assert(prices(rows, adj).drop_last() =~= prices(init, adj));
        assert(bases(rows).drop_last() =~= bases(init));
        assert(births(rows).drop_last() =~= births(init));
        assert(exceptions(rows).drop_last() =~= exceptions(init));
        let n = rows.len() as int;
        assert(adj * n == adj * (n - 1) + adj) by (nonlinear_arith);
    } else {
        assert(adj * 0 == 0);
    }
}

pub open spec fn fits(x: int) -> bool {
    i64::MIN <= x <= i64::MAX
}

/// Whether a price can be computed.
pub open spec fn price_fits(r: Row, adj: int) -> bool {
    fits(adj - r.birth_adj) && fits(r.base + (adj - r.birth_adj)) && fits(price_of(r, adj))
}

/// One change of a region.
pub enum Edit {
    Insert { price: i64 },
    Raise { by: i64 },
    Except { row: usize, exception: i64 },
}

/// What a change does to a plain list of prices, each beside its exception.
pub open spec fn written(list: Seq<(int, int)>, edit: Edit) -> Seq<(int, int)> {
    match edit {
        Edit::Insert { price } => list.push((price as int, 0)),
        Edit::Raise { by } => list.map_values(|p: (int, int)| (p.0 + by, p.1)),
        Edit::Except { row, exception } => list.update(
            row as int,
            (list[row as int].0, exception as int),
        ),
    }
}

/// What a run of changes does to a plain list of prices.
pub open spec fn written_all(list: Seq<(int, int)>, edits: Seq<Edit>) -> Seq<(int, int)>
    decreases edits.len(),
{
    if edits.len() == 0 {
        list
    } else {
        written(written_all(list, edits.drop_last()), edits.last())
    }
}

/// All prices of a plain list.
pub open spec fn listed(list: Seq<(int, int)>) -> Seq<int> {
    list.map_values(|p: (int, int)| p.0 + p.1)
}

impl Region {
    /// The prices as a plain list, each beside its exception.
    pub open spec fn list(&self) -> Seq<(int, int)> {
        let adj = self.adj as int;
        self.rows@.map_values(|r: Row| (r.base + (adj - r.birth_adj), r.exception as int))
    }

    pub open spec fn wf(&self) -> bool {
        &&& self.rows@.len() < 0x1000_0000_0000_0000
        &&& self.base_sum == sum(bases(self.rows@))
        &&& self.birth_sum == sum(births(self.rows@))
        &&& self.exception_sum == sum(exceptions(self.rows@))
    }

    /// What every row costs.
    pub open spec fn view(&self) -> Seq<int> {
        prices(self.rows@, self.adj as int)
    }

    pub fn with_bases(bases: &[i64]) -> (r: Self)
        requires
            bases@.len() < 0x1000_0000_0000_0000,
        ensures
            r.wf(),
            r.adj == 0,
            r.rows@ == bases@.map_values(|b: i64| Row { base: b, birth_adj: 0, exception: 0 }),
            r@ == bases@.map_values(|b: i64| b as int),
    {
        let mut rows: Vec<Row> = Vec::new();
        let mut base_sum: i128 = 0;
        let mut i: usize = 0;
        while i < bases.len()
            invariant
                bases@.len() < 0x1000_0000_0000_0000,
                i <= bases@.len(),
                rows@.len() == i,
                forall|k: int|
                    0 <= k < i ==> #[trigger] rows@[k] == (Row {
                        base: bases@[k],
                        birth_adj: 0,
                        exception: 0,
                    }),
                base_sum == sum(self::bases(rows@)),
                sum(births(rows@)) == 0,
                sum(exceptions(rows@)) == 0,
            decreases bases@.len() - i,
        {
            let ghost had = rows@;
            let row = Row { base: bases[i], birth_adj: 0, exception: 0 };
            proof {
                pushed(had, row);
                sum_bound(self::bases(had));
            }
            rows.push(row);
            base_sum = base_sum + bases[i] as i128;
            i = i + 1;
        }
        let r = Region { rows, adj: 0, base_sum, birth_sum: 0, exception_sum: 0 };
        assert(r.rows@ =~= bases@.map_values(
            |b: i64| Row { base: b, birth_adj: 0, exception: 0 },
        ));
        assert(r@ =~= bases@.map_values(|b: i64| b as int));
        r
    }

    pub fn price(&self, i: usize) -> (p: i64)
        requires
            i < self.rows@.len(),
            price_fits(self.rows@[i as int], self.adj as int),
        ensures
            p == self@[i as int],
    {
        let r = self.rows[i];
        r.base + (self.adj - r.birth_adj) + r.exception
    }

    /// The total of all prices, without reading them.
    pub fn sum(&self) -> (s: i128)
        requires
            self.wf(),
        ensures
            s == whole(self@),
    {
        proof {
            total_formula(self.rows@, self.adj as int);
            sum_bound(bases(self.rows@));
            sum_bound(births(self.rows@));
            sum_bound(exceptions(self.rows@));
            let (a, n) = (self.adj as int, self.rows@.len() as int);
            assert(-0x8000_0000_0000_0000 * n <= a * n <= 0x8000_0000_0000_0000 * n)
                by (nonlinear_arith)
                requires
                    -0x8000_0000_0000_0000 <= a < 0x8000_0000_0000_0000,
                    n >= 0,
            ;
        }
        self.base_sum + self.adj as i128 * self.rows.len() as i128 - self.birth_sum
            + self.exception_sum
    }

    /// Raises the price of every row that is there.
    pub fn bulk_add_existing(&mut self, k: i64)
        requires
            old(self).wf(),
            fits(old(self).adj + k),
        ensures
            final(self).wf(),
            final(self).rows@ == old(self).rows@,
            final(self).adj == old(self).adj + k,
            final(self)@ == old(self)@.map_values(|p: int| p + k),
            final(self).list() == written(old(self).list(), Edit::Raise { by: k }),
    {
        let ghost was = self@;
        let ghost before = self.list();
        self.adj = self.adj + k;
        assert(self.list() =~= written(before, Edit::Raise { by: k }));
        assert(self@ =~= was.map_values(|p: int| p + k));
    }

    /// A new row at its actual price: what was added before does not apply to it.
    pub fn insert(&mut self, actual_price: i64)
        requires
            old(self).wf(),
            old(self).rows@.len() + 1 < 0x1000_0000_0000_0000,
        ensures
            final(self).wf(),
            final(self).adj == old(self).adj,
            final(self).rows@ == old(self).rows@.push(
                Row { base: actual_price, birth_adj: old(self).adj, exception: 0 },
            ),
            final(self)@ == old(self)@.push(actual_price as int),
            final(self).list() == written(
                old(self).list(),
                Edit::Insert { price: actual_price },
            ),
    {
        let ghost before = self.list();
        let ghost (was, had) = (self@, self.rows@);
        let row = Row { base: actual_price, birth_adj: self.adj, exception: 0 };
        proof {
            pushed(had, row);
            sum_bound(bases(had));
            sum_bound(births(had));
        }
        self.rows.push(row);
        self.base_sum = self.base_sum + actual_price as i128;
        self.birth_sum = self.birth_sum + self.adj as i128;
        assert(self@ =~= was.push(actual_price as int));
        assert(self.list() =~= written(before, Edit::Insert { price: actual_price }));
    }

    /// Sets by how much a row differs from the others.
    pub fn set_exception(&mut self, i: usize, exception: i64)
        requires
            old(self).wf(),
            i < old(self).rows@.len(),
        ensures
            final(self).wf(),
            final(self).adj == old(self).adj,
            final(self).rows@ == old(self).rows@.update(
                i as int,
                old(self).rows@[i as int].with_exception(exception),
            ),
            final(self)@ == old(self)@.update(
                i as int,
                old(self)@[i as int] - old(self).rows@[i as int].exception + exception,
            ),
            final(self).list() == written(old(self).list(), Edit::Except { row: i, exception }),
    {
        let ghost before = self.list();
        let ghost (was, had) = (self@, self.rows@);
        let r = self.rows[i];
        let row = Row { base: r.base, birth_adj: r.birth_adj, exception };
        proof {
            sum_bound(exceptions(had));
            sum_update(exceptions(had), i as int, exception);
            assert(exceptions(had.update(i as int, row)) =~= exceptions(had).update(
                i as int,
                exception,
            ));
            assert(bases(had.update(i as int, row)) =~= bases(had));
            assert(births(had.update(i as int, row)) =~= births(had));
        }
        self.exception_sum = self.exception_sum + (exception as i128 - r.exception as i128);
        self.rows.set(i, row);
        assert(self@ =~= was.update(i as int, was[i as int] - r.exception + exception));
        assert(self.list() =~= written(before, Edit::Except { row: i, exception }));
    }
}

proof fn pushed(rows: Seq<Row>, row: Row)
    ensures
        sum(bases(rows.push(row))) == sum(bases(rows)) + row.base,
        sum(births(rows.push(row))) == sum(births(rows)) + row.birth_adj,
        sum(exceptions(rows.push(row))) == sum(exceptions(rows)) + row.exception,
{
    assert(bases(rows.push(row)) =~= bases(rows).push(row.base));
    assert(births(rows.push(row)) =~= births(rows).push(row.birth_adj));
    assert(exceptions(rows.push(row)) =~= exceptions(rows).push(row.exception));
    sum_push(bases(rows), row.base);
    sum_push(births(rows), row.birth_adj);
    sum_push(exceptions(rows), row.exception);
}

/// After any run of insertions, bulk raises and exceptions the prices are those of a plain list
/// that every change was written into, and so is their total.
pub proof fn region_follows_the_list(states: Seq<Region>, edits: Seq<Edit>)
    requires
        states.len() == edits.len() + 1,
        forall|i: int|
            0 <= i < edits.len() ==> states[i + 1].list() == written(
                states[i].list(),
                #[trigger] edits[i],
            ),
    ensures
        states.last().list() == written_all(states[0].list(), edits),
        states.last()@ == listed(written_all(states[0].list(), edits)),
        whole(states.last()@) == whole(listed(written_all(states[0].list(), edits))),
    decreases edits.len(),
{
    let last = states.last();
    if edits.len() > 0 {
        let n = edits.len() - 1;
        let (st, ed) = (states.drop_last(), edits.drop_last());
        assert forall|i: int| 0 <= i < ed.len() implies st[i + 1].list() == written(
            st[i].list(),
            #[trigger] ed[i],
        ) by {
            assert(ed[i] == edits[i] && st[i] == states[i] && st[i + 1] == states[i + 1]);
        }
        region_follows_the_list(st, ed);
        assert(st.last() == states[n]);
        assert(edits[n] == edits.last());
        assert(last == states[n + 1]);
    }
    assert(last@ =~= listed(last.list()));
}

/// Every price written out.
pub struct Materialized {
    pub prices: Vec<i64>,
}

impl Materialized {
    pub open spec fn view(&self) -> Seq<int> {
        self.prices@.map_values(|p: i64| p as int)
    }

    pub fn new(bases: &[i64]) -> (m: Self)
        ensures
            m@ == bases@.map_values(|b: i64| b as int),
            m.prices@ == bases@,
    {
        let mut prices: Vec<i64> = Vec::new();
        let mut i: usize = 0;
        while i < bases.len()
            invariant
                i <= bases@.len(),
                prices@ == bases@.take(i as int),
            decreases bases@.len() - i,
        {
            prices.push(bases[i]);
            assert(bases@.take(i + 1) =~= bases@.take(i as int).push(bases@[i as int]));
            i = i + 1;
        }
        assert(bases@.take(i as int) =~= bases@);
        Materialized { prices }
    }

    pub fn bulk_add(&mut self, k: i64)
        requires
            forall|i: int| 0 <= i < old(self).prices@.len() ==> fits(#[trigger] old(self)@[i] + k),
        ensures
            final(self)@ == old(self)@.map_values(|p: int| p + k),
    {
        let ghost was = self.prices@;
        proof {
            assert forall|j: int| 0 <= j < was.len() implies fits(#[trigger] was[j] + k) by {
                assert(fits(old(self)@[j] + k));
            }
        }
        let mut i: usize = 0;
        while i < self.prices.len()
            invariant
                i <= self.prices@.len(),
                self.prices@.len() == was.len(),
                forall|j: int| 0 <= j < was.len() ==> fits(#[trigger] was[j] + k),
                forall|j: int| 0 <= j < i ==> #[trigger] self.prices@[j] == was[j] + k,
                forall|j: int| i <= j < was.len() ==> #[trigger] self.prices@[j] == was[j],
            decreases self.prices@.len() - i,
        {
            assert(fits(was[i as int] + k));
            let p: i64 = self.prices[i] + k;
            self.prices.set(i, p);
            i = i + 1;
        }
        assert(self@ =~= old(self)@.map_values(|p: int| p + k));
    }

    pub fn insert(&mut self, p: i64)
        ensures
            final(self)@ == old(self)@.push(p as int),
    {
        self.prices.push(p);
        assert(self@ =~= old(self)@.push(p as int));
    }

    pub fn sum(&self) -> (s: i128)
        ensures
            s == whole(self@),
    {
        proof {
            same_sum(self.prices@);
        }
        total(&self.prices)
    }
}

proof fn same_sum(s: Seq<i64>)
    ensures
        sum(s) == whole(s.map_values(|p: i64| p as int)),
    decreases s.len(),
{
    if s.len() > 0 {
        same_sum(s.drop_last());
        assert(s.map_values(|p: i64| p as int).drop_last() =~= s.drop_last().map_values(
            |p: i64| p as int,
        ));
    }
}

/// A region and written-out prices cost the same after the same operations, and a row
/// inserted after a bulk change does not inherit it.
pub fn correctness() -> (r: Result<(), String>)
    ensures
        r is Ok,
{
    let mut bases: Vec<i64> = Vec::new();
    let mut b: i64 = 100;
    while b < 600
        invariant
            100 <= b <= 600,
            bases@.len() == b - 100,
            forall|k: int| 0 <= k < bases@.len() ==> #[trigger] bases@[k] == 100 + k,
        decreases 600 - b,
    {
        bases.push(b);
        b = b + 1;
    }
    let mut r = Region::with_bases(bases.as_slice());
    let mut m = Materialized::new(bases.as_slice());
    let ghost start = r@;
    assert(forall|k: int| 0 <= k < 500 ==> #[trigger] start[k] == 100 + k);
    assert(m@ == r@);
    r.bulk_add_existing(100);
    m.bulk_add(100);
    r.insert(50);
    m.insert(50);
    assert(r@.len() == 501 && forall|k: int| 0 <= k < 501 ==> 50 <= #[trigger] r@[k] <= 700);
    assert(m@ =~= r@);
    r.bulk_add_existing(7);
    m.bulk_add(7);
    assert(m@ =~= r@);
    assert(r@.len() == 501 && forall|k: int| 0 <= k < 501 ==> 57 <= #[trigger] r@[k] <= 707);
    r.set_exception(3, 9);
    let p: i64 = m.prices[3];
    assert(p == m@[3]);
    m.prices.set(3, p + 9);
    assert(m@ =~= r@);
    assert(m@.len() == m.prices@.len() && r@.len() == r.rows@.len());
    let mut i: usize = 0;
    while i < r.rows.len()
        invariant
            i <= r.rows@.len(),
            r.rows@.len() == 501,
            r.adj == 107,
            m@ == r@,
            m.prices@.len() == 501,
            forall|k: int| 0 <= k < 501 ==> price_fits(#[trigger] r.rows@[k], 107),
        decreases r.rows@.len() - i,
    {
        assert(price_fits(r.rows@[i as int], 107));
        assert(m@[i as int] == m.prices@[i as int]);
        if r.price(i) != m.prices[i] {
            return Err(String::from_str("row differs"));
        }
        i = i + 1;
    }
    if r.sum() != m.sum() {
        return Err(String::from_str("sum differs"));
    }
    assert(price_fits(r.rows@[500], 107));
    if r.price(500) != 50 + 7 {
        return Err(String::from_str("insert inherited past bulk unexpectedly"));
    }
    Ok(())
}

} // verus!
