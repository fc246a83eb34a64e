//! A catalogue with one adjustment for all prices and cells for its rankings: the
//! adjustment shifts every score alike, so the cells of the base prices stay right.
use vstd::prelude::*;
use vstd::string::StringExecFns;

use crate::answer_cells::{
    all_priced, cell_winner, cells_give_the_winner, envelope, right_cells, score, score_k, tiled, weight,
    winner, wins, one_winner, Cell, Product, W_DEN,
};
use crate::answer_store::unplaced;
use crate::random::{between, seeded};

verus! {

#[derive(Clone, Copy, Debug, PartialEq, Eq, Structural)]
pub struct Item {
    pub price_base: i64,
    pub delivery: i64,
    pub exception: i64,
}

impl Item {
    /// Whether the item can be priced under an adjustment.
    pub open spec fn fits(self, adj: int) -> bool {
        &&& i64::MIN <= self.price_base + adj <= i64::MAX
        &&& i64::MIN <= self.price_base + adj + self.exception <= i64::MAX
    }

    pub open spec fn with_exception(self, e: i64) -> Item {
        Item { price_base: self.price_base, delivery: self.delivery, exception: e }
    }

    /// The product under an adjustment.
    pub open spec fn product(self, adj: int) -> Product {
        Product {
            price: (self.price_base + adj + self.exception) as i64,
            delivery: self.delivery,
        }
    }
}

pub open spec fn all_fit(items: Seq<Item>, adj: int) -> bool {
    forall|i: int| 0 <= i < items.len() ==> (#[trigger] items[i]).fits(adj)
}

/// All products as they are sold.
pub open spec fn products(items: Seq<Item>, adj: int) -> Seq<Product> {
    items.map_values(|it: Item| it.product(adj))
}

fn price_of(it: Item, adj: i64) -> (p: i64)
    requires
        it.fits(adj as int),
    ensures
        p == it.price_base + adj + it.exception,
{
    it.price_base + adj + it.exception
}

/// One adjustment for all prices does not change who wins.
pub proof fn adjustment_keeps_the_winner(items: Seq<Item>, a: int, b: int, k: int)
    requires
        all_fit(items, a),
        all_fit(items, b),
    ensures
        winner(products(items, a), k) == winner(products(items, b), k),
{
    if items.len() > 0 {
        let (p, q) = (products(items, a), products(items, b));
        assert forall|w: int| #[trigger] wins(p, k, w) implies wins(q, k, w) by {
            shifted_wins(items, a, b, k, w);
        }
        assert forall|w: int| #[trigger] wins(q, k, w) implies wins(p, k, w) by {
            shifted_wins(items, b, a, k, w);
        }
        let w = crate::answer_store::lowest_exists(p, k, p.len() as int);
        assert(wins(p, k, w));
        assert(wins(q, k, w));
        one_winner(p, k, w);
        one_winner(q, k, w);
    }
}

proof fn shifted_wins(items: Seq<Item>, a: int, b: int, k: int, w: int)
    requires
        all_fit(items, a),
        all_fit(items, b),
        wins(products(items, a), k, w),
    ensures
        wins(products(items, b), k, w),
{
    let (p, q) = (products(items, a), products(items, b));
    assert forall|j: int| 0 <= j < q.len() implies #[trigger] score(q[j], k) == score(p[j], k) + k
        * (b - a) by {
        assert(items[j].fits(a) && items[j].fits(b));
        let (x, y, d) = (p[j].price as int, q[j].price as int, b - a);
        assert(y == x + d);
        assert(k * (x + d) == k * x + k * d) by (nonlinear_arith);
    }
    assert forall|j: int| 0 <= j < q.len() implies score(q[w], k) < score(#[trigger] q[j], k) || (
    score(q[w], k) == score(q[j], k) && w <= j) by {
        assert(score(q[w], k) == score(p[w], k) + k * (b - a));
        assert(score(q[j], k) == score(p[j], k) + k * (b - a));
        assert(score(p[w], k) < score(p[j], k) || (score(p[w], k) == score(p[j], k) && w <= j));
    }
}

/// The winner by a scan of all items.
fn brute_on(items: &[Item], adj: i64, k: i64) -> (r: usize)
    requires
        all_fit(items@, adj as int),
        weight(k as int),
    ensures
        r == winner(products(items@, adj as int), k as int),
{
    let ghost ps = products(items@, adj as int);
    let mut best_i: usize = 0;
    let mut best: i128 = i128::MAX;
    let mut i: usize = 0;
    while i < items.len()
        invariant
            all_fit(items@, adj as int),
            weight(k as int),
            ps == products(items@, adj as int),
            i <= items@.len(),
            i == 0 ==> best_i == 0 && best == i128::MAX,
            i > 0 ==> best_i < i && best == score(ps[best_i as int], k as int),
            forall|j: int|
                0 <= j < i ==> best < score(#[trigger] ps[j], k as int) || (best == score(
                    ps[j],
                    k as int,
                ) && best_i <= j),
        decreases items@.len() - i,
    {
        let it = items[i];
        assert(items@[i as int].fits(adj as int));
        let p = Product { price: price_of(it, adj), delivery: it.delivery };
        assert(p == ps[i as int]);
        let s: i128 = score_k(p, k);
        if s < best || (s == best && i < best_i) {
            best = s;
            best_i = i;
        }
        i = i + 1;
    }
    proof {
        if items@.len() > 0 {
            assert(wins(ps, k as int, best_i as int));
            one_winner(ps, k as int, best_i as int);
        }
    }
    best_i
}

pub struct Catalog {
    pub items: Vec<Item>,
    pub adj: i64,
    pub bases: Vec<Product>,
    pub cells: Vec<Cell>,
}

impl Catalog {
    pub open spec fn wf(&self) -> bool {
        &&& all_fit(self.items@, 0)
        &&& self.bases@ == products(self.items@, 0)
        &&& all_priced(self.bases@)
        &&& right_cells(self.bases@, self.cells@)
    }

    pub fn new(items: Vec<Item>) -> (c: Self)
        requires
            all_fit(items@, 0),
            all_priced(products(items@, 0)),
        ensures
            c.wf(),
            c.items@ == items@,
            c.adj == 0,
    {
        let mut bases: Vec<Product> = Vec::new();
        let mut i: usize = 0;
        while i < items.len()
            invariant
                all_fit(items@, 0),
                i <= items@.len(),
                bases@.len() == i,
                forall|k: int| 0 <= k < i ==> #[trigger] bases@[k] == items@[k].product(0),
            decreases items@.len() - i,
        {
            assert(items@[i as int].fits(0));
            bases.push(
                Product {
                    price: items[i].price_base + items[i].exception,
                    delivery: items[i].delivery,
                },
            );
            i = i + 1;
        }
        assert(bases@ =~= products(items@, 0));
        let cells = envelope(bases.as_slice());
        Catalog { items, adj: 0, bases, cells }
    }

    /// The winner among the products as they are sold, from the cells of their bases.
    pub fn joint_winner(&self, k: i64) -> (r: usize)
        requires
            self.wf(),
            all_fit(self.items@, self.adj as int),
            weight(k as int),
        ensures
            r == winner(products(self.items@, self.adj as int), k as int),
            self.items@.len() > 0 ==> r < self.items@.len(),
    {
        proof {
            adjustment_keeps_the_winner(self.items@, 0, self.adj as int, k as int);
            if 0 <= k <= W_DEN {
                cells_give_the_winner(self.bases@, self.cells@, k as int);
            } else {
                unplaced(self.bases@, self.cells@, k as int);
            }
            assert(tiled(self.cells@));
        }
        cell_winner(self.cells.as_slice(), self.bases.as_slice(), k)
    }

    pub fn brute_winner(&self, k: i64) -> (r: usize)
        requires
            all_fit(self.items@, self.adj as int),
            weight(k as int),
        ensures
            r == winner(products(self.items@, self.adj as int), k as int),
    {
        brute_on(self.items.as_slice(), self.adj, k)
    }

    /// Changes all prices at once.
    pub fn bulk_adj(&mut self, d: i64)
        requires
            old(self).wf(),
            i64::MIN <= old(self).adj + d <= i64::MAX,
        ensures
            final(self).wf(),
            final(self).items@ == old(self).items@,
            final(self).adj == old(self).adj + d,
            final(self).bases@ == old(self).bases@,
            final(self).cells@ == old(self).cells@,
    {
        self.adj = self.adj + d;
    }

    /// Sets by how much one item differs, and ranks anew.
    pub fn set_exception(&mut self, i: usize, e: i64)
        requires
            old(self).wf(),
            i < old(self).items@.len(),
            old(self).items@[i as int].with_exception(e).fits(0),
            old(self).items@[i as int].with_exception(e).product(0).priced(),
        ensures
            final(self).wf(),
            final(self).adj == old(self).adj,
            final(self).items@ == old(self).items@.update(
                i as int,
                old(self).items@[i as int].with_exception(e),
            ),
    {
        let ghost was = self.items@;
        let it = self.items[i];
        let changed = Item { price_base: it.price_base, delivery: it.delivery, exception: e };
        self.items.set(i, changed);
        let base = Product { price: it.price_base + e, delivery: it.delivery };
        self.bases.set(i, base);
        proof {
            assert(self.bases@ =~= products(self.items@, 0)) by {
                assert forall|j: int| 0 <= j < self.items@.len() implies self.bases@[j] == products(
                    self.items@,
                    0,
                )[j] by {
                    if j != i {
                        assert(products(was, 0)[j] == was[j].product(0));
                    }
                }
            }
            assert forall|j: int| 0 <= j < self.bases@.len() implies (
            #[trigger] self.bases@[j]).priced() by {
                if j != i {
                    assert(products(was, 0)[j].priced());
                }
            }
            assert forall|j: int, k: int|
                0 <= j < self.bases@.len() && 0 <= k < self.bases@.len() implies (
            #[trigger] self.bases@[j]).near(#[trigger] self.bases@[k]) by {
                assert(products(was, 0)[j].near(products(was, 0)[k]));
                assert(products(was, 0)[j].delivery == self.bases@[j].delivery);
                assert(products(was, 0)[k].delivery == self.bases@[k].delivery);
            }
        }
        self.cells = envelope(self.bases.as_slice());
    }
}

/// The same catalogue without cells.
pub struct BruteCatalog {
    pub items: Vec<Item>,
    pub adj: i64,
}

impl BruteCatalog {
    pub fn new(items: Vec<Item>) -> (c: Self)
        ensures
            c.items@ == items@,
            c.adj == 0,
    {
        BruteCatalog { items, adj: 0 }
    }

    pub fn bulk_adj(&mut self, d: i64)
        requires
            i64::MIN <= old(self).adj + d <= i64::MAX,
        ensures
            final(self).items@ == old(self).items@,
            final(self).adj == old(self).adj + d,
    {
        self.adj = self.adj + d;
    }

    pub fn set_exception(&mut self, i: usize, e: i64)
        requires
            i < old(self).items@.len(),
        ensures
            final(self).adj == old(self).adj,
            final(self).items@ == old(self).items@.update(
                i as int,
                old(self).items@[i as int].with_exception(e),
            ),
    {
        let it = self.items[i];
        self.items.set(
            i,
            Item { price_base: it.price_base, delivery: it.delivery, exception: e },
        );
    }

    pub fn winner(&self, k: i64) -> (r: usize)
        requires
            all_fit(self.items@, self.adj as int),
            weight(k as int),
        ensures
            r == winner(products(self.items@, self.adj as int), k as int),
    {
        brute_on(self.items.as_slice(), self.adj, k)
    }
}

/// Whether an item lies within what is generated.
pub open spec fn modest(it: Item) -> bool {
    &&& 0 <= it.price_base <= 30_000
    &&& 0 <= it.delivery <= 30_000
    &&& 0 <= it.exception <= 50_000
}

/// How many items the front has that is generated for `n` items.
pub open spec fn front_size(n: int) -> int {
    if n / 40 < 8 {
        8
    } else if n / 40 > 48 {
        48
    } else {
        n / 40
    }
}

/// The item at a place of a front of a size: one coordinate falls as the other rises.
pub open spec fn front_item(i: int, size: int) -> Item {
    let share = 18000 * i / (size - 1);
    Item { price_base: (1000 + share) as i64, delivery: (19000 - share) as i64, exception: 0 }
}

/// Whether an item lies in the band behind the front, at a place along it.
pub open spec fn in_band(it: Item, t: int) -> bool {
    &&& 0 <= t <= 1000
    &&& 4000 + 18 * t <= it.price_base <= 9000 + 18 * t
    &&& 4000 + 18 * (1000 - t) <= it.delivery <= 9000 + 18 * (1000 - t)
}

/// Whether an item lies in the band behind the front.
pub open spec fn behind(it: Item) -> bool {
    exists|t: int| #[trigger] in_band(it, t)
}

/// A front of items none of which beats another in both coordinates, and others behind
/// it; `n` of them, or as many as the front has, if those are more.
pub fn gen_pareto(n: usize, seed: u64) -> (items: Vec<Item>)
    ensures
        items@.len() == if n > front_size(n as int) {
            n as int
        } else {
            front_size(n as int)
        },
        forall|i: int|
            0 <= i < front_size(n as int) ==> #[trigger] items@[i] == front_item(
                i,
                front_size(n as int),
            ),
        forall|i: int|
            front_size(n as int) <= i < items@.len() ==> behind(#[trigger] items@[i]),
        forall|i: int| 0 <= i < items@.len() ==> modest(#[trigger] items@[i]) && items@[i].exception == 0,
{
    let mut rng = seeded(seed);
    let mut items: Vec<Item> = Vec::new();
    let part: usize = n / 40;
    let front: usize = if part < 8 {
        8
    } else if part > 48 {
        48
    } else {
        part
    };
    let den: i64 = front as i64 - 1;
    let mut t: usize = 0;
    while t < front
        invariant
            t <= front <= 48,
            den == front - 1,
            den > 0,
            items@.len() == t,
            forall|i: int| 0 <= i < t ==> #[trigger] items@[i] == front_item(i, front as int),
            forall|i: int| 0 <= i < t ==> modest(#[trigger] items@[i]) && items@[i].exception == 0,
        decreases front - t,
    {
        let step: i64 = 18000 * t as i64;
        let share: i64 = step / den;
        proof {
            let (a, b, c) = (step as int, den as int, share as int);
            assert(0 <= c <= 18000) by (nonlinear_arith)
                requires
                    c == a / b,
                    0 <= a <= 18000 * b,
                    b > 0,
            ;
        }
        items.push(Item { price_base: 1000 + share, delivery: 19000 - share, exception: 0 });
        t = t + 1;
    }
    while items.len() < n
        invariant
            items@.len() >= front >= 8,
            front <= 48,
            items@.len() <= n || items@.len() == front,
            forall|i: int| 0 <= i < front ==> #[trigger] items@[i] == front_item(i, front as int),
            forall|i: int| front <= i < items@.len() ==> behind(#[trigger] items@[i]),
            forall|i: int|
                0 <= i < items@.len() ==> modest(#[trigger] items@[i]) && items@[i].exception == 0,
        decreases n - items@.len(),
    {
        let t: i64 = between(&mut rng, 0, 1001);
        let a: i64 = between(&mut rng, 0, 5001);
        let b: i64 = between(&mut rng, 0, 5001);
        let ghost had = items@;
        items.push(
            Item {
                price_base: 4000 + 18 * t + a,
                delivery: 4000 + 18 * (1000 - t) + b,
                exception: 0,
            },
        );
        proof {
            assert(in_band(items@.last(), t as int));
            assert forall|i: int| front <= i < items@.len() implies behind(#[trigger] items@[i]) by {
                if i < had.len() {
                    assert(items@[i] == had[i]);
                }
            }
        }
    }
    items
}

proof fn modest_fits(items: Seq<Item>, adj: int)
    requires
        forall|i: int| 0 <= i < items.len() ==> modest(#[trigger] items[i]),
        0 <= adj <= 100_000,
    ensures
        all_fit(items, adj),
        all_priced(products(items, adj)),
{
    assert forall|i: int| 0 <= i < items.len() implies (#[trigger] items[i]).fits(adj) by {
        assert(modest(items[i]));
    }
    assert forall|i: int| 0 <= i < items.len() implies (#[trigger] products(items, adj)[i]).priced() by {
        assert(modest(items[i]));
    }
}

/// Whether cells and scan agree at every weight, a step at a time.
fn agree(cat: &Catalog, brute: &BruteCatalog) -> (r: bool)
    requires
        cat.wf(),
        cat.items@ == brute.items@,
        cat.adj == brute.adj,
        all_fit(cat.items@, cat.adj as int),
    ensures
        r,
{
    let mut k: i64 = 0;
    while k <= W_DEN
        invariant
            0 <= k <= W_DEN + 500,
            cat.wf(),
            cat.items@ == brute.items@,
            cat.adj == brute.adj,
            all_fit(cat.items@, cat.adj as int),
        decreases W_DEN + 500 - k,
    {
        if cat.joint_winner(k) != brute.winner(k) || cat.brute_winner(k) != brute.winner(k) {
            return false;
        }
        k = k + 500;
    }
    true
}

fn copied(items: &Vec<Item>) -> (r: Vec<Item>)
    ensures
        r@ == items@,
{
    let mut r: Vec<Item> = Vec::new();
    let mut i: usize = 0;
    while i < items.len()
        invariant
            i <= items@.len(),
            r@ == items@.take(i as int),
        decreases items@.len() - i,
    {
        r.push(items[i]);
        assert(items@.take(i + 1) =~= items@.take(i as int).push(items@[i as int]));
        i = i + 1;
    }
    assert(items@.take(i as int) =~= items@);
    r
}

/// Cells and scan agree, before and after an adjustment and an exception.
pub fn correctness() -> (r: Result<(), String>)
    ensures
        r is Ok,
{
    let items = gen_pareto(400, 1);
    proof {
        modest_fits(items@, 0);
        modest_fits(items@, 12_500);
    }
    let mut cat = Catalog::new(copied(&items));
    let mut brute = BruteCatalog::new(items);
    if !agree(&cat, &brute) {
        return Err(String::from_str("pre-adj mismatch"));
    }
    cat.bulk_adj(12_500);
    brute.bulk_adj(12_500);
    if !agree(&cat, &brute) {
        return Err(String::from_str("adj must not change winner"));
    }
    proof {
        assert(modest(cat.items@[0]));
        let next = cat.items@.update(0, cat.items@[0].with_exception(50_000));
        assert forall|i: int| 0 <= i < next.len() implies modest(#[trigger] next[i]) by {
            if i > 0 {
                assert(modest(cat.items@[i]));
            }
        }
        modest_fits(next, 12_500);
    }
    cat.set_exception(0, 50_000);
    brute.set_exception(0, 50_000);
    if !agree(&cat, &brute) {
        return Err(String::from_str("after exception mismatch"));
    }
    Ok(())
}

} // verus!
