//! What the kernels promise, in terms of what goes in and what comes out.
use vstd::prelude::*;

use crate::answer_cells::{
    belongs, cell_gap, cell_winner_lowest, cells_give_the_winner, choice, margin, one_place,
    one_winner, place, right_cells, score, span, winner, wins, Cell, Frac, Product,
};
use crate::answer_store::{
    drift, front_product, front_size as market_front_size, in_the_back, lowest_exists,
    modest as market_modest, unplaced, AnswerStore,
};
use crate::certificate::{apart, shared};
use crate::chase::{end_sum, followed};
use crate::coordination::{first_share, granted, held, QuotaSystem, Reserve, Shard};
use crate::engine::{all_ids, folded, payload_of, row_prices, row_quantities, tally, Row};
use crate::executable::{whole, Region};
use crate::factorized::{pair_sum, pairs_factorize, small, twisted_sum, Maintained};
use crate::front::{behind_front, fronted, on_front};
use crate::hex::{all_digits, decoded, digit_of, digit_value, encoded};
use crate::hull::meeting;
use crate::joint::{behind, front_item, front_size, modest, products, Item};
use crate::numbers::{ascending, increasing, sum};
use crate::pgm::{clustered, window};
use crate::polynomial::{poly, power, powers, PolyState};
use crate::prefix::{
    bounds_met, by_key, row_keys, row_vals, run_sum, summarized, sums_up, upto, Block, Row as PrefixRow,
};
use crate::progressive::{
    above, bounded, edge as progressive_edge, first_least, paired, plain, reached, tight,
};
use crate::ranking_cert::{
    farthest, largest, ordinary, scored, simplex, smallest, wins as ranked_wins,
};
use crate::redundancy::sum_above;
use crate::residue::{bin, gather, gather_push, line, ones, ones_push, rounded, rounded_value, Items};
use crate::shared::{count_grows, inside, range_count, PrivateQuery};
use crate::triples::{counts_are_of_triples, linked_paths, linked_triangles, Triple};
use crate::wcoj::{graph_of, linked, paths, triangles};
use crate::workload::{
    big_endian, flipped, initial_rows, key_bytes, stepped, stepped_times, value_bytes,
};

verus! {

/// Looking up one id that is there gives its whole payload.
pub proof fn one_request_gives_its_payload(ids: Seq<u64>, payload: Seq<u32>, i: int)
    requires
        forall|a: int, b: int| 0 <= a < b < ids.len() ==> ids[a] < ids[b],
        0 <= i < ids.len() <= payload.len(),
    ensures
        folded(ids, payload, seq![ids[i]]) == payload[i],
{
    one_more_request(ids, payload, Seq::empty(), ids[i]);
    assert(Seq::<u64>::empty().push(ids[i]) =~= seq![ids[i]]);
    let p = payload[i];
    assert(0u32 ^ p == p) by (bit_vector);
}

/// One more lookup changes what was folded by exactly the payload of its id, or not at all
/// where the id is not there. Without any lookup nothing is folded.
pub proof fn one_more_request(ids: Seq<u64>, payload: Seq<u32>, keys: Seq<u64>, k: u64)
    requires
        forall|a: int, b: int| 0 <= a < b < ids.len() ==> ids[a] < ids[b],
        ids.len() <= payload.len(),
    ensures
        folded(ids, payload, Seq::empty()) == 0,
        forall|i: int|
            0 <= i < ids.len() && #[trigger] ids[i] == k ==> folded(ids, payload, keys.push(k))
                == folded(ids, payload, keys) ^ payload[i],
        (forall|i: int| 0 <= i < ids.len() ==> #[trigger] ids[i] != k) ==> folded(
            ids,
            payload,
            keys.push(k),
        ) == folded(ids, payload, keys),
{
    assert(keys.push(k).drop_last() =~= keys);
    let f = folded(ids, payload, keys);
    assert(f ^ 0u32 == f) by (bit_vector);
    if ids.contains(k) {
        let c = choose|j: int| 0 <= j < ids.len() && ids[j] == k;
        assert(payload_of(ids, payload, k) == payload[c]);
        assert forall|i: int| 0 <= i < ids.len() && #[trigger] ids[i] == k implies i == c by {
            if i < c {
                assert(ids[i] < ids[c]);
            } else if c < i {
                assert(ids[c] < ids[i]);
            }
        }
    }
}

/// Where the ids are all the numbers from zero on, a lookup gives the payload at that place.
pub proof fn direct_requests(payload: Seq<u32>, keys: Seq<u64>, k: u64)
    requires
        payload.len() <= u64::MAX,
    ensures
        k < payload.len() ==> folded(all_ids(payload.len()), payload, seq![k]) == payload[k as int],
        k < payload.len() ==> folded(all_ids(payload.len()), payload, keys.push(k)) == folded(
            all_ids(payload.len()),
            payload,
            keys,
        ) ^ payload[k as int],
        k >= payload.len() ==> folded(all_ids(payload.len()), payload, keys.push(k)) == folded(
            all_ids(payload.len()),
            payload,
            keys,
        ),
{
    let ids = all_ids(payload.len());
    assert forall|a: int, b: int| 0 <= a < b < ids.len() implies ids[a] < ids[b] by {}
    one_more_request(ids, payload, keys, k);
    if k < payload.len() {
        assert(ids[k as int] == k);
        one_request_gives_its_payload(ids, payload, k as int);
    }
}

/// A scan counts a row, and adds its price, exactly if it costs more than the bound and is in
/// stock. A scan of no rows counts nothing.
pub proof fn scan_counts_each_row(price: Seq<u32>, qty: Seq<u32>, p: u32, q: u32, bound: int)
    requires
        price.len() == qty.len(),
    ensures
        tally(Seq::empty(), Seq::empty(), bound) == (0nat, 0nat),
        p > bound && q > 0 ==> tally(price.push(p), qty.push(q), bound) == (
            (tally(price, qty, bound).0 + 1) as nat,
            (tally(price, qty, bound).1 + p) as nat,
        ),
        !(p > bound && q > 0) ==> tally(price.push(p), qty.push(q), bound) == tally(
            price,
            qty,
            bound,
        ),
{
    assert(price.push(p).drop_last() =~= price);
    tally_looks_no_further(price, qty, q, bound);
}

proof fn tally_looks_no_further(price: Seq<u32>, qty: Seq<u32>, q: u32, bound: int)
    requires
        price.len() <= qty.len(),
    ensures
        tally(price, qty.push(q), bound) == tally(price, qty, bound),
    decreases price.len(),
{
    if price.len() > 0 {
        tally_looks_no_further(price.drop_last(), qty, q, bound);
    }
}

/// Scanning rows is scanning their prices and quantities.
pub proof fn row_scan_counts_each_row(rows: Seq<Row>, r: Row, bound: int)
    ensures
        r.price > bound && r.qty > 0 ==> tally(
            row_prices(rows.push(r)),
            row_quantities(rows.push(r)),
            bound,
        ) == (
            (tally(row_prices(rows), row_quantities(rows), bound).0 + 1) as nat,
            (tally(row_prices(rows), row_quantities(rows), bound).1 + r.price) as nat,
        ),
        !(r.price > bound && r.qty > 0) ==> tally(
            row_prices(rows.push(r)),
            row_quantities(rows.push(r)),
            bound,
        ) == tally(row_prices(rows), row_quantities(rows), bound),
        tally(row_prices(Seq::empty()), row_quantities(Seq::empty()), bound) == (0nat, 0nat),
{
    scan_counts_each_row(row_prices(rows), row_quantities(rows), r.price, r.qty, bound);
    assert(row_prices(rows.push(r)) =~= row_prices(rows).push(r.price));
    assert(row_quantities(rows.push(r)) =~= row_quantities(rows).push(r.qty));
}

/// A rounded quotient is a nearest integer, and of two equally near ones the even one. There is
/// one such integer only.
pub proof fn rounded_is_nearest(num: int, q: int, y: int)
    requires
        q > 0,
    ensures
        -q <= 2 * (q * rounded(num, q) - num) <= q,
        2 * (q * rounded(num, q) - num) == q || 2 * (q * rounded(num, q) - num) == -q ==> rounded(
            num,
            q,
        ) % 2 == 0,
        -q <= 2 * (q * y - num) <= q && (2 * (q * y - num) == q || 2 * (q * y - num) == -q ==> y % 2
            == 0) ==> y == rounded(num, q),
{
    let v = num / q;
    let r = num % q;
    vstd::arithmetic::div_mod::lemma_fundamental_div_mod(num, q);
    vstd::arithmetic::div_mod::lemma_mod_bound(num, q);
    let z = rounded(num, q);
    assert(q * (v + 1) == q * v + q) by (nonlinear_arith);
    if -q <= 2 * (q * y - num) <= q && (2 * (q * y - num) == q || 2 * (q * y - num) == -q ==> y % 2
        == 0) {
        assert(q * y - q * z == q * (y - z)) by (nonlinear_arith);
        let d = y - z;
        assert(-1 <= d <= 1) by (nonlinear_arith)
            requires
                -q <= q * d <= q,
                q > 0,
        ;
        assert(d == 1 ==> q * d == q) by (nonlinear_arith);
        assert(d == -1 ==> q * d == -q) by (nonlinear_arith);
    }
}

/// A number that counts `m` times adds `m` times the nearest integer to its value over `q`.
pub proof fn rounded_sums_add_nearest(
    items: Items,
    x: i64,
    m: i64,
    g: spec_fn(int) -> int,
    q: int,
    y: int,
)
    requires
        q > 0,
        -q <= 2 * (q * y - g(x as int)) <= q,
        2 * (q * y - g(x as int)) == q || 2 * (q * y - g(x as int)) == -q ==> y % 2 == 0,
    ensures
        gather(Seq::empty(), rounded_value(g, q)) == 0,
        gather(items.push((x, m)), rounded_value(g, q)) == gather(items, rounded_value(g, q)) + m
            * y,
{
    gather_push(items, x, m, rounded_value(g, q));
    rounded_is_nearest(g(x as int), q, y);
}

/// The sum over plain numbers of `p * x + b` over `q`, each rounded to the nearest integer and
/// ties to the even one: one more number adds its nearest integer.
pub proof fn rounded_lines_add_nearest(
    xs: Seq<i64>,
    x: i64,
    p: int,
    b: int,
    q: int,
    y: int,
)
    requires
        q > 0,
        -q <= 2 * (q * y - (p * x + b)) <= q,
        2 * (q * y - (p * x + b)) == q || 2 * (q * y - (p * x + b)) == -q ==> y % 2 == 0,
    ensures
        gather(ones(Seq::empty()), rounded_value(line(p, b), q)) == 0,
        gather(ones(xs.push(x)), rounded_value(line(p, b), q)) == gather(
            ones(xs),
            rounded_value(line(p, b), q),
        ) + y,
{
    ones_push(xs, x, rounded_value(line(p, b), q));
    rounded_is_nearest(p * x + b, q, y);
}

/// A polynomial is its first coefficient and the argument times the polynomial of the others.
pub proof fn polynomial_of_its_coefficients(first: i64, rest: Seq<i64>, x: int)
    ensures
        poly(Seq::empty())(x) == 0,
        poly(seq![first] + rest)(x) == first + x * poly(rest)(x),
{
    let c = seq![first] + rest;
    tail_moves(c, rest, x, 1);
    assert(c[0] == first);
}

proof fn tail_moves(c: Seq<i64>, rest: Seq<i64>, x: int, k: int)
    requires
        k >= 1,
        c.len() == rest.len() + 1,
        forall|i: int| 1 <= i < c.len() ==> c[i] == rest[i - 1],
    ensures
        crate::polynomial::tail(c, x, k) == crate::polynomial::tail(rest, x, k - 1),
    decreases c.len() - k,
{
    if k < c.len() {
        tail_moves(c, rest, x, k + 1);
    }
}

/// Polynomials of plain numbers, each over `q` and rounded: one more number adds the nearest
/// integer to its value.
pub proof fn rounded_polynomials_add_nearest(
    xs: Seq<i64>,
    x: i64,
    c: Seq<i64>,
    q: int,
    y: int,
)
    requires
        q > 0,
        -q <= 2 * (q * y - poly(c)(x as int)) <= q,
        2 * (q * y - poly(c)(x as int)) == q || 2 * (q * y - poly(c)(x as int)) == -q ==> y % 2
            == 0,
    ensures
        gather(ones(Seq::empty()), rounded_value(poly(c), q)) == 0,
        gather(ones(xs.push(x)), rounded_value(poly(c), q)) == gather(
            ones(xs),
            rounded_value(poly(c), q),
        ) + y,
{
    ones_push(xs, x, rounded_value(poly(c), q));
    rounded_is_nearest(poly(c)(x as int), q, y);
}

/// A score is a mean of price and delivery, weighted by ten thousandths.
pub proof fn score_is_a_weighted_mean(p: Product, k: int)
    ensures
        score(p, 0) == 10_000 * p.delivery,
        score(p, 10_000) == 10_000 * p.price,
        score(p, k + 1) - score(p, k) == p.price - p.delivery,
{
    let (a, b) = (p.price as int, p.delivery as int);
    assert((k + 1) * a + (10_000 - (k + 1)) * b - (k * a + (10_000 - k) * b) == a - b)
        by (nonlinear_arith);
}

/// The winner of some products scores least, and is the first of those that do.
pub proof fn winner_scores_least(ps: Seq<Product>, k: int, j: int)
    requires
        0 <= j < ps.len(),
    ensures
        0 <= winner(ps, k) < ps.len(),
        ({
            let w = ps[winner(ps, k)];
            k * w.price + (10_000 - k) * w.delivery <= k * ps[j].price + (10_000 - k)
                * ps[j].delivery
        }),
        j < winner(ps, k) ==> ({
            let w = ps[winner(ps, k)];
            k * w.price + (10_000 - k) * w.delivery < k * ps[j].price + (10_000 - k)
                * ps[j].delivery
        }),
{
    let w = lowest_exists(ps, k, ps.len() as int);
    one_winner(ps, k, w);
    assert(wins(ps, k, w));
    assert(score(ps[w], k) <= score(ps[j], k));
    assert(j < w ==> score(ps[w], k) < score(ps[j], k));
}

/// The winner of a catalogue costs least at a weight, where an item's price is its base, the
/// adjustment of all items and its own exception together; it is the first of those that do.
pub proof fn catalogue_winner_costs_least(items: Seq<Item>, adj: int, k: int, j: int)
    requires
        0 <= j < items.len(),
        forall|i: int|
            0 <= i < items.len() ==> i64::MIN <= (#[trigger] items[i]).price_base + adj
                + items[i].exception <= i64::MAX,
    ensures
        0 <= winner(products(items, adj), k) < items.len(),
        ({
            let w = items[winner(products(items, adj), k)];
            k * (w.price_base + adj + w.exception) + (10_000 - k) * w.delivery <= k * (
            items[j].price_base + adj + items[j].exception) + (10_000 - k) * items[j].delivery
        }),
        j < winner(products(items, adj), k) ==> ({
            let w = items[winner(products(items, adj), k)];
            k * (w.price_base + adj + w.exception) + (10_000 - k) * w.delivery < k * (
            items[j].price_base + adj + items[j].exception) + (10_000 - k) * items[j].delivery
        }),
{
    let ps = products(items, adj);
    winner_scores_least(ps, k, j);
    let w = winner(ps, k);
    assert(ps[w].price == items[w].price_base + adj + items[w].exception);
    assert(ps[j].price == items[j].price_base + adj + items[j].exception);
}

/// Setting an exception changes one item, and of that nothing but its exception.
pub proof fn exception_changes_one_price(item: Item, e: i64)
    ensures
        item.with_exception(e).exception == e,
        item.with_exception(e).price_base == item.price_base,
        item.with_exception(e).delivery == item.delivery,
{
}

/// A generated front leads from the cheapest item to the one that is delivered first; what one
/// gains in price along it, it loses in delivery.
pub proof fn front_trades_price_for_delivery(i: int, j: int, size: int)
    requires
        2 <= size,
        0 <= i < j < size,
    ensures
        front_item(0, size).price_base == 1000,
        front_item(size - 1, size).price_base == 19_000,
        front_item(i, size).price_base + front_item(i, size).delivery == 20_000,
        front_item(i, size).exception == 0,
        front_item(i, size).price_base <= front_item(j, size).price_base,
        0 <= 18_000 * i - (front_item(i, size).price_base - 1000) * (size - 1) < size - 1,
{
    let d = size - 1;
    vstd::arithmetic::div_mod::lemma_fundamental_div_mod(18_000 * i, d);
    vstd::arithmetic::div_mod::lemma_mod_bound(18_000 * i, d);
    let share = 18_000 * i / d;
    assert(0 <= share <= 18_000) by (nonlinear_arith)
        requires
            18_000 * i == d * share + 18_000 * i % d,
            0 <= 18_000 * i % d < d,
            0 <= i <= d,
            d > 0,
    ;
    assert(share * d == d * share) by (nonlinear_arith);
    assert(18_000 * j / d <= 18_000) by (nonlinear_arith)
        requires
            0 <= j <= d,
            d > 0,
    ;
    vstd::arithmetic::div_mod::lemma_div_is_ordered(18_000 * i, 18_000 * j, d);
    assert(18_000 * d / d == 18_000) by (nonlinear_arith)
        requires
            d > 0,
    ;
    assert(0int / d == 0) by (nonlinear_arith)
        requires
            d > 0,
    ;
}

/// How far a product has drifted is the least bound on how far each of its two values has.
pub proof fn drift_is_the_least_bound(cert: Product, cur: Product, bound: int)
    ensures
        -drift(cert, cur) <= cur.price - cert.price <= drift(cert, cur),
        -drift(cert, cur) <= cur.delivery - cert.delivery <= drift(cert, cur),
        -bound <= cur.price - cert.price <= bound && -bound <= cur.delivery - cert.delivery <= bound
            ==> drift(cert, cur) <= bound,
{
}

/// The margin of a winner is how far the nearest other product is behind it, as far as it can be
/// held.
pub proof fn margin_is_to_the_runner_up(ps: Seq<Product>, k: int, j: int)
    requires
        2 <= ps.len(),
        0 <= j < ps.len(),
        j != winner(ps, k),
    ensures
        margin(ps, k) >= 0,
        ({
            let w = ps[winner(ps, k)];
            margin(ps, k) <= k * ps[j].price + (10_000 - k) * ps[j].delivery - (k * w.price + (
            10_000 - k) * w.delivery)
        }),
        margin(ps, k) == i128::MAX || exists|i: int|
            {
                let w = ps[winner(ps, k)];
                0 <= i < ps.len() && i != winner(ps, k) && margin(ps, k) == k
                    * #[trigger] ps[i].price + (10_000 - k) * ps[i].delivery - (k * w.price + (
                10_000 - k) * w.delivery)
            },
{
    let w = lowest_exists(ps, k, ps.len() as int);
    one_winner(ps, k, w);
    let g = nearest_behind(ps, k, w, ps.len() as int);
    let m = crate::answer_cells::clipped(score(ps[g], k) - score(ps[w], k));
    assert(crate::answer_cells::is_margin(ps, k, m));
    crate::answer_cells::one_margin(ps, k, m);
    assert(ps[g].price == ps[g].price);
}

/// Of some products but one, the one with the least score.
proof fn nearest_behind(ps: Seq<Product>, k: int, w: int, n: int) -> (g: int)
    requires
        0 <= w < ps.len(),
        2 <= n <= ps.len(),
    ensures
        0 <= g < n,
        g != w,
        forall|j: int| 0 <= j < n && j != w ==> score(ps[g], k) <= score(#[trigger] ps[j], k),
    decreases n,
{
    if n == 2 {
        if w == 0 {
            1
        } else if w == 1 {
            0
        } else if score(ps[0], k) <= score(ps[1], k) {
            0
        } else {
            1
        }
    } else {
        let g = nearest_behind(ps, k, w, n - 1);
        if w != n - 1 && score(ps[n - 1], k) < score(ps[g], k) {
            n - 1
        } else {
            g
        }
    }
}

/// A sum that is weighted by both places changes by the product of two new numbers times the
/// exclusive or of their places; without a number on one side it is nothing.
pub proof fn twisted_pairs_add_up(a: Seq<i64>, b: Seq<i64>, x: i64, y: i64)
    ensures
        twisted_sum(Seq::empty(), b) == 0,
        twisted_sum(a, Seq::empty()) == 0,
        twisted_sum(a.push(x), b.push(y)) - twisted_sum(a.push(x), b) - twisted_sum(a, b.push(y))
            + twisted_sum(a, b) == x * y * ((a.len() as u64) ^ (b.len() as u64)),
{
    assert(a.push(x).drop_last() =~= a);
    assert(b.push(y).drop_last() =~= b);
    twisted_with_none(a);
}

proof fn twisted_with_none(a: Seq<i64>)
    ensures
        twisted_sum(a, Seq::empty()) == 0,
    decreases a.len(),
{
    if a.len() > 0 {
        twisted_with_none(a.drop_last());
    }
}

/// The sum over all pairs grows with each new number on either side by that number times every
/// number on the other.
pub proof fn pairs_add_up(a: Seq<i64>, b: Seq<i64>, x: i64, y: i64)
    ensures
        pair_sum(Seq::empty(), b) == 0,
        pair_sum(a, Seq::empty()) == 0,
        pair_sum(a.push(x), b.push(y)) - pair_sum(a.push(x), b) - pair_sum(a, b.push(y)) + pair_sum(
            a,
            b,
        ) == x * y,
{
    assert(a.push(x).drop_last() =~= a);
    assert(b.push(y).drop_last() =~= b);
    pairs_factorize(a, Seq::empty());
    pairs_factorize(a, b);
    pairs_factorize(a, b.push(y));
    assert(sum(Seq::empty()) == 0);
    assert(sum(a) * 0 == 0);
}

/// Sums are over all the numbers, each as often as it occurs.
pub proof fn sums_are_of_all(s: Seq<int>, t: Seq<int>, x: int)
    ensures
        whole(Seq::empty()) == 0,
        whole(seq![x]) == x,
        whole(s + t) == whole(s) + whole(t),
    decreases t.len(),
{
    let one = seq![x];
    assert(one.drop_last() =~= Seq::empty());
    assert(whole(one) == whole(one.drop_last()) + one.last());
    if t.len() == 0 {
        assert(s + t =~= s);
    } else {
        sums_are_of_all(s, t.drop_last(), x);
        assert((s + t).drop_last() =~= s + t.drop_last());
    }
}

/// What a region costs together is what its prices come to, and a price is its base, what was
/// added to all since it came, and its exception.
pub proof fn region_prices_are_sums(r: Region, i: int)
    requires
        0 <= i < r.rows@.len(),
    ensures
        r@.len() == r.rows@.len(),
        r@[i] == r.rows@[i].base + r.adj - r.rows@[i].birth_adj + r.rows@[i].exception,
{
}

/// Two lists whose values lie apart are those with no number between the ends of both.
pub proof fn apart_means_no_common_range(a: Seq<u64>, b: Seq<u64>, x: u64)
    requires
        forall|i: int, j: int| 0 <= i < j < a.len() ==> a[i] < a[j],
        forall|i: int, j: int| 0 <= i < j < b.len() ==> b[i] < b[j],
    ensures
        a.len() == 0 || b.len() == 0 ==> apart(a, b),
        a.len() > 0 && b.len() > 0 && a[0] <= x <= a.last() && b[0] <= x <= b.last() ==> !apart(
            a,
            b,
        ),
        a.len() > 0 && b.len() > 0 && !apart(a, b) ==> ({
            let y = if a[0] >= b[0] {
                a[0]
            } else {
                b[0]
            };
            a[0] <= y <= a.last() && b[0] <= y <= b.last()
        }),
{
    if a.len() > 1 {
        assert(a[0] < a[a.len() - 1]);
    }
    if b.len() > 1 {
        assert(b[0] < b[b.len() - 1]);
    }
}

/// The count of shared values is over the values of one list that stand in the other.
pub proof fn shared_counts_each(a: Seq<u64>, b: Seq<u64>, x: u64)
    ensures
        shared(Seq::empty(), b) == 0,
        (exists|i: int| 0 <= i < b.len() && #[trigger] b[i] == x) ==> shared(a.push(x), b) == shared(
            a,
            b,
        ) + 1,
        (forall|i: int| 0 <= i < b.len() ==> #[trigger] b[i] != x) ==> shared(a.push(x), b)
            == shared(a, b),
{
    assert(a.push(x).drop_last() =~= a);
}

/// Following links goes one link at a time: no step stays, one step is the link, and two walks
/// behind each other are one.
pub proof fn walks_join(links: Seq<u32>, start: u32, m: nat, n: nat)
    ensures
        followed(links, start, 0) == start,
        followed(links, start, 1) == links[start as int],
        followed(links, followed(links, start, m), n) == followed(links, start, m + n),
    decreases n,
{
    assert(followed(links, start, 1) == links[followed(links, start, 0) as int]);
    if n > 0 {
        walks_join(links, start, m, (n - 1) as nat);
    }
}

/// What many walks end at is folded by adding all ends, past the largest number around again.
pub proof fn ends_add_up(out: Seq<u32>, x: u32)
    ensures
        end_sum(Seq::empty()) == 0,
        end_sum(out.push(x)) as int == (end_sum(out) + x) % 0x1_0000_0000_0000_0000,
{
    assert(out.push(x).drop_last() =~= out);
}

/// A grant is the largest amount that is wanted, is there, and is no debt.
pub proof fn grant_is_the_most(left: int, want: int, other: int)
    requires
        want >= 0,
    ensures
        0 <= granted(left, want) <= want,
        left > 0 ==> granted(left, want) <= left,
        left <= 0 ==> granted(left, want) == 0,
        0 <= other <= want && other <= left ==> other <= granted(left, want),
{
}

/// A shard with stock of its own asks for none. One without asks for what it restocks with, and
/// for one at the least, and gets no more than is left.
pub proof fn top_up_is_for_an_empty_shard(s: Shard, left: int)
    requires
        left >= 0,
    ensures
        s.local > 0 ==> s.topped_up(left) == 0,
        s.local <= 0 && left > 0 ==> s.topped_up(left) >= 1,
        s.local <= 0 ==> s.topped_up(left) <= left,
        s.local <= 0 && s.restock >= 1 ==> s.topped_up(left) <= s.restock,
        s.local <= 0 && s.restock < 1 ==> s.topped_up(left) <= 1,
        s.local <= 0 ==> s.topped_up(left) == left || s.topped_up(left) == s.restock
            || s.topped_up(left) == 1,
        s.local <= 0 && s.restock >= 1 && s.restock <= left ==> s.topped_up(left) == s.restock,
        s.local <= 0 && s.restock >= 1 && s.restock > left ==> s.topped_up(left) == left,
{
}

/// A stock is shared out evenly, and what is over goes to the last shard; where there are more
/// shards than pieces, the first get one each.
pub proof fn shares_are_even(stock: int, n: int, i: int)
    requires
        stock >= 0,
        0 <= i < n,
    ensures
        stock < n && i < stock ==> first_share(stock, n, i) == 1,
        stock < n && i >= stock ==> first_share(stock, n, i) == 0,
        stock >= n && i < n - 1 ==> first_share(stock, n, i) * n <= stock < (first_share(stock, n, i)
            + 1) * n,
        stock >= n ==> first_share(stock, n, n - 1) + (n - 1) * first_share(stock, n, 0) == stock
            || n == 1,
        stock >= n && n == 1 ==> first_share(stock, n, 0) == stock,
{
    vstd::arithmetic::div_mod::lemma_fundamental_div_mod(stock, n);
    vstd::arithmetic::div_mod::lemma_mod_bound(stock, n);
    let s = stock / n;
    assert((s + 1) * n == n * s + n) by (nonlinear_arith);
    assert(s * n == n * s) by (nonlinear_arith);
    assert(s * (n - 1) == (n - 1) * s) by (nonlinear_arith);
    assert(n == 1 ==> s * (n - 1) == 0) by (nonlinear_arith);
}

/// What the shards hold is the sum of what each holds.
pub proof fn held_adds_up(shards: Seq<Shard>, s: Shard)
    ensures
        held(Seq::empty()) == 0,
        held(shards.push(s)) == held(shards) + s.local,
{
    assert(shards.push(s).drop_last() =~= shards);
}

/// A stock is what the coordinator and the shards have together.
pub proof fn total_is_all_stock(q: QuotaSystem)
    ensures
        q.total() == q.coord.remaining + held(q.shards@),
{
}

/// A hexadecimal digit has its usual value, whether a letter is small or large; nothing else is
/// a digit.
pub proof fn digits_have_their_values(c: u8, v: u8)
    ensures
        v < 10 ==> digit_value((48 + v) as u8) == Some(v),
        10 <= v < 16 ==> digit_value((87 + v) as u8) == Some(v) && digit_value((55 + v) as u8)
            == Some(v),
        c < 48 || 57 < c < 65 || 70 < c < 97 || c > 102 ==> digit_value(c) is None,
        v < 10 ==> digit_of(v) == 48 + v,
        10 <= v < 16 ==> digit_of(v) == 87 + v,
{
}

/// A byte is written as its high digit and then its low one, bytes one behind the other.
pub proof fn bytes_are_written_in_order(a: Seq<u8>, b: u8)
    ensures
        encoded(Seq::empty()) == Seq::<u8>::empty(),
        encoded(a.push(b)) == encoded(a).push(digit_of(b / 16)).push(digit_of(b % 16)),
        digit_value(digit_of(b / 16))->0 * 16 + digit_value(digit_of(b % 16))->0 == b,
{
    assert(encoded(Seq::empty()) =~= Seq::<u8>::empty());
    let s = encoded(a.push(b));
    let t = encoded(a).push(digit_of(b / 16)).push(digit_of(b % 16));
    assert forall|i: int| 0 <= i < s.len() implies s[i] == t[i] by {
        if i < 2 * a.len() {
            assert(a.push(b)[i / 2] == a[i / 2]);
        } else if i == 2 * a.len() {
            assert(i / 2 == a.len() && i % 2 == 0);
        } else {
            assert(i / 2 == a.len() && i % 2 == 1);
        }
    }
    assert(s =~= t);
}

/// A search around a prediction looks at the places that are off by no more than the error and
/// two more, and at no others.
pub proof fn window_is_around_the_prediction(size: int, pred: int, err: int, i: int)
    requires
        0 <= pred < size,
        err >= 0,
        0 <= i < size,
    ensures
        window(size, pred, err).0 <= i <= window(size, pred, err).1 <==> pred - (err + 2) <= i
            <= pred + err + 2,
        0 <= window(size, pred, err).0,
        window(size, pred, err).1 < size,
{
}

/// Keys of a cluster follow each other, and between clusters a gap of ten thousand to eighty
/// thousand is left out.
pub proof fn steps_of_clusters(step: int)
    ensures
        clustered(step) <==> step == 1 || (step > 10_000 && step <= 80_000),
{
}

/// A prefix sum is over the values of exactly those rows whose key is no more than the bound.
pub proof fn prefix_sum_takes_small_keys(keys: Seq<u32>, vals: Seq<i32>, k: u32, v: i32, t: int)
    requires
        keys.len() == vals.len(),
    ensures
        upto(Seq::empty(), Seq::empty(), t) == 0,
        k <= t ==> upto(keys.push(k), vals.push(v), t) == upto(keys, vals, t) + v,
        k > t ==> upto(keys.push(k), vals.push(v), t) == upto(keys, vals, t),
{
    assert(keys.push(k).drop_last() =~= keys);
    upto_looks_no_further(keys, vals, v, t);
}

proof fn upto_looks_no_further(keys: Seq<u32>, vals: Seq<i32>, v: i32, t: int)
    requires
        keys.len() <= vals.len(),
    ensures
        upto(keys, vals.push(v), t) == upto(keys, vals, t),
    decreases keys.len(),
{
    if keys.len() > 0 {
        upto_looks_no_further(keys.drop_last(), vals, v, t);
    }
}

/// Scanning rows is scanning their keys and values.
pub proof fn row_prefix_sum_takes_small_keys(rows: Seq<PrefixRow>, r: PrefixRow, t: int)
    ensures
        r.key <= t ==> upto(row_keys(rows.push(r)), row_vals(rows.push(r)), t) == upto(
            row_keys(rows),
            row_vals(rows),
            t,
        ) + r.value,
        r.key > t ==> upto(row_keys(rows.push(r)), row_vals(rows.push(r)), t) == upto(
            row_keys(rows),
            row_vals(rows),
            t,
        ),
        upto(row_keys(Seq::empty()), row_vals(Seq::empty()), t) == 0,
{
    prefix_sum_takes_small_keys(row_keys(rows), row_vals(rows), r.key, r.value, t);
    assert(row_keys(rows.push(r)) =~= row_keys(rows).push(r.key));
    assert(row_vals(rows.push(r)) =~= row_vals(rows).push(r.value));
}

/// Arranged by key, each value stands at the place of its key.
pub proof fn values_stand_at_their_keys(keys: Seq<u32>, vals: Seq<i32>, n: int, i: int)
    requires
        forall|a: int, b: int| 0 <= a < b < keys.len() ==> keys[a] != keys[b],
        forall|a: int| 0 <= a < keys.len() ==> #[trigger] keys[a] < keys.len(),
        0 <= i < n <= keys.len() <= vals.len(),
    ensures
        by_key(keys, vals, n).len() == keys.len(),
        by_key(keys, vals, n)[keys[i] as int] == vals[i],
    decreases n,
{
    by_key_size(keys, vals, n - 1);
    if i < n - 1 {
        values_stand_at_their_keys(keys, vals, n - 1, i);
        assert(keys[i] != keys[n - 1]);
    }
}

proof fn by_key_size(keys: Seq<u32>, vals: Seq<i32>, n: int)
    requires
        forall|a: int| 0 <= a < keys.len() ==> #[trigger] keys[a] < keys.len(),
        n <= keys.len(),
    ensures
        by_key(keys, vals, n).len() == keys.len(),
    decreases n,
{
    if n > 0 {
        by_key_size(keys, vals, n - 1);
    }
}

/// A block of a prefix sum has five hundred and twelve rows, the last what is left; its summary
/// has the sum of its values, and bounds that hold all of its keys.
pub proof fn blocks_sum_their_rows(
    keys: Seq<u32>,
    vals: Seq<i32>,
    blocks: Seq<Block>,
    g: int,
    i: int,
)
    requires
        summarized(keys, vals, blocks),
        0 <= i < keys.len(),
        512 * g <= i < 512 * (g + 1),
        g >= 0,
    ensures
        g < blocks.len(),
        blocks[g].lo <= keys[i] <= blocks[g].hi,
        blocks[g].sum == run_sum(
            vals,
            512 * g,
            if 512 * (g + 1) < keys.len() {
                512 * (g + 1)
            } else {
                keys.len() as int
            },
        ),
{
    if blocks.len() <= g {
        assert(blocks.len() * 512 <= g * 512);
    }
    assert(sums_up(keys, vals, g, blocks[g]));
}

/// A run's sum is that of its values.
pub proof fn run_sums_join(vals: Seq<i32>, a: int, b: int, c: int)
    requires
        a <= b <= c,
    ensures
        run_sum(vals, a, a) == 0,
        run_sum(vals, b, b + 1) == vals[b],
        run_sum(vals, a, b) + run_sum(vals, b, c) == run_sum(vals, a, c),
    decreases c - b,
{
    assert(run_sum(vals, b, b) == 0);
    if b < c {
        run_sums_join(vals, a, b, c - 1);
    }
}

/// A filter counts exactly the values above a bound.
pub proof fn filters_count_what_is_above(values: Seq<u32>, v: u32, t: int)
    ensures
        above(plain(Seq::empty()), t) == 0,
        v > t ==> above(plain(values.push(v)), t) == above(plain(values), t) + 1,
        v <= t ==> above(plain(values.push(v)), t) == above(plain(values), t),
{
    assert(plain(values.push(v)) =~= plain(values).push(v as int));
    assert(plain(values).push(v as int).drop_last() =~= plain(values));
}

/// Values in halves count like whole ones: a high half counts for sixty-five thousand five
/// hundred and thirty-six times as much.
pub proof fn halves_count_like_wholes(hi: Seq<u16>, lo: Seq<u16>, h: u16, l: u16, t: int)
    requires
        hi.len() == lo.len(),
    ensures
        above(paired(Seq::empty(), Seq::empty()), t) == 0,
        65_536 * h + l > t ==> above(paired(hi.push(h), lo.push(l)), t) == above(paired(hi, lo), t)
            + 1,
        65_536 * h + l <= t ==> above(paired(hi.push(h), lo.push(l)), t) == above(
            paired(hi, lo),
            t,
        ),
{
    assert(paired(hi.push(h), lo.push(l)) =~= paired(hi, lo).push(65_536 * h + l));
    assert(paired(hi, lo).push(65_536 * h + l).drop_last() =~= paired(hi, lo));
}

/// The least value is found at its first place.
pub proof fn least_is_the_first_of_its_kind(values: Seq<u32>, r: int, j: int)
    requires
        first_least(plain(values), r),
        0 <= j < values.len(),
    ensures
        0 <= r < values.len(),
        values[r] <= values[j],
        j < r ==> values[r] < values[j],
{
    assert(plain(values)[j] == values[j]);
    assert(plain(values)[r] == values[r]);
}

/// Of values in halves too.
pub proof fn least_of_halves_is_the_first(hi: Seq<u16>, lo: Seq<u16>, r: int, j: int)
    requires
        first_least(paired(hi, lo), r),
        0 <= j < hi.len() <= lo.len(),
    ensures
        0 <= r < hi.len(),
        65_536 * hi[r] + lo[r] <= 65_536 * hi[j] + lo[j],
        j < r ==> 65_536 * hi[r] + lo[r] < 65_536 * hi[j] + lo[j],
{
    assert(paired(hi, lo)[j] == 65_536 * hi[j] + lo[j]);
    assert(paired(hi, lo)[r] == 65_536 * hi[r] + lo[r]);
}

/// The bounds of a block of one thousand and twenty-four values hold every value in it.
pub proof fn block_bounds_hold(
    values: Seq<u32>,
    mins: Seq<u32>,
    maxs: Seq<u32>,
    b: int,
    i: int,
)
    requires
        bounded(values, mins, maxs, mins.len() as int),
        progressive_edge(values.len() as int, mins.len() as int) == values.len(),
        0 <= i < values.len(),
        b >= 0,
        1024 * b <= i < 1024 * (b + 1),
    ensures
        b < mins.len() <= maxs.len(),
        mins[b] <= values[i] <= maxs[b],
{
    if mins.len() <= b {
        assert(mins.len() * 1024 <= b * 1024);
    }
    assert(progressive_edge(values.len() as int, b) <= i < progressive_edge(
        values.len() as int,
        b + 1,
    ));
    let m = mins[b];
    let v = values[i];
}

/// A score is the sum of products of what stands at equal places; places that one list lacks do
/// not count.
pub proof fn scores_add_products(q: Seq<i64>, z: Seq<i64>, x: i64, y: i64)
    ensures
        scored(Seq::empty(), z) == 0,
        q.len() == z.len() ==> scored(q.push(x), z.push(y)) == scored(q, z) + x * y,
        q.len() >= z.len() ==> scored(q.push(x), z) == scored(q, z),
        q.len() <= z.len() ==> scored(q, z.push(y)) == scored(q, z),
{
    let n = if q.len() <= z.len() {
        q.len() as int
    } else {
        z.len() as int
    };
    dot_looks_no_further(q, z, q.push(x), z, n);
    dot_looks_no_further(q, z, q, z.push(y), n);
    dot_looks_no_further(q, z, q.push(x), z.push(y), n);
}

proof fn dot_looks_no_further(q: Seq<i64>, z: Seq<i64>, q2: Seq<i64>, z2: Seq<i64>, n: int)
    requires
        n <= q.len(),
        n <= z.len(),
        forall|i: int| 0 <= i < n ==> q[i] == q2[i] && z[i] == z2[i],
    ensures
        crate::ranking_cert::dot(q, z, n) == crate::ranking_cert::dot(q2, z2, n),
    decreases n,
{
    if n > 0 {
        dot_looks_no_further(q, z, q2, z2, n - 1);
    }
}

/// The winner of a ranking scores least, and is the first of those that do.
pub proof fn ranked_winner_scores_least(zs: Seq<Vec<i64>>, q: Seq<i64>, w: int, j: int)
    requires
        ranked_wins(zs, q, w),
        0 <= j < zs.len(),
    ensures
        0 <= w < zs.len(),
        scored(q, zs[w]@) <= scored(q, zs[j]@),
        j < w ==> scored(q, zs[w]@) < scored(q, zs[j]@),
{
    let z = zs[j];
}

/// An ordinary certificate stands exactly if the margin that noise leaves is more than what the
/// query can move the largest difference by. `most` is that largest difference, either way.
pub proof fn ordinary_certificate(m: int, d: Seq<i64>, r: int, eps: int, q1: int, most: int)
    requires
        forall|t: int| 0 <= t < d.len() ==> -most <= #[trigger] d[t] <= most,
        exists|t: int| 0 <= t < d.len() && (#[trigger] d[t] == most || d[t] == -most),
    ensures
        ordinary(m, d, r, eps, q1) <==> most > 0 && m - 2 * eps * q1 > 0 && r * most < m - 2 * eps
            * q1,
{
    farthest_is(d);
}

proof fn farthest_is(d: Seq<i64>)
    ensures
        farthest(d) >= 0,
        forall|t: int| 0 <= t < d.len() ==> -farthest(d) <= #[trigger] d[t] <= farthest(d),
        d.len() > 0 ==> exists|t: int|
            0 <= t < d.len() && (#[trigger] d[t] == farthest(d) || d[t] == -farthest(d)),
    decreases d.len(),
{
    if d.len() > 0 {
        let init = d.drop_last();
        farthest_is(init);
        let n = d.len() - 1;
        assert forall|t: int| 0 <= t < d.len() implies -farthest(d) <= #[trigger] d[t] <= farthest(
            d,
        ) by {
            if t < n {
                assert(d[t] == init[t]);
            }
        }
        if farthest(d) == farthest(init) && init.len() > 0 {
            let t = choose|t: int|
                0 <= t < init.len() && (#[trigger] init[t] == farthest(init) || init[t]
                    == -farthest(init));
            assert(d[t] == init[t]);
        } else {
            assert(d[n] == farthest(d) || d[n] == -farthest(d));
        }
    }
}

/// A certificate for queries of one mass stands exactly if twice the margin that noise leaves is
/// more than what the query can move the spread of the differences by.
pub proof fn simplex_certificate(
    m: int,
    d: Seq<i64>,
    r: int,
    eps: int,
    q1: int,
    hi: int,
    lo: int,
)
    requires
        forall|t: int| 0 <= t < d.len() ==> lo <= #[trigger] d[t] <= hi,
        exists|t: int| 0 <= t < d.len() && #[trigger] d[t] == hi,
        exists|t: int| 0 <= t < d.len() && #[trigger] d[t] == lo,
    ensures
        simplex(m, d, r, eps, q1) <==> hi > lo && m - 2 * eps * q1 > 0 && r * (hi - lo) < 2 * (m - 2
            * eps * q1),
{
    ends_are(d);
}

proof fn ends_are(d: Seq<i64>)
    requires
        d.len() > 0,
    ensures
        forall|t: int| 0 <= t < d.len() ==> smallest(d) <= #[trigger] d[t] <= largest(d),
        exists|t: int| 0 <= t < d.len() && #[trigger] d[t] == largest(d),
        exists|t: int| 0 <= t < d.len() && #[trigger] d[t] == smallest(d),
    decreases d.len(),
{
    let n = d.len() - 1;
    if d.len() == 1 {
        assert(d[0] == largest(d) && d[0] == smallest(d));
    } else {
        let init = d.drop_last();
        ends_are(init);
        let a = choose|t: int| 0 <= t < init.len() && #[trigger] init[t] == largest(init);
        let b = choose|t: int| 0 <= t < init.len() && #[trigger] init[t] == smallest(init);
        assert(d[a] == init[a] && d[b] == init[b]);
        assert(d[n] == d.last());
        assert forall|t: int| 0 <= t < d.len() implies smallest(d) <= #[trigger] d[t] <= largest(
            d,
        ) by {
            if t < n {
                assert(d[t] == init[t]);
            }
        }
    }
}

/// A filtered sum is over exactly the sums above the bound.
pub proof fn filtered_sum_takes_what_is_above(c: Seq<i128>, x: i128, t: int)
    ensures
        sum_above(Seq::empty(), t) == 0,
        x > t ==> sum_above(c.push(x), t) == sum_above(c, t) + x,
        x <= t ==> sum_above(c.push(x), t) == sum_above(c, t),
{
    assert(c.push(x).drop_last() =~= c);
}

/// Two nodes are linked exactly if they differ and some edge joins them, in either direction.
pub proof fn links_are_edges(edges: Seq<(u32, u32)>, u: u32, v: u32)
    ensures
        linked(edges, u as int, v as int) <==> u != v && exists|i: int|
            0 <= i < edges.len() && (#[trigger] edges[i] == (u, v) || edges[i] == (v, u)),
{
    if linked(edges, u as int, v as int) {
        if edges.contains((u, v)) {
            let i = choose|i: int| 0 <= i < edges.len() && edges[i] == (u, v);
            assert(edges[i] == (u, v));
        } else {
            let i = choose|i: int| 0 <= i < edges.len() && edges[i] == (v, u);
            assert(edges[i] == (v, u));
        }
    }
}

/// A triangle count is the number of three nodes that edges join pairwise, whatever their order;
/// the count of candidates is that of rising paths of two edges.
pub proof fn triangles_are_counted_once(
    adj: Seq<Vec<u64>>,
    n: int,
    edges: Seq<(u32, u32)>,
    three: Set<Triple>,
    paired: Set<Triple>,
)
    requires
        graph_of(adj, n, edges),
        forall|t: Triple| #[trigger]
            three.contains(t) <==> 0 <= t.0 < t.1 < t.2 < n && linked(edges, t.0, t.1) && linked(
                edges,
                t.0,
                t.2,
            ) && linked(edges, t.1, t.2),
        forall|t: Triple| #[trigger]
            paired.contains(t) <==> 0 <= t.0 < t.1 < t.2 < n && linked(edges, t.0, t.1) && linked(
                edges,
                t.1,
                t.2,
            ),
    ensures
        triangles(adj, n) == three.len(),
        paths(adj, n) == paired.len(),
{
    counts_are_of_triples(adj, n, edges);
    assert(three =~= linked_triangles(n, edges, n));
    assert(paired =~= linked_paths(n, edges, n));
}

/// The state of a workload steps by a fixed multiplication and addition, past the largest number
/// around again.
pub proof fn workload_steps(state: u64)
    ensures
        stepped(state) as int == (state * 6364136223846793005 + 1442695040888963407)
            % 0x1_0000_0000_0000_0000,
{
    let p = state * 6364136223846793005;
    let m = 0x1_0000_0000_0000_0000;
    vstd::arithmetic::div_mod::lemma_add_mod_noop(p, 1442695040888963407, m);
}

/// The key of a row is its number in eight bytes, the highest first.
pub proof fn keys_are_numbers(i: u64)
    ensures
        key_bytes(i).len() == 8,
        key_bytes(i)[0] * 0x100_0000_0000_0000 + key_bytes(i)[1] * 0x1_0000_0000_0000
            + key_bytes(i)[2] * 0x100_0000_0000 + key_bytes(i)[3] * 0x1_0000_0000 + key_bytes(i)[4]
            * 0x100_0000 + key_bytes(i)[5] * 0x1_0000 + key_bytes(i)[6] * 0x100 + key_bytes(i)[7]
            == i,
{
    reveal_with_fuel(big_endian, 9);
}

/// A value's bytes are bits of one step after the other; a longer value begins like a shorter.
pub proof fn values_are_steps(i: u64, seed: u64, size: nat, k: int)
    requires
        0 <= k < size,
    ensures
        value_bytes(i, seed, size).len() == size,
        stepped_times(i ^ seed, 0) == i ^ seed,
        stepped_times(i ^ seed, (k + 1) as nat) == stepped(stepped_times(i ^ seed, k as nat)),
        value_bytes(i, seed, size)[k] == stepped_times(i ^ seed, (k + 1) as nat) / 0x1_0000_0000
            % 256,
{
}

/// A forced change turns the lowest bit of the first byte, and nothing else.
pub proof fn forced_change_turns_one_bit(v: Seq<u8>)
    requires
        v.len() > 0,
    ensures
        flipped(v).len() == v.len(),
        forall|i: int| 0 < i < v.len() ==> #[trigger] flipped(v)[i] == v[i],
        v[0] % 2 == 0 ==> flipped(v)[0] == v[0] + 1,
        v[0] % 2 == 1 ==> flipped(v)[0] == v[0] - 1,
{
    let b = v[0];
    assert(b % 2 == 0 ==> b ^ 1 == b + 1) by (bit_vector);
    assert(b % 2 == 1 ==> b ^ 1 == b - 1) by (bit_vector);
}

/// A weight belongs to the cell that it lies in, and where two cells meet to the later one.
pub proof fn weights_lie_in_their_cells(cells: Seq<Cell>, i: int, k: int)
    ensures
        belongs(cells, i, k) <==> 0 <= i < cells.len() && cells[i].w_lo.n * 10_000 <= k
            * cells[i].w_lo.d && k * cells[i].w_hi.d <= cells[i].w_hi.n * 10_000 && (i + 1
            < cells.len() ==> k * cells[i].w_hi.d < cells[i].w_hi.n * 10_000),
{
}

/// Where a fraction lies to a weight.
pub proof fn fractions_compare_crosswise(f: Frac, g: Frac, x: int, y: int)
    ensures
        f.reaches(x, y) <==> f.n * y <= x * f.d,
        f.holds_back(x, y) <==> f.n * y >= x * f.d,
        f.below(g) <==> f.n * g.d < g.n * f.d,
{
}

/// Two products score alike where their cells meet: the difference in delivery over the
/// difference of what each gains from a higher weight.
pub proof fn cells_meet_where_scores_do(a: Product, b: Product)
    requires
        a.price - a.delivery > b.price - b.delivery,
        a.price - a.delivery - (b.price - b.delivery) <= i128::MAX,
    ensures
        meeting(a, b).n == b.delivery - a.delivery,
        meeting(a, b).d == (a.price - a.delivery) - (b.price - b.delivery),
{
}

/// A store answers from a cell exactly if some cell has the weight, and the gap of that cell is
/// more than twice what the scores can have drifted by, and one.
pub proof fn hits_are_safe_cells(store: AnswerStore, k: int, i: int)
    requires
        store.wf(),
    ensures
        store.hit(k) ==> exists|j: int| #[trigger]
            belongs(store.cells@, j, k) && 20_000 * store.max_drift + 1 < store.cells@[j].min_gap,
        belongs(store.cells@, i, k) ==> (store.hit(k) <==> 20_000 * store.max_drift + 1
            < store.cells@[i].min_gap),
{
    if belongs(store.cells@, i, k) {
        one_place(store.cells@, i, k);
    }
    if store.hit(k) {
        let j = place(store.cells@, k)->0;
        assert(belongs(store.cells@, j, k));
    }
}

/// The whole weights of a cell: the first is the least that the lower end does not exceed, the
/// last the greatest that does not exceed the upper end.
pub proof fn span_of_a_cell(lo: Frac, hi: Frac, k: int)
    requires
        lo.d > 0,
        hi.d > 0,
        0 <= lo.n <= lo.d,
        0 <= hi.n <= hi.d,
    ensures
        0 <= span(lo, hi).0 <= 10_000,
        0 <= span(lo, hi).1 <= 10_000,
        lo.n * 10_000 <= k * lo.d <==> span(lo, hi).0 <= k,
        k * hi.d <= hi.n * 10_000 <==> k <= span(lo, hi).1,
{
    let (n, d) = (lo.n as int, lo.d as int);
    let a = n * 10_000 + d - 1;
    let q = a / d;
    vstd::arithmetic::div_mod::lemma_fundamental_div_mod(a, d);
    vstd::arithmetic::div_mod::lemma_mod_bound(a, d);
    assert(0 <= q <= 10_000) by (nonlinear_arith)
        requires
            n * 10_000 + d - 1 == d * q + a % d,
            0 <= a % d < d,
            0 <= n <= d,
            d > 0,
    ;
    assert(n * 10_000 <= k * d <==> q <= k) by (nonlinear_arith)
        requires
            n * 10_000 + d - 1 == d * q + a % d,
            0 <= a % d < d,
            d > 0,
    ;
    let (m, e) = (hi.n as int, hi.d as int);
    let b = m * 10_000;
    let p = b / e;
    vstd::arithmetic::div_mod::lemma_fundamental_div_mod(b, e);
    vstd::arithmetic::div_mod::lemma_mod_bound(b, e);
    assert(0 <= p <= 10_000) by (nonlinear_arith)
        requires
            m * 10_000 == e * p + b % e,
            0 <= b % e < e,
            0 <= m <= e,
            e > 0,
    ;
    assert(k * e <= m * 10_000 <==> k <= p) by (nonlinear_arith)
        requires
            m * 10_000 == e * p + b % e,
            0 <= b % e < e,
            e > 0,
    ;
}

/// The gap of a cell is the least margin at its middle and at the ends of its middle half; a
/// narrow cell has none.
pub proof fn gap_is_the_least_margin(ps: Seq<Product>, lo: Frac, hi: Frac)
    ensures
        span(lo, hi).1 <= span(lo, hi).0 + 2 ==> cell_gap(ps, lo, hi) == 0,
        span(lo, hi).1 > span(lo, hi).0 + 2 ==> {
            let (a, b) = span(lo, hi);
            let (x, y, z) = (
                margin(ps, a + (b - a) / 4),
                margin(ps, a + (b - a) / 2),
                margin(ps, a + 3 * (b - a) / 4),
            );
            &&& cell_gap(ps, lo, hi) <= x
            &&& cell_gap(ps, lo, hi) <= y
            &&& cell_gap(ps, lo, hi) <= z
            &&& cell_gap(ps, lo, hi) == x || cell_gap(ps, lo, hi) == y || cell_gap(ps, lo, hi) == z
        },
{
}

/// A single product leads by as much as can be held, less its own score; no product leads by
/// nothing.
pub proof fn margin_without_a_runner_up(p: Product, k: int)
    ensures
        margin(Seq::empty(), k) == 0,
        k * p.price + (10_000 - k) * p.delivery >= 0 ==> margin(seq![p], k) == i128::MAX - (k
            * p.price + (10_000 - k) * p.delivery),
        k * p.price + (10_000 - k) * p.delivery < 0 ==> margin(seq![p], k) == i128::MAX,
{
    crate::answer_cells::one_margin(Seq::empty(), k, 0);
    let ps = seq![p];
    one_winner(ps, k, 0);
    crate::answer_cells::one_margin(
        ps,
        k,
        crate::answer_cells::clipped(i128::MAX - score(ps[0], k)),
    );
}

/// A generated front has one item for each forty, but no fewer than eight, and no more than
/// forty-eight, or sixty-four in a market.
pub proof fn fronts_have_their_size(n: int)
    requires
        n >= 0,
    ensures
        n < 320 ==> front_size(n) == 8 && market_front_size(n) == 8,
        320 <= n < 1960 ==> 40 * front_size(n) <= n < 40 * (front_size(n) + 1),
        n >= 1960 ==> front_size(n) == 48,
        320 <= n < 2600 ==> 40 * market_front_size(n) <= n < 40 * (market_front_size(n) + 1),
        n >= 2600 ==> market_front_size(n) == 64,
{
}

/// On a generated front price and delivery come to twenty thousand, from one end to the other;
/// everything else is behind it.
pub proof fn markets_have_a_front(ps: Seq<Product>, f: int, i: int)
    requires
        fronted(ps, f),
        0 <= i < ps.len(),
    ensures
        i < f ==> ps[i].price + ps[i].delivery == 20_000 && 1000 <= ps[i].price <= 19_000,
        i >= f ==> ps[i].price + ps[i].delivery >= 24_000 && ps[i].price >= 3000 && ps[i].delivery
            >= 3000,
{
    if 0 < i < f - 1 {
        assert(on_front(ps[i]));
    } else if i >= f {
        assert(behind_front(ps[i]));
    }
}

/// An item behind a generated front is dearer than the front by four to ten thousand in all.
pub proof fn band_is_behind_the_front(it: Item)
    requires
        behind(it),
    ensures
        26_000 <= it.price_base + it.delivery <= 36_000,
        4000 <= it.price_base <= 27_000,
        4000 <= it.delivery <= 27_000,
{
}

/// The bounds of a block are keys of its rows.
pub proof fn block_bounds_are_keys(keys: Seq<u32>, g: int, block: Block)
    requires
        bounds_met(keys, g, block),
        g >= 0,
    ensures
        exists|i: int|
            512 * g <= i < 512 * (g + 1) && 0 <= i < keys.len() && #[trigger] keys[i] == block.lo,
        exists|i: int|
            512 * g <= i < 512 * (g + 1) && 0 <= i < keys.len() && #[trigger] keys[i] == block.hi,
{
    let (a, b) = (
        crate::prefix::edge(keys.len() as int, g),
        crate::prefix::edge(keys.len() as int, g + 1),
    );
    let i = choose|i: int| a <= i < b && #[trigger] keys[i] == block.lo;
    let j = choose|j: int| a <= j < b && #[trigger] keys[j] == block.hi;
    assert(512 * g <= i < 512 * (g + 1) && 0 <= i < keys.len());
    assert(512 * g <= j < 512 * (g + 1) && 0 <= j < keys.len());
}

/// The bounds of a block of values are values in it.
pub proof fn value_bounds_are_values(values: Seq<u32>, mins: Seq<u32>, maxs: Seq<u32>, b: int)
    requires
        tight(values, mins, maxs),
        0 <= b < mins.len(),
    ensures
        exists|i: int|
            1024 * b <= i < 1024 * (b + 1) && 0 <= i < values.len() && #[trigger] values[i]
                == mins[b],
        exists|i: int|
            1024 * b <= i < 1024 * (b + 1) && 0 <= i < values.len() && #[trigger] values[i]
                == maxs[b],
{
    let m = mins[b];
    let (x, y) = (
        progressive_edge(values.len() as int, b),
        progressive_edge(values.len() as int, b + 1),
    );
    assert(reached(values, b, mins[b]) && reached(values, b, maxs[b]));
    let i = choose|i: int| x <= i < y && #[trigger] values[i] == mins[b];
    let j = choose|j: int| x <= j < y && #[trigger] values[j] == maxs[b];
    assert(1024 * b <= i < 1024 * (b + 1) && 0 <= i < values.len());
    assert(1024 * b <= j < 1024 * (b + 1) && 0 <= j < values.len());
}

/// What is maintained of a group is the sum of each side.
pub proof fn maintained_sums(m: Maintained, a: Seq<i64>, b: Seq<i64>)
    ensures
        m.of(a, b) <==> m.sum_a == sum(a) && m.sum_b == sum(b),
{
}

/// Serving a request touches one shard and the coordinator alone: the shard is topped up from
/// the coordinator if it is empty, and gives one piece unless both are out of stock.
pub proof fn requests_touch_one_shard(
    after: QuotaSystem,
    before: QuotaSystem,
    shard: int,
    r: Reserve,
    i: int,
)
    requires
        after.served(before, shard, r),
        before.coord.remaining >= 0,
        before.shards@[shard].local >= 0,
        0 <= shard < before.shards@.len(),
    ensures
        r is SoldOut <==> before.coord.remaining == 0 && before.shards@[shard].local == 0,
        0 <= i < before.shards@.len() && i != shard ==> after.shards@[i] == before.shards@[i],
        before.shards@[shard].local > 0 ==> after.coord.remaining == before.coord.remaining
            && after.shards@[shard].local == before.shards@[shard].local - 1,
        before.shards@[shard].local == 0 && r is Reserved ==> after.coord.remaining
            < before.coord.remaining && after.shards@[shard].local == before.coord.remaining
            - after.coord.remaining - 1,
        before.shards@[shard].local == 0 && before.shards@[shard].restock >= 1 && r is Reserved
            ==> after.coord.remaining == if before.coord.remaining > before.shards@[shard].restock {
            before.coord.remaining - before.shards@[shard].restock
        } else {
            0
        },
        r is SoldOut ==> after.coord.remaining == before.coord.remaining
            && after.shards@[shard].local == 0,
{
}

/// A text can be decoded up to its first character that is no digit.
pub proof fn digits_are_all_there_is(text: Seq<u8>, n: int)
    ensures
        all_digits(text, n) <==> forall|i: int|
            0 <= i < n ==> 48 <= #[trigger] text[i] <= 57 || 65 <= text[i] <= 70 || 97 <= text[i]
                <= 102,
{
    if forall|i: int|
        0 <= i < n ==> 48 <= #[trigger] text[i] <= 57 || 65 <= text[i] <= 70 || 97 <= text[i]
            <= 102 {
        assert forall|i: int| 0 <= i < n implies digit_value(#[trigger] text[i]) is Some by {}
    }
    if all_digits(text, n) {
        assert forall|i: int| 0 <= i < n implies 48 <= #[trigger] text[i] <= 57 || 65 <= text[i]
            <= 70 || 97 <= text[i] <= 102 by {
            assert(digit_value(text[i]) is Some);
        }
    }
}

/// Two digits make a byte, the first sixteen times as much.
pub proof fn two_digits_make_a_byte(text: Seq<u8>, i: int)
    requires
        text.len() % 2 == 0,
        0 <= i < text.len() / 2,
        digit_value(text[2 * i]) is Some,
        digit_value(text[2 * i + 1]) is Some,
    ensures
        decoded(text).len() == text.len() / 2,
        decoded(text)[i] == 16 * digit_value(text[2 * i])->0 + digit_value(text[2 * i + 1])->0,
{
}

/// A workload begins with a row for every number below its size.
pub proof fn workloads_begin_full(rows: nat, seed: u64, size: nat, i: int)
    requires
        0 <= i < rows <= u64::MAX,
    ensures
        initial_rows(rows, seed, size).len() == rows,
        initial_rows(rows, seed, size)[i] == (
            key_bytes(i as u64),
            value_bytes(i as u64, seed, size),
        ),
{
}

/// In a rising list each number is less than every later one; in an ordered list no more.
pub proof fn lists_rise(s: Seq<u64>, i: int, j: int)
    requires
        0 <= i < j < s.len(),
    ensures
        increasing(s) ==> s[i] < s[j],
        ascending(s) ==> s[i] <= s[j],
{
}

/// A private query follows its keys exactly: it has those in its range, in their order.
pub proof fn private_queries_follow(q: PrivateQuery, keys: Seq<u64>, k: u64)
    requires
        q.follows(keys),
    ensures
        q.matches@.contains(k) <==> keys.contains(k) && q.lo <= k < q.hi,
        q.matches@.len() == range_count(keys, q.lo, q.hi),
{
    in_filter(keys, inside(q.lo, q.hi), k);
}

proof fn in_filter(s: Seq<u64>, f: spec_fn(u64) -> bool, k: u64)
    ensures
        s.filter(f).contains(k) <==> s.contains(k) && f(k),
    decreases s.len(),
{
    reveal(Seq::filter);
    if s.len() > 0 {
        let init = s.drop_last();
        let last = s.last();
        in_filter(init, f, k);
        assert(s[s.len() - 1] == last);
        if s.contains(k) && k != last {
            let i = choose|i: int| 0 <= i < s.len() && s[i] == k;
            assert(init[i] == k);
        }
        if init.contains(k) {
            let i = choose|i: int| 0 <= i < init.len() && init[i] == k;
            assert(s[i] == k);
        }
        if f(last) {
            let sub = init.filter(f);
            let all = sub.push(last);
            assert(s.filter(f) =~= all);
            assert(all[sub.len() as int] == last);
            if sub.contains(k) {
                let i = choose|i: int| 0 <= i < sub.len() && sub[i] == k;
                assert(all[i] == k);
            }
            if all.contains(k) && k != last {
                let i = choose|i: int| 0 <= i < all.len() && all[i] == k;
                assert(sub[i] == k);
            }
        }
    }
}

/// The cells of some products reach from no weight to the whole, one behind the other, and in
/// each no product scores less than its winner, nor as much with a smaller number and the same
/// values.
pub proof fn cells_cover_all_weights(ps: Seq<Product>, cells: Seq<Cell>, i: int, k: int, u: int)
    requires
        right_cells(ps, cells),
        0 <= i < cells.len(),
        0 <= u < ps.len(),
    ensures
        cells[0].w_lo.n == 0,
        cells.last().w_hi.n == cells.last().w_hi.d,
        i + 1 < cells.len() ==> cells[i].w_hi == cells[i + 1].w_lo,
        cells[i].w_lo.n * cells[i].w_hi.d < cells[i].w_hi.n * cells[i].w_lo.d,
        cells[i].winner < ps.len(),
        cells[i].w_lo.n * 10_000 <= k * cells[i].w_lo.d && k * cells[i].w_hi.d <= cells[i].w_hi.n
            * 10_000 ==> ({
            let w = ps[cells[i].winner as int];
            k * w.price + (10_000 - k) * w.delivery <= k * ps[u].price + (10_000 - k)
                * ps[u].delivery
        }),
        ps[u] == ps[cells[i].winner as int] ==> cells[i].winner <= u,
        i + 1 < cells.len() ==> ({
            let (a, b) = (ps[cells[i].winner as int], ps[cells[i + 1].winner as int]);
            &&& cells[i].w_hi.n == b.delivery - a.delivery
            &&& cells[i].w_hi.d == (a.price - a.delivery) - (b.price - b.delivery)
        }),
        cells[i].min_gap == cell_gap(ps, cells[i].w_lo, cells[i].w_hi),
{
    if cells[i].w_lo.n * 10_000 <= k * cells[i].w_lo.d && k * cells[i].w_hi.d <= cells[i].w_hi.n
        * 10_000 {
        cell_winner_lowest(ps, cells, i, k, u);
    }
    let c = cells[i];
    let p = ps[u];
}

/// Cells answer for every weight as a look at all products does: with the product that scores
/// least, and of those that do with the first.
pub proof fn cells_answer_like_a_full_look(ps: Seq<Product>, cells: Seq<Cell>, k: int, j: int)
    requires
        right_cells(ps, cells),
        0 <= j < ps.len(),
    ensures
        0 <= choice(cells, ps, k) < ps.len(),
        ({
            let w = ps[choice(cells, ps, k)];
            k * w.price + (10_000 - k) * w.delivery <= k * ps[j].price + (10_000 - k)
                * ps[j].delivery
        }),
        j < choice(cells, ps, k) ==> ({
            let w = ps[choice(cells, ps, k)];
            k * w.price + (10_000 - k) * w.delivery < k * ps[j].price + (10_000 - k)
                * ps[j].delivery
        }),
{
    if 0 <= k <= 10_000 {
        cells_give_the_winner(ps, cells, k);
    } else {
        unplaced(ps, cells, k);
    }
    winner_scores_least(ps, k, j);
}

/// Prices and other numbers that are generated keep to small bounds.
pub proof fn generated_numbers_are_small(p: Product, it: Item, s: Seq<i64>, limit: int, i: int)
    ensures
        market_modest(p) <==> 0 <= p.price <= 30_000 && 0 <= p.delivery <= 30_000,
        modest(it) <==> 0 <= it.price_base <= 30_000 && 0 <= it.delivery <= 30_000 && 0
            <= it.exception <= 50_000,
        small(s, limit) && 0 <= i < s.len() ==> 0 < s[i] <= limit,
{
}

/// How many keys lie in a range is the number of places that have one.
pub proof fn counts_are_of_places(keys: Seq<u64>, lo: u64, hi: u64, k: u64)
    ensures
        range_count(Seq::empty(), lo, hi) == 0,
        lo <= k < hi ==> range_count(keys.push(k), lo, hi) == range_count(keys, lo, hi) + 1,
        k < lo || k >= hi ==> range_count(keys.push(k), lo, hi) == range_count(keys, lo, hi),
{
    reveal(Seq::filter);
    count_grows(keys, k, lo, hi);
}

/// Powers: one for none, and each more times the number again.
pub proof fn powers_multiply(x: int, k: nat)
    ensures
        power(x, 0) == 1,
        power(x, k + 1) == x * power(x, k),
        powers(k)(x) == power(x, k),
{
}

/// What a state of moments holds of some numbers: the sum of each power, and how many have each
/// remainder.
pub proof fn moments_are_sums_of_powers(s: PolyState, items: Items, k: int, r: int)
    requires
        s.holds(items),
    ensures
        s.moments@.len() == s.degree + 1,
        0 <= k <= s.degree ==> s.moments@[k] == gather(items, powers(k as nat)),
        s.hist@.len() == 2 * s.q,
        0 <= r < 2 * s.q ==> s.hist@[r] == gather(items, bin(s.q as int, r)),
{
}

/// A sum over numbers takes each as often as it counts.
pub proof fn sums_take_each_number(
    items: Items,
    x: i64,
    m: i64,
    f: spec_fn(int) -> int, q: int, r: int,
)
    ensures
        gather(Seq::empty(), f) == 0,
        gather(items.push((x, m)), f) == gather(items, f) + m * f(x as int),
        bin(q, r)(x as int) == 1 <==> (x as int) % (2 * q) == r,
        bin(q, r)(x as int) == 0 || bin(q, r)(x as int) == 1,
{
    gather_push(items, x, m, f);
}

/// A generated market has a front that trades price for delivery evenly, and behind it products
/// that come to twenty-four to thirty-six thousand.
pub proof fn markets_trade_price_for_delivery(i: int, size: int, p: Product)
    requires
        2 <= size <= 64,
        0 <= i < size,
    ensures
        front_product(0, size).price == 1000,
        front_product(size - 1, size).price == 19_000,
        front_product(i, size).price + front_product(i, size).delivery == 20_000,
        0 <= 18_000 * i - (front_product(i, size).price - 1000) * (size - 1) < size - 1,
        in_the_back(p) ==> 24_000 <= p.price + p.delivery <= 36_000 && 3000 <= p.price <= 27_000
            && 3000 <= p.delivery <= 27_000,
{
    if i + 1 < size {
        front_trades_price_for_delivery(i, i + 1, size);
    } else {
        front_trades_price_for_delivery(0, 1, size);
        let d = size - 1;
        assert(18_000 * d / d == 18_000) by (nonlinear_arith)
            requires
                d > 0,
        ;
    }
}

} // verus!
