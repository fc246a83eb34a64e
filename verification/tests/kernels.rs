use udb_lab::answer_cells::{
    brute_winner, cell_winner, envelope, lookup_cell, score_k, Frac, Product, W_DEN,
};
use udb_lab::answer_store::{gen_products, AnswerStore, Market};
use udb_lab::certificate::{bound_disjoint, gallop_intersect, gallop_seek, merge_intersect};
use udb_lab::chase::{follow, gen_links, gen_starts, xor_out};
use udb_lab::coordination::{GlobalStock, QuotaSystem, Reserve};
use udb_lab::engine::{batch_direct, batch_merge, gather_ids, scan_col, scan_col_avx2, scan_row, Row};
use udb_lab::executable::{Materialized, Region};
use udb_lab::factorized::{
    factorized_sum, gen_groups, hashjoin_style_sum, inseparable_pair_sum, naive_pair_sum, Group, Maintained,
};
use udb_lab::fenwick::Fenwick;
use udb_lab::joint::{gen_pareto, BruteCatalog, Catalog};
use udb_lab::laboratory::run_correctness;
use udb_lab::pgm::{binary_get, find_seg, gen_clusters, gen_gaps, gen_linear, window_get};
use udb_lab::polynomial::{naive_poly, PolyState};
use udb_lab::prefix::{block_query_cols, block_update, make_blocks, scan_cols, tree_of};
use udb_lab::progressive::{
    argmin_full, argmin_progressive, block_bounds, filter_blocks, filter_full, filter_progressive,
    filter_progressive_avx2, halves, join, split,
};
use udb_lab::ranking_cert::{ordinary_ok, score, simplex_ok, winner};
use udb_lab::redundancy::Blocks;
use udb_lab::residue::{naive_sum, round_even, Residue};
use udb_lab::shared::{PrivateQuery, SharedIndex};
use udb_lab::wcoj::{
    dense_bipartite_plus, erdos_renyi, triangle_hash_pairs, triangle_node_iter, two_cliques,
    undirected_adj,
};
use std::cmp::Ordering;

#[test]
fn all_correctness() {
    run_correctness().expect("correctness");
}

fn product(price: i64, delivery: i64) -> Product {
    Product { price, delivery }
}

#[test]
fn fractions() {
    let half = Frac::new(1, 2);
    let minus = Frac::new(1, -2);
    assert_eq!((minus.n, minus.d), (-1, 2));
    assert_eq!(half.cmp(minus), Ordering::Greater);
    assert_eq!(minus.cmp(half), Ordering::Less);
    assert_eq!(half.cmp(Frac::new(2, 4)), Ordering::Equal);
    assert!(half.le_query(5000, W_DEN) && half.ge_query(5000, W_DEN));
    assert!(half.le_query(5001, W_DEN) && !half.ge_query(5001, W_DEN));
    assert!(!half.le_query(4999, W_DEN) && half.ge_query(4999, W_DEN));
}

#[test]
fn envelope_of_three_lines() {
    let ps = [product(10, 0), product(0, 10), product(100, 100)];
    assert_eq!(score_k(ps[0], 2500), 25_000);
    assert_eq!(brute_winner(&ps, 2500), (0, 50_000));
    assert_eq!(brute_winner(&ps, 5000), (0, 0));
    assert_eq!(brute_winner(&ps[..1], 0), (0, i128::MAX));
    assert_eq!(brute_winner(&[], 0), (0, 0));
    let cells = envelope(&ps);
    assert_eq!(cells.len(), 2);
    assert_eq!((cells[0].winner, cells[1].winner), (0, 1));
    assert_eq!(cells[0].w_hi.cmp(Frac::new(1, 2)), Ordering::Equal);
    // The margin at the third quarter point of the cell.
    assert_eq!(cells[0].min_gap, 25_000);
    assert_eq!(lookup_cell(&cells, 4999).unwrap().0, 0);
    assert_eq!(lookup_cell(&cells, 5000).unwrap().0, 1);
    assert_eq!(lookup_cell(&cells, W_DEN).unwrap().0, 1);
    assert!(lookup_cell(&cells, -1).is_none());
    assert!(lookup_cell(&cells, W_DEN + 1).is_none());
    assert!(envelope(&[]).is_empty());
}

#[test]
fn cells_give_the_winner_of_a_scan() {
    for market in [Market::Pareto, Market::Random, Market::NearTie] {
        let ps = gen_products(60, 3, market);
        let cells = envelope(&ps);
        for k in 0..=W_DEN {
            assert_eq!(cell_winner(&cells, &ps, k), brute_winner(&ps, k).0);
        }
    }
    // Three lines through one point: the smallest index wins there.
    let ps = [product(5, 5), product(10, 0), product(0, 10)];
    let cells = envelope(&ps);
    assert_eq!(cell_winner(&cells, &ps, 5000), 0);
    assert_eq!(brute_winner(&ps, 5000).0, 0);
    // Twice the same line, and equals at both ends.
    let ps = [product(7, 3), product(3, 7), product(3, 7), product(7, 3)];
    let cells = envelope(&ps);
    assert_eq!(cell_winner(&cells, &ps, 0), 0);
    assert_eq!(cell_winner(&cells, &ps, W_DEN), 1);
}

#[test]
fn a_store_answers_from_its_cells_until_the_drift_uses_up_the_gap() {
    let ps = vec![product(1000, 0), product(0, 1000)];
    let mut store = AnswerStore::new(ps);
    assert_eq!(store.query(2500), 0);
    assert_eq!((store.cell_hits, store.cell_misses), (1, 0));
    store.update(0, product(1010, 5));
    assert_eq!(store.max_drift, 10);
    assert_eq!(store.query(2500), 0);
    assert_eq!((store.cell_hits, store.rebuilds), (2, 0));
    store.update(0, product(5000, 5000));
    assert_eq!(store.query(2500), 1);
    assert_eq!((store.cell_misses, store.rebuilds, store.max_drift), (1, 1, 0));
    let fresh = vec![product(1, 2), product(2, 1)];
    let cells = envelope(&fresh);
    store.reset_from(&fresh, &cells);
    assert_eq!((store.rebuilds, store.cell_hits), (0, 0));
    assert_eq!(store.query(0), 1);
}

#[test]
fn joins_of_sorted_sets() {
    let a = [1, 3, 5, 7, 9, 100];
    let b = [3, 4, 5, 100, 200];
    assert_eq!(merge_intersect(&a, &b), 3);
    assert_eq!(gallop_intersect(&a, &b), 3);
    assert_eq!(gallop_intersect(&b, &a), 3);
    assert!(!bound_disjoint(&a, &b));
    assert!(bound_disjoint(&a, &[101, 102]));
    assert!(bound_disjoint(&[], &b));
    assert_eq!(merge_intersect(&a, &[101, 102]), 0);
    assert_eq!(gallop_seek(&a, 0, 6), 3);
    assert_eq!(gallop_seek(&a, 5, 6), 5);
    assert_eq!(gallop_seek(&a, 9, 6), 9);
}

#[test]
fn chains_end_where_they_end_at_every_width() {
    let links = [1, 2, 0, 4, 3];
    let mut out = vec![9; 4];
    follow(&links, &[0, 3, 4], 2, 2, &mut out);
    assert_eq!(out, vec![2, 3, 4, 9]);
    assert_eq!(xor_out(&out), 18);
    let mut same = links.to_vec();
    same.sort();
    let mut shuffled = gen_links(1000, 5);
    assert_ne!(shuffled, (0..1000).collect::<Vec<u32>>());
    shuffled.sort();
    assert_eq!(shuffled, (0..1000).collect::<Vec<u32>>());
    assert!(gen_starts(10, 100, 1).iter().any(|s| *s > 0));
}

#[test]
fn stock_is_never_oversold() {
    let mut g = GlobalStock::new(2);
    assert_eq!(g.reserve(), Reserve::Reserved);
    assert_eq!(g.reserve(), Reserve::Reserved);
    assert_eq!(g.reserve(), Reserve::SoldOut);
    assert_eq!(g.remaining(), 0);
    let mut q = QuotaSystem::new(10, 3, 4);
    let shares: Vec<i64> = q.shards.iter().map(|s| s.local).collect();
    assert_eq!(shares, vec![3, 3, 4]);
    for _ in 0..3 {
        assert_eq!(q.reserve(0), Reserve::Reserved);
    }
    assert_eq!(q.reserve(0), Reserve::SoldOut);
    assert_eq!(q.reserve(1), Reserve::Reserved);
    assert_eq!(q.remaining_total(), 6);
}

#[test]
fn scans_and_lookups_agree() {
    let rows: Vec<Row> = (0..20)
        .map(|i| Row {
            id: i,
            price: (i * 7 % 11) as u32,
            qty: (i % 3) as u32,
            flags: 0,
            pad: 0,
        })
        .collect();
    let price: Vec<u32> = rows.iter().map(|r| r.price).collect();
    let qty: Vec<u32> = rows.iter().map(|r| r.qty).collect();
    let want = rows
        .iter()
        .filter(|r| r.price > 4 && r.qty > 0)
        .fold((0, 0), |(c, s), r| (c + 1, s + r.price as u64));
    assert_eq!(scan_row(&rows, 4), want);
    assert_eq!(scan_col(&price, &qty, 4), want);
    assert_eq!(scan_col_avx2(&price, &qty, 4), want);
    assert_eq!(scan_col_avx2(&[u32::MAX], &[u32::MAX], 5), (1, u32::MAX as u64));
    let ids: Vec<u64> = (0..20).collect();
    let keys = [1, 1, 2, 5, 77];
    let folded = price[2] ^ price[5];
    assert_eq!(gather_ids(&ids, &price, &keys), folded);
    assert_eq!(batch_merge(&ids, &price, &keys), folded);
    assert_eq!(batch_direct(&price, &keys), folded);
}

#[test]
fn a_region_costs_what_written_out_prices_cost() {
    let mut r = Region::with_bases(&[100, 200]);
    let mut m = Materialized::new(&[100, 200]);
    r.bulk_add_existing(10);
    m.bulk_add(10);
    r.insert(50);
    m.insert(50);
    r.bulk_add_existing(-3);
    m.bulk_add(-3);
    r.set_exception(1, 5);
    m.prices[1] += 5;
    let prices: Vec<i64> = (0..3).map(|i| r.price(i)).collect();
    assert_eq!(prices, vec![107, 212, 47]);
    assert_eq!(m.prices, prices);
    assert_eq!(r.sum(), 366);
    assert_eq!(m.sum(), 366);
}

#[test]
fn pairs_need_not_be_made() {
    let g = Group {
        a: vec![1, -2, 3],
        b: vec![10, 20],
    };
    assert_eq!(naive_pair_sum(&g), 60);
    assert_eq!(factorized_sum(&g), 60);
    assert_eq!(hashjoin_style_sum(&g), 60);
    let mut m = Maintained::from_group(&g);
    m.insert_a(5);
    assert_eq!(m.result(), 210);
    m.delete_a(1);
    m.update_a(3, -3);
    m.insert_b(-29);
    assert_eq!(m.result(), 0);
    let groups = gen_groups(3, 20, 7);
    assert_eq!(groups.len(), 3);
    for g in &groups {
        assert_eq!(naive_pair_sum(g), factorized_sum(g));
        assert_ne!(inseparable_pair_sum(g), factorized_sum(g));
    }
}

#[test]
fn prefix_sums_under_updates() {
    let mut f = Fenwick::new(&vec![1, 2, 3, 4, 5, 6, 7]);
    assert_eq!(f.get(0), 1);
    assert_eq!(f.get(4), 15);
    assert_eq!(f.get(6), 28);
    f.add(3, -10);
    assert_eq!(f.get(2), 6);
    assert_eq!(f.get(3), 0);
    assert_eq!(f.get(6), 18);
    let keys: Vec<u32> = (0..2000).rev().collect();
    let mut vals: Vec<i32> = (0..2000).map(|i| i % 13 - 6).collect();
    let mut blocks = make_blocks(&keys, &vals);
    assert_eq!(blocks.len(), 4);
    let tree = tree_of(&keys, &vals);
    block_update(&keys, &mut vals, &mut blocks, 777, 9);
    for t in [0, 1, 500, 1221, 1222, 1223, 1999] {
        let want: i64 = (0..2000)
            .filter(|i| keys[*i] <= t)
            .map(|i| vals[i] as i64)
            .sum();
        assert_eq!(scan_cols(&keys, &vals, t), want);
        assert_eq!(block_query_cols(&keys, &vals, &blocks, t), want);
        let extra = if keys[777] <= t { 9 } else { 0 };
        assert_eq!(tree.get(t as usize) + extra, want);
    }
}

#[test]
fn adjustments_do_not_change_who_wins() {
    let items = gen_pareto(120, 4);
    let mut cat = Catalog::new(items.clone());
    let mut brute = BruteCatalog::new(items);
    for (d, i) in [(0, 3), (900, 5), (-400, 7)] {
        cat.bulk_adj(d);
        brute.bulk_adj(d);
        cat.set_exception(i, 60_000);
        brute.set_exception(i, 60_000);
        for k in 0..=W_DEN / 50 {
            assert_eq!(cat.joint_winner(k * 50), brute.winner(k * 50));
            assert_eq!(cat.brute_winner(k * 50), brute.winner(k * 50));
        }
        // A weight outside the range is in no cell, and every product is looked at.
        for k in [-1, -W_DEN, W_DEN + 1, 7 * W_DEN, W_DEN - i64::MAX, i64::MAX] {
            assert_eq!(cat.joint_winner(k), brute.winner(k));
        }
    }
}

#[test]
fn predictions_never_decide_existence() {
    let keys = gen_gaps(500, 9);
    for (i, k) in keys.iter().enumerate() {
        assert_eq!(binary_get(&keys, *k), Some(i));
        for off in 0..=7 {
            let pred = (i + off).min(499);
            assert_eq!(window_get(&keys, pred, 5, *k), Some(i));
        }
    }
    assert_eq!(window_get(&keys, 400, 5, keys[0]), None);
    assert_eq!(binary_get(&keys, u64::MAX), None);
    assert_eq!(gen_linear(4), vec![0, 10, 20, 30]);
    assert_eq!(find_seg(&[10, 20, 30], 5), 0);
    assert_eq!(find_seg(&[10, 20, 30], 20), 1);
    assert_eq!(find_seg(&[10, 20, 30], 99), 2);
    let clusters = gen_clusters(1000, 1);
    assert!(clusters.windows(2).all(|w| w[0] < w[1]));
    assert!(clusters.windows(2).any(|w| w[1] - w[0] > 10_000));
    assert!(keys.windows(2).any(|w| w[1] - w[0] > 1));
}

#[test]
fn halves_decide_first() {
    assert_eq!(split(0xabcd_1234), (0xabcd, 0x1234));
    assert_eq!(join(0xabcd, 0x1234), 0xabcd_1234);
    let values: Vec<u32> = (0..3000u32).map(|i| i.wrapping_mul(2_654_435_761)).collect();
    let (hi, lo) = halves(&values);
    let (mins, maxs) = block_bounds(&values);
    assert_eq!(mins.len(), 3);
    for t in [0, 1, 65_535, 65_536, values[77], u32::MAX - 1, u32::MAX] {
        let want = values.iter().filter(|v| **v > t).count() as u64;
        assert_eq!(filter_full(&values, t), want);
        assert_eq!(filter_progressive(&hi, &lo, t), want);
        assert_eq!(filter_progressive_avx2(&hi, &lo, t), want);
        assert_eq!(filter_blocks(&values, &mins, &maxs, t), want);
    }
    assert_eq!(argmin_full(&[5, 3, 9, 3]), 1);
    assert_eq!(argmin_full(&[]), 0);
    assert_eq!(argmin_progressive(&[0, 0, 1, 0], &[5, 3, 0, 3]), 1);
    assert_eq!(argmin_full(&values), argmin_progressive(&hi, &lo));
}

#[test]
fn rounding_is_to_even_and_sums_are_exact() {
    assert_eq!(round_even(5, 2), 2);
    assert_eq!(round_even(7, 2), 4);
    assert_eq!(round_even(-5, 2), -2);
    assert_eq!(round_even(-7, 2), -4);
    assert_eq!(round_even(8, 3), 3);
    assert_eq!(round_even(i64::MIN, 1), i64::MIN);
    assert_eq!(round_even(i64::MAX, 1), i64::MAX);
    let xs = [0, 2, -7, 1000, 13];
    let mut st = Residue::from_values(4, &xs);
    assert_eq!(naive_sum(&xs, 3, 1, 4), st.query(3, 1));
    assert_eq!(st.query(1, 0), 0 + 0 - 2 + 250 + 3);
    st.add(1000, -1);
    st.add(5, 2);
    assert_eq!(st.query(1, 0), 0 + 0 - 2 + 3 + 2);
    // A divisor far beyond the values.
    let wide = 3_000_017i64;
    let mut st = Residue::from_values(wide, &xs);
    assert_eq!(st.query(wide / 2, 5), naive_sum(&xs, wide / 2, 5, wide));
    st.add(i64::MAX / wide, 1);
    assert_eq!(
        st.query(7, -1),
        naive_sum(&xs, 7, -1, wide) + naive_sum(&[i64::MAX / wide], 7, -1, wide)
    );
    // Count and sum alone cannot tell these apart.
    assert_eq!(naive_sum(&[0, 2], 1, 0, 2), 1);
    assert_eq!(naive_sum(&[1, 1], 1, 0, 2), 0);
    let mut poly = PolyState::new(10, 2);
    for x in [-3, 0, 4, 4] {
        poly.add(x, 1);
    }
    poly.add(4, -1);
    let c = [1, -2, 3];
    assert_eq!(PolyState::eval(&c, 4), 41);
    assert_eq!(poly.query(&c), naive_poly(&[-3, 0, 4], &c, 10));
    assert_eq!(poly.query(&c), 3 + 0 + 4);
}

#[test]
fn certificates_follow_their_formulas() {
    let q = [50, 50];
    let d = [-30, 50];
    let m = score(&q, &d);
    assert_eq!(m, 1000);
    // ten times eighty is less than two times (1000 - 400).
    assert!(simplex_ok(m, &d, 10, 2, 100));
    assert!(!simplex_ok(m, &d, 15, 2, 100));
    // ten times fifty is less than 1000 - 400, twelve times is not.
    assert!(ordinary_ok(m, &d, 10, 2, 100));
    assert!(!ordinary_ok(m, &d, 12, 2, 100));
    assert!(!ordinary_ok(m, &[], 1, 0, 1));
    assert!(!simplex_ok(m, &[], 1, 0, 1));
    // Any error and any weight whose product with the error can be held.
    let lead = 1i128 << 60;
    assert!(ordinary_ok(lead, &d, 10, 1 << 50, 1));
    assert!(simplex_ok(lead, &d, 10, 1 << 50, 1));
    assert!(!simplex_ok(lead, &d, 10, 1 << 59, 1));
    assert!(ordinary_ok(0, &d, 10, -6, 50));
    assert!(!ordinary_ok(0, &d, 12, -6, 50));
    assert!(ordinary_ok(1i128 << 126, &d, i64::MAX, i64::MAX, 1));
    assert_eq!(winner(&[vec![2, 2], vec![1, 3], vec![1, 1]], &[1, 1]), 2);
    assert_eq!(winner(&[vec![2, 2], vec![1, 3]], &[1, 1]), 0);
}

#[test]
fn parity_restores_and_sums() {
    let blocks = Blocks::new(vec![i64::MAX, -1, 5], vec![i64::MAX, -1, -9]);
    assert_eq!(blocks.recover_a(), vec![i64::MAX, -1, 5]);
    let want = 2 * i64::MAX as i128 - 2 - 4;
    assert_eq!(blocks.sum_a_plus_b_from_c(), want);
    assert_eq!(blocks.sum_a_plus_b_from_sources(), want);
    assert_eq!(blocks.filter_sum_gt_from_c(-3), want + 4);
}

#[test]
fn range_counts_agree() {
    let keys = [9, 1, 4, 4, 4, 7, 30];
    let mut q = PrivateQuery::from_keys(&keys, 4, 9);
    let mut index = SharedIndex::new(keys.to_vec());
    assert_eq!(q.count(), 4);
    assert_eq!(index.count(4, 9), 4);
    q.on_insert(8);
    q.on_insert(9);
    index.insert(8);
    index.insert(9);
    assert_eq!(q.count(), 5);
    assert_eq!(index.count(4, 9), 5);
    assert_eq!(index.count(9, 4), 0);
    assert_eq!(index.keys, vec![1, 4, 4, 4, 7, 8, 9, 9, 30]);
}

#[test]
fn triangles_both_ways() {
    let adj = undirected_adj(16, &two_cliques(8));
    assert_eq!(triangle_node_iter(&adj), 112);
    assert_eq!(triangle_hash_pairs(&adj), (112, 112));
    let square = undirected_adj(4, &[(0, 1), (1, 2), (2, 3), (3, 0), (1, 1), (0, 1)]);
    assert_eq!(square[0], vec![1, 3]);
    assert_eq!(triangle_node_iter(&square), 0);
    // The paths 0-1-2 and 1-2-3 remain open.
    assert_eq!(triangle_hash_pairs(&square), (0, 2));
    // A triangle with a tail at its top: a path goes up over it, and is not closed.
    let tail = undirected_adj(4, &[(0, 1), (1, 2), (0, 2), (2, 3)]);
    assert_eq!(triangle_hash_pairs(&tail), (1, 3));
    assert_eq!(undirected_adj(0, &[]).len(), 0);
    let random = erdos_renyi(40, 200_000, 1);
    assert!(!random.is_empty() && random.len() < 780);
    let graph = undirected_adj(40, &random);
    assert_eq!(triangle_node_iter(&graph), triangle_hash_pairs(&graph).0);
    let dense = undirected_adj(20, &dense_bipartite_plus(10, 12, 3));
    let (t, paths) = triangle_hash_pairs(&dense);
    assert_eq!(triangle_node_iter(&dense), t);
    assert!(t > 0 && paths >= t);
}

#[test]
fn generated_keys_come_in_runs() {
    for seed in 0..4 {
        let v = gen_clusters(3000, seed);
        assert_eq!(v.len(), 3000);
        assert_eq!(v[..50], (1..=50).collect::<Vec<u64>>()[..]);
        let mut jumps = 0;
        for w in v.windows(2) {
            let step = w[1] - w[0];
            assert!(step == 1 || (10_001..=80_000).contains(&step));
            if step != 1 {
                jumps += 1;
            }
        }
        assert!(jumps > 0);
    }
}

#[test]
fn a_generated_front_is_that_of_its_size() {
    let items = gen_pareto(4, 9);
    let front: Vec<(i64, i64)> = items.iter().map(|i| (i.price_base, i.delivery)).collect();
    assert_eq!(
        front,
        [
            (1000, 19000),
            (3571, 16429),
            (6142, 13858),
            (8714, 11286),
            (11285, 8715),
            (13857, 6143),
            (16428, 3572),
            (19000, 1000),
        ]
    );
    let items = gen_pareto(400, 9);
    assert_eq!(items.len(), 400);
    assert_eq!((items[9].price_base, items[9].delivery), (19000, 1000));
    for item in &items[10..] {
        assert!(item.price_base + item.delivery >= 26_000);
        assert!(item.price_base >= 4000 && item.delivery >= 4000);
    }
}

#[test]
fn large_values_may_cancel() {
    const M: i64 = i64::MAX;
    let mut f = Fenwick::new(&vec![M, -M, M, -M, -5, M]);
    assert_eq!(f.get(0), M);
    assert_eq!(f.get(1), 0);
    assert_eq!(f.get(2), M);
    assert_eq!(f.get(3), 0);
    assert_eq!(f.get(5), M - 5);
    f.add(5, -7);
    assert_eq!(f.get(5), M - 12);
    let g = Group {
        a: vec![M, -M, 1],
        b: vec![M, -M, M, -M, M],
    };
    assert_eq!(naive_pair_sum(&g), M as i128);
    assert_eq!(factorized_sum(&g), M as i128);
    let ps = [product(M, M - 10), product(M - 10, M), product(M, M)];
    let cells = envelope(&ps);
    for k in [0, 2500, 5000, 5001, 7500, W_DEN] {
        assert_eq!(cell_winner(&cells, &ps, k), brute_winner(&ps, k).0);
    }
    assert_eq!(cell_winner(&cells, &ps, 2500), 0);
    assert_eq!(cell_winner(&cells, &ps, 5000), 0);
    assert_eq!(cell_winner(&cells, &ps, 5001), 1);
}
