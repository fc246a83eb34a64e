use udb_lab::answer_cells::{brute_winner, Product};
use udb_lab::answer_store::AnswerStore;
use udb_lab::certificate::gen_sorted;
use udb_lab::coordination::{QuotaSystem, Reserve};
use udb_lab::executable::{Materialized, Region};
use udb_lab::fenwick::Fenwick;
use udb_lab::hex::{hex_decode, hex_encode};
use udb_lab::prefix::{block_query_cols, make_blocks, scan_cols, tree_of, Catalogue};
use udb_lab::residue::{naive_sum, Residue};
use udb_lab::wcoj::{erdos_renyi, triangle_hash_pairs, triangle_node_iter, undirected_adj};

/// A small generator of test sequences.
fn next(s: &mut u64) -> u64 {
    *s ^= *s << 13;
    *s ^= *s >> 7;
    *s ^= *s << 17;
    *s
}

#[test]
fn a_drifting_store_is_exact_at_the_edge_of_a_cell() {
    let mut s = AnswerStore::new(vec![
        Product { price: 0, delivery: 1_000_000 },
        Product { price: 1_000_000, delivery: 0 },
    ]);
    s.update(1, Product { price: 1_001_000, delivery: 0 });
    assert_eq!(s.query(4999), 0);
    assert_eq!(s.query(4999), brute_winner(&s.current, 4999).0);
    assert_eq!(s.query(5001), brute_winner(&s.current, 5001).0);
}

#[test]
fn generators_make_what_they_are_asked_for() {
    let sorted = gen_sorted(50, 1000, 3);
    assert!(!sorted.is_empty() && sorted.windows(2).all(|w| w[0] < w[1]));
    assert!(gen_sorted(0, 1000, 3).is_empty());
    assert!(erdos_renyi(20, 0, 1).is_empty());
    let mut all = erdos_renyi(20, 1_000_000, 1);
    assert_eq!(all.len(), 190);
    all.sort_unstable();
    all.dedup();
    assert_eq!(all.len(), 190);
    let adj = undirected_adj(20, &all);
    assert_eq!(triangle_node_iter(&adj), 20 * 19 * 18 / 6);
    assert_eq!(triangle_hash_pairs(&adj), (1140, 1140));
}

#[test]
fn a_sparse_graph_may_have_many_vertices() {
    let n = (1 << 20) + 8;
    let edges: Vec<(u32, u32)> = vec![(0, 1), (1, n as u32 - 1), (0, n as u32 - 1), (5, 6), (6, 7)];
    let adj = undirected_adj(n, &edges);
    assert_eq!(triangle_node_iter(&adj), 1);
    assert_eq!(triangle_hash_pairs(&adj), (1, 2));
}

#[test]
fn quotas_start_even_and_lose_nothing() {
    let shares = |stock, n| -> Vec<i64> {
        QuotaSystem::new(stock, n, 1).shards.iter().map(|s| s.local).collect()
    };
    assert_eq!(shares(2, 5), vec![1, 1, 0, 0, 0]);
    assert_eq!(shares(0, 3), vec![0, 0, 0]);
    assert_eq!(shares(5, 5), vec![1, 1, 1, 1, 1]);
    assert_eq!(shares(11, 4), vec![2, 2, 2, 5]);
    for restock in [-3, 0, 1, 4] {
        let mut q = QuotaSystem::new(7, 3, restock);
        q.coord.remaining = 6;
        let mut sold = 0;
        let mut seed = 11;
        for _ in 0..300 {
            let i = (next(&mut seed) % 3) as usize;
            let empty = q.shards[i].local == 0 && q.coord.remaining == 0;
            let r = q.reserve(i);
            assert_eq!(r == Reserve::SoldOut, empty);
            if r == Reserve::Reserved {
                sold += 1;
            }
            assert_eq!(sold + q.remaining_total(), 13);
        }
        assert_eq!(sold, 13);
    }
    let mut q = QuotaSystem::new(3, 3, 4);
    q.coord.remaining = 6;
    q.reserve(0);
    assert_eq!((q.shards[0].local, q.coord.remaining), (0, 6));
    q.reserve(0);
    assert_eq!((q.shards[0].local, q.coord.remaining), (3, 2));
}

#[test]
fn a_region_follows_a_list_through_any_run() {
    let mut region = Region::with_bases(&[10, 20, 30]);
    let mut list: Vec<(i64, i64)> = vec![(10, 0), (20, 0), (30, 0)];
    let mut plain = Materialized::new(&[10, 20, 30]);
    let mut seed = 5;
    for _ in 0..200 {
        let x = (next(&mut seed) % 100) as i64 - 50;
        match next(&mut seed) % 3 {
            0 => {
                region.insert(x);
                list.push((x, 0));
            }
            1 => {
                region.bulk_add_existing(x);
                for p in &mut list {
                    p.0 += x;
                }
            }
            _ => {
                let i = (next(&mut seed) % list.len() as u64) as usize;
                region.set_exception(i, x);
                list[i].1 = x;
            }
        }
        let sum: i128 = list.iter().map(|p| (p.0 + p.1) as i128).sum();
        assert_eq!(region.sum(), sum);
        let i = (next(&mut seed) % list.len() as u64) as usize;
        assert_eq!(region.price(i), list[i].0 + list[i].1);
    }
    plain.bulk_add(5);
    assert_eq!(plain.prices, vec![15, 25, 35]);
}

#[test]
fn a_residue_state_forgets_what_was_taken_out() {
    let mut xs: Vec<i64> = vec![7, -3, 7, 0];
    let mut st = Residue::from_values(6, &xs);
    let mut seed = 9;
    for _ in 0..200 {
        if next(&mut seed) % 3 == 0 && !xs.is_empty() {
            let i = (next(&mut seed) % xs.len() as u64) as usize;
            let x = xs.swap_remove(i);
            st.add(x, -1);
        } else {
            let x = (next(&mut seed) % 41) as i64 - 20;
            xs.push(x);
            st.add(x, 1);
        }
        for (p, b) in [(1, 0), (-5, 3), (9, -4)] {
            assert_eq!(st.query(p, b), naive_sum(&xs, p, b, 6));
        }
    }
}

#[test]
fn a_tree_adds_up_any_run_of_additions() {
    let keys: Vec<u32> = vec![3, 0, 4, 1, 2, 6, 5];
    let vals: Vec<i32> = vec![5, -2, 7, 1, 0, 9, -4];
    let mut tree = tree_of(&keys, &vals);
    let blocks = make_blocks(&keys, &vals);
    let mut added = [0i64; 7];
    let mut seed = 3;
    for _ in 0..50 {
        for x in 0..7u32 {
            let more: i64 = added[..=x as usize].iter().sum();
            assert_eq!(tree.get(x as usize), scan_cols(&keys, &vals, x) + more);
            assert_eq!(scan_cols(&keys, &vals, x), block_query_cols(&keys, &vals, &blocks, x));
        }
        let at = (next(&mut seed) % 7) as usize;
        let d = (next(&mut seed) % 19) as i32 - 9;
        tree.add(at, d);
        added[at] += d as i64;
    }
    let none = tree_of(&[], &[]);
    assert_eq!(none.t.len(), 1);
    assert_eq!(Fenwick::new(&vec![]).t.len(), 1);
    let mut all = Catalogue::new(keys, vals);
    all.update(2, 10);
    assert_eq!(all.query(6), Some(26));
    assert_eq!(all.query(3), Some(4));
}

#[test]
fn hexadecimal_text_comes_back_in_lower_case() {
    for text in ["", "00fF", "aBcDeF0123456789", "FFFF"] {
        let bytes = hex_decode(text.as_bytes()).unwrap();
        assert_eq!(hex_encode(&bytes), text.to_lowercase().into_bytes());
    }
    assert!(hex_decode(b"badhex").is_err());
    assert_eq!(hex_decode(b"00ff"), Ok(vec![0, 255]));
}
