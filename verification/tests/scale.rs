use std::collections::BTreeMap;
use zkleak::binary_log::LOG_ONE;
use zkleak::leakage::compute_leakage;
use zkleak::natural::Nat;
use zkleak::partition::{build_partition, Sample};
use zkleak::scale::{scale_table, shows, ScaleRow};

fn samples(rows: &[(u64, u64)]) -> Vec<Sample> {
    rows.iter()
        .map(|&(cycles, w)| Sample { cycles, weight: Nat::from_u64(w) })
        .collect()
}

fn table(rows: &[(u64, u64)], n: usize) -> Vec<ScaleRow> {
    scale_table(&samples(rows), n).unwrap()
}

fn bits(x: u128) -> f64 {
    x as f64 / LOG_ONE as f64
}

fn near(got: f64, want: f64, tol: f64) {
    assert!((got - want).abs() <= tol, "got {} want {}", got, want);
}

#[test]
fn one_item_agrees_with_the_report() {
    for rows in [
        vec![(1u64, 8u64), (2, 1), (3, 1)],
        vec![(7, 5), (7, 4), (9, 1)],
        vec![(1, 3), (1, 4), (2, 9), (5, 2), (5, 2), (8, 1)],
    ] {
        let l = compute_leakage(&build_partition(&samples(&rows)));
        let t = table(&rows, 1);
        assert_eq!(t.len(), 1);
        assert_eq!(t[0].min_entropy_bits, l.min_entropy_bits);
        assert_eq!(t[0].total_bits, l.shannon_bits);
        assert_eq!(t[0].marginal_bits, l.shannon_bits);
    }
    near(bits(table(&[(1, 8), (2, 1), (3, 1)], 1)[0].min_entropy_bits), 1.25f64.log2(), 1e-12);
    near(bits(table(&[(7, 5), (7, 4), (9, 1)], 1)[0].min_entropy_bits), 1.2f64.log2(), 1e-12);
}

#[test]
fn two_items_agree_with_enumeration() {
    let rows = [(0u64, 8u64), (1, 1), (2, 1)];
    let mut peaks: BTreeMap<u64, u64> = BTreeMap::new();
    let mut masses: BTreeMap<u64, u64> = BTreeMap::new();
    for &(ci, wi) in rows.iter() {
        for &(cj, wj) in rows.iter() {
            let e = peaks.entry(ci + cj).or_insert(0);
            *e = (*e).max(wi * wj);
            *masses.entry(ci + cj).or_insert(0) += wi * wj;
        }
    }
    let sum: u64 = peaks.values().sum();
    assert_eq!(sum, 82);
    let t = table(&rows, 2);
    near(bits(t[1].min_entropy_bits), (82f64 / 64f64).log2(), 1e-12);
    let h: f64 = masses.values().map(|&m| m as f64 / 100.0).map(|q| -q * q.log2()).sum();
    near(bits(t[1].total_bits), h, 1e-12);
    assert_eq!(t[1].marginal_bits, t[1].total_bits - t[0].total_bits);
}

#[test]
fn three_items_agree_with_enumeration() {
    let rows = [(4u64, 2u64), (4, 3), (9, 1), (11, 5)];
    let mut peaks: BTreeMap<u64, u64> = BTreeMap::new();
    let mut masses: BTreeMap<u64, u64> = BTreeMap::new();
    for a in rows.iter() {
        for b in rows.iter() {
            for c in rows.iter() {
                let w = a.1 * b.1 * c.1;
                let e = peaks.entry(a.0 + b.0 + c.0).or_insert(0);
                *e = (*e).max(w);
                *masses.entry(a.0 + b.0 + c.0).or_insert(0) += w;
            }
        }
    }
    let t = table(&rows, 3);
    let sum: u64 = peaks.values().sum();
    near(bits(t[2].min_entropy_bits), (sum as f64 / 125.0).log2(), 1e-12);
    let h: f64 = masses.values().map(|&m| m as f64 / 1331.0).map(|q| -q * q.log2()).sum();
    near(bits(t[2].total_bits), h, 1e-12);
}

#[test]
fn block_counts_in_batches() {
    let rows: Vec<(u64, u64)> = (1u64..=1024).map(|l| ((l + 9 + 63) / 64, 1)).collect();
    let t = table(&rows, 8);
    let first = &t[0];
    near(bits(first.min_entropy_bits), 4.0875, 5e-5);
    near(bits(first.total_bits), 4.0366, 5e-5);
    let last = t.last().unwrap();
    assert_eq!(last.n, 8);
    near(bits(last.min_entropy_bits), 7.0112, 5e-5);
    near(bits(last.total_bits), 5.7551, 5e-5);
    near(bits(last.marginal_bits), 0.0966, 5e-5);
}

#[test]
fn table_shows_the_first_four_the_powers_of_two_and_the_last() {
    let sizes: Vec<usize> = table(&[(0, 1), (1, 1)], 21).iter().map(|r| r.n).collect();
    assert_eq!(sizes, vec![1, 2, 3, 4, 8, 16, 21]);
    assert!(shows(3, 100));
    assert!(shows(64, 100));
    assert!(shows(100, 100));
    assert!(!shows(5, 100));
    assert!(!shows(96, 100));
}

#[test]
fn one_cost_has_no_table() {
    assert!(scale_table(&samples(&[(5, 1), (5, 2)]), 4).is_none());
    assert!(scale_table(&Vec::new(), 4).is_none());
}

#[test]
fn table_of_no_items_is_empty() {
    assert_eq!(table(&[(0, 1), (1, 1)], 0).len(), 0);
}

#[test]
fn fixed_cost_of_each_item_is_ignored() {
    let a = table(&[(0, 2), (3, 1), (4, 6)], 5);
    let b = table(&[(1_000_000, 2), (1_000_003, 1), (1_000_004, 6)], 5);
    for i in 0..a.len() {
        assert_eq!(a[i].min_entropy_bits, b[i].min_entropy_bits);
        assert_eq!(a[i].total_bits, b[i].total_bits);
        assert_eq!(a[i].marginal_bits, b[i].marginal_bits);
    }
}

#[test]
fn sums_beyond_sixty_four_bits_are_kept() {
    let t = table(&[(0, 1), (u64::MAX, 1)], 3);
    near(bits(t[2].min_entropy_bits), 2.0, 1e-12);
    let h = 3.0 - 0.75 * 3f64.log2();
    near(bits(t[2].total_bits), h, 1e-12);
}

#[test]
fn no_item_takes_leakage_away() {
    for r in table(&[(0, 9), (1, 1), (7, 2)], 9).iter() {
        assert!(r.marginal_bits > 0);
        assert!(r.total_bits >= r.marginal_bits);
        assert!(r.min_entropy_bits > 0);
    }
}

#[test]
fn equal_weights_count_distinct_sums() {
    let rows = [(2u64, 1u64), (3, 1), (3, 1), (7, 1)];
    for (n, count) in [(1usize, 3f64), (2, 6.0), (3, 10.0)] {
        let t = table(&rows, n);
        near(bits(t[n - 1].min_entropy_bits), count.log2(), 1e-13);
    }
    let heavy: Vec<(u64, u64)> = rows.iter().map(|&(c, _)| (c, 5)).collect();
    near(bits(table(&heavy, 3)[2].min_entropy_bits), 10f64.log2(), 1e-13);
}

#[test]
fn batches_do_not_depend_on_the_order_of_rows() {
    let a = table(&[(0, 9), (1, 1), (7, 2), (1, 4)], 4);
    let b = table(&[(7, 2), (1, 4), (0, 9), (1, 1)], 4);
    for i in 0..4 {
        assert_eq!(a[i].total_bits, b[i].total_bits);
        assert_eq!(a[i].min_entropy_bits, b[i].min_entropy_bits);
    }
}

#[test]
fn larger_batches_leak_no_less() {
    for rows in [vec![(0u64, 9u64), (1, 1), (7, 2)], vec![(0, 1), (1, 1)], vec![(3, 7), (4, 7), (9, 100)]] {
        let t = table(&rows, 4);
        for i in 1..4 {
            assert!(t[i - 1].total_bits <= t[i].total_bits + 2);
            assert!(t[i - 1].min_entropy_bits <= t[i].min_entropy_bits + 1);
        }
    }
}

#[test]
fn an_item_adds_at_most_what_it_leaks_alone() {
    for rows in [vec![(0u64, 9u64), (1, 1), (7, 2)], vec![(0, 1), (1, 1)], vec![(3, 7), (4, 7), (9, 100)]] {
        let t = table(&rows, 4);
        for i in 0..4 {
            assert!(t[i].marginal_bits <= t[0].total_bits + 2);
            assert!(t[i].min_entropy_bits <= (i as u128 + 1) * (t[0].min_entropy_bits + 1));
        }
    }
}
