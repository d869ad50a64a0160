use zkleak::binary_log::{log2_fixed, LOG_ONE};
use zkleak::buckets::optimal_buckets;
use zkleak::frontier::{padding_frontier, Frontier};
use zkleak::leakage::compute_leakage;
use zkleak::natural::Nat;
use zkleak::partition::{build_partition, Sample};

fn samples(rows: &[(u64, u64)]) -> Vec<Sample> {
    rows.iter()
        .map(|&(cycles, w)| Sample { cycles, weight: Nat::from_u64(w) })
        .collect()
}

fn overheads(rows: &[(u64, u64)], max_k: usize) -> Vec<u128> {
    optimal_buckets(&samples(rows), max_k)
        .iter()
        .map(|s| s.total_overhead.to_u128().unwrap())
        .collect()
}

fn sha256_rows() -> Vec<(u64, u64)> {
    (1u64..=1024).map(|l| ((l + 9 + 63) / 64, 1)).collect()
}

fn frontier(rows: &[(u64, u64)], max_k: usize) -> Frontier {
    padding_frontier(&samples(rows), max_k).unwrap()
}

#[test]
fn four_costs_in_a_row() {
    let found = optimal_buckets(&samples(&[(0, 1), (1, 1), (2, 1), (3, 1)]), 4);
    let bounds: Vec<Vec<usize>> = found.iter().map(|s| s.bounds.clone()).collect();
    assert_eq!(overheads(&[(0, 1), (1, 1), (2, 1), (3, 1)], 4), vec![6, 2, 1, 0]);
    assert_eq!(bounds[0], vec![3]);
    assert_eq!(bounds[1], vec![1, 3]);
    assert_eq!(bounds[2], vec![0, 1, 3]);
    assert_eq!(bounds[3], vec![0, 1, 2, 3]);
}

#[test]
fn unpadded_classes_cost_nothing() {
    assert_eq!(overheads(&[(10, 2), (20, 1), (30, 1)], 3)[2], 0);
}

#[test]
fn more_buckets_than_costs_add_no_solutions() {
    assert_eq!(overheads(&[(1, 1), (5, 2)], 10), vec![4, 0]);
}

#[test]
fn no_costs_have_no_solutions() {
    assert_eq!(optimal_buckets(&Vec::new(), 0).len(), 0);
}

#[test]
fn overhead_is_the_least_of_all_bucketings() {
    let rows = [(3u64, 5u64), (4, 1), (9, 2), (10, 7), (17, 1), (18, 3), (40, 2)];
    let found = overheads(&rows, rows.len());
    for k in 1..=rows.len() {
        let mut least = u128::MAX;
        for mask in 0u32..(1 << (rows.len() - 1)) {
            if mask.count_ones() as usize + 1 != k {
                continue;
            }
            let mut cost: u128 = 0;
            let mut start = 0;
            for e in 0..rows.len() {
                if e == rows.len() - 1 || mask & (1 << e) != 0 {
                    for t in start..=e {
                        cost += rows[t].1 as u128 * (rows[e].0 - rows[t].0) as u128;
                    }
                    start = e + 1;
                }
            }
            least = least.min(cost);
        }
        assert_eq!(found[k - 1], least);
    }
}

#[test]
fn ties_go_to_the_earliest_last_cut() {
    let found = optimal_buckets(&samples(&[(0, 1), (1, 1), (2, 1)]), 2);
    assert_eq!(found[1].bounds, vec![0, 2]);
}

#[test]
fn frontier_needs_two_costs() {
    assert!(padding_frontier(&samples(&[(5, 1), (5, 3)]), 8).is_none());
    assert!(padding_frontier(&Vec::new(), 8).is_none());
}

#[test]
fn frontier_has_one_row_for_each_number_of_buckets() {
    assert_eq!(frontier(&sha256_rows(), 8).rows.len(), 8);
    assert_eq!(frontier(&sha256_rows(), 100).rows.len(), 17);
    assert_eq!(frontier(&sha256_rows(), 0).rows.len(), 1);
}

#[test]
fn min_entropy_of_padding_is_the_logarithm_of_the_bucket_count() {
    let f = frontier(&sha256_rows(), 17);
    for r in f.rows.iter() {
        assert_eq!(r.leakage.min_entropy_bits, log2_fixed(&Nat::from_u64(r.k as u64)));
        assert_eq!(r.leakage.num_classes, r.k);
    }
    assert_eq!(f.rows[3].leakage.min_entropy_bits, 2 * LOG_ONE as u128);
}

#[test]
fn full_padding_reveals_nothing() {
    let f = frontier(&[(1, 3), (1, 4), (2, 9), (5, 2), (5, 2), (8, 1)], 4);
    assert_eq!(f.rows[0].leakage.shannon_bits, 0);
    assert_eq!(f.rows[0].leakage.min_entropy_bits, 0);
    assert_eq!(f.rows[0].solution.total_overhead.to_u128(), Some(7 * 7 + 9 * 6 + 4 * 3));
}

#[test]
fn no_padding_agrees_with_the_report() {
    let rows = samples(&[(1, 3), (1, 4), (2, 9), (5, 2), (5, 2), (8, 1)]);
    let l = compute_leakage(&build_partition(&rows));
    let f = padding_frontier(&rows, 4).unwrap();
    let last = &f.rows[3];
    assert_eq!(last.solution.total_overhead.to_u128(), Some(0));
    assert_eq!(last.leakage.shannon_bits, l.shannon_bits);
    assert_eq!(last.leakage.min_entropy_bits, l.min_entropy_bits);
    assert_eq!(last.leakage.residual_bits, l.residual_bits);
}

#[test]
fn more_buckets_cost_no_more_and_reveal_no_more_than_the_sweep() {
    let rows = samples(&[(1, 3), (1, 4), (2, 9), (5, 2), (6, 2), (8, 1), (13, 4)]);
    let l = compute_leakage(&build_partition(&rows));
    let f = padding_frontier(&rows, 6).unwrap();
    for i in 0..f.rows.len() {
        assert!(f.rows[i].leakage.shannon_bits <= l.shannon_bits);
        assert!(f.rows[i].leakage.min_entropy_bits <= l.min_entropy_bits);
        if i > 0 {
            assert!(!f.rows[i - 1].solution.total_overhead.less(&f.rows[i].solution.total_overhead));
        }
    }
}

#[test]
fn overhead_is_what_padding_adds() {
    let rows = [(1u64, 3u64), (1, 4), (2, 9), (5, 2), (6, 2), (8, 1), (13, 4)];
    let costs = [1u64, 2, 5, 6, 8, 13];
    let f = frontier(&rows, 6);
    for r in f.rows.iter() {
        let mut padded: u128 = 0;
        for &(c, w) in rows.iter() {
            let top = r.solution.bounds.iter().map(|&b| costs[b]).find(|&m| m >= c).unwrap();
            assert!(top >= c);
            padded += top as u128 * w as u128;
        }
        let plain = f.weighted_cycles.to_u128().unwrap();
        assert_eq!(padded, plain + r.solution.total_overhead.to_u128().unwrap());
    }
    assert_eq!(f.weighted_cycles.to_u128(), Some(3 + 4 + 18 + 10 + 12 + 8 + 52));
    assert_eq!(f.total_weight.to_u128(), Some(25));
}

#[test]
fn each_bucket_saves_cycles() {
    let f = frontier(&[(1, 3), (1, 4), (2, 9), (5, 2), (6, 2), (8, 1), (13, 4)], 6);
    for i in 1..f.rows.len() {
        assert!(f.rows[i].solution.total_overhead.less(&f.rows[i - 1].solution.total_overhead));
    }
}
