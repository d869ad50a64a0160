use zkleak::binary_log::LOG_ONE;
use zkleak::leakage::{compute_leakage, Leakage};
use zkleak::natural::Nat;
use zkleak::partition::{build_partition, Sample};

fn samples(rows: &[(u64, u64)]) -> Vec<Sample> {
    rows.iter()
        .map(|&(cycles, w)| Sample { cycles, weight: Nat::from_u64(w) })
        .collect()
}

fn measure(rows: &[(u64, u64)]) -> Leakage {
    compute_leakage(&build_partition(&samples(rows)))
}

fn bits(x: u128) -> f64 {
    x as f64 / LOG_ONE as f64
}

fn near(got: f64, want: f64, tol: f64) {
    assert!((got - want).abs() <= tol, "got {} want {}", got, want);
}

fn sha256_rows() -> Vec<(u64, u64)> {
    (1u64..=1024).map(|l| ((l + 9 + 63) / 64, 1)).collect()
}

#[test]
fn partition_holds_classes_in_order_of_cost() {
    let p = build_partition(&samples(&[(30, 2), (10, 5), (30, 7), (20, 1)]));
    let classes: Vec<(u64, u128, u128)> = p
        .classes
        .iter()
        .map(|c| (c.cycles, c.weight.to_u128().unwrap(), c.max_weight.to_u128().unwrap()))
        .collect();
    assert_eq!(classes, vec![(10, 5, 5), (20, 1, 1), (30, 9, 7)]);
    assert_eq!(p.total_weight.to_u128(), Some(15));
    assert_eq!(p.max_secret_weight.to_u128(), Some(7));
    assert_eq!(p.num_secrets, 4);
}

#[test]
fn partition_of_nothing_is_empty() {
    let p = build_partition(&Vec::new());
    assert_eq!(p.classes.len(), 0);
    assert_eq!(p.total_weight.to_u128(), Some(0));
    assert_eq!(p.num_secrets, 0);
}

#[test]
fn sha256_block_counts_match_the_closed_form() {
    let l = measure(&sha256_rows());
    assert_eq!(l.num_classes, 17);
    near(bits(l.secret_bits), 10.0, 1e-12);
    near(bits(l.shannon_bits), 4.036617, 1e-6);
    near(bits(l.min_entropy_bits), 17f64.log2(), 1e-12);
    near(bits(l.residual_bits), 10.0 - bits(l.shannon_bits), 1e-12);
    assert_eq!(l.largest_class_weight.to_u128(), Some(64));
    assert_eq!(l.guess_probability.num.to_u128(), Some(17));
    assert_eq!(l.guess_probability.den.to_u128(), Some(1024));
}

#[test]
fn constant_observable_reveals_nothing() {
    let rows: Vec<(u64, u64)> = (0..100).map(|_| (42, 1)).collect();
    let l = measure(&rows);
    assert_eq!(l.shannon_bits, 0);
    assert_eq!(l.min_entropy_bits, 0);
    assert_eq!(l.residual_bits, l.secret_bits);
    assert_eq!(l.num_classes, 1);
}

#[test]
fn bijective_observable_reveals_everything() {
    let rows: Vec<(u64, u64)> = (0..64).map(|i| (i, 1)).collect();
    let l = measure(&rows);
    assert_eq!(l.shannon_bits, 6 * LOG_ONE as u128);
    assert_eq!(l.min_entropy_bits, 6 * LOG_ONE as u128);
    assert_eq!(l.residual_bits, 0);
    assert_eq!(l.guess_probability.num.to_u128(), l.guess_probability.den.to_u128());
}

#[test]
fn uniform_prior_reduces_to_the_number_of_classes() {
    let rows: Vec<(u64, u64)> = (0..8).map(|i| (i / 2, 1)).collect();
    let l = measure(&rows);
    assert_eq!(l.min_entropy_bits, 2 * LOG_ONE as u128);
    assert_eq!(l.residual_bits, LOG_ONE as u128);
    assert_eq!(l.guess_probability.num.to_u128(), Some(4));
    assert_eq!(l.guess_probability.den.to_u128(), Some(8));
}

#[test]
fn weighted_prior_with_distinct_costs() {
    let l = measure(&[(1, 3), (2, 1)]);
    let h = -(0.75f64 * 0.75f64.log2()) - (0.25f64 * 0.25f64.log2());
    near(bits(l.secret_bits), h, 1e-12);
    near(bits(l.shannon_bits), h, 1e-12);
    assert_eq!(l.residual_bits, 0);
}

#[test]
fn min_entropy_takes_the_largest_secret_of_each_class() {
    near(bits(measure(&[(10, 1), (10, 1), (20, 1), (30, 1)]).min_entropy_bits), 3f64.log2(), 1e-12);
    near(bits(measure(&[(1, 8), (2, 1), (3, 1)]).min_entropy_bits), 1.25f64.log2(), 1e-12);
    near(bits(measure(&[(7, 5), (7, 4), (9, 1)]).min_entropy_bits), 1.2f64.log2(), 1e-12);
}

#[test]
fn parts_of_the_entropy_add_up() {
    let l = measure(&[(1, 3), (1, 4), (2, 9), (5, 2), (5, 2), (8, 1)]);
    assert!(l.shannon_bits <= l.secret_bits);
    assert!(l.residual_bits <= l.secret_bits);
    let gap = l.secret_bits as i128 - l.shannon_bits as i128 - l.residual_bits as i128;
    assert!(gap == 0 || gap == 1);
}

#[test]
fn constant_offset_changes_nothing() {
    let rows = [(1, 3), (1, 4), (2, 9), (5, 2), (5, 2), (8, 1)];
    let moved: Vec<(u64, u64)> = rows.iter().map(|&(c, w)| (c + 1_000_000, w)).collect();
    let a = measure(&rows);
    let b = measure(&moved);
    assert_eq!(a.shannon_bits, b.shannon_bits);
    assert_eq!(a.min_entropy_bits, b.min_entropy_bits);
    assert_eq!(a.residual_bits, b.residual_bits);
    assert_eq!(a.secret_bits, b.secret_bits);
}

#[test]
fn order_preserving_replacement_changes_nothing() {
    let rows = [(1, 3), (1, 4), (2, 9), (5, 2), (5, 2), (8, 1)];
    let moved: Vec<(u64, u64)> = rows.iter().map(|&(c, w)| (c * c + 7, w)).collect();
    let a = measure(&rows);
    let b = measure(&moved);
    assert_eq!(a.shannon_bits, b.shannon_bits);
    assert_eq!(a.min_entropy_bits, b.min_entropy_bits);
}

#[test]
fn merging_costs_never_reveals_more() {
    let rows = [(1, 3), (1, 4), (2, 9), (5, 2), (6, 2), (8, 1)];
    let merged: Vec<(u64, u64)> = rows.iter().map(|&(c, w)| (c / 3, w)).collect();
    let a = measure(&rows);
    let b = measure(&merged);
    assert!(b.shannon_bits <= a.shannon_bits);
    assert!(b.min_entropy_bits <= a.min_entropy_bits);
    assert!(b.residual_bits >= a.residual_bits);
    assert_eq!(b.secret_bits, a.secret_bits);
}

#[test]
fn weights_are_relative() {
    let rows = [(1, 3), (1, 4), (2, 9), (5, 2), (5, 2), (8, 1)];
    let doubled: Vec<(u64, u64)> = rows.iter().map(|&(c, w)| (c, w * 1024)).collect();
    let a = measure(&rows);
    let b = measure(&doubled);
    assert_eq!(a.shannon_bits, b.shannon_bits);
    assert_eq!(a.min_entropy_bits, b.min_entropy_bits);
    assert_eq!(a.residual_bits, b.residual_bits);
    assert_eq!(a.secret_bits, b.secret_bits);
    let tripled: Vec<(u64, u64)> = rows.iter().map(|&(c, w)| (c, w * 3)).collect();
    let c = measure(&tripled);
    assert_eq!(c.guess_probability.num.to_u128().unwrap(), 3 * a.guess_probability.num.to_u128().unwrap());
    assert_eq!(c.guess_probability.den.to_u128().unwrap(), 3 * a.guess_probability.den.to_u128().unwrap());
}

#[test]
fn five_issuers_with_three_algorithms_count_as_three() {
    let l = measure(&[(100, 1), (100, 1), (200, 1), (200, 1), (300, 1)]);
    assert_eq!(l.num_classes, 3);
    near(bits(l.min_entropy_bits), 3f64.log2(), 1e-12);
}

#[test]
fn replacement_that_can_be_undone_changes_nothing() {
    let rows = [(1, 3), (1, 4), (2, 9), (5, 2), (5, 2), (8, 1)];
    let moved: Vec<(u64, u64)> = rows.iter().map(|&(c, w)| (100 - c, w)).collect();
    let a = measure(&rows);
    let b = measure(&moved);
    assert_eq!(a.shannon_bits, b.shannon_bits);
    assert_eq!(a.min_entropy_bits, b.min_entropy_bits);
    assert_eq!(a.residual_bits, b.residual_bits);
    assert_eq!(a.secret_bits, b.secret_bits);
}

#[test]
fn bits_are_accurate() {
    let rows = [(1u64, 3u64), (1, 4), (2, 9), (5, 2), (5, 2), (8, 1)];
    let l = measure(&rows);
    let total = 21f64;
    let h: f64 = [7f64, 9.0, 4.0, 1.0].iter().map(|w| -(w / total) * (w / total).log2()).sum();
    near(bits(l.shannon_bits), h, 1e-13);
    let s: f64 =
        rows.iter().map(|&(_, w)| w as f64 / total).map(|q| -q * q.log2()).sum();
    near(bits(l.secret_bits), s, 1e-13);
    near(bits(l.residual_bits), s - h, 1e-13);
}

#[test]
fn guess_is_the_best_of_all_strategies() {
    let rows = [(1u64, 3u64), (1, 4), (2, 9), (5, 2), (5, 2)];
    let costs = [1u64, 2, 5];
    let mut best = 0;
    for code in 0..rows.len().pow(costs.len() as u32) {
        let mut rest = code;
        let mut won = 0;
        for &c in costs.iter() {
            let named = rest % rows.len();
            rest /= rows.len();
            if rows[named].0 == c {
                won += rows[named].1;
            }
        }
        best = best.max(won);
    }
    assert_eq!(measure(&rows).guess_probability.num.to_u128(), Some(best as u128));
    assert_eq!(best, 4 + 9 + 2);
}

#[test]
fn number_of_classes_bounds_min_entropy() {
    for rows in [
        vec![(1u64, 3u64), (2, 1)],
        vec![(1, 8), (2, 1), (3, 1)],
        vec![(1, 1), (2, 1), (3, 1)],
    ] {
        let l = measure(&rows);
        assert!(bits(l.min_entropy_bits) <= (l.num_classes as f64).log2() + 1e-14);
    }
}

#[test]
fn classes_hold_their_own_sums_of_logs() {
    let p = build_partition(&samples(&[(3, 0), (4, 2), (4, 4), (9, 1)]));
    let one = LOG_ONE as u128;
    let sums: Vec<u128> = p.classes.iter().map(|c| c.w_log_w.to_u128().unwrap()).collect();
    assert_eq!(sums, vec![0, 2 * one + 8 * one, 0]);
    assert_eq!(p.w_log_w_total.to_u128(), Some(10 * one));
    let q = build_partition(&samples(&[(3, 0), (4, 2)]));
    assert_eq!(q.classes.len(), 2);
    assert_eq!(q.w_log_w_total.to_u128(), Some(2 * one));
    assert_eq!(q.classes[0].w_log_w.to_u128(), Some(0));
    assert_eq!(q.classes[1].w_log_w.to_u128(), Some(2 * one));
}

#[test]
fn any_factor_moves_bits_by_at_most_one_unit() {
    let rows = [(1, 3), (1, 4), (2, 9), (5, 2), (5, 2), (8, 1)];
    let a = measure(&rows);
    for s in [3u64, 7, 10, 1_000_003] {
        let scaled: Vec<(u64, u64)> = rows.iter().map(|&(c, w)| (c, w * s)).collect();
        let b = measure(&scaled);
        assert!(a.shannon_bits.abs_diff(b.shannon_bits) <= 1);
        assert!(a.min_entropy_bits.abs_diff(b.min_entropy_bits) <= 1);
        assert!(a.residual_bits.abs_diff(b.residual_bits) <= 1);
        assert!(a.secret_bits.abs_diff(b.secret_bits) <= 1);
    }
}

#[test]
fn merging_leaves_fewer_and_larger_classes() {
    let rows = [(1, 3), (1, 4), (2, 9), (5, 2), (6, 2), (8, 1)];
    let merged: Vec<(u64, u64)> = rows.iter().map(|&(c, w)| (c / 3, w)).collect();
    let a = measure(&rows);
    let b = measure(&merged);
    assert!(b.num_classes < a.num_classes);
    assert!(!b.largest_class_weight.less(&a.largest_class_weight));
    let moved: Vec<(u64, u64)> = rows.iter().map(|&(c, w)| (100 - c, w)).collect();
    let c = measure(&moved);
    assert_eq!(c.num_classes, a.num_classes);
    assert!(c.largest_class_weight.same(&a.largest_class_weight));
}

#[test]
fn order_of_rows_does_not_matter() {
    let a = build_partition(&samples(&[(1, 3), (5, 2), (1, 4), (2, 9)]));
    let b = build_partition(&samples(&[(2, 9), (1, 4), (1, 3), (5, 2)]));
    assert_eq!(format!("{:?}", a), format!("{:?}", b));
}

#[test]
fn joined_sweeps_add_up() {
    let p = build_partition(&samples(&[(1, 3), (5, 2), (1, 4), (2, 9)]));
    let classes: Vec<(u64, u128, u128)> = p
        .classes
        .iter()
        .map(|c| (c.cycles, c.weight.to_u128().unwrap(), c.max_weight.to_u128().unwrap()))
        .collect();
    let a = build_partition(&samples(&[(1, 3), (5, 2)]));
    let b = build_partition(&samples(&[(1, 4), (2, 9)]));
    assert_eq!(classes, vec![(1, 7, 4), (2, 9, 9), (5, 2, 2)]);
    assert!(p.total_weight.same(&a.total_weight.plus(&b.total_weight)));
    assert!(p.w_log_w_total.same(&a.w_log_w_total.plus(&b.w_log_w_total)));
    assert!(p.max_secret_weight.same(&a.max_secret_weight.larger(&b.max_secret_weight)));
}

#[test]
fn entropies_are_limited_by_counts() {
    for rows in [
        vec![(1u64, 3u64), (2, 1), (2, 5)],
        vec![(1, 8), (2, 1), (3, 1)],
        vec![(1, 1), (2, 1), (3, 1), (3, 1)],
    ] {
        let l = measure(&rows);
        assert!(bits(l.shannon_bits) <= (l.num_classes as f64).log2() + 1e-14);
        assert!(bits(l.secret_bits) <= (rows.len() as f64).log2() + 1e-14);
    }
}

#[test]
fn share_is_kept_before_rounding() {
    let l = measure(&[(1, 1 << 40), (2, 1)]);
    assert!(l.revealed.num.same(&l.revealed.den));
    assert!(!l.revealed.den.is_zero());
    let c = measure(&[(1, 1 << 40), (1, 1)]);
    assert!(c.revealed.num.is_zero());
    let s = measure(&[(1, 5)]);
    assert!(s.revealed.den.is_zero());
}
