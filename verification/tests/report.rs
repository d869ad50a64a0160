use zkleak::csv::Row;
use zkleak::natural::Nat;
use zkleak::partition::Sample;
use zkleak::report::{
    cmd_buckets, cmd_report, cmd_scale, report_buckets, report_leakage, report_scale,
};

fn sweep(rows: &[(u64, f64)]) -> Vec<Row> {
    rows.iter()
        .map(|&(cycles, w)| Row { label: "s".to_string(), cycles, bits: w.to_bits() })
        .collect()
}

fn samples(rows: &[(u64, u64)]) -> Vec<Row> {
    let floats: Vec<(u64, f64)> = rows.iter().map(|&(c, w)| (c, w as f64)).collect();
    sweep(&floats)
}

fn sha256() -> Vec<Row> {
    let rows: Vec<(u64, u64)> = (1u64..=1024).map(|l| ((l + 9 + 63) / 64, 1)).collect();
    samples(&rows)
}

#[test]
fn report_on_block_counts() {
    let want = "  secrets sampled          1024
  distinct cycle counts    17

  H(S)   secret entropy      10.0000 bits
  I(S;O) leaked (Shannon)     4.0366 bits   <- average bits revealed
  min-entropy leakage         4.0875 bits   <- guessing advantage
  H(S|O) remaining            5.9634 bits

  single-guess success        1.6602%  (vs 0.0977% with no observation)
  largest identical class         64 secrets share one cycle count

  => the cycle count reveals 40.4% of the secret's entropy.
";
    assert_eq!(cmd_report(&sha256(), false), want);
}

#[test]
fn report_on_constant_cost() {
    let want = "  secrets sampled          4
  distinct cycle counts    1

  H(S)   secret entropy       2.0000 bits
  I(S;O) leaked (Shannon)     0.0000 bits   <- average bits revealed
  min-entropy leakage         0.0000 bits   <- guessing advantage
  H(S|O) remaining            2.0000 bits

  single-guess success       25.0000%  (vs 25.0000% with no observation)
  largest identical class          4 secrets share one cycle count

  => the cycle count reveals 0.0% of the secret's entropy.
     All sampled secrets produce an identical cycle count: no leakage
     through this observable, over this sample.
";
    assert_eq!(cmd_report(&samples(&[(9, 1), (9, 1), (9, 1), (9, 1)]), false), want);
}

#[test]
fn report_on_one_secret() {
    let text = cmd_report(&samples(&[(9, 1)]), false);
    assert!(text.contains("  H(S)   secret entropy       0.0000 bits\n"));
    assert!(text.contains("reveals 0.0% of"));
}

#[test]
fn report_on_weighted_secrets() {
    let text = cmd_report(&samples(&[(1, 3), (2, 1)]), true);
    assert!(text.contains("  H(S)   secret entropy       0.8113 bits\n"));
    assert!(text.contains("  single-guess success      100.0000%  (vs 75.0000% with no observation)\n"));
    assert!(text.contains("  largest identical class     75.00% of prior mass shares one cycle count\n"));
    assert!(text.contains("reveals 100.0% of"));
}

#[test]
fn buckets_of_four_costs() {
    let text = cmd_buckets(&samples(&[(10, 1), (11, 1), (12, 1), (13, 1)]), 8);
    assert!(text.starts_with("Leakage vs padding overhead (exact, cycle counts only)\n\n"));
    let rows = "
  k      min-entropy        Shannon mean overhead     overhead
              (bits)         (bits)      (cycles)   (relative)
  1           0.0000         0.0000             2        1.13x
  2           1.0000         1.0000             0        1.04x
  3           1.5850         1.5000             0        1.02x
  4           2.0000         2.0000             0        1.00x

  k=1 is full obliviousness";
    assert!(text.contains(rows));
    assert!(text.ends_with("  padded to the maximum). Larger k trades bits for cycles.\n"));
}

#[test]
fn buckets_stop_at_the_limit() {
    let text = cmd_buckets(&samples(&[(10, 1), (11, 1), (12, 1), (13, 1)]), 2);
    assert!(text.contains("\n  2           1.0000"));
    assert!(!text.contains("\n  3           1.5850"));
}

#[test]
fn buckets_of_one_cost() {
    assert_eq!(
        cmd_buckets(&samples(&[(5, 1), (5, 1)]), 8),
        "Only one distinct cycle count: nothing to pad.\n"
    );
}

#[test]
fn scale_of_block_counts() {
    let text = cmd_scale(&sha256(), 8);
    assert!(text.starts_with("Predicted leakage when the guest processes n independent items\n\n"));
    assert!(text.contains("\n  n         min-entropy  total Shannon   marginal (nth)\n                 (bits)         (bits)           (bits)\n"));
    assert!(text.contains("\n  1              4.0875         4.0366           4.0366\n"));
    assert!(text.contains("\n  8              7.0112         5.7551           0.0966\n"));
    assert!(text.ends_with("  one specific item. Treat it as an indicator, not that quantity.\n"));
}

#[test]
fn scale_of_many_block_counts() {
    let text = cmd_scale(&sha256(), 64);
    assert!(text.contains("\n  64            10.0014         7.2559           0.0114\n"));
}

#[test]
fn scale_of_one_cost() {
    assert_eq!(
        cmd_scale(&samples(&[(5, 1), (5, 1)]), 8),
        "Only one distinct cycle count: leakage is 0 at every batch size.\n"
    );
}

#[test]
fn samples_and_rows_are_reported_alike() {
    let exact: Vec<Sample> = [(1u64, 3u64), (2, 1), (7, 2)]
        .iter()
        .map(|&(cycles, w)| Sample { cycles, weight: Nat::from_u64(w) })
        .collect();
    let rows = samples(&[(1, 3), (2, 1), (7, 2)]);
    assert_eq!(report_leakage(&exact, true), cmd_report(&rows, true));
    assert_eq!(report_buckets(&exact, 3), cmd_buckets(&rows, 3));
    assert_eq!(report_scale(&exact, 3), cmd_scale(&rows, 3));
}

#[test]
fn infinite_weight_in_a_report() {
    let inf = f64::INFINITY;
    let nan = f64::NAN;
    let mut want = String::new();
    want.push_str("  secrets sampled          3\n");
    want.push_str("  distinct cycle counts    2\n\n");
    want.push_str(&format!("  H(S)   secret entropy    {:>9.4} bits\n", nan));
    want.push_str(&format!(
        "  I(S;O) leaked (Shannon)  {:>9.4} bits   <- average bits revealed\n",
        nan.max(0.0)
    ));
    want.push_str(&format!(
        "  min-entropy leakage      {:>9.4} bits   <- guessing advantage\n",
        (inf.log2() - inf.log2()).max(0.0)
    ));
    want.push_str(&format!("  H(S|O) remaining         {:>9.4} bits\n\n", nan.max(0.0)));
    want.push_str(&format!(
        "  single-guess success     {:>9.4}%  (vs {:.4}% with no observation)\n",
        100.0 * (inf / inf),
        100.0 * inf / inf
    ));
    let upper = want.clone();
    want.push_str(&format!(
        "  largest identical class  {:>8.2}% of prior mass shares one cycle count\n",
        100.0 * inf / inf
    ));
    want.push_str("\n  => the cycle count reveals 0.0% of the secret's entropy.\n");
    let rows = sweep(&[(1, inf), (2, 1.0), (2, 0.5)]);
    assert_eq!(cmd_report(&rows, true), want);
    let plain = cmd_report(&rows, false);
    assert!(plain.starts_with(&upper));
    let class = format!("  largest identical class  {:>9.0} secrets share one cycle count\n", inf);
    assert!(plain.contains(&class));
}

#[test]
fn infinite_weight_at_one_cost() {
    let rows = sweep(&[(5, 1.0), (5, f64::INFINITY)]);
    assert!(cmd_report(&rows, true).ends_with("     through this observable, over this sample.\n"));
    assert_eq!(cmd_buckets(&rows, 8), "Only one distinct cycle count: nothing to pad.\n");
    assert_eq!(
        cmd_scale(&rows, 8),
        "Only one distinct cycle count: leakage is 0 at every batch size.\n"
    );
}

#[test]
fn infinite_weight_has_no_finite_padding() {
    let text = cmd_buckets(&sweep(&[(1, 1.0), (2, f64::INFINITY), (3, 1.0)]), 3);
    assert!(text.contains("(relative)\n\n  k=1 is full obliviousness"));
}

#[test]
fn infinite_weight_in_batches() {
    let text = cmd_scale(&sweep(&[(1, 1.0), (2, f64::INFINITY)]), 5);
    let none: Vec<f64> = Vec::new();
    let mut before = 0.0f64;
    let mut want = String::new();
    for k in 1..=5 {
        let h: f64 = none.iter().map(|&q| -q * q.log2()).sum();
        want.push_str(&format!(
            "  {:<8} {:>12.4} {:>14.4} {:>16.4}\n",
            k,
            f64::NAN.max(0.0),
            h,
            h - before
        ));
        before = h;
    }
    assert!(text.contains(&want));
    assert!(text.ends_with("  one specific item. Treat it as an indicator, not that quantity.\n"));
}

#[test]
fn share_of_a_tiny_entropy() {
    let tiny = 2f64.powi(-70);
    let text = cmd_report(&sweep(&[(1, 1.0), (2, tiny)]), true);
    assert!(text.contains("  H(S)   secret entropy       0.0000 bits\n"));
    assert!(text.contains("=> the cycle count reveals 100.0% of"));
    let hidden = cmd_report(&sweep(&[(1, 1.0), (1, tiny)]), true);
    assert!(hidden.contains("=> the cycle count reveals 0.0% of"));
    let half = cmd_report(&sweep(&[(1, 1.0), (2, tiny), (2, tiny)]), true);
    assert!(half.contains("=> the cycle count reveals 98.6% of"));
}

#[test]
fn marginals_are_not_negative() {
    let near_one = 1.0 + 1780.0 * 2f64.powi(-52);
    let text = cmd_scale(&sweep(&[(1, near_one), (2, 2f64.powi(-60))]), 4);
    assert!(text.contains("\n  3              0.0000         0.0000           0.0000\n"));
    assert!(!text.contains("-0.0000"));
}
