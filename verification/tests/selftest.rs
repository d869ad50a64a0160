use zkleak::leakage::Ratio;
use zkleak::natural::Nat;
use zkleak::selftest::{check, cmd_selftest, report_checks, Check, Quantity};

fn value(num: i64, den: u64) -> Quantity {
    let size = Ratio { num: Nat::from_u64(num.unsigned_abs()), den: Nat::from_u64(den) };
    Quantity { negative: num < 0, size }
}

fn make(name: &str, got: Quantity, want: Quantity, tolerance: Quantity) -> Check {
    Check { name: name.to_string(), got, want, tolerance }
}

#[test]
fn all_checks_pass() {
    let (text, failed) = cmd_selftest();
    assert_eq!(failed, 0);
    assert!(text.ends_with("\n\nall self-tests passed\n"));
    assert_eq!(text.lines().filter(|l| l.ends_with("  ok")).count(), 24);
    assert!(text.starts_with("  sha256 classes           got    17.000000  want    17.000000  ok\n"));
    assert!(text.contains("  sha256 Shannon           got     4.036617  want     4.036617  ok\n"));
    assert!(text.contains("  bucket k=1 overhead      got     1.500000  want     1.500000  ok\n"));
    assert!(text.contains("  multi-secret class min-ent got     0.263034  want     0.263034  ok\n"));
}

#[test]
fn check_allows_the_given_distance() {
    assert!(check(&make("near", value(1001, 1000), value(1, 1), value(1, 1000))).0);
    assert!(check(&make("near", value(0, 1), value(-3, 2), value(3, 2))).0);
    let (ok, line) = check(&make("far", value(999, 1000), value(1, 1), value(1, 1001)));
    assert!(!ok);
    assert_eq!(line, "  far                      got     0.999000  want     1.000000  FAIL\n");
}

#[test]
fn check_takes_negative_quantities() {
    let (ok, line) = check(&make("below", value(-1, 2), value(1, 2), value(1, 1)));
    assert!(ok);
    assert_eq!(
        line,
        format!("  {:<24} got {:>12.6}  want {:>12.6}  ok\n", "below", -0.5f64, 0.5f64)
    );
    assert!(!check(&make("below", value(-1, 2), value(1, 2), value(99, 100))).0);
    assert!(check(&make("below", value(-1, 2), value(-2, 4), value(0, 1))).0);
    assert!(!check(&make("below", value(1, 2), value(1, 2), value(-1, 100))).0);
}

#[test]
fn failures_are_counted() {
    let checks = vec![
        make("a", value(1, 1), value(2, 1), value(1, 2)),
        make("b", value(1, 2), value(2, 4), value(1, 1000)),
        make("c", value(3, 1), value(0, 1), value(1, 1)),
    ];
    let (text, failed) = report_checks(&checks);
    assert_eq!(failed, 2);
    assert!(text.ends_with("ok\n  c                        got     3.000000  want     0.000000  FAIL\n\n2 self-test(s) FAILED\n"));
}
