//! Checks of the arithmetic against closed forms.

use crate::binary_log::{lemma_lg_monotone, lg, log2_fixed, LOG_ONE};
use crate::buckets::{ends_of, is_bucketing, is_cheapest, optimal_buckets, overhead, Bucketing};
use crate::frontier::{class_samples, lemma_value_rows_sorted, value_rows};
use crate::leakage::{compute_leakage, leakage_of, Leakage, Ratio};
use crate::natural::Nat;
use crate::partition::{
    build_partition, cycle_values, lemma_cycle_values, occurs, partition_of, sample_rows,
    total_weight, xlg, Partition, Sample,
};
use crate::scale::{batch_min_entropy, scale_table, shown_sizes, ScaleRow};
use crate::selftest_laws::law_self_checks_hold;
use crate::text::{
    append_chars, decimal, fixed, left, right, to_chars, to_left, to_right, write_count,
    write_fixed,
};
use vstd::prelude::*;

verus! {

/// A ratio with a sign. Zero has none.
#[derive(Debug)]
pub struct Quantity {
    pub negative: bool,
    pub size: Ratio,
}

impl View for Quantity {
    type V = (int, nat);

    open spec fn view(&self) -> (int, nat) {
        (
            if self.negative {
                -(self.size.num@ as int)
            } else {
                self.size.num@ as int
            },
            self.size.den@,
        )
    }
}

impl Quantity {
    /// Whether the denominator is not zero, and zero has no sign.
    pub open spec fn well_formed(&self) -> bool {
        self.size.den@ > 0 && (self.negative ==> self.size.num@ > 0)
    }
}

/// The mathematical content of a check.
#[verifier::ext_equal]
pub struct CheckView {
    pub name: Seq<char>,
    pub got: (int, nat),
    pub want: (int, nat),
    pub tolerance: (int, nat),
}

/// A quantity that was computed, what it should be, and how near the two must be.
#[derive(Debug)]
pub struct Check {
    pub name: String,
    pub got: Quantity,
    pub want: Quantity,
    pub tolerance: Quantity,
}

impl View for Check {
    type V = CheckView;

    open spec fn view(&self) -> CheckView {
        CheckView {
            name: self.name@,
            got: self.got@,
            want: self.want@,
            tolerance: self.tolerance@,
        }
    }
}

impl Check {
    pub open spec fn well_formed(&self) -> bool {
        self.got.well_formed() && self.want.well_formed() && self.tolerance.well_formed()
    }
}

/// The distance between two integers.
pub open spec fn distance(a: int, b: int) -> nat {
    if a < b {
        (b - a) as nat
    } else {
        (a - b) as nat
    }
}

/// Whether a check holds: `|got - want| <= tolerance`, with denominators cleared.
pub open spec fn holds(c: CheckView) -> bool {
    distance(c.got.0 * c.want.1, c.want.0 * c.got.1) * c.tolerance.1 <= c.tolerance.0 * (c.got.1
        * c.want.1)
}

/// A quotient that may be negative, written with a number of decimal places.
pub open spec fn signed_fixed(num: int, den: nat, places: nat) -> Seq<char> {
    if num < 0 {
        seq!['-'] + fixed((-num) as nat, den, places)
    } else {
        fixed(num as nat, den, places)
    }
}

fn write_quantity(q: &Quantity) -> (r: Vec<char>)
    requires
        q.well_formed(),
    ensures
        r@ == signed_fixed(q@.0, q@.1, 6),
{
    let mut size: Vec<char> = write_fixed(&q.size.num, &q.size.den, 6);
    if q.negative {
        let mut r: Vec<char> = Vec::new();
        r.push('-');
        r.append(&mut size);
        assert(r@ =~= signed_fixed(q@.0, q@.1, 6));
        r
    } else {
        size
    }
}

/// The line that reports a check.
pub open spec fn check_text(c: CheckView) -> Seq<char> {
    "  "@ + to_left(c.name, 24) + " got "@ + to_right(signed_fixed(c.got.0, c.got.1, 6), 12)
        + "  want "@ + to_right(signed_fixed(c.want.0, c.want.1, 6), 12) + "  "@ + (if holds(c) {
        "ok"@
    } else {
        "FAIL"@
    }) + "\n"@
}

/// Decides a check and writes its line.
pub fn check(c: &Check) -> (r: (bool, String))
    requires
        c.well_formed(),
    ensures
        r.0 == holds(c@),
        r.1@ == check_text(c@),
{
    let a: Nat = c.got.size.num.times(&c.want.size.den);
    let b: Nat = c.want.size.num.times(&c.got.size.den);
    let gap: Nat = if c.got.negative != c.want.negative {
        a.plus(&b)
    } else if a.less(&b) {
        b.minus(&a)
    } else {
        a.minus(&b)
    };
    let bound: Nat = c.got.size.den.times(&c.want.size.den);
    let near: Nat = gap.times(&c.tolerance.size.den);
    let far: Nat = c.tolerance.size.num.times(&bound);
    let ok: bool = !c.tolerance.negative && !far.less(&near);
    proof {
        let x = c.got.size.num@ as int;
        let d = c.want.size.den@ as int;
        let y = c.want.size.num@ as int;
        let e = c.got.size.den@ as int;
        let t = c.tolerance.size.num@ as int;
        let k = bound@ as int;
        assert((-x) * d == -(x * d)) by (nonlinear_arith);
        assert((-y) * e == -(y * e)) by (nonlinear_arith);
        assert(distance(c@.got.0 * c@.want.1, c@.want.0 * c@.got.1) == gap@);
        assert(k > 0) by (nonlinear_arith)
            requires
                k == e * d,
                e > 0,
                d > 0,
        ;
        if c.tolerance.negative {
            assert((-t) * k < 0) by (nonlinear_arith)
                requires
                    t > 0,
                    k > 0,
            ;
            assert(near@ >= 0);
        }
    }
    let mut r: String = String::new();
    r.append("  ");
    append_chars(&mut r, &left(to_chars(c.name.as_str()), 24));
    r.append(" got ");
    append_chars(&mut r, &right(write_quantity(&c.got), 12));
    r.append("  want ");
    append_chars(&mut r, &right(write_quantity(&c.want), 12));
    r.append("  ");
    if ok {
        r.append("ok");
    } else {
        r.append("FAIL");
    }
    r.append("\n");
    (ok, r)
}

// ---------------------------------------------------------------------------
// Sweeps with a known answer
// ---------------------------------------------------------------------------

/// How many compressions SHA-256 performs on a message of `l` bytes: the message,
/// one byte that ends it and eight that hold its length, in blocks of 64 bytes.
pub open spec fn sha256_blocks(l: nat) -> nat {
    (l + 9 + 63) / 64
}

/// Lengths from 1 to 1024, each as likely as any other.
pub open spec fn sha256_sweep() -> Seq<(u64, nat)> {
    Seq::new(1024, |i: int| (sha256_blocks((i + 1) as nat) as u64, 1nat))
}

/// A hundred secrets with the same cost.
pub open spec fn constant_sweep() -> Seq<(u64, nat)> {
    Seq::new(100, |i: int| (42u64, 1nat))
}

/// Secrets with a cost of their own each.
pub open spec fn bijective_sweep() -> Seq<(u64, nat)> {
    Seq::new(64, |i: int| (i as u64, 1nat))
}

/// Pairs of secrets with the same cost.
pub open spec fn paired_sweep() -> Seq<(u64, nat)> {
    Seq::new(8, |i: int| ((i / 2) as u64, 1nat))
}

/// Two secrets of unequal weight.
pub open spec fn weighted_sweep() -> Seq<(u64, nat)> {
    seq![(1u64, 3nat), (2u64, 1nat)]
}

/// Four costs in a row.
pub open spec fn stepped_sweep() -> Seq<(u64, nat)> {
    seq![(0u64, 1nat), (1u64, 1nat), (2u64, 1nat), (3u64, 1nat)]
}

/// Three costs, the first of them shared by two secrets.
pub open spec fn shared_sweep() -> Seq<(u64, nat)> {
    seq![(10u64, 1nat), (10u64, 1nat), (20u64, 1nat), (30u64, 1nat)]
}

/// One likely secret and two unlikely ones.
pub open spec fn skewed_sweep() -> Seq<(u64, nat)> {
    seq![(1u64, 8nat), (2u64, 1nat), (3u64, 1nat)]
}

/// A class of two secrets and one of one secret.
pub open spec fn mixed_sweep() -> Seq<(u64, nat)> {
    seq![(7u64, 5nat), (7u64, 4nat), (9u64, 1nat)]
}

fn sample(cycles: u64, weight: u64) -> (r: Sample)
    ensures
        r.cycles == cycles,
        r.weight@ == weight,
{
    Sample { cycles, weight: Nat::from_u64(weight) }
}

pub proof fn lemma_unit_weights(rows: Seq<(u64, nat)>)
    requires
        forall|i: int| 0 <= i < rows.len() ==> (#[trigger] rows[i]).1 == 1,
    ensures
        total_weight(rows) == rows.len(),
    decreases rows.len(),
{
    if rows.len() > 0 {
        let t = rows.drop_last();
        assert forall|i: int| 0 <= i < t.len() implies (#[trigger] t[i]).1 == 1 by {
            assert(t[i] == rows[i]);
        }
        lemma_unit_weights(t);
        assert(rows[rows.len() - 1].1 == 1);
    }
}

fn make_sha256_sweep() -> (r: Vec<Sample>)
    ensures
        sample_rows(r@) == sha256_sweep(),
        total_weight(sample_rows(r@)) > 0,
{
    let mut r: Vec<Sample> = Vec::new();
    let mut l: u64 = 1;
    while l <= 1024
        invariant
            1 <= l <= 1025,
            r@.len() == l - 1,
            forall|i: int| #![trigger r@[i]]
                0 <= i < r@.len() ==> r@[i].cycles == sha256_blocks((i + 1) as nat)
                    && r@[i].weight@ == 1,
        decreases 1025 - l,
    {
        r.push(sample((l + 9 + 63) / 64, 1));
        l = l + 1;
    }
    assert(sample_rows(r@) =~= sha256_sweep());
    proof {
        lemma_unit_weights(sample_rows(r@));
    }
    r
}

fn make_constant_sweep() -> (r: Vec<Sample>)
    ensures
        sample_rows(r@) == constant_sweep(),
        total_weight(sample_rows(r@)) > 0,
{
    let mut r: Vec<Sample> = Vec::new();
    let mut i: u64 = 0;
    while i < 100
        invariant
            i <= 100,
            r@.len() == i,
            forall|j: int| #![trigger r@[j]]
                0 <= j < r@.len() ==> r@[j].cycles == 42 && r@[j].weight@ == 1,
        decreases 100 - i,
    {
        r.push(sample(42, 1));
        i = i + 1;
    }
    assert(sample_rows(r@) =~= constant_sweep());
    proof {
        lemma_unit_weights(sample_rows(r@));
    }
    r
}

fn make_bijective_sweep() -> (r: Vec<Sample>)
    ensures
        sample_rows(r@) == bijective_sweep(),
        total_weight(sample_rows(r@)) > 0,
{
    let mut r: Vec<Sample> = Vec::new();
    let mut i: u64 = 0;
    while i < 64
        invariant
            i <= 64,
            r@.len() == i,
            forall|j: int| #![trigger r@[j]]
                0 <= j < r@.len() ==> r@[j].cycles == j && r@[j].weight@ == 1,
        decreases 64 - i,
    {
        r.push(sample(i, 1));
        i = i + 1;
    }
    assert(sample_rows(r@) =~= bijective_sweep());
    proof {
        lemma_unit_weights(sample_rows(r@));
    }
    r
}

fn make_paired_sweep() -> (r: Vec<Sample>)
    ensures
        sample_rows(r@) == paired_sweep(),
        total_weight(sample_rows(r@)) > 0,
{
    let mut r: Vec<Sample> = Vec::new();
    let mut i: u64 = 0;
    while i < 8
        invariant
            i <= 8,
            r@.len() == i,
            forall|j: int| #![trigger r@[j]]
                0 <= j < r@.len() ==> r@[j].cycles == j / 2 && r@[j].weight@ == 1,
        decreases 8 - i,
    {
        r.push(sample(i / 2, 1));
        i = i + 1;
    }
    assert(sample_rows(r@) =~= paired_sweep());
    proof {
        lemma_unit_weights(sample_rows(r@));
    }
    r
}

/// The leakage of a sweep.
fn measure(rows: &Vec<Sample>) -> (l: Leakage)
    requires
        total_weight(sample_rows(rows@)) > 0,
    ensures
        l@ == leakage_of(partition_of(sample_rows(rows@))),
{
    let p: Partition = build_partition(rows);
    compute_leakage(&p)
}

// ---------------------------------------------------------------------------
// The checks
// ---------------------------------------------------------------------------

/// What one is divided by to give a tolerance.
pub const NEAR: u64 = 1_000_000_000;

/// What one is divided by to give a narrower tolerance.
pub const NEARER: u64 = 1_000_000_000_000;

/// A check of a ratio.
pub open spec fn ratio_check(
    name: Seq<char>,
    got: (nat, nat),
    want: (nat, nat),
    part: u64,
) -> CheckView {
    CheckView {
        name,
        got: (got.0 as int, got.1),
        want: (want.0 as int, want.1),
        tolerance: (1, part as nat),
    }
}

/// A check of a quantity in bits.
pub open spec fn bits_check(
    name: Seq<char>,
    got: int,
    want: (nat, nat),
    part: u64,
) -> CheckView {
    ratio_check(name, (got as nat, LOG_ONE as nat), want, part)
}

/// The logarithm of the ratio of two naturals.
pub open spec fn log_ratio(a: nat, b: nat) -> (nat, nat) {
    ((lg(a) - lg(b)) as nat, LOG_ONE as nat)
}

/// The entropy of the number of blocks: the classes hold 55, 15 times 64, and 9 lengths.
pub open spec fn sha256_shannon() -> (nat, nat) {
    (
        (xlg(1024) - (xlg(55) + 15 * xlg(64) + xlg(9))) as nat,
        1024 * LOG_ONE as nat,
    )
}

/// The entropy of a secret that is three times as likely as the other one.
pub open spec fn weighted_entropy() -> (nat, nat) {
    ((xlg(4) - xlg(3)) as nat, 4 * LOG_ONE as nat)
}

/// The checks on single observations.
pub open spec fn leakage_checks() -> Seq<CheckView> {
    let l1 = leakage_of(partition_of(sha256_sweep()));
    let l2 = leakage_of(partition_of(constant_sweep()));
    let l3 = leakage_of(partition_of(bijective_sweep()));
    let l4 = leakage_of(partition_of(paired_sweep()));
    let l5 = leakage_of(partition_of(weighted_sweep()));
    seq![
        ratio_check("sha256 classes"@, (l1.num_classes, 1), (17, 1), NEAR),
        bits_check("sha256 min-entropy"@, l1.min_entropy_bits, log_ratio(17, 1), NEAR),
        bits_check("sha256 Shannon"@, l1.shannon_bits, sha256_shannon(), NEAR),
        bits_check("constant Shannon"@, l2.shannon_bits, (0, 1), NEARER),
        bits_check("constant min-entropy"@, l2.min_entropy_bits, (0, 1), NEARER),
        bits_check("bijective Shannon"@, l3.shannon_bits, (6, 1), NEARER),
        bits_check("bijective min-entropy"@, l3.min_entropy_bits, (6, 1), NEARER),
        bits_check("bijective residual"@, l3.residual_bits, (0, 1), NEARER),
        bits_check("uniform log2(k)"@, l4.min_entropy_bits, (2, 1), NEARER),
        bits_check("uniform residual"@, l4.residual_bits, (1, 1), NEARER),
        ratio_check("uniform guess p"@, l4.guess_probability, (1, 2), NEARER),
        bits_check("weighted H(S)"@, l5.secret_bits, weighted_entropy(), NEAR),
        bits_check("weighted Shannon"@, l5.shannon_bits, weighted_entropy(), NEAR),
        bits_check("weighted residual"@, l5.residual_bits, (0, 1), NEARER),
    ]
}

/// The least overhead of padding into `k` buckets.
pub open spec fn least_overhead(vs: Seq<(u64, nat)>, k: nat) -> nat {
    overhead(vs, choose|ends: Seq<int>| is_cheapest(vs, ends, vs.len() as int, k)) as nat
}

/// The checks on padding.
pub open spec fn padding_checks() -> Seq<CheckView> {
    let l = leakage_of(partition_of(shared_sweep()));
    let steps = stepped_sweep();
    let values = value_rows(partition_of(shared_sweep()));
    seq![
        ratio_check("bucket k=1 overhead"@, (least_overhead(steps, 1), 4), (3, 2), NEARER),
        ratio_check("bucket k=4 overhead"@, (least_overhead(steps, 4), 4), (0, 1), NEARER),
        ratio_check("bucket k=2 overhead"@, (least_overhead(steps, 2), 4), (1, 2), NEARER),
        bits_check("no-pad min-ent (report)"@, l.min_entropy_bits, log_ratio(3, 1), NEARER),
        ratio_check("no-pad overhead is zero"@, (least_overhead(values, 3), 1), (0, 1), NEARER),
    ]
}

/// The checks on weighted secrets and on batches of them.
///
/// The last one is for two items of `skewed_sweep`: over the nine pairs, the
/// largest products of weights at the five sums are 64, 8, 8, 1 and 1.
pub open spec fn batch_checks() -> Seq<CheckView> {
    let a = skewed_sweep();
    let b = mixed_sweep();
    let la = leakage_of(partition_of(a));
    let lb = leakage_of(partition_of(b));
    seq![
        bits_check("weighted min-ent"@, la.min_entropy_bits, log_ratio(5, 4), NEARER),
        bits_check("scale n=1 min-ent"@, batch_min_entropy(a, 1), log_ratio(5, 4), NEARER),
        bits_check("multi-secret class min-ent"@, lb.min_entropy_bits, log_ratio(6, 5), NEARER),
        bits_check("scale n=1 multi-secret"@, batch_min_entropy(b, 1), log_ratio(6, 5), NEARER),
        bits_check(
            "scale n=2 vs brute force"@,
            batch_min_entropy(a, 2),
            log_ratio(64 + 8 + 8 + 1 + 1, 64),
            NEARER,
        ),
    ]
}

/// All checks.
pub open spec fn self_checks() -> Seq<CheckView> {
    leakage_checks() + padding_checks() + batch_checks()
}

/// Whether all checks of a sequence can be decided.
pub open spec fn all_well_formed(v: Seq<Check>) -> bool {
    forall|i: int| 0 <= i < v.len() ==> (#[trigger] v[i]).well_formed()
}

/// The contents of a sequence of checks.
pub open spec fn checks_of(v: Seq<Check>) -> Seq<CheckView> {
    v.map_values(|c: Check| c@)
}

fn ratio(num: u64, den: u64) -> (r: Ratio)
    ensures
        r@ == (num as nat, den as nat),
{
    Ratio { num: Nat::from_u64(num), den: Nat::from_u64(den) }
}

fn log_of_ratio(a: u64, b: u64) -> (r: Ratio)
    requires
        a >= b >= 1,
    ensures
        r@ == log_ratio(a as nat, b as nat),
{
    let x: u128 = log2_fixed(&Nat::from_u64(a));
    let y: u128 = log2_fixed(&Nat::from_u64(b));
    proof {
        lemma_lg_monotone(b as nat, a as nat);
    }
    Ratio { num: Nat::from_u128(x - y), den: Nat::from_u64(LOG_ONE) }
}

fn check_of_bits(name: &str, got: u128, want: Ratio, part: u64) -> (r: Check)
    requires
        want@.1 > 0,
        part > 0,
    ensures
        r@ == bits_check(name@, got as int, want@, part),
        r.well_formed(),
{
    let bits: Ratio = Ratio { num: Nat::from_u128(got), den: Nat::from_u64(LOG_ONE) };
    check_of_ratio(name, bits, want, part)
}

fn check_of_ratio(name: &str, got: Ratio, want: Ratio, part: u64) -> (r: Check)
    requires
        got@.1 > 0,
        want@.1 > 0,
        part > 0,
    ensures
        r@ == ratio_check(name@, got@, want@, part),
        r.well_formed(),
{
    Check {
        name: name.to_owned(),
        got: Quantity { negative: false, size: got },
        want: Quantity { negative: false, size: want },
        tolerance: Quantity { negative: false, size: ratio(1, part) },
    }
}

/// Computes `xlg`.
fn times_log(w: u64) -> (r: Nat)
    requires
        w > 0,
    ensures
        r@ == xlg(w as nat),
{
    let n: Nat = Nat::from_u64(w);
    n.times(&Nat::from_u128(log2_fixed(&n)))
}

fn make_sha256_shannon() -> (r: Ratio)
    ensures
        r@ == sha256_shannon(),
        r@.1 > 0,
{
    let whole: Nat = times_log(1024);
    let fifteen: Nat = Nat::from_u64(15);
    let parts: Nat = times_log(55).plus(&fifteen.times(&times_log(64))).plus(&times_log(9));
    proof {
        lemma_lg_monotone(55, 1024);
        lemma_lg_monotone(64, 1024);
        lemma_lg_monotone(9, 1024);
        assert(xlg(1024) == 1024 * lg(1024));
        assert(xlg(55) == 55 * lg(55));
        assert(xlg(64) == 64 * lg(64));
        assert(xlg(9) == 9 * lg(9));
    }
    Ratio {
        num: whole.minus(&parts),
        den: Nat::from_u64(1024).times(&Nat::from_u64(LOG_ONE)),
    }
}

fn make_weighted_entropy() -> (r: Ratio)
    ensures
        r@ == weighted_entropy(),
        r@.1 > 0,
{
    let whole: Nat = times_log(4);
    let part: Nat = times_log(3);
    proof {
        lemma_lg_monotone(3, 4);
        assert(xlg(4) == 4 * lg(4));
        assert(xlg(3) == 3 * lg(3));
    }
    Ratio { num: whole.minus(&part), den: Nat::from_u64(4).times(&Nat::from_u64(LOG_ONE)) }
}

/// Runs the checks on single observations.
fn run_leakage_checks() -> (v: Vec<Check>)
    ensures
        checks_of(v@) == leakage_checks(),
        all_well_formed(v@),
{
    let mut v: Vec<Check> = Vec::new();
    let l: Leakage = measure(&make_sha256_sweep());
    let classes: Ratio = Ratio {
        num: Nat::from_u64(l.num_classes as u64),
        den: Nat::from_u64(1),
    };
    v.push(check_of_ratio("sha256 classes", classes, ratio(17, 1), NEAR));
    v.push(check_of_bits("sha256 min-entropy", l.min_entropy_bits, log_of_ratio(17, 1), NEAR));
    v.push(check_of_bits("sha256 Shannon", l.shannon_bits, make_sha256_shannon(), NEAR));

    let l: Leakage = measure(&make_constant_sweep());
    v.push(check_of_bits("constant Shannon", l.shannon_bits, ratio(0, 1), NEARER));
    v.push(check_of_bits("constant min-entropy", l.min_entropy_bits, ratio(0, 1), NEARER));

    let l: Leakage = measure(&make_bijective_sweep());
    v.push(check_of_bits("bijective Shannon", l.shannon_bits, ratio(6, 1), NEARER));
    v.push(check_of_bits("bijective min-entropy", l.min_entropy_bits, ratio(6, 1), NEARER));
    v.push(check_of_bits("bijective residual", l.residual_bits, ratio(0, 1), NEARER));

    let l: Leakage = measure(&make_paired_sweep());
    v.push(check_of_bits("uniform log2(k)", l.min_entropy_bits, ratio(2, 1), NEARER));
    v.push(check_of_bits("uniform residual", l.residual_bits, ratio(1, 1), NEARER));
    v.push(check_of_ratio("uniform guess p", l.guess_probability, ratio(1, 2), NEARER));

    let mut rows: Vec<Sample> = Vec::new();
    rows.push(sample(1, 3));
    rows.push(sample(2, 1));
    proof {
        assert(sample_rows(rows@) =~= weighted_sweep());
        reveal_with_fuel(total_weight, 3);
    }
    let l: Leakage = measure(&rows);
    v.push(check_of_bits("weighted H(S)", l.secret_bits, make_weighted_entropy(), NEAR));
    v.push(check_of_bits("weighted Shannon", l.shannon_bits, make_weighted_entropy(), NEAR));
    v.push(check_of_bits("weighted residual", l.residual_bits, ratio(0, 1), NEARER));
    assert(checks_of(v@) =~= leakage_checks());
    v
}

/// All cheapest bucketings have the same overhead.
pub proof fn lemma_least_overhead(vs: Seq<(u64, nat)>, ends: Seq<int>, k: nat)
    requires
        is_cheapest(vs, ends, vs.len() as int, k),
        overhead(vs, ends) >= 0,
    ensures
        least_overhead(vs, k) == overhead(vs, ends),
{
    let n = vs.len() as int;
    let other = choose|e: Seq<int>| is_cheapest(vs, e, n, k);
    assert(is_cheapest(vs, other, n, k));
    assert(is_bucketing(ends, n, k));
    assert(is_bucketing(other, n, k));
}

/// Runs the checks on padding.
fn run_padding_checks() -> (v: Vec<Check>)
    ensures
        checks_of(v@) == padding_checks(),
        all_well_formed(v@),
{
    let mut v: Vec<Check> = Vec::new();
    let mut values: Vec<Sample> = Vec::new();
    values.push(sample(0, 1));
    values.push(sample(1, 1));
    values.push(sample(2, 1));
    values.push(sample(3, 1));
    let ghost vs = stepped_sweep();
    assert(sample_rows(values@) =~= vs);
    let found: Vec<Bucketing> = optimal_buckets(&values, 4);
    proof {
        assert(found@[0].total_overhead@ == overhead(vs, ends_of(found@[0].bounds@)));
        lemma_least_overhead(vs, ends_of(found@[0].bounds@), 1);
        assert(found@[1].total_overhead@ == overhead(vs, ends_of(found@[1].bounds@)));
        lemma_least_overhead(vs, ends_of(found@[1].bounds@), 2);
        assert(found@[3].total_overhead@ == overhead(vs, ends_of(found@[3].bounds@)));
        lemma_least_overhead(vs, ends_of(found@[3].bounds@), 4);
    }
    let one: Ratio = Ratio { num: found[0].total_overhead.copy(), den: Nat::from_u64(4) };
    let two: Ratio = Ratio { num: found[1].total_overhead.copy(), den: Nat::from_u64(4) };
    let four: Ratio = Ratio { num: found[3].total_overhead.copy(), den: Nat::from_u64(4) };
    v.push(check_of_ratio("bucket k=1 overhead", one, ratio(3, 2), NEARER));
    v.push(check_of_ratio("bucket k=4 overhead", four, ratio(0, 1), NEARER));
    v.push(check_of_ratio("bucket k=2 overhead", two, ratio(1, 2), NEARER));

    let mut rows: Vec<Sample> = Vec::new();
    rows.push(sample(10, 1));
    rows.push(sample(10, 1));
    rows.push(sample(20, 1));
    rows.push(sample(30, 1));
    proof {
        assert(sample_rows(rows@) =~= shared_sweep());
        lemma_unit_weights(sample_rows(rows@));
        lemma_shared_values();
        lemma_value_rows_sorted(shared_sweep());
    }
    let p: Partition = build_partition(&rows);
    let l: Leakage = compute_leakage(&p);
    v.push(
        check_of_bits("no-pad min-ent (report)", l.min_entropy_bits, log_of_ratio(3, 1), NEARER),
    );
    let values: Vec<Sample> = class_samples(&p);
    let ghost vs = value_rows(partition_of(shared_sweep()));
    assert(sample_rows(values@).len() == values@.len());
    let found: Vec<Bucketing> = optimal_buckets(&values, 3);
    proof {
        assert(found@[2].total_overhead@ == overhead(vs, ends_of(found@[2].bounds@)));
        lemma_least_overhead(vs, ends_of(found@[2].bounds@), 3);
    }
    let none: Ratio = Ratio { num: found[2].total_overhead.copy(), den: Nat::from_u64(1) };
    v.push(check_of_ratio("no-pad overhead is zero", none, ratio(0, 1), NEARER));
    assert(checks_of(v@) =~= padding_checks());
    v
}

pub proof fn lemma_shared_values()
    ensures
        cycle_values(shared_sweep()) == seq![10u64, 20u64, 30u64],
{
    let rows = shared_sweep();
    let r3 = rows.drop_last();
    let r2 = r3.drop_last();
    let r1 = r2.drop_last();
    let r0 = r1.drop_last();
    assert(cycle_values(r0) =~= Seq::empty());
    assert(cycle_values(r1) =~= seq![10u64]);
    assert(cycle_values(r2) =~= seq![10u64]);
    assert(cycle_values(r3) =~= seq![10u64, 20u64]);
    assert(cycle_values(rows) =~= seq![10u64, 20u64, 30u64]);
}

proof fn lemma_two_costs(rows: Seq<(u64, nat)>)
    requires
        rows.len() == 3,
        rows[0].0 < rows[2].0,
    ensures
        cycle_values(rows).len() >= 2,
{
    lemma_cycle_values(rows);
    let vals = cycle_values(rows);
    assert(occurs(rows, rows[0].0));
    assert(occurs(rows, rows[2].0));
    let i = vals.index_of(rows[0].0);
    let j = vals.index_of(rows[2].0);
    assert(vals[i] < vals[j]);
}

/// The min-entropy leakage of batches of one and of two items.
fn measure_batches(rows: &Vec<Sample>) -> (r: (u128, u128))
    requires
        total_weight(sample_rows(rows@)) > 0,
        cycle_values(sample_rows(rows@)).len() >= 2,
    ensures
        r.0 == batch_min_entropy(sample_rows(rows@), 1),
        r.1 == batch_min_entropy(sample_rows(rows@), 2),
{
    match scale_table(rows, 2) {
        Some(t) => {
            proof {
                reveal_with_fuel(shown_sizes, 3);
                assert(shown_sizes(2, 2) =~= seq![1nat, 2nat]);
                let sizes = t@.map_values(|x: ScaleRow| x.n as nat);
                assert(sizes[0] == t@[0].n);
                assert(sizes[1] == t@[1].n);
            }
            (t[0].min_entropy_bits, t[1].min_entropy_bits)
        },
        None => (0, 0),
    }
}

/// Runs the checks on weighted secrets and on batches of them.
fn run_batch_checks() -> (v: Vec<Check>)
    ensures
        checks_of(v@) == batch_checks(),
        all_well_formed(v@),
{
    let mut v: Vec<Check> = Vec::new();
    let mut rows: Vec<Sample> = Vec::new();
    rows.push(sample(1, 8));
    rows.push(sample(2, 1));
    rows.push(sample(3, 1));
    proof {
        assert(sample_rows(rows@) =~= skewed_sweep());
        reveal_with_fuel(total_weight, 4);
        lemma_two_costs(skewed_sweep());
    }
    let la: Leakage = measure(&rows);
    let (one, two): (u128, u128) = measure_batches(&rows);
    v.push(check_of_bits("weighted min-ent", la.min_entropy_bits, log_of_ratio(5, 4), NEARER));
    v.push(check_of_bits("scale n=1 min-ent", one, log_of_ratio(5, 4), NEARER));

    let mut rows: Vec<Sample> = Vec::new();
    rows.push(sample(7, 5));
    rows.push(sample(7, 4));
    rows.push(sample(9, 1));
    proof {
        assert(sample_rows(rows@) =~= mixed_sweep());
        lemma_two_costs(mixed_sweep());
    }
    let lb: Leakage = measure(&rows);
    let (mixed, _): (u128, u128) = measure_batches(&rows);
    v.push(
        check_of_bits(
            "multi-secret class min-ent",
            lb.min_entropy_bits,
            log_of_ratio(6, 5),
            NEARER,
        ),
    );
    v.push(check_of_bits("scale n=1 multi-secret", mixed, log_of_ratio(6, 5), NEARER));
    v.push(check_of_bits("scale n=2 vs brute force", two, log_of_ratio(82, 64), NEARER));
    assert(checks_of(v@) =~= batch_checks());
    v
}

// ---------------------------------------------------------------------------
// The report
// ---------------------------------------------------------------------------

/// The lines of a sequence of checks.
pub open spec fn lines_text(cs: Seq<CheckView>) -> Seq<char>
    decreases cs.len(),
{
    if cs.len() == 0 {
        Seq::empty()
    } else {
        lines_text(cs.drop_last()) + check_text(cs.last())
    }
}

/// How many checks fail.
pub open spec fn failures(cs: Seq<CheckView>) -> nat
    decreases cs.len(),
{
    if cs.len() == 0 {
        0
    } else {
        failures(cs.drop_last()) + (if holds(cs.last()) {
            0nat
        } else {
            1nat
        })
    }
}

/// The report on a sequence of checks.
pub open spec fn checks_text(cs: Seq<CheckView>) -> Seq<char> {
    lines_text(cs) + "\n"@ + (if failures(cs) == 0 {
        "all self-tests passed\n"@
    } else {
        decimal(failures(cs)) + " self-test(s) FAILED\n"@
    })
}

/// Decides checks and writes the report on them, with the number that fail.
pub fn report_checks(checks: &Vec<Check>) -> (r: (String, usize))
    requires
        all_well_formed(checks@),
    ensures
        r.0@ == checks_text(checks_of(checks@)),
        r.1 == failures(checks_of(checks@)),
{
    let ghost all = checks_of(checks@);
    let mut text: String = String::new();
    let mut failed: usize = 0;
    let mut i: usize = 0;
    assert(all.take(0) =~= Seq::empty());
    while i < checks.len()
        invariant
            all == checks_of(checks@),
            all_well_formed(checks@),
            i <= checks@.len(),
            failed <= i,
            text@ == lines_text(all.take(i as int)),
            failed == failures(all.take(i as int)),
        decreases checks.len() - i,
    {
        proof {
            assert(all[i as int] == checks@[i as int]@);
            assert(checks@[i as int].well_formed());
            assert(all.take(i + 1).drop_last() =~= all.take(i as int));
            assert(all.take(i + 1).last() == all[i as int]);
        }
        let (ok, line): (bool, String) = check(&checks[i]);
        text.append(line.as_str());
        if !ok {
            failed = failed + 1;
        }
        i = i + 1;
    }
    assert(all.take(i as int) =~= all);
    text.append("\n");
    if failed == 0 {
        text.append("all self-tests passed\n");
    } else {
        append_chars(&mut text, &write_count(failed));
        text.append(" self-test(s) FAILED\n");
    }
    assert(text@ =~= checks_text(all));
    (text, failed)
}

/// Runs all checks; gives the report on them and the number that fail, which is none.
pub fn cmd_selftest() -> (r: (String, usize))
    ensures
        r.0@ == checks_text(self_checks()),
        r.1 == failures(self_checks()),
        r.1 == 0,
{
    let mut all: Vec<Check> = run_leakage_checks();
    let mut more: Vec<Check> = run_padding_checks();
    let mut rest: Vec<Check> = run_batch_checks();
    let ghost a = all@;
    let ghost b = more@;
    let ghost c = rest@;
    all.append(&mut more);
    all.append(&mut rest);
    proof {
        assert(checks_of(all@) =~= checks_of(a) + checks_of(b) + checks_of(c));
        assert(all_well_formed(all@));
        law_self_checks_hold();
    }
    report_checks(&all)
}

} // verus!
