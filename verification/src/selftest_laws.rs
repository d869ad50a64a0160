//! All checks of the self-test hold.

use crate::batch_laws::{law_batch_of_one, lemma_one_item};
use crate::binary_log::{
    lemma_lg_monotone, lemma_lg_one, lemma_lg_pow2, lemma_lg_shift, lg, LOG_ONE,
};
use crate::buckets::{
    bucket_cost, is_bucketing, is_cheapest, lemma_cheapest_exists, overhead, pad_to,
};
use crate::frontier::value_rows;
use crate::laws::{law_bijective_observable, law_constant_observable, law_uniform_prior, uniform};
use crate::leakage::{leakage_of, log_sum, sum};
use crate::padding_laws::{law_no_padding, lemma_full_bucketing};
use crate::partition::{
    class_max, class_weight, cycle_values, increasing, larger, lemma_cycle_values,
    lemma_increasing_unique, max_weight, occurs, partition_of, total_weight, weight_logs, xlg,
};
use crate::scale::{
    batch_min_entropy, batch_peak, lemma_batch_support, lemma_batch_unfold, lowest, row_peak,
    spread, upto,
};
use crate::selftest::{
    batch_checks, bijective_sweep, constant_sweep, distance, failures, holds, leakage_checks,
    least_overhead, lemma_least_overhead, lemma_shared_values, lemma_unit_weights, log_ratio,
    mixed_sweep, padding_checks, paired_sweep, ratio_check, self_checks, sha256_blocks,
    sha256_shannon, sha256_sweep, shared_sweep, skewed_sweep, stepped_sweep, weighted_entropy,
    weighted_sweep, CheckView, NEAR, NEARER,
};
use vstd::arithmetic::power::{lemma_pow1, pow};
use vstd::arithmetic::power2::{lemma2_to64, pow2};
use vstd::prelude::*;

verus! {

/// Equal ratios pass any check.
proof fn lemma_equal_ratios(name: Seq<char>, a: nat, b: nat, c: nat, d: nat, part: u64)
    requires
        a * d == c * b,
    ensures
        holds(ratio_check(name, (a, b), (c, d), part)),
{
    let check = ratio_check(name, (a, b), (c, d), part);
    let p = part as nat;
    let k = b * d;
    assert(distance(check.got.0 * check.want.1, check.want.0 * check.got.1) == 0);
    assert(0 * p == 0) by (nonlinear_arith);
    assert(1 * k == k) by (nonlinear_arith);
}

/// A number of bits that is rounded down passes a check against what it was rounded from.
proof fn lemma_rounded_ratio(name: Seq<char>, m: nat, k: nat, part: u64)
    requires
        k > 0,
        part <= LOG_ONE,
    ensures
        holds(
            ratio_check(name, ((m / k), LOG_ONE as nat), (m, k * LOG_ONE as nat), part),
        ),
{
    let one = LOG_ONE as int;
    let q = (m / k) as int;
    let mm = m as int;
    let kk = k as int;
    let p = part as int;
    vstd::arithmetic::div_mod::lemma_fundamental_div_mod(mm, kk);
    assert(kk * q <= mm < kk * q + kk);
    assert(q * (kk * one) <= mm * one) by (nonlinear_arith)
        requires
            kk * q <= mm,
            one > 0,
    ;
    assert(mm * one - q * (kk * one) <= kk * one) by (nonlinear_arith)
        requires
            mm < kk * q + kk,
            one > 0,
    ;
    let gap = mm * one - q * (kk * one);
    assert(gap * p <= (kk * one) * one) by (nonlinear_arith)
        requires
            0 <= gap <= kk * one,
            0 <= p <= one,
    ;
    assert(1 * (one * (kk * one)) == (kk * one) * one) by (nonlinear_arith);
}

proof fn lemma_known_logs()
    ensures
        lg(1) == 0,
        lg(2) == LOG_ONE,
        lg(4) == 2 * LOG_ONE,
        lg(8) == 3 * LOG_ONE,
        lg(64) == 6 * LOG_ONE,
        xlg(1) == 0,
        pow2(0) == 1,
{
    lemma2_to64();
    lemma_lg_one();
    lemma_lg_pow2(1);
    lemma_lg_pow2(2);
    lemma_lg_pow2(3);
    lemma_lg_pow2(6);
    assert(xlg(1) == 1 * lg(1));
}

proof fn lemma_unit_logs(rows: Seq<(u64, nat)>)
    requires
        uniform(rows, 1),
    ensures
        weight_logs(rows) == 0,
    decreases rows.len(),
{
    if rows.len() > 0 {
        let t = rows.drop_last();
        assert forall|i: int| 0 <= i < t.len() implies (#[trigger] t[i]).1 == 1 by {
            assert(t[i] == rows[i]);
        }
        lemma_unit_logs(t);
        lemma_known_logs();
        assert(rows[rows.len() - 1].1 == 1);
    }
}

// ---------------------------------------------------------------------------
// Block counts
// ---------------------------------------------------------------------------

/// How many of the first `n` lengths take `b` blocks.
spec fn lengths_with(n: int, b: int) -> int {
    let last = if n < 64 * b - 9 {
        n
    } else {
        64 * b - 9
    };
    let before = if 64 * b - 73 < 0 {
        0
    } else {
        64 * b - 73
    };
    if last < before {
        0
    } else {
        last - before
    }
}

proof fn lemma_sha256_prefix(n: int, b: u64)
    requires
        0 <= n <= 1024,
        1 <= b <= 17,
    ensures
        class_weight(sha256_sweep().take(n), b) == lengths_with(n, b as int),
    decreases n,
{
    let s = sha256_sweep().take(n);
    if n > 0 {
        lemma_sha256_prefix(n - 1, b);
        assert(s.drop_last() =~= sha256_sweep().take(n - 1));
        assert(s.last() == (sha256_blocks(n as nat) as u64, 1nat));
    }
}

spec fn sha256_values() -> Seq<u64> {
    Seq::new(17, |i: int| (i + 1) as u64)
}

proof fn lemma_sha256_values()
    ensures
        cycle_values(sha256_sweep()) == sha256_values(),
{
    let rows = sha256_sweep();
    let vals = cycle_values(rows);
    let want = sha256_values();
    lemma_cycle_values(rows);
    assert forall|c: u64| #[trigger] vals.contains(c) <==> want.contains(c) by {
        if vals.contains(c) {
            assert(occurs(rows, c));
            let i = choose|i: int| 0 <= i < rows.len() && (#[trigger] rows[i]).0 == c;
            assert(c == sha256_blocks((i + 1) as nat));
            assert(want[c - 1] == c);
        }
        if want.contains(c) {
            let k = want.index_of(c);
            assert(want[k] == c);
            let i = if c == 1 {
                0
            } else {
                64 * c - 73
            };
            assert(rows[i].0 == c);
            assert(occurs(rows, c));
        }
    }
    lemma_increasing_unique(vals, want);
}

/// The weights of the first classes.
proof fn lemma_sha256_logs(w: Seq<nat>, k: int)
    requires
        1 <= k <= 16,
        w.len() == 17,
        w[0] == 55,
        forall|i: int| 1 <= i < 16 ==> #[trigger] w[i] == 64,
    ensures
        log_sum(w.take(k)) == xlg(55) + (k - 1) * xlg(64),
    decreases k,
{
    let s = w.take(k);
    let x = xlg(64);
    if k == 1 {
        assert(s.drop_last() =~= Seq::empty());
        assert(log_sum(Seq::empty()) == 0);
        assert(0 * x == 0) by (nonlinear_arith);
    } else {
        lemma_sha256_logs(w, k - 1);
        assert(s.drop_last() =~= w.take(k - 1));
        assert(s.last() == w[k - 1]);
        assert((k - 1) * x == (k - 2) * x + x) by (nonlinear_arith);
    }
}

proof fn lemma_sha256_leakage()
    ensures
        ({
            let l = leakage_of(partition_of(sha256_sweep()));
            &&& l.num_classes == 17
            &&& l.min_entropy_bits == lg(17)
            &&& sha256_shannon().1 == 1024 * LOG_ONE
            &&& l.shannon_bits == sha256_shannon().0 / 1024
        }),
{
    let rows = sha256_sweep();
    let p = partition_of(rows);
    lemma_sha256_values();
    lemma_known_logs();
    assert forall|i: int| 0 <= i < rows.len() implies (#[trigger] rows[i]).1 == 1 by {}
    law_uniform_prior(rows, 1);
    lemma_unit_weights(rows);
    assert(rows.take(1024) =~= rows);
    assert forall|i: int| 0 <= i < 17 implies #[trigger] p.weights[i] == lengths_with(
        1024,
        i + 1,
    ) by {
        lemma_sha256_prefix(1024, p.values[i]);
    }
    let w = p.weights;
    assert(w[0] == 55);
    assert(w[16] == 9);
    assert forall|i: int| 1 <= i < 16 implies #[trigger] w[i] == 64 by {
        assert(w[i] == lengths_with(1024, i + 1));
    }
    lemma_sha256_logs(w, 16);
    assert(w.drop_last() =~= w.take(16));
    assert(log_sum(w) == xlg(55) + 15 * xlg(64) + xlg(9));
    lemma_lg_monotone(55, 1024);
    lemma_lg_monotone(64, 1024);
    lemma_lg_monotone(9, 1024);
    assert(xlg(1024) == 1024 * lg(1024));
    assert(xlg(55) == 55 * lg(55));
    assert(xlg(64) == 64 * lg(64));
    assert(xlg(9) == 9 * lg(9));
}

// ---------------------------------------------------------------------------
// Other sweeps
// ---------------------------------------------------------------------------

proof fn lemma_constant_leakage()
    ensures
        leakage_of(partition_of(constant_sweep())).shannon_bits == 0,
        leakage_of(partition_of(constant_sweep())).min_entropy_bits == 0,
{
    let rows = constant_sweep();
    let vals = cycle_values(rows);
    let want = seq![42u64];
    lemma_cycle_values(rows);
    assert(increasing(want));
    assert forall|c: u64| #[trigger] vals.contains(c) <==> want.contains(c) by {
        if vals.contains(c) {
            assert(occurs(rows, c));
            let i = choose|i: int| 0 <= i < rows.len() && (#[trigger] rows[i]).0 == c;
            assert(want[0] == c);
        }
        if want.contains(c) {
            assert(rows[0].0 == c);
            assert(occurs(rows, c));
        }
    }
    lemma_increasing_unique(vals, want);
    lemma_unit_weights(rows);
    law_constant_observable(rows);
}

proof fn lemma_bijective_leakage()
    ensures
        ({
            let l = leakage_of(partition_of(bijective_sweep()));
            &&& l.shannon_bits == 6 * LOG_ONE
            &&& l.min_entropy_bits == 6 * LOG_ONE
            &&& l.residual_bits == 0
        }),
{
    let rows = bijective_sweep();
    assert forall|i: int, j: int| 0 <= i < j < rows.len() implies (#[trigger] rows[i]).0 != (
    #[trigger] rows[j]).0 by {}
    assert forall|i: int| 0 <= i < rows.len() implies (#[trigger] rows[i]).1 == 1 by {}
    lemma_unit_weights(rows);
    lemma_unit_logs(rows);
    law_bijective_observable(rows);
    law_uniform_prior(rows, 1);
    lemma_known_logs();
    assert(xlg(64) == 64 * lg(64));
    vstd::arithmetic::div_mod::lemma_div_multiples_vanish(6 * LOG_ONE, 64);
}

proof fn lemma_paired_prefix(n: int, c: u64)
    requires
        0 <= n <= 8,
        c < 4,
    ensures
        class_weight(paired_sweep().take(n), c) == if n <= 2 * c {
            0
        } else if n >= 2 * c + 2 {
            2
        } else {
            n - 2 * c
        },
    decreases n,
{
    let s = paired_sweep().take(n);
    if n > 0 {
        lemma_paired_prefix(n - 1, c);
        assert(s.drop_last() =~= paired_sweep().take(n - 1));
        assert(s.last() == (((n - 1) / 2) as u64, 1nat));
    }
}

proof fn lemma_paired_leakage()
    ensures
        ({
            let l = leakage_of(partition_of(paired_sweep()));
            &&& l.min_entropy_bits == 2 * LOG_ONE
            &&& l.residual_bits == LOG_ONE
            &&& l.guess_probability == (4nat, 8nat)
        }),
{
    let rows = paired_sweep();
    let p = partition_of(rows);
    let vals = cycle_values(rows);
    let want = seq![0u64, 1u64, 2u64, 3u64];
    lemma_cycle_values(rows);
    assert(increasing(want));
    assert forall|c: u64| #[trigger] vals.contains(c) <==> want.contains(c) by {
        if vals.contains(c) {
            assert(occurs(rows, c));
            let i = choose|i: int| 0 <= i < rows.len() && (#[trigger] rows[i]).0 == c;
            assert(c == i / 2);
            assert(want[c as int] == c);
        }
        if want.contains(c) {
            let k = want.index_of(c);
            assert(want[k] == c);
            assert(rows[2 * c].0 == c);
            assert(occurs(rows, c));
        }
    }
    lemma_increasing_unique(vals, want);
    assert forall|i: int| 0 <= i < rows.len() implies (#[trigger] rows[i]).1 == 1 by {}
    lemma_unit_weights(rows);
    lemma_unit_logs(rows);
    law_uniform_prior(rows, 1);
    lemma_known_logs();
    assert(rows.take(8) =~= rows);
    lemma_paired_prefix(8, 0);
    lemma_paired_prefix(8, 1);
    lemma_paired_prefix(8, 2);
    lemma_paired_prefix(8, 3);
    let w = p.weights;
    assert(w =~= seq![2nat, 2nat, 2nat, 2nat]);
    reveal_with_fuel(log_sum, 5);
    assert(log_sum(w) == 4 * xlg(2));
    assert(xlg(2) == 2 * lg(2));
    assert(sum(p.maxes) == 4 * 1);
    vstd::arithmetic::div_mod::lemma_div_multiples_vanish(LOG_ONE as int, 8);
}

proof fn lemma_weighted_leakage()
    ensures
        ({
            let l = leakage_of(partition_of(weighted_sweep()));
            &&& weighted_entropy().1 == 4 * LOG_ONE
            &&& l.secret_bits == weighted_entropy().0 / 4
            &&& l.shannon_bits == weighted_entropy().0 / 4
            &&& l.residual_bits == 0
        }),
{
    let rows = weighted_sweep();
    lemma_known_logs();
    reveal_with_fuel(total_weight, 3);
    reveal_with_fuel(weight_logs, 3);
    assert(total_weight(rows) == 4);
    assert(weight_logs(rows) == xlg(3) + xlg(1));
    assert forall|i: int, j: int| 0 <= i < j < rows.len() implies (#[trigger] rows[i]).0 != (
    #[trigger] rows[j]).0 by {}
    law_bijective_observable(rows);
    lemma_lg_monotone(3, 4);
    assert(xlg(4) == 4 * lg(4));
    assert(xlg(3) == 3 * lg(3));
}

/// The checks on single observations hold.
proof fn lemma_leakage_checks_hold()
    ensures
        forall|i: int| 0 <= i < leakage_checks().len() ==> holds(#[trigger] leakage_checks()[i]),
{
    let one = LOG_ONE as nat;
    let l1 = leakage_of(partition_of(sha256_sweep()));
    let l5 = leakage_of(partition_of(weighted_sweep()));
    lemma_sha256_leakage();
    lemma_constant_leakage();
    lemma_bijective_leakage();
    lemma_paired_leakage();
    lemma_weighted_leakage();
    lemma_known_logs();
    lemma_equal_ratios("sha256 classes"@, 17, 1, 17, 1, NEAR);
    lemma_equal_ratios("sha256 min-entropy"@, lg(17), one, lg(17), one, NEAR);
    lemma_rounded_ratio("sha256 Shannon"@, sha256_shannon().0, 1024, NEAR);
    lemma_equal_ratios("constant Shannon"@, 0, one, 0, 1, NEARER);
    lemma_equal_ratios("constant min-entropy"@, 0, one, 0, 1, NEARER);
    lemma_equal_ratios("bijective Shannon"@, 6 * one, one, 6, 1, NEARER);
    lemma_equal_ratios("bijective min-entropy"@, 6 * one, one, 6, 1, NEARER);
    lemma_equal_ratios("bijective residual"@, 0, one, 0, 1, NEARER);
    lemma_equal_ratios("uniform log2(k)"@, 2 * one, one, 2, 1, NEARER);
    lemma_equal_ratios("uniform residual"@, one, one, 1, 1, NEARER);
    lemma_equal_ratios("uniform guess p"@, 4, 8, 1, 2, NEARER);
    lemma_rounded_ratio("weighted H(S)"@, weighted_entropy().0, 4, NEAR);
    lemma_rounded_ratio("weighted Shannon"@, weighted_entropy().0, 4, NEAR);
    lemma_equal_ratios("weighted residual"@, 0, one, 0, 1, NEARER);
    let c = leakage_checks();
    assert(holds(c[0]) && holds(c[1]) && holds(c[2]) && holds(c[3]) && holds(c[4]));
    assert(holds(c[5]) && holds(c[6]) && holds(c[7]) && holds(c[8]) && holds(c[9]));
    assert(holds(c[10]) && holds(c[11]) && holds(c[12]) && holds(c[13]));
}

// ---------------------------------------------------------------------------
// Padding
// ---------------------------------------------------------------------------

/// The overhead of padding costs in a row.
spec fn steps(i: int, e: int, c: int) -> int
    decreases e - i,
{
    if e <= i {
        0
    } else {
        steps(i, e - 1, c) + (c - (e - 1))
    }
}

proof fn lemma_stepped_cost(i: int, e: int, c: u64)
    requires
        0 <= i,
        e <= 4,
    ensures
        pad_to(stepped_sweep(), i, e, c) == steps(i, e, c as int),
    decreases e - i,
{
    let vs = stepped_sweep();
    if i < e {
        lemma_stepped_cost(i, e - 1, c);
        assert(vs[e - 1] == ((e - 1) as u64, 1nat));
        let w = vs[e - 1].1 as int;
        let d = c - vs[e - 1].0;
        assert(w * d == d) by (nonlinear_arith)
            requires
                w == 1,
        ;
    }
}

proof fn lemma_stepped_costs()
    ensures
        overhead(stepped_sweep(), seq![3int]) == 6,
        overhead(stepped_sweep(), seq![0int, 3int]) == 3,
        overhead(stepped_sweep(), seq![1int, 3int]) == 2,
        overhead(stepped_sweep(), seq![2int, 3int]) == 3,
        overhead(stepped_sweep(), seq![0int, 1int, 2int, 3int]) == 0,
{
    let vs = stepped_sweep();
    let none = Seq::<int>::empty();
    reveal_with_fuel(steps, 5);
    lemma_stepped_cost(0, 4, 3);
    assert(bucket_cost(vs, 0, 3) == 6);
    lemma_stepped_cost(0, 1, 0);
    assert(bucket_cost(vs, 0, 0) == 0);
    lemma_stepped_cost(1, 4, 3);
    assert(bucket_cost(vs, 1, 3) == 3);
    lemma_stepped_cost(0, 2, 1);
    assert(bucket_cost(vs, 0, 1) == 1);
    lemma_stepped_cost(2, 4, 3);
    assert(bucket_cost(vs, 2, 3) == 1);
    lemma_stepped_cost(0, 3, 2);
    assert(bucket_cost(vs, 0, 2) == 3);
    lemma_stepped_cost(3, 4, 3);
    assert(bucket_cost(vs, 3, 3) == 0);
    lemma_stepped_cost(1, 2, 1);
    assert(bucket_cost(vs, 1, 1) == 0);
    lemma_stepped_cost(2, 3, 2);
    assert(bucket_cost(vs, 2, 2) == 0);
    assert(overhead(vs, none) == 0);
    assert(seq![3int].drop_last() =~= none);
    assert(seq![0int].drop_last() =~= none);
    assert(seq![1int].drop_last() =~= none);
    assert(seq![2int].drop_last() =~= none);
    assert(overhead(vs, seq![0int]) == 0);
    assert(overhead(vs, seq![1int]) == 1);
    assert(overhead(vs, seq![2int]) == 3);
    assert(seq![0int, 3int].drop_last() =~= seq![0int]);
    assert(seq![1int, 3int].drop_last() =~= seq![1int]);
    assert(seq![2int, 3int].drop_last() =~= seq![2int]);
    let a = seq![0int, 1int];
    let b = seq![0int, 1int, 2int];
    assert(a.drop_last() =~= seq![0int]);
    assert(b.drop_last() =~= a);
    assert(seq![0int, 1int, 2int, 3int].drop_last() =~= b);
    assert(overhead(vs, a) == 0);
    assert(overhead(vs, b) == 0);
}

proof fn lemma_stepped_least()
    ensures
        least_overhead(stepped_sweep(), 1) == 6,
        least_overhead(stepped_sweep(), 2) == 2,
        least_overhead(stepped_sweep(), 4) == 0,
{
    let vs = stepped_sweep();
    lemma_stepped_costs();
    lemma_cheapest_exists(vs, 1);
    let e1 = choose|e: Seq<int>| #[trigger] is_cheapest(vs, e, 4, 1);
    assert(e1 =~= seq![3int]);
    lemma_least_overhead(vs, e1, 1);

    lemma_cheapest_exists(vs, 2);
    let e2 = choose|e: Seq<int>| #[trigger] is_cheapest(vs, e, 4, 2);
    assert(e2[0] < e2[1]);
    assert(e2 =~= seq![e2[0], 3int]);
    assert(is_bucketing(seq![1int, 3int], 4, 2));
    assert(overhead(vs, e2) <= 2);
    assert(e2[0] == 0 || e2[0] == 1 || e2[0] == 2);
    lemma_least_overhead(vs, e2, 2);

    lemma_cheapest_exists(vs, 4);
    let e4 = choose|e: Seq<int>| #[trigger] is_cheapest(vs, e, 4, 4);
    assert forall|j: int| 0 <= j < 4 implies #[trigger] e4[j] == j by {
        lemma_full_bucketing(e4, 4, j);
    }
    assert(e4 =~= seq![0int, 1int, 2int, 3int]);
    lemma_least_overhead(vs, e4, 4);
}

/// The checks on padding hold.
proof fn lemma_padding_checks_hold()
    ensures
        forall|i: int| 0 <= i < padding_checks().len() ==> holds(#[trigger] padding_checks()[i]),
{
    let one = LOG_ONE as nat;
    let rows = shared_sweep();
    let vs = value_rows(partition_of(rows));
    lemma_stepped_least();
    lemma_known_logs();
    lemma_shared_values();
    assert forall|i: int| 0 <= i < rows.len() implies (#[trigger] rows[i]).1 == 1 by {}
    law_uniform_prior(rows, 1);
    lemma_cheapest_exists(vs, 3);
    let e = choose|e: Seq<int>| #[trigger] is_cheapest(vs, e, 3, 3);
    law_no_padding(rows, e);
    lemma_least_overhead(vs, e, 3);
    lemma_equal_ratios("bucket k=1 overhead"@, 6, 4, 3, 2, NEARER);
    lemma_equal_ratios("bucket k=4 overhead"@, 0, 4, 0, 1, NEARER);
    lemma_equal_ratios("bucket k=2 overhead"@, 2, 4, 1, 2, NEARER);
    lemma_equal_ratios("no-pad min-ent (report)"@, lg(3), one, lg(3), one, NEARER);
    lemma_equal_ratios("no-pad overhead is zero"@, 0, 1, 0, 1, NEARER);
    let c = padding_checks();
    assert(holds(c[0]) && holds(c[1]) && holds(c[2]) && holds(c[3]) && holds(c[4]));
}

// ---------------------------------------------------------------------------
// Batches
// ---------------------------------------------------------------------------

proof fn lemma_skewed_parts()
    ensures
        ({
            let rows = skewed_sweep();
            &&& total_weight(rows) == 10
            &&& max_weight(rows) == 8
            &&& cycle_values(rows) == seq![1u64, 2u64, 3u64]
            &&& class_max(rows, 1) == 8
            &&& class_max(rows, 2) == 1
            &&& class_max(rows, 3) == 1
            &&& sum(partition_of(rows).maxes) == 10
        }),
{
    let rows = skewed_sweep();
    let r2 = rows.drop_last();
    let r1 = r2.drop_last();
    let r0 = r1.drop_last();
    reveal_with_fuel(total_weight, 4);
    reveal_with_fuel(max_weight, 4);
    reveal_with_fuel(class_max, 4);
    assert(cycle_values(r0) =~= Seq::empty());
    assert(cycle_values(r1) =~= seq![1u64]);
    assert(cycle_values(r2) =~= seq![1u64, 2u64]);
    assert(cycle_values(rows) =~= seq![1u64, 2u64, 3u64]);
    assert(partition_of(rows).maxes =~= seq![8nat, 1nat, 1nat]);
    reveal_with_fuel(sum, 4);
}

proof fn lemma_mixed_parts()
    ensures
        ({
            let rows = mixed_sweep();
            &&& total_weight(rows) == 10
            &&& max_weight(rows) == 5
            &&& sum(partition_of(rows).maxes) == 6
        }),
{
    let rows = mixed_sweep();
    let r2 = rows.drop_last();
    let r1 = r2.drop_last();
    let r0 = r1.drop_last();
    reveal_with_fuel(total_weight, 4);
    reveal_with_fuel(max_weight, 4);
    reveal_with_fuel(class_max, 4);
    assert(cycle_values(r0) =~= Seq::empty());
    assert(cycle_values(r1) =~= seq![7u64]);
    assert(cycle_values(r2) =~= seq![7u64]);
    assert(cycle_values(rows) =~= seq![7u64, 9u64]);
    assert(partition_of(rows).maxes =~= seq![5nat, 1nat]);
    reveal_with_fuel(sum, 3);
}

/// The largest weight of a single item of `skewed_sweep` at an offset.
spec fn skewed_peak(o: int) -> nat {
    if o == 0 {
        8
    } else if o == 1 || o == 2 {
        1
    } else {
        0
    }
}

proof fn lemma_skewed_single(o: int)
    ensures
        batch_peak(skewed_sweep(), 1, 1, o) == skewed_peak(o),
{
    let rows = skewed_sweep();
    lemma_skewed_parts();
    if 0 <= o <= 2 {
        lemma_one_item(rows, 1, (o + 1) as u64);
    } else {
        assert forall|i: int| 0 <= i < rows.len() implies 1 <= (#[trigger] rows[i]).0 <= 1 + 2 by {}
        lemma_batch_support(rows, 1, 2, 1, o);
    }
}

proof fn lemma_skewed_pair(o: int)
    ensures
        batch_peak(skewed_sweep(), 1, 2, o) == larger(
            larger(8 * skewed_peak(o), skewed_peak(o - 1)),
            skewed_peak(o - 2),
        ),
{
    let rows = skewed_sweep();
    let g = |c: u64| batch_peak(rows, 1, 1, o - (c - 1));
    lemma_batch_unfold(rows, 1, 2, o);
    assert((|c: u64| batch_peak(rows, 1, (2 - 1) as nat, o - (c - 1u64))) =~= g);
    lemma_skewed_single(o);
    lemma_skewed_single(o - 1);
    lemma_skewed_single(o - 2);
    let r2 = rows.drop_last();
    let r1 = r2.drop_last();
    let r0 = r1.drop_last();
    let a = skewed_peak(o);
    let b = skewed_peak(o - 1);
    let c = skewed_peak(o - 2);
    assert(row_peak(r0, g) == 0);
    assert(g(1) == a && g(2) == b && g(3) == c);
    lemma_peak_step(r1, g, 1, 8, a);
    lemma_peak_step(r2, g, 2, 1, b);
    lemma_peak_step(rows, g, 3, 1, c);
    assert(row_peak(r1, g) == 8 * a);
    assert(row_peak(r2, g) == larger(8 * a, b));
    assert(row_peak(rows, g) == larger(larger(8 * a, b), c));
}

proof fn lemma_peak_step(rows: Seq<(u64, nat)>, g: spec_fn(u64) -> nat, c: u64, w: nat, x: nat)
    requires
        rows.len() > 0,
        rows.last() == (c, w),
        g(c) == x,
    ensures
        row_peak(rows, g) == larger(row_peak(rows.drop_last(), g), w * x),
{
}

proof fn lemma_skewed_batch()
    ensures
        batch_min_entropy(skewed_sweep(), 2) == lg(82) - lg(64),
{
    let rows = skewed_sweep();
    lemma_skewed_parts();
    let f = |o: int| batch_peak(rows, lowest(rows), 2, o);
    assert(lowest(rows) == 1);
    assert(spread(rows) == 2);
    lemma_skewed_pair(0);
    lemma_skewed_pair(1);
    lemma_skewed_pair(2);
    lemma_skewed_pair(3);
    lemma_skewed_pair(4);
    assert(f(0) == 64 && f(1) == 8 && f(2) == 8 && f(3) == 1 && f(4) == 1);
    assert(upto(f, 0) == 0);
    assert(upto(f, 1) == 64);
    assert(upto(f, 2) == 72);
    assert(upto(f, 3) == 80);
    assert(upto(f, 4) == 81);
    assert(upto(f, 5) == 82);
    assert(pow(8, 2) == 64) by {
        lemma_pow1(8);
        reveal_with_fuel(pow, 3);
    }
    lemma_lg_monotone(64, 82);
}

/// The checks on weighted secrets and on batches hold.
proof fn lemma_batch_checks_hold()
    ensures
        forall|i: int| 0 <= i < batch_checks().len() ==> holds(#[trigger] batch_checks()[i]),
{
    let one = LOG_ONE as nat;
    let a = skewed_sweep();
    let b = mixed_sweep();
    lemma_known_logs();
    lemma_skewed_parts();
    lemma_mixed_parts();
    lemma_skewed_batch();
    law_batch_of_one(a);
    law_batch_of_one(b);
    lemma2_to64();
    lemma_lg_shift(5, 1);
    lemma_lg_monotone(4, 5);
    lemma_lg_monotone(5, 6);
    lemma_lg_monotone(64, 82);
    let la = log_ratio(5, 4);
    let lb = log_ratio(6, 5);
    let lc = log_ratio(82, 64);
    lemma_equal_ratios("weighted min-ent"@, la.0, one, la.0, one, NEARER);
    lemma_equal_ratios("scale n=1 min-ent"@, la.0, one, la.0, one, NEARER);
    lemma_equal_ratios("multi-secret class min-ent"@, lb.0, one, lb.0, one, NEARER);
    lemma_equal_ratios("scale n=1 multi-secret"@, lb.0, one, lb.0, one, NEARER);
    lemma_equal_ratios("scale n=2 vs brute force"@, lc.0, one, lc.0, one, NEARER);
    let c = batch_checks();
    assert(holds(c[0]) && holds(c[1]) && holds(c[2]) && holds(c[3]) && holds(c[4]));
}

proof fn lemma_no_failures(cs: Seq<CheckView>)
    requires
        forall|i: int| 0 <= i < cs.len() ==> holds(#[trigger] cs[i]),
    ensures
        failures(cs) == 0,
    decreases cs.len(),
{
    if cs.len() > 0 {
        let t = cs.drop_last();
        assert forall|i: int| 0 <= i < t.len() implies holds(#[trigger] t[i]) by {
            assert(t[i] == cs[i]);
        }
        lemma_no_failures(t);
        assert(holds(cs[cs.len() - 1]));
    }
}

/// Every check of the self-test holds.
pub proof fn law_self_checks_hold()
    ensures
        forall|i: int| 0 <= i < self_checks().len() ==> holds(#[trigger] self_checks()[i]),
        failures(self_checks()) == 0,
{
    let all = self_checks();
    let a = leakage_checks();
    let b = padding_checks();
    let c = batch_checks();
    lemma_leakage_checks_hold();
    lemma_padding_checks_hold();
    lemma_batch_checks_hold();
    assert forall|i: int| 0 <= i < all.len() implies holds(#[trigger] all[i]) by {
        if i < a.len() {
            assert(all[i] == a[i]);
        } else if i < a.len() + b.len() {
            assert(all[i] == b[i - a.len()]);
        } else {
            assert(all[i] == c[i - a.len() - b.len()]);
        }
    }
    lemma_no_failures(all);
}

} // verus!
