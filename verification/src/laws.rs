//! What holds of every sweep.
//!
//! Each function `law_..` of this module states one property of the library
//! as a whole, over the same definitions that the contracts of its functions use.

use crate::binary_log::{
    lemma_lg_bounds, lemma_lg_monotone, lemma_lg_pow2, lemma_lg_product, lemma_lg_shift,
    lemma_pow_base_monotone, lg, LOG_ONE,
};
use crate::leakage::{
    greatest, leakage_of, lemma_class_max_bounds, lemma_class_weights_total,
    lemma_log_sum_is_sum_over, lemma_masses, lemma_max_positive, lemma_regroup, lemma_row_bounds,
    lemma_sum_over_bump, lemma_sum_over_is_sum, lemma_sum_over_put, log_sum, residual_mass, row_sum,
    secret_mass, shannon_mass, sum, sum_over,
};
use crate::partition::{
    class_logs, class_max, class_weight, cycle_values, increasing, larger, lemma_class_absent,
    lemma_cycle_values, lemma_increasing_unique, lemma_put, max_weight, occurs, partition_of, put,
    total_weight, weight_logs, xlg,
};
use vstd::arithmetic::power::pow;
use vstd::arithmetic::power2::{lemma2_to64, lemma_pow2_adds, lemma_pow2_pos, pow2};
use vstd::prelude::*;

verus! {

/// What is revealed and what remains add up to the entropy of the secret; nothing
/// is negative; and seeing the cycle count never makes a guess worse.
pub proof fn law_leakage_bounds(rows: Seq<(u64, nat)>)
    requires
        total_weight(rows) > 0,
    ensures
        shannon_mass(partition_of(rows)) + residual_mass(partition_of(rows)) == secret_mass(
            partition_of(rows),
        ),
        0 <= leakage_of(partition_of(rows)).shannon_bits <= leakage_of(
            partition_of(rows),
        ).secret_bits,
        0 <= leakage_of(partition_of(rows)).residual_bits <= leakage_of(
            partition_of(rows),
        ).secret_bits,
        leakage_of(partition_of(rows)).min_entropy_bits >= 0,
        leakage_of(partition_of(rows)).revealed.0 <= leakage_of(partition_of(rows)).revealed.1,
        partition_of(rows).max_secret <= leakage_of(partition_of(rows)).guess_probability.0
            <= leakage_of(partition_of(rows)).guess_probability.1,
{
    let p = partition_of(rows);
    lemma_masses(rows);
    lemma_lg_monotone(p.max_secret, sum(p.maxes));
    let w = p.total as int;
    vstd::arithmetic::div_mod::lemma_div_is_ordered(0, shannon_mass(p), w);
    vstd::arithmetic::div_mod::lemma_div_is_ordered(shannon_mass(p), secret_mass(p), w);
    vstd::arithmetic::div_mod::lemma_div_is_ordered(0, residual_mass(p), w);
    vstd::arithmetic::div_mod::lemma_div_is_ordered(residual_mass(p), secret_mass(p), w);
}

/// Whether every secret has the same weight.
pub open spec fn uniform(rows: Seq<(u64, nat)>, w: nat) -> bool {
    forall|i: int| 0 <= i < rows.len() ==> (#[trigger] rows[i]).1 == w
}

proof fn lemma_uniform_max(rows: Seq<(u64, nat)>, w: nat, c: u64)
    requires
        uniform(rows, w),
    ensures
        rows.len() > 0 ==> max_weight(rows) == w,
        class_max(rows, c) == if occurs(rows, c) {
            w
        } else {
            0
        },
    decreases rows.len(),
{
    if rows.len() > 0 {
        let t = rows.drop_last();
        assert forall|i: int| 0 <= i < t.len() implies (#[trigger] t[i]).1 == w by {
            assert(t[i] == rows[i]);
        }
        lemma_uniform_max(t, w, c);
        assert(rows[rows.len() - 1].1 == w);
        if rows.last().0 == c {
            assert(rows[rows.len() - 1].0 == c);
        }
        if occurs(t, c) {
            let i = choose|i: int| 0 <= i < t.len() && (#[trigger] t[i]).0 == c;
            assert(rows[i].0 == c);
        }
        if occurs(rows, c) && rows.last().0 != c {
            let i = choose|i: int| 0 <= i < rows.len() && (#[trigger] rows[i]).0 == c;
            assert(t[i].0 == c);
        }
        assert(t.len() == 0 ==> max_weight(t) == 0);
    }
}

proof fn lemma_sum_constant(s: Seq<nat>, w: nat)
    requires
        forall|i: int| 0 <= i < s.len() ==> #[trigger] s[i] == w,
    ensures
        sum(s) == s.len() * w,
    decreases s.len(),
{
    if s.len() > 0 {
        let t = s.drop_last();
        assert forall|i: int| 0 <= i < t.len() implies #[trigger] t[i] == w by {
            assert(t[i] == s[i]);
        }
        lemma_sum_constant(t, w);
        assert(s[s.len() - 1] == w);
        let n = t.len();
        assert((n + 1) * w == n * w + w) by (nonlinear_arith);
    } else {
        assert(0 * w == 0) by (nonlinear_arith);
    }
}

/// Under a uniform prior, min-entropy leakage is the logarithm of the number of
/// distinct cycle counts: one optimal guess is right that many times as often.
pub proof fn law_uniform_prior(rows: Seq<(u64, nat)>, w: nat)
    requires
        rows.len() > 0,
        w > 0,
        uniform(rows, w),
    ensures
        ({
            let p = partition_of(rows);
            let k = cycle_values(rows).len();
            &&& k > 0
            &&& p.max_secret == w
            &&& sum(p.maxes) == k * w
            &&& lg(k) <= leakage_of(p).min_entropy_bits <= lg(k) + 1
            &&& forall|e: nat| w == #[trigger] pow2(e) ==> leakage_of(p).min_entropy_bits == lg(k)
        }),
{
    let p = partition_of(rows);
    let k = cycle_values(rows).len();
    lemma_cycle_values(rows);
    assert(occurs(rows, rows[0].0));
    assert(p.values.contains(rows[0].0));
    assert(k > 0);
    lemma_uniform_max(rows, w, 0);
    assert forall|i: int| 0 <= i < p.maxes.len() implies #[trigger] p.maxes[i] == w by {
        assert(p.values.contains(p.values[i]));
        lemma_uniform_max(rows, w, p.values[i]);
    }
    lemma_sum_constant(p.maxes, w);
    lemma_lg_product(k, w);
    assert forall|e: nat| w == #[trigger] pow2(e) implies leakage_of(p).min_entropy_bits == lg(
        k,
    ) by {
        lemma_lg_shift(k, e);
        lemma_lg_pow2(e);
    }
}

/// An observable that is the same for all secrets reveals exactly nothing.
pub proof fn law_constant_observable(rows: Seq<(u64, nat)>)
    requires
        total_weight(rows) > 0,
        cycle_values(rows).len() == 1,
    ensures
        leakage_of(partition_of(rows)).shannon_bits == 0,
        leakage_of(partition_of(rows)).min_entropy_bits == 0,
        leakage_of(partition_of(rows)).residual_bits == leakage_of(partition_of(rows)).secret_bits,
        leakage_of(partition_of(rows)).guess_probability == (max_weight(rows), total_weight(rows)),
        leakage_of(partition_of(rows)).largest_class_weight == total_weight(rows),
        leakage_of(partition_of(rows)).revealed.0 == 0,
{
    let p = partition_of(rows);
    lemma_class_weights_total(rows);
    assert(p.weights.drop_last() =~= Seq::<nat>::empty());
    assert(p.maxes.drop_last() =~= Seq::<nat>::empty());
    assert(sum(p.weights.drop_last()) == 0);
    assert(log_sum(p.weights.drop_last()) == 0);
    assert(sum(p.maxes.drop_last()) == 0);
    assert(greatest(p.weights.drop_last()) == 0);
    assert(p.weights[0] == p.total);
    lemma_masses(rows);
    lemma_class_max_bounds(rows, p.values[0]);
    assert(sum(p.maxes) == p.maxes[0]);
    assert(p.maxes[0] == class_max(rows, p.values[0]));
}

/// Whether no two secrets take the same number of cycles.
pub open spec fn all_distinct(rows: Seq<(u64, nat)>) -> bool {
    forall|i: int, j: int|
        0 <= i < j < rows.len() ==> (#[trigger] rows[i]).0 != (#[trigger] rows[j]).0
}

/// With distinct cycles, every class is a single secret.
proof fn lemma_distinct_classes(rows: Seq<(u64, nat)>)
    requires
        all_distinct(rows),
    ensures
        cycle_values(rows).len() == rows.len(),
        forall|c: u64| #[trigger] class_weight(rows, c) == class_max(rows, c),
        log_sum(partition_of(rows).weights) == weight_logs(rows),
    decreases rows.len(),
{
    if rows.len() > 0 {
        let t = rows.drop_last();
        let c0 = rows.last().0;
        let w0 = rows.last().1;
        assert forall|i: int, j: int| 0 <= i < j < t.len() implies (#[trigger] t[i]).0 != (
        #[trigger] t[j]).0 by {
            assert(rows[i].0 != rows[j].0);
        }
        lemma_distinct_classes(t);
        lemma_cycle_values(t);
        let vals = cycle_values(t);
        assert(!occurs(t, c0)) by {
            if occurs(t, c0) {
                let i = choose|i: int| 0 <= i < t.len() && (#[trigger] t[i]).0 == c0;
                assert(rows[i].0 != rows[rows.len() - 1].0);
            }
        }
        lemma_class_absent(t, c0);
        lemma_put(vals, c0);
        assert forall|c: u64| #[trigger] class_weight(rows, c) == class_max(rows, c) by {
            assert(class_weight(t, c) == class_max(t, c));
        }
        lemma_log_sum_put(t, rows, vals, c0);
    }
}

/// Adding a class adds its product of weight and logarithm.
proof fn lemma_log_sum_put(t: Seq<(u64, nat)>, rows: Seq<(u64, nat)>, vals: Seq<u64>, c: u64)
    requires
        increasing(vals),
        !vals.contains(c),
        forall|x: u64| x != c ==> #[trigger] class_weight(rows, x) == class_weight(t, x),
    ensures
        log_sum(put(vals, c).map_values(|x: u64| class_weight(rows, x))) == log_sum(
            vals.map_values(|x: u64| class_weight(t, x)),
        ) + xlg(class_weight(rows, c)),
    decreases vals.len(),
{
    let f = |x: u64| class_weight(rows, x);
    let g = |x: u64| class_weight(t, x);
    if vals.len() == 0 || vals.last() < c {
        assert(put(vals, c).map_values(f).drop_last() =~= vals.map_values(g)) by {
            assert forall|i: int| 0 <= i < vals.len() implies f(vals[i]) == g(vals[i]) by {
                assert(vals.contains(vals[i]));
            }
        }
    } else {
        assert(vals[vals.len() - 1] != c);
        let v1 = vals.drop_last();
        assert(!v1.contains(c)) by {
            if v1.contains(c) {
                assert(vals[v1.index_of(c)] == c);
            }
        }
        lemma_log_sum_put(t, rows, v1, c);
        assert(put(vals, c).map_values(f).drop_last() =~= put(v1, c).map_values(f));
        assert(vals.map_values(g).drop_last() =~= v1.map_values(g));
    }
}

/// An observable that differs between all secrets reveals the whole entropy of the
/// secret, and one guess is always right.
pub proof fn law_bijective_observable(rows: Seq<(u64, nat)>)
    requires
        total_weight(rows) > 0,
        all_distinct(rows),
    ensures
        leakage_of(partition_of(rows)).shannon_bits == leakage_of(partition_of(rows)).secret_bits,
        leakage_of(partition_of(rows)).residual_bits == 0,
        leakage_of(partition_of(rows)).revealed.0 == leakage_of(partition_of(rows)).revealed.1,
        leakage_of(partition_of(rows)).num_classes == rows.len(),
        leakage_of(partition_of(rows)).guess_probability == (
            total_weight(rows),
            total_weight(rows),
        ),
{
    let p = partition_of(rows);
    lemma_distinct_classes(rows);
    lemma_class_weights_total(rows);
    assert(p.maxes =~= p.weights);
}

/// The secrets with every cycle count replaced.
pub open spec fn relabelled(rows: Seq<(u64, nat)>, f: spec_fn(u64) -> u64) -> Seq<(u64, nat)> {
    rows.map_values(|r: (u64, nat)| (f(r.0), r.1))
}

/// Whether a replacement of cycle counts keeps their order.
pub open spec fn order_preserving(f: spec_fn(u64) -> u64, rows: Seq<(u64, nat)>) -> bool {
    forall|i: int, j: int|
        0 <= i < rows.len() && 0 <= j < rows.len() && (#[trigger] rows[i]).0 < (
        #[trigger] rows[j]).0 ==> f(rows[i].0) < f(rows[j].0)
}

proof fn lemma_put_mapped(s: Seq<u64>, c: u64, f: spec_fn(u64) -> u64)
    requires
        forall|i: int| 0 <= i < s.len() ==> (#[trigger] s[i] < c ==> f(s[i]) < f(c)) && (s[i] > c
            ==> f(s[i]) > f(c)),
    ensures
        put(s.map_values(f), f(c)) == put(s, c).map_values(f),
    decreases s.len(),
{
    if s.len() == 0 {
        assert(put(s.map_values(f), f(c)) =~= put(s, c).map_values(f));
    } else {
        let t = s.drop_last();
        assert(s[s.len() - 1] == s.last());
        assert(s.map_values(f).drop_last() =~= t.map_values(f));
        if s.last() < c {
            assert(put(s.map_values(f), f(c)) =~= put(s, c).map_values(f));
        } else if s.last() > c {
            assert forall|i: int| 0 <= i < t.len() implies (#[trigger] t[i] < c ==> f(t[i]) < f(c))
                && (t[i] > c ==> f(t[i]) > f(c)) by {
                assert(t[i] == s[i]);
            }
            lemma_put_mapped(t, c, f);
            assert(put(s.map_values(f), f(c)) =~= put(s, c).map_values(f));
        }
    }
}

pub proof fn lemma_relabelled(rows: Seq<(u64, nat)>, f: spec_fn(u64) -> u64)
    requires
        order_preserving(f, rows),
    ensures
        cycle_values(relabelled(rows, f)) == cycle_values(rows).map_values(f),
    decreases rows.len(),
{
    let r = relabelled(rows, f);
    if rows.len() > 0 {
        let t = rows.drop_last();
        assert(r.drop_last() =~= relabelled(t, f));
        assert forall|i: int, j: int|
            0 <= i < t.len() && 0 <= j < t.len() && (#[trigger] t[i]).0 < (
            #[trigger] t[j]).0 implies f(t[i].0) < f(t[j].0) by {
            assert(t[i] == rows[i] && t[j] == rows[j]);
        }
        lemma_relabelled(t, f);
        lemma_cycle_values(t);
        let s = cycle_values(t);
        let c = rows[rows.len() - 1].0;
        assert forall|i: int| 0 <= i < s.len() implies (#[trigger] s[i] < c ==> f(s[i]) < f(c)) && (
        s[i] > c ==> f(s[i]) > f(c)) by {
            assert(s.contains(s[i]));
            assert(occurs(t, s[i]));
            let k = choose|k: int| 0 <= k < t.len() && (#[trigger] t[k]).0 == s[i];
            assert(rows[k].0 == s[i]);
        }
        lemma_put_mapped(s, c, f);
    } else {
        assert(cycle_values(r) =~= cycle_values(rows).map_values(f));
    }
}

proof fn lemma_relabelled_class(
    rows: Seq<(u64, nat)>,
    f: spec_fn(u64) -> u64,
    c: u64,
)
    requires
        forall|i: int| 0 <= i < rows.len() && (#[trigger] rows[i]).0 != c ==> f(rows[i].0) != f(c),
    ensures
        class_weight(relabelled(rows, f), f(c)) == class_weight(rows, c),
        class_max(relabelled(rows, f), f(c)) == class_max(rows, c),
    decreases rows.len(),
{
    if rows.len() > 0 {
        let t = rows.drop_last();
        assert(relabelled(rows, f).drop_last() =~= relabelled(t, f));
        assert forall|i: int| 0 <= i < t.len() && (#[trigger] t[i]).0 != c implies f(t[i].0) != f(
            c,
        ) by {
            assert(t[i] == rows[i]);
        }
        lemma_relabelled_class(t, f, c);
        assert(rows[rows.len() - 1].0 != c ==> f(rows[rows.len() - 1].0) != f(c));
    }
}

/// Any replacement of the cycle counts that keeps their order leaves everything about
/// the leakage as it is.
pub proof fn law_relabelling(rows: Seq<(u64, nat)>, f: spec_fn(u64) -> u64)
    requires
        order_preserving(f, rows),
    ensures
        leakage_of(partition_of(relabelled(rows, f))) == leakage_of(partition_of(rows)),
{
    let p = partition_of(rows);
    let q = partition_of(relabelled(rows, f));
    lemma_relabelled(rows, f);
    lemma_relabelled_totals(rows, f);
    lemma_cycle_values(rows);
    assert forall|i: int| 0 <= i < p.values.len() implies q.weights[i] == p.weights[i]
        && q.maxes[i] == p.maxes[i] by {
        let c = p.values[i];
        assert(p.values.contains(c));
        assert(occurs(rows, c));
        let j = choose|j: int| 0 <= j < rows.len() && (#[trigger] rows[j]).0 == c;
        assert forall|k: int| 0 <= k < rows.len() && (#[trigger] rows[k]).0 != c implies f(
            rows[k].0,
        ) != f(c) by {
            assert(rows[j].0 == c);
        }
        lemma_relabelled_class(rows, f, c);
    }
    assert(q.weights =~= p.weights);
    assert(q.maxes =~= p.maxes);
}

/// Adding the same number of cycles to every execution does not change the leakage.
pub proof fn law_constant_offset(rows: Seq<(u64, nat)>, d: u64)
    requires
        forall|i: int| 0 <= i < rows.len() ==> (#[trigger] rows[i]).0 + d <= u64::MAX,
    ensures
        leakage_of(partition_of(relabelled(rows, |c: u64| (c + d) as u64))) == leakage_of(
            partition_of(rows),
        ),
{
    law_relabelling(rows, |c: u64| (c + d) as u64);
}

/// No replacement of cycle counts changes what the secrets weigh.
pub proof fn lemma_relabelled_totals(rows: Seq<(u64, nat)>, f: spec_fn(u64) -> u64)
    ensures
        total_weight(relabelled(rows, f)) == total_weight(rows),
        max_weight(relabelled(rows, f)) == max_weight(rows),
        weight_logs(relabelled(rows, f)) == weight_logs(rows),
    decreases rows.len(),
{
    if rows.len() > 0 {
        assert(relabelled(rows, f).drop_last() =~= relabelled(rows.drop_last(), f));
        lemma_relabelled_totals(rows.drop_last(), f);
    }
}

/// A class goes into one class as a whole.
proof fn lemma_merged_class(rows: Seq<(u64, nat)>, f: spec_fn(u64) -> u64, c: u64)
    ensures
        class_weight(rows, c) <= class_weight(relabelled(rows, f), f(c)),
        class_max(rows, c) <= class_max(relabelled(rows, f), f(c)),
    decreases rows.len(),
{
    if rows.len() > 0 {
        assert(relabelled(rows, f).drop_last() =~= relabelled(rows.drop_last(), f));
        lemma_merged_class(rows.drop_last(), f, c);
    }
}

proof fn lemma_row_sum_relabelled(
    rows: Seq<(u64, nat)>,
    f: spec_fn(u64) -> u64,
    g: spec_fn(u64) -> nat,
    h: spec_fn(u64) -> nat,
)
    requires
        forall|c: u64| #[trigger] g(c) <= h(f(c)),
    ensures
        row_sum(rows, g) <= row_sum(relabelled(rows, f), h),
    decreases rows.len(),
{
    if rows.len() > 0 {
        assert(relabelled(rows, f).drop_last() =~= relabelled(rows.drop_last(), f));
        lemma_row_sum_relabelled(rows.drop_last(), f, g, h);
        let w = rows.last().1;
        let a = g(rows.last().0);
        let b = h(f(rows.last().0));
        assert(w * a <= w * b) by (nonlinear_arith)
            requires
                a <= b,
        ;
    }
}

/// What one more secret adds to the largest weights of the classes.
proof fn lemma_maxes_step(rows: Seq<(u64, nat)>)
    requires
        rows.len() > 0,
    ensures
        sum(partition_of(rows).maxes) == sum(partition_of(rows.drop_last()).maxes) + larger(
            class_max(rows.drop_last(), rows.last().0),
            rows.last().1,
        ) - class_max(rows.drop_last(), rows.last().0),
{
    let t = rows.drop_last();
    let c = rows.last().0;
    let vals = cycle_values(t);
    let f1 = |x: u64| class_max(t, x);
    let f2 = |x: u64| class_max(rows, x);
    let d = (larger(class_max(t, c), rows.last().1) - class_max(t, c)) as nat;
    lemma_cycle_values(t);
    lemma_put(vals, c);
    assert forall|x: u64| x != c implies #[trigger] f2(x) == f1(x) by {}
    lemma_sum_over_bump(vals, c, f1, f2, d);
    lemma_sum_over_is_sum(vals, f1);
    lemma_sum_over_is_sum(put(vals, c), f2);
    if !vals.contains(c) {
        lemma_sum_over_put(vals, c, f2);
        lemma_class_absent(t, c);
    }
}

proof fn lemma_merged_maxes(rows: Seq<(u64, nat)>, f: spec_fn(u64) -> u64)
    ensures
        sum(partition_of(relabelled(rows, f)).maxes) <= sum(partition_of(rows).maxes),
    decreases rows.len(),
{
    let q = relabelled(rows, f);
    if rows.len() > 0 {
        let t = rows.drop_last();
        assert(q.drop_last() =~= relabelled(t, f));
        lemma_merged_maxes(t, f);
        lemma_maxes_step(rows);
        lemma_maxes_step(q);
        lemma_merged_class(t, f, rows.last().0);
    } else {
        assert(q =~= rows);
    }
}

/// No function of the cycle count has more distinct values than the cycle count.
proof fn lemma_merged_values(rows: Seq<(u64, nat)>, f: spec_fn(u64) -> u64)
    ensures
        cycle_values(relabelled(rows, f)).len() <= cycle_values(rows).len(),
    decreases rows.len(),
{
    let q = relabelled(rows, f);
    if rows.len() > 0 {
        let t = rows.drop_last();
        let c = rows.last().0;
        assert(q.drop_last() =~= relabelled(t, f));
        lemma_merged_values(t, f);
        lemma_cycle_values(t);
        lemma_cycle_values(relabelled(t, f));
        lemma_put(cycle_values(t), c);
        lemma_put(cycle_values(relabelled(t, f)), f(c));
        if cycle_values(t).contains(c) {
            assert(occurs(t, c));
            let i = choose|i: int| 0 <= i < t.len() && (#[trigger] t[i]).0 == c;
            assert(relabelled(t, f)[i].0 == f(c));
            assert(occurs(relabelled(t, f), f(c)));
        }
    }
}

pub proof fn lemma_greatest_bounds(s: Seq<nat>, i: int)
    requires
        0 <= i < s.len(),
    ensures
        s[i] <= greatest(s),
    decreases s.len(),
{
    if i < s.len() - 1 {
        lemma_greatest_bounds(s.drop_last(), i);
    }
}

pub proof fn lemma_greatest_attained(s: Seq<nat>)
    requires
        s.len() > 0,
    ensures
        s.contains(greatest(s)),
    decreases s.len(),
{
    let t = s.drop_last();
    if greatest(s) == s.last() {
        assert(s[s.len() - 1] == greatest(s));
    } else {
        assert(t.len() == 0 ==> greatest(t) == 0);
        lemma_greatest_attained(t);
        assert(s[t.index_of(greatest(t))] == greatest(s));
    }
}

/// Merging never makes the largest class smaller.
proof fn lemma_merged_largest(rows: Seq<(u64, nat)>, f: spec_fn(u64) -> u64)
    ensures
        greatest(partition_of(rows).weights) <= greatest(partition_of(relabelled(rows, f)).weights),
{
    let q = relabelled(rows, f);
    let a = partition_of(rows);
    let b = partition_of(q);
    if a.weights.len() > 0 {
        lemma_greatest_attained(a.weights);
        let k = a.weights.index_of(greatest(a.weights));
        let c = a.values[k];
        lemma_cycle_values(rows);
        lemma_cycle_values(q);
        assert(a.values.contains(c));
        assert(occurs(rows, c));
        let i = choose|i: int| 0 <= i < rows.len() && (#[trigger] rows[i]).0 == c;
        assert(q[i].0 == f(c));
        assert(occurs(q, f(c)));
        let j = b.values.index_of(f(c));
        assert(b.values[j] == f(c));
        lemma_merged_class(rows, f, c);
        lemma_greatest_bounds(b.weights, j);
    }
}

/// Making executions take the same time, in whatever way, never reveals more: any
/// function of the cycle count leaks at most what the cycle count does, has no more
/// classes, and its largest class is at least as large.
pub proof fn law_merging(rows: Seq<(u64, nat)>, f: spec_fn(u64) -> u64)
    requires
        total_weight(rows) > 0,
    ensures
        shannon_mass(partition_of(relabelled(rows, f))) <= shannon_mass(partition_of(rows)),
        leakage_of(partition_of(relabelled(rows, f))).shannon_bits <= leakage_of(
            partition_of(rows),
        ).shannon_bits,
        leakage_of(partition_of(relabelled(rows, f))).min_entropy_bits <= leakage_of(
            partition_of(rows),
        ).min_entropy_bits,
        leakage_of(partition_of(relabelled(rows, f))).residual_bits >= leakage_of(
            partition_of(rows),
        ).residual_bits,
        leakage_of(partition_of(relabelled(rows, f))).secret_bits == leakage_of(
            partition_of(rows),
        ).secret_bits,
        leakage_of(partition_of(relabelled(rows, f))).guess_probability.0 <= leakage_of(
            partition_of(rows),
        ).guess_probability.0,
        leakage_of(partition_of(relabelled(rows, f))).revealed.0 <= leakage_of(
            partition_of(rows),
        ).revealed.0,
        leakage_of(partition_of(relabelled(rows, f))).revealed.1 == leakage_of(
            partition_of(rows),
        ).revealed.1,
        leakage_of(partition_of(relabelled(rows, f))).num_classes <= leakage_of(
            partition_of(rows),
        ).num_classes,
        leakage_of(partition_of(relabelled(rows, f))).largest_class_weight >= leakage_of(
            partition_of(rows),
        ).largest_class_weight,
{
    let q = relabelled(rows, f);
    let a = partition_of(rows);
    let b = partition_of(q);
    lemma_relabelled_totals(rows, f);
    lemma_merged_maxes(rows, f);
    lemma_merged_values(rows, f);
    lemma_merged_largest(rows, f);
    lemma_lg_monotone(sum(b.maxes), sum(a.maxes));
    let g = |c: u64| lg(class_weight(rows, c));
    let h = |c: u64| lg(class_weight(q, c));
    assert forall|c: u64| #[trigger] g(c) <= h(f(c)) by {
        lemma_merged_class(rows, f, c);
        lemma_lg_monotone(class_weight(rows, c), class_weight(q, f(c)));
    }
    lemma_row_sum_relabelled(rows, f, g, h);
    lemma_regroup(rows, g);
    lemma_regroup(q, h);
    lemma_log_sum_is_sum_over(rows, a.values);
    lemma_log_sum_is_sum_over(q, b.values);
    assert((|c: u64| class_weight(rows, c) * g(c)) =~= (|c: u64|
        class_weight(rows, c) * lg(class_weight(rows, c))));
    assert((|c: u64| class_weight(q, c) * h(c)) =~= (|c: u64|
        class_weight(q, c) * lg(class_weight(q, c))));
    assert(log_sum(a.weights) <= log_sum(b.weights));
    lemma_masses(rows);
    lemma_masses(q);
    let w = a.total as int;
    vstd::arithmetic::div_mod::lemma_div_is_ordered(shannon_mass(b), shannon_mass(a), w);
    vstd::arithmetic::div_mod::lemma_div_is_ordered(residual_mass(a), residual_mass(b), w);
}

/// Leakage depends only on which secrets can be told apart: any replacement of the
/// cycle counts that can be undone leaves it as it is, whatever it does to their order.
pub proof fn law_invertible_relabelling(
    rows: Seq<(u64, nat)>,
    f: spec_fn(u64) -> u64,
    undo: spec_fn(u64) -> u64,
)
    requires
        total_weight(rows) > 0,
        forall|i: int| 0 <= i < rows.len() ==> undo(f((#[trigger] rows[i]).0)) == rows[i].0,
    ensures
        ({
            let a = leakage_of(partition_of(rows));
            let b = leakage_of(partition_of(relabelled(rows, f)));
            b == a
        }),
{
    let q = relabelled(rows, f);
    lemma_relabelled_totals(rows, f);
    law_merging(rows, f);
    law_merging(q, undo);
    assert(relabelled(q, undo) =~= rows);
}

/// The secrets with every weight multiplied.
pub open spec fn rescaled(rows: Seq<(u64, nat)>, s: nat) -> Seq<(u64, nat)> {
    rows.map_values(|r: (u64, nat)| (r.0, r.1 * s))
}

pub proof fn lemma_rescaled(rows: Seq<(u64, nat)>, s: nat, c: u64)
    ensures
        cycle_values(rescaled(rows, s)) == cycle_values(rows),
        total_weight(rescaled(rows, s)) == total_weight(rows) * s,
        max_weight(rescaled(rows, s)) == max_weight(rows) * s,
        class_weight(rescaled(rows, s), c) == class_weight(rows, c) * s,
        class_max(rescaled(rows, s), c) == class_max(rows, c) * s,
    decreases rows.len(),
{
    assert(0 * s == 0) by (nonlinear_arith);
    if rows.len() > 0 {
        let t = rows.drop_last();
        let w = rows.last().1;
        assert(rescaled(rows, s).drop_last() =~= rescaled(t, s));
        lemma_rescaled(t, s, c);
        lemma_scaled_pair(total_weight(t), w, s);
        lemma_scaled_pair(max_weight(t), w, s);
        lemma_scaled_pair(class_weight(t, c), w, s);
        lemma_scaled_pair(class_max(t, c), w, s);
    }
}

proof fn lemma_scaled_pair(a: nat, b: nat, s: nat)
    ensures
        (a + b) * s == a * s + b * s,
        larger(a * s, b * s) == larger(a, b) * s,
{
    assert((a + b) * s == a * s + b * s) by (nonlinear_arith);
    if a < b {
        assert(a * s <= b * s) by (nonlinear_arith)
            requires
                a < b,
        ;
    } else {
        assert(b * s <= a * s) by (nonlinear_arith)
            requires
                b <= a,
        ;
    }
}

proof fn lemma_scaled_sums(a: Seq<nat>, b: Seq<nat>, s: nat)
    requires
        a.len() == b.len(),
        forall|i: int| 0 <= i < a.len() ==> #[trigger] b[i] == a[i] * s,
    ensures
        sum(b) == sum(a) * s,
        greatest(b) == greatest(a) * s,
    decreases a.len(),
{
    assert(0 * s == 0) by (nonlinear_arith);
    if a.len() > 0 {
        lemma_scaled_sums(a.drop_last(), b.drop_last(), s);
        assert(b[b.len() - 1] == a[a.len() - 1] * s);
        lemma_scaled_pair(sum(a.drop_last()), a.last(), s);
        lemma_scaled_pair(greatest(a.drop_last()), a.last(), s);
    }
}

/// A power of two as a factor of a weight.
proof fn lemma_xlg_shift(w: nat, e: nat)
    ensures
        xlg(w * pow2(e)) == xlg(w) * pow2(e) + e * LOG_ONE * (w * pow2(e)),
{
    let s = pow2(e);
    let l = lg(w);
    let m = e * LOG_ONE;
    if w == 0 {
        assert(0 * s == 0) by (nonlinear_arith);
        assert(xlg(0) == 0) by {
            let z = lg(0);
            assert(0 * z == 0) by (nonlinear_arith);
        }
        assert(m * 0 == 0) by (nonlinear_arith);
    } else {
        lemma_lg_shift(w, e);
        assert((w * s) * (l + m) == (w * l) * s + m * (w * s)) by (nonlinear_arith);
    }
}

proof fn lemma_scaled_logs(a: Seq<nat>, b: Seq<nat>, e: nat)
    requires
        a.len() == b.len(),
        forall|i: int| 0 <= i < a.len() ==> #[trigger] b[i] == a[i] * pow2(e),
    ensures
        log_sum(b) == log_sum(a) * pow2(e) + e * LOG_ONE * (sum(a) * pow2(e)),
    decreases a.len(),
{
    let s = pow2(e);
    let m = e * LOG_ONE;
    if a.len() > 0 {
        let t = a.drop_last();
        lemma_scaled_logs(t, b.drop_last(), e);
        assert(b[b.len() - 1] == a[a.len() - 1] * s);
        lemma_xlg_shift(a.last(), e);
        let p = log_sum(t);
        let q = xlg(a.last());
        let u = sum(t);
        let v = a.last();
        assert((p + q) * s + m * ((u + v) * s) == (p * s + m * (u * s)) + (q * s + m * (v * s)))
            by (nonlinear_arith);
    } else {
        assert(0 * s == 0) by (nonlinear_arith);
        assert(m * 0 == 0) by (nonlinear_arith);
    }
}

proof fn lemma_rescaled_logs(rows: Seq<(u64, nat)>, e: nat)
    ensures
        weight_logs(rescaled(rows, pow2(e))) == weight_logs(rows) * pow2(e) + e * LOG_ONE * (
        total_weight(rows) * pow2(e)),
    decreases rows.len(),
{
    let s = pow2(e);
    let m = e * LOG_ONE;
    if rows.len() > 0 {
        let t = rows.drop_last();
        assert(rescaled(rows, s).drop_last() =~= rescaled(t, s));
        lemma_rescaled_logs(t, e);
        lemma_xlg_shift(rows.last().1, e);
        let p = weight_logs(t);
        let q = xlg(rows.last().1);
        let u = total_weight(t);
        let v = rows.last().1;
        assert((p + q) * s + m * ((u + v) * s) == (p * s + m * (u * s)) + (q * s + m * (v * s)))
            by (nonlinear_arith);
    } else {
        assert(0 * s == 0) by (nonlinear_arith);
        assert(m * 0 == 0) by (nonlinear_arith);
    }
}

pub proof fn lemma_scaled_quotient(m: int, w: int, s: int)
    requires
        m >= 0,
        w > 0,
        s > 0,
    ensures
        (m * s) / (w * s) == m / w,
{
    assert(s * m >= 0) by (nonlinear_arith)
        requires
            m >= 0,
            s > 0,
    ;
    assert(m * s == s * m) by (nonlinear_arith);
    assert(w * s == s * w) by (nonlinear_arith);
    vstd::arithmetic::div_mod::lemma_div_denominator(s * m, s, w);
    vstd::arithmetic::div_mod::lemma_div_multiples_vanish(m, s);
}

/// Whether two numbers differ by at most one.
pub open spec fn within_one(a: int, b: int) -> bool {
    a - 1 <= b <= a + 1
}

/// A factor of a weight, whatever it is.
proof fn lemma_xlg_scaled(w: nat, s: nat)
    requires
        s > 0,
    ensures
        (xlg(w) + w * lg(s)) * s <= xlg(w * s) <= (xlg(w) + w * lg(s) + w) * s,
{
    let l = lg(w);
    let m = lg(s);
    if w == 0 {
        assert(0 * l == 0 && 0 * m == 0 && 0 * s == 0) by (nonlinear_arith);
        let z = lg(0);
        assert(0 * z == 0) by (nonlinear_arith);
    } else {
        lemma_lg_product(w, s);
        let k = lg(w * s);
        assert((w * l + w * m) * s == (w * s) * (l + m)) by (nonlinear_arith);
        assert((w * l + w * m + w) * s == (w * s) * (l + m + 1)) by (nonlinear_arith);
        assert((w * s) * (l + m) <= (w * s) * k <= (w * s) * (l + m + 1)) by (nonlinear_arith)
            requires
                l + m <= k <= l + m + 1,
        ;
    }
}

proof fn lemma_scaled_logs_near(a: Seq<nat>, b: Seq<nat>, s: nat)
    requires
        s > 0,
        a.len() == b.len(),
        forall|i: int| 0 <= i < a.len() ==> #[trigger] b[i] == a[i] * s,
    ensures
        (log_sum(a) + sum(a) * lg(s)) * s <= log_sum(b) <= (log_sum(a) + sum(a) * lg(s) + sum(a))
            * s,
    decreases a.len(),
{
    let m = lg(s);
    if a.len() > 0 {
        let t = a.drop_last();
        let w = a.last();
        lemma_scaled_logs_near(t, b.drop_last(), s);
        assert(b[b.len() - 1] == a[a.len() - 1] * s);
        lemma_xlg_scaled(w, s);
        let p = log_sum(t);
        let q = xlg(w);
        let u = sum(t);
        assert(((p + q) + (u + w) * m) * s == (p + u * m) * s + (q + w * m) * s)
            by (nonlinear_arith);
        assert(((p + q) + (u + w) * m + (u + w)) * s == (p + u * m + u) * s + (q + w * m + w) * s)
            by (nonlinear_arith);
    } else {
        assert(0 * m == 0 && 0 * s == 0) by (nonlinear_arith);
    }
}

proof fn lemma_rescaled_logs_near(rows: Seq<(u64, nat)>, s: nat)
    requires
        s > 0,
    ensures
        (weight_logs(rows) + total_weight(rows) * lg(s)) * s <= weight_logs(rescaled(rows, s)) <= (
        weight_logs(rows) + total_weight(rows) * lg(s) + total_weight(rows)) * s,
{
    let a = rows.map_values(|r: (u64, nat)| r.1);
    let b = rescaled(rows, s).map_values(|r: (u64, nat)| r.1);
    lemma_weight_logs_is_sum(rows);
    lemma_weight_logs_is_sum(rescaled(rows, s));
    lemma_scaled_logs_near(a, b, s);
}

/// The sums over secrets as sums over their weights.
pub proof fn lemma_weight_logs_is_sum(rows: Seq<(u64, nat)>)
    ensures
        weight_logs(rows) == log_sum(rows.map_values(|r: (u64, nat)| r.1)),
        total_weight(rows) == sum(rows.map_values(|r: (u64, nat)| r.1)),
    decreases rows.len(),
{
    let f = |r: (u64, nat)| r.1;
    if rows.len() > 0 {
        lemma_weight_logs_is_sum(rows.drop_last());
        assert(rows.map_values(f).drop_last() =~= rows.drop_last().map_values(f));
    }
}

/// Quotients of numbers that differ by at most the divisor differ by at most one.
proof fn lemma_near_quotient(m: int, k: int, w: int, s: int)
    requires
        m >= 0,
        w > 0,
        s > 0,
        (m - w) * s <= k <= (m + w) * s,
    ensures
        within_one(m / w, k / (w * s)),
{
    let d = w * s;
    assert(d > 0) by (nonlinear_arith)
        requires
            w > 0,
            s > 0,
            d == w * s,
    ;
    lemma_scaled_quotient(m, w, s);
    let n = m * s;
    assert((m - w) * s == n - d && (m + w) * s == n + d) by (nonlinear_arith)
        requires
            n == m * s,
            d == w * s,
    ;
    vstd::arithmetic::div_mod::lemma_div_is_ordered(n - d, k, d);
    vstd::arithmetic::div_mod::lemma_div_is_ordered(k, n + d, d);
    vstd::arithmetic::div_mod::lemma_div_plus_one(n, d);
    vstd::arithmetic::div_mod::lemma_div_minus_one(n, d);
}

proof fn lemma_rescaled_bits(rows: Seq<(u64, nat)>, s: nat)
    requires
        total_weight(rows) > 0,
        s > 0,
    ensures
        ({
            let a = leakage_of(partition_of(rows));
            let b = leakage_of(partition_of(rescaled(rows, s)));
            &&& within_one(a.shannon_bits, b.shannon_bits)
            &&& within_one(a.min_entropy_bits, b.min_entropy_bits)
            &&& within_one(a.residual_bits, b.residual_bits)
            &&& within_one(a.secret_bits, b.secret_bits)
        }),
{
    let p = partition_of(rows);
    let q = partition_of(rescaled(rows, s));
    let w = p.total as int;
    let f = s as int;
    let m = lg(s) as int;
    lemma_rescaled(rows, s, 0);
    assert forall|i: int| 0 <= i < p.values.len() implies #[trigger] q.weights[i] == p.weights[i]
        * s by {
        lemma_rescaled(rows, s, p.values[i]);
    }
    assert forall|i: int| 0 <= i < p.values.len() implies #[trigger] q.maxes[i] == p.maxes[i]
        * s by {
        lemma_rescaled(rows, s, p.values[i]);
    }
    lemma_scaled_sums(p.maxes, q.maxes, s);
    lemma_scaled_logs_near(p.weights, q.weights, s);
    lemma_rescaled_logs_near(rows, s);
    lemma_xlg_scaled(p.total, s);
    lemma_class_weights_total(rows);
    lemma_masses(rows);
    let x = xlg(p.total) as int;
    let y = log_sum(p.weights) as int;
    let z = p.logs as int;
    assert((x + w * m) * f - (y + w * m + w) * f == ((x - y) - w) * f) by (nonlinear_arith);
    assert((x + w * m + w) * f - (y + w * m) * f == ((x - y) + w) * f) by (nonlinear_arith);
    assert((y + w * m) * f - (z + w * m + w) * f == ((y - z) - w) * f) by (nonlinear_arith);
    assert((y + w * m + w) * f - (z + w * m) * f == ((y - z) + w) * f) by (nonlinear_arith);
    assert((x + w * m) * f - (z + w * m + w) * f == ((x - z) - w) * f) by (nonlinear_arith);
    assert((x + w * m + w) * f - (z + w * m) * f == ((x - z) + w) * f) by (nonlinear_arith);
    lemma_near_quotient(shannon_mass(p), shannon_mass(q), w, f);
    lemma_near_quotient(residual_mass(p), residual_mass(q), w, f);
    lemma_near_quotient(secret_mass(p), secret_mass(q), w, f);
    lemma_max_positive(rows);
    lemma_lg_product(p.max_secret, s);
    lemma_lg_product(sum(p.maxes), s);
}

/// Weights are relative: multiplying all of them by one number leaves the chance
/// of a correct guess as it is and moves no quantity in bits by more than one unit;
/// where that number is a power of two these stay as they are, to the last unit.
pub proof fn law_rescaling(rows: Seq<(u64, nat)>, s: nat)
    requires
        total_weight(rows) > 0,
        s > 0,
    ensures
        ({
            let a = leakage_of(partition_of(rows));
            let b = leakage_of(partition_of(rescaled(rows, s)));
            &&& b.guess_probability == (a.guess_probability.0 * s, a.guess_probability.1 * s)
            &&& b.num_classes == a.num_classes
            &&& b.largest_class_weight == a.largest_class_weight * s
            &&& within_one(a.shannon_bits, b.shannon_bits)
            &&& within_one(a.min_entropy_bits, b.min_entropy_bits)
            &&& within_one(a.residual_bits, b.residual_bits)
            &&& within_one(a.secret_bits, b.secret_bits)
            &&& forall|e: nat|
                s == #[trigger] pow2(e) ==> {
                    &&& b.shannon_bits == a.shannon_bits
                    &&& b.min_entropy_bits == a.min_entropy_bits
                    &&& b.residual_bits == a.residual_bits
                    &&& b.secret_bits == a.secret_bits
                    &&& b.revealed == (a.revealed.0 * s, a.revealed.1 * s)
                }
        }),
{
    let p = partition_of(rows);
    let q = partition_of(rescaled(rows, s));
    let a = leakage_of(p);
    let b = leakage_of(q);
    lemma_rescaled(rows, s, 0);
    assert forall|i: int| 0 <= i < p.values.len() implies #[trigger] q.weights[i] == p.weights[i]
        * s by {
        lemma_rescaled(rows, s, p.values[i]);
    }
    assert forall|i: int| 0 <= i < p.values.len() implies #[trigger] q.maxes[i] == p.maxes[i]
        * s by {
        lemma_rescaled(rows, s, p.values[i]);
    }
    lemma_scaled_sums(p.weights, q.weights, s);
    lemma_scaled_sums(p.maxes, q.maxes, s);
    lemma_rescaled_bits(rows, s);
    assert forall|e: nat| s == #[trigger] pow2(e) implies b.shannon_bits == a.shannon_bits
        && b.min_entropy_bits == a.min_entropy_bits && b.residual_bits == a.residual_bits
        && b.secret_bits == a.secret_bits && b.revealed == (
        a.revealed.0 * s,
        a.revealed.1 * s,
    ) by {
        lemma_scaled_logs(p.weights, q.weights, e);
        lemma_rescaled_logs(rows, e);
        lemma_xlg_shift(p.total, e);
        lemma_class_weights_total(rows);
        let x = xlg(p.total) as int;
        let y = log_sum(p.weights) as int;
        let z = p.logs as int;
        assert(shannon_mass(q) == shannon_mass(p) * s) by {
            assert((x - y) * s == x * s - y * s) by (nonlinear_arith);
        }
        assert(residual_mass(q) == residual_mass(p) * s) by {
            assert((y - z) * s == y * s - z * s) by (nonlinear_arith);
        }
        assert(secret_mass(q) == secret_mass(p) * s) by {
            assert((x - z) * s == x * s - z * s) by (nonlinear_arith);
        }
        let w = p.total as int;
        lemma_masses(rows);
        lemma_scaled_quotient(shannon_mass(p), w, s as int);
        lemma_scaled_quotient(residual_mass(p), w, s as int);
        lemma_scaled_quotient(secret_mass(p), w, s as int);
        lemma_max_positive(rows);
        lemma_lg_shift(p.max_secret, e);
        lemma_lg_shift(sum(p.maxes), e);
    }
}

// ---------------------------------------------------------------------------
// Joined and reordered sweeps
// ---------------------------------------------------------------------------

/// What a joined sweep holds of one class follows from what its parts hold of it.
proof fn lemma_joined_class(a: Seq<(u64, nat)>, b: Seq<(u64, nat)>, c: u64)
    ensures
        class_weight(a + b, c) == class_weight(a, c) + class_weight(b, c),
        class_max(a + b, c) == larger(class_max(a, c), class_max(b, c)),
        class_logs(a + b, c) == class_logs(a, c) + class_logs(b, c),
        occurs(a + b, c) <==> occurs(a, c) || occurs(b, c),
    decreases b.len(),
{
    let j = a + b;
    if b.len() == 0 {
        assert(j =~= a);
    } else {
        assert(j.drop_last() =~= a + b.drop_last());
        lemma_joined_class(a, b.drop_last(), c);
    }
    assert(occurs(j, c) <==> occurs(a, c) || occurs(b, c)) by {
        if occurs(j, c) {
            let i = choose|i: int| 0 <= i < j.len() && (#[trigger] j[i]).0 == c;
            if i < a.len() {
                assert(a[i].0 == c);
            } else {
                assert(b[i - a.len()].0 == c);
            }
        }
        if occurs(a, c) {
            let i = choose|i: int| 0 <= i < a.len() && (#[trigger] a[i]).0 == c;
            assert(j[i].0 == c);
        }
        if occurs(b, c) {
            let i = choose|i: int| 0 <= i < b.len() && (#[trigger] b[i]).0 == c;
            assert(j[a.len() + i].0 == c);
        }
    }
}

proof fn lemma_joined_totals(a: Seq<(u64, nat)>, b: Seq<(u64, nat)>)
    ensures
        total_weight(a + b) == total_weight(a) + total_weight(b),
        max_weight(a + b) == larger(max_weight(a), max_weight(b)),
        weight_logs(a + b) == weight_logs(a) + weight_logs(b),
    decreases b.len(),
{
    if b.len() == 0 {
        assert(a + b =~= a);
    } else {
        assert((a + b).drop_last() =~= a + b.drop_last());
        lemma_joined_totals(a, b.drop_last());
    }
}

/// The partition of two sweeps one after the other: its cycle counts are those of
/// either, weights add up class by class and in total, and the largest weights are
/// the larger ones.
pub proof fn law_joined_sweeps(a: Seq<(u64, nat)>, b: Seq<(u64, nat)>)
    ensures
        ({
            let p = partition_of(a + b);
            &&& increasing(p.values)
            &&& forall|c: u64| #[trigger]
                p.values.contains(c) <==> partition_of(a).values.contains(c) || partition_of(
                    b,
                ).values.contains(c)
            &&& forall|i: int|
                0 <= i < p.values.len() ==> {
                    let c = #[trigger] p.values[i];
                    &&& p.weights[i] == class_weight(a, c) + class_weight(b, c)
                    &&& p.maxes[i] == larger(class_max(a, c), class_max(b, c))
                    &&& p.class_logs[i] == class_logs(a, c) + class_logs(b, c)
                }
            &&& p.total == total_weight(a) + total_weight(b)
            &&& p.max_secret == larger(max_weight(a), max_weight(b))
            &&& p.logs == weight_logs(a) + weight_logs(b)
            &&& p.secrets == a.len() + b.len()
        }),
{
    let p = partition_of(a + b);
    lemma_joined_totals(a, b);
    lemma_cycle_values(a);
    lemma_cycle_values(b);
    lemma_cycle_values(a + b);
    assert forall|c: u64| #[trigger] p.values.contains(c) <==> partition_of(a).values.contains(c)
        || partition_of(b).values.contains(c) by {
        lemma_joined_class(a, b, c);
    }
    assert forall|i: int| 0 <= i < p.values.len() implies {
        let c = #[trigger] p.values[i];
        &&& p.weights[i] == class_weight(a, c) + class_weight(b, c)
        &&& p.maxes[i] == larger(class_max(a, c), class_max(b, c))
        &&& p.class_logs[i] == class_logs(a, c) + class_logs(b, c)
    } by {
        lemma_joined_class(a, b, p.values[i]);
    }
}

/// What a sweep holds of one class does not depend on the order of its secrets.
pub proof fn lemma_reordered(a: Seq<(u64, nat)>, b: Seq<(u64, nat)>, c: u64)
    requires
        a.to_multiset() == b.to_multiset(),
    ensures
        class_weight(a, c) == class_weight(b, c),
        class_max(a, c) == class_max(b, c),
        class_logs(a, c) == class_logs(b, c),
        occurs(a, c) <==> occurs(b, c),
        total_weight(a) == total_weight(b),
        max_weight(a) == max_weight(b),
        weight_logs(a) == weight_logs(b),
        a.len() == b.len(),
    decreases a.len(),
{
    a.to_multiset_ensures();
    b.to_multiset_ensures();
    assert(a.len() == b.len());
    if a.len() > 0 {
        let x = a.last();
        let s = a.drop_last();
        assert(a[a.len() - 1] == x);
        assert(a.contains(x));
        assert(a.to_multiset().count(x) > 0);
        assert(b.contains(x));
        let k = b.index_of(x);
        let u = b.take(k);
        let v = b.skip(k + 1);
        let t = u + v;
        assert(b.remove(k) =~= t);
        assert(a.remove(a.len() - 1) =~= s);
        assert(s.to_multiset() =~= a.to_multiset().remove(x));
        assert(t.to_multiset() =~= b.to_multiset().remove(x));
        lemma_reordered(s, t, c);
        let one = seq![x];
        assert(a =~= s + one);
        assert(b =~= u + one + v);
        lemma_joined_class(s, one, c);
        lemma_joined_class(u, one, c);
        lemma_joined_class(u + one, v, c);
        lemma_joined_class(u, v, c);
        lemma_joined_totals(s, one);
        lemma_joined_totals(u, one);
        lemma_joined_totals(u + one, v);
        lemma_joined_totals(u, v);
    } else {
        assert(a =~= b);
    }
}

/// The partition of a sweep, and with it its leakage, does not depend on the order
/// of its rows.
pub proof fn law_row_order(a: Seq<(u64, nat)>, b: Seq<(u64, nat)>)
    requires
        a.to_multiset() == b.to_multiset(),
    ensures
        partition_of(a) == partition_of(b),
{
    let p = partition_of(a);
    let q = partition_of(b);
    lemma_reordered(a, b, 0);
    lemma_cycle_values(a);
    lemma_cycle_values(b);
    assert forall|c: u64| #[trigger] p.values.contains(c) <==> q.values.contains(c) by {
        lemma_reordered(a, b, c);
    }
    lemma_increasing_unique(p.values, q.values);
    assert forall|i: int| 0 <= i < p.values.len() implies p.weights[i] == q.weights[i]
        && p.maxes[i] == q.maxes[i] && p.class_logs[i] == q.class_logs[i] by {
        lemma_reordered(a, b, p.values[i]);
    }
    assert(p.weights =~= q.weights);
    assert(p.maxes =~= q.maxes);
    assert(p.class_logs =~= q.class_logs);
}

/// The sums of `xlg` over the secrets of each class add up to the sum over all
/// secrets, so that the entropy that remains is a sum over classes.
pub proof fn law_class_logs(rows: Seq<(u64, nat)>)
    ensures
        sum(partition_of(rows).class_logs) == partition_of(rows).logs,
    decreases rows.len(),
{
    if rows.len() > 0 {
        let t = rows.drop_last();
        let c = rows.last().0;
        let vals = cycle_values(t);
        let f1 = |x: u64| class_logs(t, x);
        let f2 = |x: u64| class_logs(rows, x);
        law_class_logs(t);
        lemma_cycle_values(t);
        lemma_put(vals, c);
        assert forall|x: u64| x != c implies #[trigger] f2(x) == f1(x) by {}
        lemma_sum_over_bump(vals, c, f1, f2, xlg(rows.last().1));
        lemma_sum_over_is_sum(vals, f1);
        lemma_sum_over_is_sum(put(vals, c), f2);
        if !vals.contains(c) {
            lemma_sum_over_put(vals, c, f2);
            lemma_class_absent(t, c);
        }
    }
}

// ---------------------------------------------------------------------------
// Guessing
// ---------------------------------------------------------------------------

/// The weight of the secrets, given by their places, that a strategy names
/// correctly when it sees their cycles.
pub open spec fn success(rows: Seq<(u64, nat)>, strategy: spec_fn(u64) -> int) -> nat
    decreases rows.len(),
{
    if rows.len() == 0 {
        0
    } else {
        success(rows.drop_last(), strategy) + (if strategy(rows.last().0) == rows.len() - 1 {
            rows.last().1
        } else {
            0
        })
    }
}

/// What a strategy wins in the class with `c` cycles.
spec fn hit(rows: Seq<(u64, nat)>, strategy: spec_fn(u64) -> int, c: u64) -> nat {
    let i = strategy(c);
    if 0 <= i < rows.len() && rows[i].0 == c {
        rows[i].1
    } else {
        0
    }
}

proof fn lemma_success(rows: Seq<(u64, nat)>, strategy: spec_fn(u64) -> int)
    ensures
        success(rows, strategy) == sum_over(cycle_values(rows), |c: u64| hit(rows, strategy, c)),
    decreases rows.len(),
{
    if rows.len() > 0 {
        let t = rows.drop_last();
        let c = rows.last().0;
        let vals = cycle_values(t);
        let f1 = |x: u64| hit(t, strategy, x);
        let f2 = |x: u64| hit(rows, strategy, x);
        let d = if strategy(c) == rows.len() - 1 {
            rows.last().1
        } else {
            0
        };
        lemma_success(t, strategy);
        lemma_cycle_values(t);
        lemma_put(vals, c);
        assert forall|x: u64| x != c implies #[trigger] f2(x) == f1(x) by {}
        assert(f2(c) == f1(c) + d);
        lemma_sum_over_bump(vals, c, f1, f2, d);
        if !vals.contains(c) {
            lemma_sum_over_put(vals, c, f2);
            assert(f1(c) == 0) by {
                let i = strategy(c);
                if 0 <= i < t.len() && t[i].0 == c {
                    assert(occurs(t, c));
                }
            }
        }
    }
}

proof fn lemma_sum_over_ordered(
    vals: Seq<u64>,
    f: spec_fn(u64) -> nat,
    g: spec_fn(u64) -> nat,
)
    requires
        forall|i: int| 0 <= i < vals.len() ==> f(#[trigger] vals[i]) <= g(vals[i]),
    ensures
        sum_over(vals, f) <= sum_over(vals, g),
    decreases vals.len(),
{
    if vals.len() > 0 {
        let t = vals.drop_last();
        assert forall|i: int| 0 <= i < t.len() implies f(#[trigger] t[i]) <= g(t[i]) by {
            assert(t[i] == vals[i]);
        }
        lemma_sum_over_ordered(t, f, g);
        assert(f(vals[vals.len() - 1]) <= g(vals[vals.len() - 1]));
    }
}

/// No strategy names the secret with a greater probability than the one reported.
pub proof fn law_guess_is_bound(rows: Seq<(u64, nat)>, strategy: spec_fn(u64) -> int)
    ensures
        success(rows, strategy) <= leakage_of(partition_of(rows)).guess_probability.0,
{
    let vals = cycle_values(rows);
    let f = |c: u64| hit(rows, strategy, c);
    let g = |c: u64| class_max(rows, c);
    lemma_success(rows, strategy);
    assert forall|i: int| 0 <= i < vals.len() implies f(#[trigger] vals[i]) <= g(vals[i]) by {
        let k = strategy(vals[i]);
        if 0 <= k < rows.len() && rows[k].0 == vals[i] {
            lemma_row_bounds(rows, k);
        }
    }
    lemma_sum_over_ordered(vals, f, g);
    lemma_sum_over_is_sum(vals, g);
}

/// Some secret of a class has the largest weight in it.
proof fn lemma_class_max_attained(rows: Seq<(u64, nat)>, c: u64)
    requires
        occurs(rows, c),
    ensures
        exists|i: int|
            0 <= i < rows.len() && (#[trigger] rows[i]).0 == c && rows[i].1 == class_max(rows, c),
    decreases rows.len(),
{
    let t = rows.drop_last();
    let last = rows.len() - 1;
    if rows[last].0 == c && rows[last].1 == class_max(rows, c) {
    } else if occurs(t, c) {
        lemma_class_max_attained(t, c);
        let i = choose|i: int|
            0 <= i < t.len() && (#[trigger] t[i]).0 == c && t[i].1 == class_max(t, c);
        assert(rows[i].0 == c && rows[i].1 == class_max(rows, c));
    } else {
        let i = choose|i: int| 0 <= i < rows.len() && (#[trigger] rows[i]).0 == c;
        if i < last {
            assert(t[i].0 == c);
        }
        lemma_class_absent(t, c);
    }
}

/// The strategy that names a likeliest secret of each class.
pub open spec fn best_strategy(rows: Seq<(u64, nat)>) -> spec_fn(u64) -> int {
    |c: u64|
        choose|i: int|
            0 <= i < rows.len() && (#[trigger] rows[i]).0 == c && rows[i].1 == class_max(rows, c)
}

/// Naming a likeliest secret of each class attains the probability reported.
pub proof fn law_guess_is_attained(rows: Seq<(u64, nat)>)
    ensures
        success(rows, best_strategy(rows)) == leakage_of(partition_of(rows)).guess_probability.0,
{
    let vals = cycle_values(rows);
    let strategy = best_strategy(rows);
    let f = |c: u64| hit(rows, strategy, c);
    let g = |c: u64| class_max(rows, c);
    lemma_success(rows, strategy);
    lemma_cycle_values(rows);
    assert forall|i: int| 0 <= i < vals.len() implies f(#[trigger] vals[i]) >= g(vals[i]) by {
        assert(vals.contains(vals[i]));
        lemma_class_max_attained(rows, vals[i]);
    }
    lemma_sum_over_ordered(vals, g, f);
    lemma_sum_over_is_sum(vals, g);
    law_guess_is_bound(rows, strategy);
}

/// No prior makes the min-entropy leakage greater than the logarithm of the number
/// of distinct cycle counts, up to one unit of rounding.
pub proof fn law_class_count_bounds(rows: Seq<(u64, nat)>)
    requires
        total_weight(rows) > 0,
    ensures
        ({
            let p = partition_of(rows);
            let k = cycle_values(rows).len();
            &&& sum(p.maxes) <= k * p.max_secret
            &&& leakage_of(p).min_entropy_bits <= lg(k) + 1
        }),
{
    let p = partition_of(rows);
    let k = cycle_values(rows).len();
    lemma_max_positive(rows);
    lemma_maxes_bound(rows, p.values);
    lemma_masses(rows);
    assert(k > 0) by (nonlinear_arith)
        requires
            0 < p.max_secret <= k * p.max_secret,
    ;
    lemma_lg_monotone(sum(p.maxes), k * p.max_secret);
    lemma_lg_product(k, p.max_secret);
}

proof fn lemma_maxes_bound(rows: Seq<(u64, nat)>, vals: Seq<u64>)
    ensures
        sum(vals.map_values(|c: u64| class_max(rows, c))) <= vals.len() * max_weight(rows),
    decreases vals.len(),
{
    let f = |c: u64| class_max(rows, c);
    let top = max_weight(rows);
    if vals.len() > 0 {
        let t = vals.drop_last();
        lemma_maxes_bound(rows, t);
        assert(vals.map_values(f).drop_last() =~= t.map_values(f));
        lemma_class_max_bounds(rows, vals.last());
        let n = t.len();
        assert((n + 1) * top == n * top + top) by (nonlinear_arith);
    } else {
        assert(0 * top == 0) by (nonlinear_arith);
    }
}

// ---------------------------------------------------------------------------
// Accuracy
// ---------------------------------------------------------------------------

/// A weight to the power of itself, to the power of `LOG_ONE`: its binary logarithm
/// is what `xlg` stands for, without rounding.
pub open spec fn self_power(w: nat) -> nat {
    pow(w as int, w * LOG_ONE as nat) as nat
}

/// The product of the self-powers of several weights.
pub open spec fn self_powers(s: Seq<nat>) -> nat
    decreases s.len(),
{
    if s.len() == 0 {
        1
    } else {
        self_powers(s.drop_last()) * self_power(s.last())
    }
}

pub proof fn lemma_self_power(w: nat)
    ensures
        pow2(xlg(w)) <= self_power(w) <= pow2(xlg(w) + w),
{
    let one = LOG_ONE as nat;
    if w == 0 {
        lemma2_to64();
        vstd::arithmetic::power::lemma_pow0(0);
        let l = lg(0);
        assert(0 * l == 0) by (nonlinear_arith);
        assert(0 * one == 0) by (nonlinear_arith);
    } else {
        let l = lg(w);
        let x = pow(w as int, one);
        lemma_lg_bounds(w);
        vstd::arithmetic::power::lemma_pow_multiplies(w as int, one, w);
        assert(one * w == w * one) by (nonlinear_arith);
        vstd::arithmetic::power2::lemma_pow2(l);
        vstd::arithmetic::power2::lemma_pow2(l + 1);
        vstd::arithmetic::power2::lemma_pow2(l * w);
        vstd::arithmetic::power2::lemma_pow2((l + 1) * w);
        vstd::arithmetic::power::lemma_pow_multiplies(2, l, w);
        vstd::arithmetic::power::lemma_pow_multiplies(2, l + 1, w);
        lemma_pow_base_monotone(pow2(l) as int, x, w);
        lemma_pow_base_monotone(x, pow2(l + 1) as int, w);
        assert(l * w == w * l) by (nonlinear_arith);
        assert((l + 1) * w == w * l + w) by (nonlinear_arith);
    }
}

pub proof fn lemma_self_powers(s: Seq<nat>)
    ensures
        pow2(log_sum(s)) <= self_powers(s) <= pow2(log_sum(s) + sum(s)),
    decreases s.len(),
{
    lemma2_to64();
    if s.len() > 0 {
        let t = s.drop_last();
        let w = s.last();
        lemma_self_powers(t);
        lemma_self_power(w);
        lemma_pow2_adds(log_sum(t), xlg(w));
        lemma_pow2_adds(log_sum(t) + sum(t), xlg(w) + w);
        vstd::arithmetic::mul::lemma_mul_upper_bound(
            pow2(log_sum(t)) as int,
            self_powers(t) as int,
            pow2(xlg(w)) as int,
            self_power(w) as int,
        );
        vstd::arithmetic::mul::lemma_mul_upper_bound(
            self_powers(t) as int,
            pow2(log_sum(t) + sum(t)) as int,
            self_power(w) as int,
            pow2(xlg(w) + w) as int,
        );
    }
}

/// Two sums of `xlg` over parts of the same weight, against the self-powers they stand for.
pub proof fn lemma_quotient(x: nat, y: nat, w: nat, a: nat, b: nat)
    requires
        x >= y,
        pow2(x) <= a <= pow2(x + w),
        pow2(y) <= b <= pow2(y + w),
    ensures
        a <= pow2((x - y + w) as nat) * b,
        pow2((x - y) as nat) * b <= a * pow2(w),
{
    let m = (x - y) as nat;
    let u = pow2(m + w) as int;
    let v = pow2(y) as int;
    lemma_pow2_adds(m + w, y);
    assert(x + w == m + w + y);
    lemma_pow2_pos(m + w);
    vstd::arithmetic::mul::lemma_mul_upper_bound(v, b as int, u, u);
    assert(v * u == u * v && b * u == u * b) by (nonlinear_arith);
    let s = pow2(m) as int;
    let t = pow2(y + w) as int;
    lemma_pow2_adds(m, y + w);
    lemma_pow2_adds(x, w);
    lemma_pow2_pos(m);
    lemma_pow2_pos(w);
    assert(m + (y + w) == x + w);
    vstd::arithmetic::mul::lemma_mul_upper_bound(b as int, t, s, s);
    assert(b * s == s * b && t * s == s * t) by (nonlinear_arith);
    vstd::arithmetic::mul::lemma_mul_upper_bound(
        pow2(x) as int,
        a as int,
        pow2(w) as int,
        pow2(w) as int,
    );
}

/// Rounding the logarithms down moves no quantity in bits by more than one unit in
/// either direction.
///
/// An entropy, times the total weight and `LOG_ONE`, is exactly the logarithm of a
/// quotient of products of self-powers: those of the whole, of the classes and of
/// the secrets. The law compares each such quotient with powers of two whose
/// exponents are the mass that stands for it and the total weight. Min-entropy
/// leakage, times `LOG_ONE`, is the logarithm of a quotient of two powers, and is
/// compared in the same way.
pub proof fn law_accuracy(rows: Seq<(u64, nat)>)
    ensures
        ({
            let p = partition_of(rows);
            let whole = self_power(p.total);
            let classes = self_powers(p.weights);
            let secrets = self_powers(rows.map_values(|r: (u64, nat)| r.1));
            let unit = pow2(p.total);
            &&& shannon_mass(p) >= 0 && residual_mass(p) >= 0 && secret_mass(p) >= 0
            &&& whole <= pow2((shannon_mass(p) + p.total) as nat) * classes
            &&& pow2(shannon_mass(p) as nat) * classes <= whole * unit
            &&& classes <= pow2((residual_mass(p) + p.total) as nat) * secrets
            &&& pow2(residual_mass(p) as nat) * secrets <= classes * unit
            &&& whole <= pow2((secret_mass(p) + p.total) as nat) * secrets
            &&& pow2(secret_mass(p) as nat) * secrets <= whole * unit
        }),
        ({
            let p = partition_of(rows);
            let best = pow(sum(p.maxes) as int, LOG_ONE as nat);
            let base = pow(p.max_secret as int, LOG_ONE as nat);
            let bits = leakage_of(p).min_entropy_bits;
            &&& bits >= 0
            &&& best <= pow2((bits + 1) as nat) * base
            &&& pow2(bits as nat) * base <= best * 2
        }),
{
    let p = partition_of(rows);
    let ws = rows.map_values(|r: (u64, nat)| r.1);
    let w = p.total;
    lemma_masses(rows);
    lemma_class_weights_total(rows);
    lemma_weight_logs_is_sum(rows);
    lemma_self_power(w);
    lemma_self_powers(p.weights);
    lemma_self_powers(ws);
    lemma_quotient(xlg(w), log_sum(p.weights), w, self_power(w), self_powers(p.weights));
    lemma_quotient(log_sum(p.weights), p.logs, w, self_powers(p.weights), self_powers(ws));
    lemma_quotient(xlg(w), p.logs, w, self_power(w), self_powers(ws));
    let top = p.max_secret;
    let s = sum(p.maxes);
    lemma_lg_monotone(top, s);
    lemma2_to64();
    if w == 0 {
        lemma_class_max_bounds(rows, 0);
        lemma_pow_base_monotone(0, 0, LOG_ONE as nat);
        assert(s == 0 && top == 0);
        let z = pow(0, LOG_ONE as nat);
        assert(leakage_of(p).min_entropy_bits == 0);
        assert(pow2((0 + 1) as nat) * z == 2 * z) by {
            assert(pow2(1) == 2);
        }
        assert(pow2(0) * z == z) by {
            assert(pow2(0) == 1);
        }
    } else {
        lemma_max_positive(rows);
        lemma_lg_bounds(top);
        lemma_lg_bounds(s);
        lemma_quotient(
            lg(s),
            lg(top),
            1,
            pow(s as int, LOG_ONE as nat) as nat,
            pow(top as int, LOG_ONE as nat) as nat,
        );
    }
}

} // verus!
