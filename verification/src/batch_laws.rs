//! What holds of every batch.

use crate::binary_log::{
    lemma_lg_bounds, lemma_lg_monotone, lemma_lg_one, lemma_lg_pow2, lemma_lg_product,
    lemma_lg_shift, lg, LOG_ONE,
};
use crate::laws::{
    law_leakage_bounds, law_row_order, lemma_quotient, lemma_relabelled, lemma_relabelled_totals,
    lemma_reordered, lemma_scaled_quotient, lemma_self_power, lemma_self_powers, order_preserving,
    relabelled, self_power, self_powers, uniform,
};
use crate::leakage::{
    leakage_of, lemma_class_max_bounds, lemma_class_weights_total, lemma_log_sum_is_sum_over,
    lemma_masses, lemma_max_attained, lemma_max_positive, lemma_regroup, lemma_row_bounds,
    lemma_sum_over_is_sum, log_sum, row_sum, shannon_mass, sum, sum_over,
};
use crate::partition::{
    class_max, class_weight, cycle_values, increasing, lemma_class_absent, lemma_cycle_values,
    max_weight, occurs, partition_of, total_weight, weight_logs, xlg,
};
use crate::scale::{
    batch_bits, batch_marginal, batch_mass, batch_min_entropy, batch_peak, lemma_batch_support,
    lemma_batch_total, lemma_batch_unfold, lemma_costs_between, lemma_regroup_peak, lemma_swap_sums,
    lowest, peak_over, row_peak, spread, upto,
};
use crate::convexity::lemma_xlg_convex;
use vstd::arithmetic::power2::{lemma2_to64, lemma_pow2, pow2};
use vstd::arithmetic::power::{
    lemma_pow0, lemma_pow1, lemma_pow_multiplies, lemma_pow_positive, pow,
};
use vstd::prelude::*;

verus! {

// ---------------------------------------------------------------------------
// Batches of one item
// ---------------------------------------------------------------------------

/// The weight and the largest weight of a class, as sums and maxima over all secrets.
proof fn lemma_class_as_rows(
    rows: Seq<(u64, nat)>,
    c0: int,
    g: spec_fn(u64) -> nat,
    c: u64,
)
    requires
        forall|x: u64| #[trigger] g(x) == if x == c0 {
            1nat
        } else {
            0nat
        },
        c == c0,
    ensures
        row_sum(rows, g) == class_weight(rows, c),
        row_peak(rows, g) == class_max(rows, c),
    decreases rows.len(),
{
    if rows.len() > 0 {
        lemma_class_as_rows(rows.drop_last(), c0, g, c);
        let w = rows.last().1;
        let x = g(rows.last().0);
        assert(w * 1 == w && w * 0 == 0) by (nonlinear_arith);
    }
}

/// A batch of one item is its only secret.
pub proof fn lemma_one_item(rows: Seq<(u64, nat)>, low: u64, c: u64)
    ensures
        batch_mass(rows, low, 1, c - low) == class_weight(rows, c),
        batch_peak(rows, low, 1, c - low) == class_max(rows, c),
{
    let o = c - low;
    let g = |x: u64| batch_mass(rows, low, 0, o - (x - low));
    let h = |x: u64| batch_peak(rows, low, 0, o - (x - low));
    lemma_batch_unfold(rows, low, 1, o);
    assert forall|x: u64| #[trigger] g(x) == if x == c as int {
        1nat
    } else {
        0nat
    } by {}
    assert forall|x: u64| #[trigger] h(x) == if x == c as int {
        1nat
    } else {
        0nat
    } by {}
    lemma_class_as_rows(rows, c as int, g, c);
    lemma_class_as_rows(rows, c as int, h, c);
}

/// Summing over a range is summing over the values in it, where the rest is zero.
proof fn lemma_dense_sum(
    vals: Seq<u64>,
    low: u64,
    f: spec_fn(u64) -> nat,
    g: spec_fn(int) -> nat,
    m: int,
)
    requires
        m >= 0,
        low + m <= u64::MAX + 1,
        increasing(vals),
        forall|i: int| 0 <= i < vals.len() ==> low <= #[trigger] vals[i] < low + m,
        forall|o: int|
            0 <= o < m ==> #[trigger] g(o) == if vals.contains((low + o) as u64) {
                f((low + o) as u64)
            } else {
                0
            },
    ensures
        upto(g, m) == sum_over(vals, f),
    decreases m,
{
    if m == 0 {
        if vals.len() > 0 {
            assert(low <= vals[0] < low + m);
        }
    } else {
        let x = (low + m - 1) as u64;
        let n = vals.len() as int;
        if n > 0 && vals[n - 1] == x {
            let t = vals.drop_last();
            assert(vals.contains(x));
            assert(g(m - 1) == f(x));
            assert forall|i: int| 0 <= i < t.len() implies low <= #[trigger] t[i] < low + m - 1 by {
                assert(vals[i] < vals[n - 1]);
            }
            assert forall|o: int| 0 <= o < m - 1 implies #[trigger] g(o) == if t.contains(
                (low + o) as u64,
            ) {
                f((low + o) as u64)
            } else {
                0
            } by {
                let y = (low + o) as u64;
                if vals.contains(y) {
                    let k = vals.index_of(y);
                    assert(t[k] == y);
                }
                if t.contains(y) {
                    assert(vals[t.index_of(y)] == y);
                }
            }
            lemma_dense_sum(t, low, f, g, m - 1);
        } else {
            assert forall|i: int| 0 <= i < n implies low <= #[trigger] vals[i] < low + m - 1 by {
                if i < n - 1 {
                    assert(vals[i] < vals[n - 1]);
                }
            }
            assert(!vals.contains(x)) by {
                if vals.contains(x) {
                    assert(vals[vals.index_of(x)] == x);
                }
            }
            assert(g(m - 1) == 0);
            lemma_dense_sum(vals, low, f, g, m - 1);
        }
    }
}

/// A batch of one item leaks what the report says.
pub proof fn law_batch_of_one(rows: Seq<(u64, nat)>)
    requires
        total_weight(rows) > 0,
    ensures
        batch_bits(rows, 1) == leakage_of(partition_of(rows)).shannon_bits,
        batch_min_entropy(rows, 1) == leakage_of(partition_of(rows)).min_entropy_bits,
{
    let p = partition_of(rows);
    let vals = cycle_values(rows);
    let low = lowest(rows);
    let d = spread(rows);
    assert(rows.len() > 0);
    lemma_costs_between(rows);
    lemma_cycle_values(rows);
    lemma_pow1(total_weight(rows) as int);
    lemma_pow1(max_weight(rows) as int);
    let f = |c: u64| class_weight(rows, c) * lg(class_weight(rows, c));
    let g = |o: int| xlg(batch_mass(rows, low, 1, o));
    let f2 = |c: u64| class_max(rows, c);
    let g2 = |o: int| batch_peak(rows, low, 1, o);
    assert forall|i: int| 0 <= i < vals.len() implies low <= #[trigger] vals[i] < low + d + 1 by {
        if i > 0 {
            assert(vals[0] < vals[i]);
        }
        if i < vals.len() - 1 {
            assert(vals[i] < vals[vals.len() - 1]);
        }
    }
    assert forall|o: int| 0 <= o < d + 1 implies #[trigger] g(o) == (if vals.contains(
        (low + o) as u64,
    ) {
        f((low + o) as u64)
    } else {
        0
    }) by {
        let c = (low + o) as u64;
        assert(o == c - low);
        lemma_one_item(rows, low, c);
        if !vals.contains(c) {
            lemma_class_absent(rows, c);
            let l = lg(0);
            assert(0 * l == 0) by (nonlinear_arith);
        }
    }
    assert forall|o: int| 0 <= o < d + 1 implies #[trigger] g2(o) == (if vals.contains(
        (low + o) as u64,
    ) {
        f2((low + o) as u64)
    } else {
        0
    }) by {
        let c = (low + o) as u64;
        assert(o == c - low);
        lemma_one_item(rows, low, c);
        if !vals.contains(c) {
            lemma_class_absent(rows, c);
        }
    }
    lemma_dense_sum(vals, low, f, g, d + 1);
    lemma_dense_sum(vals, low, f2, g2, d + 1);
    lemma_log_sum_is_sum_over(rows, vals);
    lemma_sum_over_is_sum(vals, f2);
    assert(1 * d == d);
    lemma_masses(rows);
    lemma_lg_monotone(p.max_secret, sum(p.maxes));
}

/// A batch without items leaks nothing.
pub proof fn law_empty_batch(rows: Seq<(u64, nat)>)
    requires
        total_weight(rows) > 0,
    ensures
        batch_bits(rows, 0) == 0,
        batch_min_entropy(rows, 0) == 0,
{
    let low = lowest(rows);
    let d = spread(rows);
    let f = |o: int| xlg(batch_mass(rows, low, 0, o));
    let g = |o: int| batch_peak(rows, low, 0, o);
    lemma_pow0(total_weight(rows) as int);
    lemma_pow0(max_weight(rows) as int);
    lemma_lg_one();
    assert(0 * d == 0) by (nonlinear_arith);
    assert(upto(f, 0) == 0);
    assert(upto(f, 1) == upto(f, 0) + f(0));
    assert(upto(g, 0) == 0);
    assert(upto(g, 1) == upto(g, 0) + g(0));
    assert(g(0) == 1);
    assert(batch_mass(rows, low, 0, 0) == 1);
    assert(xlg(1) == 1 * lg(1));
    assert(f(0) == 0);
}

// ---------------------------------------------------------------------------
// Constant costs and constant offsets
// ---------------------------------------------------------------------------

proof fn lemma_row_peak_constant(rows: Seq<(u64, nat)>, g: spec_fn(u64) -> nat, x: nat)
    requires
        forall|i: int| 0 <= i < rows.len() ==> g((#[trigger] rows[i]).0) == x,
    ensures
        row_peak(rows, g) == max_weight(rows) * x,
    decreases rows.len(),
{
    if rows.len() > 0 {
        let t = rows.drop_last();
        assert forall|i: int| 0 <= i < t.len() implies g((#[trigger] t[i]).0) == x by {
            assert(t[i] == rows[i]);
        }
        lemma_row_peak_constant(t, g, x);
        assert(g(rows[rows.len() - 1].0) == x);
        let a = max_weight(t);
        let b = rows.last().1;
        if a < b {
            assert(a * x <= b * x) by (nonlinear_arith)
                requires
                    a < b,
            ;
        } else {
            assert(b * x <= a * x) by (nonlinear_arith)
                requires
                    b <= a,
            ;
        }
    } else {
        assert(0 * x == 0) by (nonlinear_arith);
    }
}

proof fn lemma_constant_peak(rows: Seq<(u64, nat)>, low: u64, n: nat)
    requires
        forall|i: int| 0 <= i < rows.len() ==> (#[trigger] rows[i]).0 == low,
    ensures
        batch_peak(rows, low, n, 0) == pow(max_weight(rows) as int, n),
    decreases n,
{
    let top = max_weight(rows) as int;
    if n == 0 {
        lemma_pow0(top);
    } else {
        let n1 = (n - 1) as nat;
        lemma_constant_peak(rows, low, n1);
        let x = batch_peak(rows, low, n1, 0);
        let g = |c: u64| batch_peak(rows, low, n1, 0 - (c - low));
        assert forall|i: int| 0 <= i < rows.len() implies g((#[trigger] rows[i]).0) == x by {
            assert(rows[i].0 == low);
        }
        lemma_row_peak_constant(rows, g, x);
        lemma_batch_unfold(rows, low, n, 0);
        reveal(pow);
    }
}

/// With one distinct cycle count nothing leaks at any batch size.
pub proof fn law_constant_batch(rows: Seq<(u64, nat)>, n: nat)
    requires
        total_weight(rows) > 0,
        cycle_values(rows).len() == 1,
    ensures
        batch_bits(rows, n) == 0,
        batch_min_entropy(rows, n) == 0,
{
    let low = lowest(rows);
    assert(rows.len() > 0);
    lemma_costs_between(rows);
    assert(spread(rows) == 0);
    assert(n * 0 == 0) by (nonlinear_arith);
    lemma_batch_total(rows, low, 0, n);
    let f = |o: int| batch_mass(rows, low, n, o);
    let g = |o: int| xlg(batch_mass(rows, low, n, o));
    let h = |o: int| batch_peak(rows, low, n, o);
    assert(upto(f, 0) == 0);
    assert(upto(f, 1) == upto(f, 0) + f(0));
    assert(upto(g, 0) == 0);
    assert(upto(g, 1) == upto(g, 0) + g(0));
    assert(upto(h, 0) == 0);
    assert(upto(h, 1) == upto(h, 0) + h(0));
    lemma_pow_positive(total_weight(rows) as int, n);
    assert forall|i: int| 0 <= i < rows.len() implies (#[trigger] rows[i]).0 == low by {}
    lemma_constant_peak(rows, low, n);
}

proof fn lemma_rows_relabelled(
    rows: Seq<(u64, nat)>,
    f: spec_fn(u64) -> u64,
    g: spec_fn(u64) -> nat,
    h: spec_fn(u64) -> nat,
)
    requires
        forall|i: int| 0 <= i < rows.len() ==> h(f((#[trigger] rows[i]).0)) == g(rows[i].0),
    ensures
        row_sum(relabelled(rows, f), h) == row_sum(rows, g),
        row_peak(relabelled(rows, f), h) == row_peak(rows, g),
    decreases rows.len(),
{
    if rows.len() > 0 {
        let t = rows.drop_last();
        assert(relabelled(rows, f).drop_last() =~= relabelled(t, f));
        assert forall|i: int| 0 <= i < t.len() implies h(f((#[trigger] t[i]).0)) == g(t[i].0) by {
            assert(t[i] == rows[i]);
        }
        lemma_rows_relabelled(t, f, g, h);
        assert(h(f(rows[rows.len() - 1].0)) == g(rows[rows.len() - 1].0));
    }
}

proof fn lemma_batch_shifted(
    rows: Seq<(u64, nat)>,
    f: spec_fn(u64) -> u64,
    d: u64,
    low: u64,
    n: nat,
    o: int,
)
    requires
        low + d <= u64::MAX,
        forall|i: int| 0 <= i < rows.len() ==> f((#[trigger] rows[i]).0) == rows[i].0 + d,
    ensures
        batch_mass(relabelled(rows, f), (low + d) as u64, n, o) == batch_mass(rows, low, n, o),
        batch_peak(relabelled(rows, f), (low + d) as u64, n, o) == batch_peak(rows, low, n, o),
    decreases n,
{
    if n > 0 {
        let q = relabelled(rows, f);
        let high = (low + d) as u64;
        let n1 = (n - 1) as nat;
        let g1 = |c: u64| batch_mass(rows, low, n1, o - (c - low));
        let h1 = |c: u64| batch_mass(q, high, n1, o - (c - high));
        let g2 = |c: u64| batch_peak(rows, low, n1, o - (c - low));
        let h2 = |c: u64| batch_peak(q, high, n1, o - (c - high));
        assert forall|i: int| 0 <= i < rows.len() implies h1(f((#[trigger] rows[i]).0)) == g1(
            rows[i].0,
        ) && h2(f(rows[i].0)) == g2(rows[i].0) by {
            lemma_batch_shifted(rows, f, d, low, n1, o - (rows[i].0 - low));
        }
        lemma_rows_relabelled(rows, f, g1, h1);
        lemma_rows_relabelled(rows, f, g2, h2);
        lemma_batch_unfold(rows, low, n, o);
        lemma_batch_unfold(q, high, n, o);
    }
}

/// A fixed number of cycles that every item takes does not change what a batch
/// leaks: only the distances from the least cost matter.
pub proof fn law_batch_offset(rows: Seq<(u64, nat)>, d: u64, n: nat)
    requires
        total_weight(rows) > 0,
        forall|i: int| 0 <= i < rows.len() ==> (#[trigger] rows[i]).0 + d <= u64::MAX,
    ensures
        batch_bits(relabelled(rows, |c: u64| (c + d) as u64), n) == batch_bits(rows, n),
        batch_min_entropy(relabelled(rows, |c: u64| (c + d) as u64), n) == batch_min_entropy(
            rows,
            n,
        ),
{
    let f = |c: u64| (c + d) as u64;
    let q = relabelled(rows, f);
    let vals = cycle_values(rows);
    let low = lowest(rows);
    assert(order_preserving(f, rows));
    lemma_relabelled(rows, f);
    lemma_relabelled_totals(rows, f);
    lemma_costs_between(rows);
    lemma_cycle_values(rows);
    let last = vals[vals.len() - 1];
    assert(vals.contains(last));
    assert(occurs(rows, last));
    let j = choose|j: int| 0 <= j < rows.len() && (#[trigger] rows[j]).0 == last;
    assert(rows[j].0 + d <= u64::MAX);
    assert(low <= rows[j].0);
    assert(lowest(q) == low + d);
    assert(spread(q) == spread(rows));
    let m = n * spread(rows) + 1;
    let g1 = |o: int| xlg(batch_mass(rows, low, n, o));
    let h1 = |o: int| xlg(batch_mass(q, lowest(q), n, o));
    let g2 = |o: int| batch_peak(rows, low, n, o);
    let h2 = |o: int| batch_peak(q, lowest(q), n, o);
    assert forall|i: int| 0 <= i < rows.len() implies f((#[trigger] rows[i]).0) == rows[i].0
        + d by {
        assert(rows[i].0 + d <= u64::MAX);
    }
    assert forall|o: int| #[trigger] h1(o) == g1(o) by {
        lemma_batch_shifted(rows, f, d, low, n, o);
    }
    assert forall|o: int| #[trigger] h2(o) == g2(o) by {
        lemma_batch_shifted(rows, f, d, low, n, o);
    }
    assert(h1 =~= g1);
    assert(h2 =~= g2);
}

// ---------------------------------------------------------------------------
// Batches one by one
// ---------------------------------------------------------------------------

/// Whether these are the places of the secrets of a batch.
pub open spec fn is_batch(rows: Seq<(u64, nat)>, batch: Seq<int>) -> bool {
    forall|i: int| 0 <= i < batch.len() ==> 0 <= #[trigger] batch[i] < rows.len()
}

/// The sum of the costs above `low` of the secrets of a batch.
pub open spec fn batch_cost(rows: Seq<(u64, nat)>, low: u64, batch: Seq<int>) -> int
    decreases batch.len(),
{
    if batch.len() == 0 {
        0
    } else {
        batch_cost(rows, low, batch.drop_last()) + (rows[batch.last()].0 - low)
    }
}

/// The product of the weights of the secrets of a batch.
pub open spec fn batch_weight(rows: Seq<(u64, nat)>, batch: Seq<int>) -> nat
    decreases batch.len(),
{
    if batch.len() == 0 {
        1
    } else {
        rows[batch.last()].1 * batch_weight(rows, batch.drop_last())
    }
}

proof fn lemma_row_peak_bounds(rows: Seq<(u64, nat)>, g: spec_fn(u64) -> nat, i: int)
    requires
        0 <= i < rows.len(),
    ensures
        rows[i].1 * g(rows[i].0) <= row_peak(rows, g),
    decreases rows.len(),
{
    if i < rows.len() - 1 {
        lemma_row_peak_bounds(rows.drop_last(), g, i);
    }
}

proof fn lemma_row_peak_attained(rows: Seq<(u64, nat)>, g: spec_fn(u64) -> nat) -> (i: int)
    requires
        row_peak(rows, g) > 0,
    ensures
        0 <= i < rows.len(),
        row_peak(rows, g) == rows[i].1 * g(rows[i].0),
    decreases rows.len(),
{
    let t = rows.drop_last();
    if row_peak(rows, g) == rows.last().1 * g(rows.last().0) {
        rows.len() - 1
    } else {
        lemma_row_peak_attained(t, g)
    }
}

/// No batch is likelier than the peak at its cost.
pub proof fn law_peak_bounds(rows: Seq<(u64, nat)>, low: u64, batch: Seq<int>)
    requires
        is_batch(rows, batch),
    ensures
        batch_weight(rows, batch) <= batch_peak(
            rows,
            low,
            batch.len(),
            batch_cost(rows, low, batch),
        ),
    decreases batch.len(),
{
    if batch.len() > 0 {
        let n = batch.len();
        let n1 = (n - 1) as nat;
        let t = batch.drop_last();
        let o = batch_cost(rows, low, batch);
        let i = batch[n - 1];
        assert forall|j: int| 0 <= j < t.len() implies 0 <= #[trigger] t[j] < rows.len() by {
            assert(t[j] == batch[j]);
        }
        law_peak_bounds(rows, low, t);
        let g = |c: u64| batch_peak(rows, low, n1, o - (c - low));
        lemma_batch_unfold(rows, low, n, o);
        lemma_row_peak_bounds(rows, g, i);
        let w = rows[i].1;
        let a = batch_weight(rows, t);
        let b = g(rows[i].0);
        assert(w * a <= w * b) by (nonlinear_arith)
            requires
                a <= b,
        ;
    }
}

/// Some batch attains the peak at each cost that any batch has.
pub proof fn law_peak_attained(rows: Seq<(u64, nat)>, low: u64, n: nat, o: int) -> (batch: Seq<int>)
    requires
        batch_peak(rows, low, n, o) > 0,
    ensures
        is_batch(rows, batch),
        batch.len() == n,
        batch_cost(rows, low, batch) == o,
        batch_weight(rows, batch) == batch_peak(rows, low, n, o),
    decreases n,
{
    if n == 0 {
        Seq::empty()
    } else {
        let n1 = (n - 1) as nat;
        let g = |c: u64| batch_peak(rows, low, n1, o - (c - low));
        lemma_batch_unfold(rows, low, n, o);
        let i = lemma_row_peak_attained(rows, g);
        let w = rows[i].1;
        let x = g(rows[i].0);
        assert(x > 0) by (nonlinear_arith)
            requires
                w * x > 0,
                x >= 0,
        ;
        let t = law_peak_attained(rows, low, n1, o - (rows[i].0 - low));
        let batch = t.push(i);
        assert(batch.drop_last() =~= t);
        batch
    }
}

// ---------------------------------------------------------------------------
// Bounds
// ---------------------------------------------------------------------------

proof fn lemma_upto_logs(f: spec_fn(int) -> nat, g: spec_fn(int) -> nat, m: int)
    requires
        forall|o: int| #[trigger] g(o) == xlg(f(o)),
    ensures
        upto(g, m) <= xlg(upto(f, m)),
    decreases m,
{
    if m > 0 {
        lemma_upto_logs(f, g, m - 1);
        let a = upto(f, m - 1);
        let b = f(m - 1);
        assert(g(m - 1) == xlg(b));
        lemma_lg_monotone(a, a + b);
        lemma_lg_monotone(b, a + b);
        let la = lg(a);
        let lb = lg(b);
        let l = lg(a + b);
        assert(a * la + b * lb <= (a + b) * l) by (nonlinear_arith)
            requires
                la <= l,
                lb <= l,
        ;
    }
}

proof fn lemma_upto_at_least(f: spec_fn(int) -> nat, m: int, o: int)
    requires
        0 <= o < m,
    ensures
        f(o) <= upto(f, m),
    decreases m,
{
    if o < m - 1 {
        lemma_upto_at_least(f, m - 1, o);
    }
}

/// The batch of `n` copies of one secret.
proof fn lemma_repeated(rows: Seq<(u64, nat)>, low: u64, i: int, n: nat) -> (batch: Seq<int>)
    requires
        0 <= i < rows.len(),
    ensures
        is_batch(rows, batch),
        batch.len() == n,
        batch_cost(rows, low, batch) == n * (rows[i].0 - low),
        batch_weight(rows, batch) == pow(rows[i].1 as int, n),
    decreases n,
{
    let d = rows[i].0 - low;
    if n == 0 {
        lemma_pow0(rows[i].1 as int);
        assert(0 * d == 0) by (nonlinear_arith);
        Seq::empty()
    } else {
        let n1 = (n - 1) as nat;
        let t = lemma_repeated(rows, low, i, n1);
        let batch = t.push(i);
        assert(batch.drop_last() =~= t);
        assert(n * d == n1 * d + d) by (nonlinear_arith)
            requires
                n == n1 + 1,
        ;
        reveal(pow);
        batch
    }
}

/// No batch leaks a negative amount, and seeing the sum of the costs never makes
/// one guess at the whole batch worse.
pub proof fn law_batch_bounds(rows: Seq<(u64, nat)>, n: nat)
    requires
        total_weight(rows) > 0,
    ensures
        batch_bits(rows, n) >= 0,
        upto(|o: int| batch_peak(rows, lowest(rows), n, o), n * spread(rows) + 1) >= pow(
            max_weight(rows) as int,
            n,
        ),
{
    let low = lowest(rows);
    let d = spread(rows);
    let m = n * d + 1;
    assert(rows.len() > 0);
    lemma_costs_between(rows);
    lemma_batch_total(rows, low, d, n);
    lemma_pow_positive(total_weight(rows) as int, n);
    let f = |o: int| batch_mass(rows, low, n, o);
    let g = |o: int| xlg(batch_mass(rows, low, n, o));
    lemma_upto_logs(f, g, m);
    let whole = pow(total_weight(rows) as int, n);
    vstd::arithmetic::div_mod::lemma_div_is_ordered(0, xlg(whole as nat) - upto(g, m), whole);
    let h = |o: int| batch_peak(rows, low, n, o);
    lemma_max_attained(rows);
    let i = choose|i: int| 0 <= i < rows.len() && (#[trigger] rows[i]).1 == max_weight(rows);
    let batch = lemma_repeated(rows, low, i, n);
    law_peak_bounds(rows, low, batch);
    let c = rows[i].0 - low;
    assert(0 <= n * c <= n * d) by (nonlinear_arith)
        requires
            0 <= c <= d,
    ;
    lemma_upto_at_least(h, m, n * c);
}

// ---------------------------------------------------------------------------
// One more item
// ---------------------------------------------------------------------------

proof fn lemma_upto_weighted(
    f: spec_fn(int) -> nat,
    g: spec_fn(int) -> nat,
    h: spec_fn(int) -> nat,
    k: nat,
    m: int,
)
    requires
        forall|o: int| 0 <= o < m ==> #[trigger] f(o) <= g(o) + h(o) * k,
    ensures
        upto(f, m) <= upto(g, m) + upto(h, m) * k,
    decreases m,
{
    if m > 0 {
        lemma_upto_weighted(f, g, h, k, m - 1);
        let a = upto(h, m - 1);
        let b = h(m - 1);
        assert((a + b) * k == a * k + b * k) by (nonlinear_arith);
        assert(f(m - 1) <= g(m - 1) + h(m - 1) * k);
    } else {
        assert(0 * k == 0) by (nonlinear_arith);
    }
}

/// The sum of `xlg` over the outcomes of a batch with one more item.
proof fn lemma_logs_of_next(rows: Seq<(u64, nat)>, low: u64, d: int, n: nat)
    requires
        total_weight(rows) > 0,
        forall|i: int| 0 <= i < rows.len() ==> low <= (#[trigger] rows[i]).0 <= low + d,
        d >= 0,
    ensures
        upto(|o: int| xlg(batch_mass(rows, low, n + 1, o)), (n + 1) * d + 1) <= total_weight(rows)
            * upto(|o: int| xlg(batch_mass(rows, low, n, o)), n * d + 1) + pow(
            total_weight(rows) as int,
            n + 1,
        ) * (lg(total_weight(rows)) + 2),
{
    let w = total_weight(rows);
    let k = lg(w) + 2;
    let m = n * d + 1;
    let m1 = (n + 1) * d + 1;
    assert(m1 == m + d && m >= 1) by (nonlinear_arith)
        requires
            m == n * d + 1,
            m1 == (n + 1) * d + 1,
            d >= 0,
            n >= 0,
    ;
    let f = |o: int| xlg(batch_mass(rows, low, n, o));
    let f1 = |o: int| xlg(batch_mass(rows, low, n + 1, o));
    let mass1 = |o: int| batch_mass(rows, low, n + 1, o);
    let h = |o: int| row_sum(rows, |c: u64| f(o - (c - low)));
    assert forall|o: int| o < 0 || o >= m implies #[trigger] f(o) == 0 by {
        lemma_batch_support(rows, low, d, n, o);
        let l = lg(0);
        assert(0 * l == 0) by (nonlinear_arith);
    }
    lemma_swap_sums(rows, low, d, f, m, m1);
    lemma_batch_total(rows, low, d, n + 1);
    assert forall|o: int| 0 <= o < m1 implies #[trigger] f1(o) <= h(o) + mass1(o) * k by {
        let g = |c: u64| batch_mass(rows, low, n, o - (c - low));
        lemma_batch_unfold(rows, low, n + 1, o);
        lemma_xlg_convex(rows, g);
        assert((|c: u64| xlg(g(c))) =~= (|c: u64| f(o - (c - low))));
        assert((|c: u64| batch_mass(rows, low, (n + 1 - 1) as nat, o - (c - low))) =~= g);
    }
    lemma_upto_weighted(f1, h, mass1, k, m1);
}

proof fn lemma_upto_at_offset(
    f: spec_fn(int) -> nat,
    g: spec_fn(int) -> nat,
    k: nat,
    e: int,
    m: int,
)
    requires
        e >= 0,
        m >= 0,
        forall|o: int| 0 <= o < m ==> k * (#[trigger] g(o)) <= f(o + e),
    ensures
        k * upto(g, m) <= upto(f, m + e),
    decreases m,
{
    if m > 0 {
        lemma_upto_at_offset(f, g, k, e, m - 1);
        let a = upto(g, m - 1);
        let b = g(m - 1);
        assert(k * (a + b) == k * a + k * b) by (nonlinear_arith);
        assert(k * g(m - 1) <= f(m - 1 + e));
    } else {
        assert(k * 0 == 0) by (nonlinear_arith);
    }
}

proof fn lemma_upto_grows(f: spec_fn(int) -> nat, a: int, b: int)
    requires
        a <= b,
    ensures
        upto(f, a) <= upto(f, b),
    decreases b - a,
{
    if a < b {
        lemma_upto_grows(f, a, b - 1);
    }
}

/// The sum of the peaks of a batch with one more item.
proof fn lemma_peaks_of_next(rows: Seq<(u64, nat)>, low: u64, d: int, n: nat)
    requires
        rows.len() > 0,
        forall|i: int| 0 <= i < rows.len() ==> low <= (#[trigger] rows[i]).0 <= low + d,
        d >= 0,
    ensures
        max_weight(rows) * upto(|o: int| batch_peak(rows, low, n, o), n * d + 1) <= upto(
            |o: int| batch_peak(rows, low, n + 1, o),
            (n + 1) * d + 1,
        ),
{
    let m = n * d + 1;
    let m1 = (n + 1) * d + 1;
    assert(m1 == m + d && m >= 1) by (nonlinear_arith)
        requires
            m == n * d + 1,
            m1 == (n + 1) * d + 1,
            d >= 0,
            n >= 0,
    ;
    let h = |o: int| batch_peak(rows, low, n, o);
    let h1 = |o: int| batch_peak(rows, low, n + 1, o);
    lemma_max_attained(rows);
    let i = choose|i: int| 0 <= i < rows.len() && (#[trigger] rows[i]).1 == max_weight(rows);
    let e = rows[i].0 - low;
    assert forall|o: int| 0 <= o < m implies max_weight(rows) * (#[trigger] h(o)) <= h1(o + e) by {
        let g = |c: u64| batch_peak(rows, low, n, o + e - (c - low));
        lemma_batch_unfold(rows, low, n + 1, o + e);
        assert((|c: u64| batch_peak(rows, low, (n + 1 - 1) as nat, o + e - (c - low))) =~= g);
        lemma_row_peak_bounds(rows, g, i);
    }
    lemma_upto_at_offset(h1, h, max_weight(rows), e, m);
    lemma_upto_grows(h1, m + e, m1);
}

/// One more item never takes leakage away, up to rounding: the leakage of a batch
/// grows with its size.
pub proof fn law_more_items(rows: Seq<(u64, nat)>, n: nat)
    requires
        total_weight(rows) > 0,
    ensures
        batch_bits(rows, n) <= batch_bits(rows, n + 1) + 2,
        batch_min_entropy(rows, n) <= batch_min_entropy(rows, n + 1) + 1,
{
    let low = lowest(rows);
    let d = spread(rows);
    let w = total_weight(rows) as int;
    assert(rows.len() > 0);
    lemma_costs_between(rows);
    lemma_logs_of_next(rows, low, d, n);
    law_batch_bounds(rows, n);
    lemma_pow_positive(w, n);
    let t = pow(w, n);
    let t1 = pow(w, n + 1);
    assert(t1 == w * t) by {
        reveal(pow);
    }
    let logs = upto(|o: int| xlg(batch_mass(rows, low, n, o)), n * d + 1) as int;
    let logs1 = upto(|o: int| xlg(batch_mass(rows, low, n + 1, o)), (n + 1) * d + 1) as int;
    let a = xlg(t as nat) - logs;
    let a1 = xlg(t1 as nat) - logs1;
    lemma_batch_logs_bound(rows, n);
    assert(t1 > 0) by (nonlinear_arith)
        requires
            t1 == w * t,
            w > 0,
            t > 0,
    ;
    lemma_lg_product(w as nat, t as nat);
    let lw = lg(w as nat) as int;
    let lt = lg(t as nat) as int;
    let l1 = lg(t1 as nat) as int;
    assert(t1 * l1 >= t1 * (lw + lt)) by (nonlinear_arith)
        requires
            l1 >= lw + lt,
            t1 > 0,
    ;
    assert(t1 * (lw + lt) - (w * logs + t1 * (lw + 2)) == a * w - 2 * t1) by (nonlinear_arith)
        requires
            t1 == w * t,
            a == t * lt - logs,
    ;
    assert(a1 >= a * w - 2 * t1);
    lemma_scaled_quotient(a, t, w);
    assert(t * w == t1) by (nonlinear_arith)
        requires
            t1 == w * t,
    ;
    let n0 = a * w;
    vstd::arithmetic::div_mod::lemma_div_minus_one(n0, t1);
    vstd::arithmetic::div_mod::lemma_div_minus_one(n0 - t1, t1);
    vstd::arithmetic::div_mod::lemma_div_is_ordered(n0 - 2 * t1, a1, t1);

    lemma_peaks_of_next(rows, low, d, n);
    let top = max_weight(rows) as int;
    lemma_max_positive(rows);
    lemma_pow_positive(top, n);
    let m = pow(top, n);
    let m1 = pow(top, n + 1);
    assert(m1 == top * m) by {
        reveal(pow);
    }
    let s = upto(|o: int| batch_peak(rows, low, n, o), n * d + 1);
    let s1 = upto(|o: int| batch_peak(rows, low, n + 1, o), (n + 1) * d + 1);
    lemma_lg_product(top as nat, m as nat);
    lemma_lg_product(top as nat, s);
    lemma_lg_monotone((top * s) as nat, s1);
}

/// The mass of a batch is not negative.
proof fn lemma_batch_logs_bound(rows: Seq<(u64, nat)>, n: nat)
    requires
        total_weight(rows) > 0,
    ensures
        upto(|o: int| xlg(batch_mass(rows, lowest(rows), n, o)), n * spread(rows) + 1) <= xlg(
            pow(total_weight(rows) as int, n) as nat,
        ),
{
    let low = lowest(rows);
    let d = spread(rows);
    assert(rows.len() > 0);
    lemma_costs_between(rows);
    lemma_batch_total(rows, low, d, n);
    let f = |o: int| batch_mass(rows, low, n, o);
    let g = |o: int| xlg(batch_mass(rows, low, n, o));
    lemma_upto_logs(f, g, n * d + 1);
}

// ---------------------------------------------------------------------------
// Equal weights
// ---------------------------------------------------------------------------

/// Whether the costs of some batch of `n` secrets, above `low`, add up to `o`.
pub open spec fn is_sum(rows: Seq<(u64, nat)>, low: u64, n: nat, o: int) -> bool {
    exists|batch: Seq<int>| #[trigger]
        is_batch(rows, batch) && batch.len() == n && batch_cost(rows, low, batch) == o
}

/// How many distinct sums of costs the batches of `n` secrets have.
pub open spec fn distinct_sums(rows: Seq<(u64, nat)>, n: nat) -> nat {
    upto(
        |o: int|
            if is_sum(rows, lowest(rows), n, o) {
                1nat
            } else {
                0nat
            },
        n * spread(rows) + 1,
    )
}

proof fn lemma_uniform_weight(rows: Seq<(u64, nat)>, batch: Seq<int>, w: nat)
    requires
        uniform(rows, w),
        is_batch(rows, batch),
    ensures
        batch_weight(rows, batch) == pow(w as int, batch.len()),
    decreases batch.len(),
{
    if batch.len() == 0 {
        lemma_pow0(w as int);
    } else {
        let t = batch.drop_last();
        assert forall|j: int| 0 <= j < t.len() implies 0 <= #[trigger] t[j] < rows.len() by {
            assert(t[j] == batch[j]);
        }
        lemma_uniform_weight(rows, t, w);
        assert(0 <= batch[batch.len() - 1] < rows.len());
        assert(rows[batch.last()].1 == w);
        reveal(pow);
    }
}

proof fn lemma_uniform_peak(rows: Seq<(u64, nat)>, low: u64, n: nat, o: int, w: nat)
    requires
        uniform(rows, w),
        w > 0,
    ensures
        batch_peak(rows, low, n, o) == if is_sum(rows, low, n, o) {
            pow(w as int, n)
        } else {
            0
        },
{
    lemma_pow_positive(w as int, n);
    if is_sum(rows, low, n, o) {
        let batch = choose|batch: Seq<int>| #[trigger]
            is_batch(rows, batch) && batch.len() == n && batch_cost(rows, low, batch) == o;
        law_peak_bounds(rows, low, batch);
        lemma_uniform_weight(rows, batch, w);
    }
    if batch_peak(rows, low, n, o) > 0 {
        let batch = law_peak_attained(rows, low, n, o);
        assert(is_batch(rows, batch));
        lemma_uniform_weight(rows, batch, w);
    }
}

proof fn lemma_upto_constant(f: spec_fn(int) -> nat, g: spec_fn(int) -> nat, k: nat, m: int)
    requires
        forall|o: int| 0 <= o < m ==> #[trigger] f(o) == g(o) * k,
    ensures
        upto(f, m) == upto(g, m) * k,
    decreases m,
{
    if m > 0 {
        lemma_upto_constant(f, g, k, m - 1);
        let a = upto(g, m - 1);
        let b = g(m - 1);
        assert((a + b) * k == a * k + b * k) by (nonlinear_arith);
        assert(f(m - 1) == g(m - 1) * k);
    } else {
        assert(0 * k == 0) by (nonlinear_arith);
    }
}

/// Under a uniform prior the min-entropy leakage of a batch is the logarithm of the
/// number of distinct sums of costs, up to one unit of rounding, and to the last
/// unit where the weights are powers of two.
pub proof fn law_batch_uniform(rows: Seq<(u64, nat)>, w: nat, n: nat)
    requires
        rows.len() > 0,
        w > 0,
        uniform(rows, w),
    ensures
        distinct_sums(rows, n) > 0,
        lg(distinct_sums(rows, n)) <= batch_min_entropy(rows, n) <= lg(distinct_sums(rows, n)) + 1,
        forall|e: nat|
            w == #[trigger] pow2(e) ==> batch_min_entropy(rows, n) == lg(distinct_sums(rows, n)),
{
    let low = lowest(rows);
    let m = n * spread(rows) + 1;
    let k = pow(w as int, n) as nat;
    let f = |o: int| batch_peak(rows, low, n, o);
    let g = |o: int|
        if is_sum(rows, low, n, o) {
            1nat
        } else {
            0nat
        };
    let count = distinct_sums(rows, n);
    lemma_pow_positive(w as int, n);
    assert forall|o: int| 0 <= o < m implies #[trigger] f(o) == g(o) * k by {
        lemma_uniform_peak(rows, low, n, o, w);
        assert(1 * k == k && 0 * k == 0) by (nonlinear_arith);
    }
    lemma_upto_constant(f, g, k, m);
    lemma_uniform_top(rows, w);
    assert(total_weight(rows) > 0) by {
        lemma_row_bounds(rows, 0);
        lemma_class_max_bounds(rows, rows[0].0);
    }
    law_batch_bounds(rows, n);
    assert(count > 0) by (nonlinear_arith)
        requires
            count * k >= k,
            k > 0,
    ;
    lemma_lg_product(count, k);
    assert forall|e: nat| w == #[trigger] pow2(e) implies batch_min_entropy(rows, n) == lg(
        count,
    ) by {
        lemma_pow2(e);
        lemma_pow_multiplies(2, e, n);
        lemma_pow2(e * n);
        assert(k == pow2(e * n));
        lemma_lg_shift(count, e * n);
        lemma_lg_pow2(e * n);
    }
}

proof fn lemma_uniform_top(rows: Seq<(u64, nat)>, w: nat)
    requires
        rows.len() > 0,
        uniform(rows, w),
    ensures
        max_weight(rows) == w,
{
    lemma_max_attained(rows);
    let i = choose|i: int| 0 <= i < rows.len() && (#[trigger] rows[i]).1 == max_weight(rows);
    assert(rows[i].1 == w);
}

// ---------------------------------------------------------------------------
// Order and accuracy
// ---------------------------------------------------------------------------

proof fn lemma_batch_same(
    a: Seq<(u64, nat)>,
    b: Seq<(u64, nat)>,
    low: u64,
    n: nat,
    o: int,
)
    requires
        a.to_multiset() == b.to_multiset(),
    ensures
        batch_mass(a, low, n, o) == batch_mass(b, low, n, o),
        batch_peak(a, low, n, o) == batch_peak(b, low, n, o),
    decreases n,
{
    if n > 0 {
        let n1 = (n - 1) as nat;
        let g1 = |c: u64| batch_mass(a, low, n1, o - (c - low));
        let h1 = |c: u64| batch_mass(b, low, n1, o - (c - low));
        let g2 = |c: u64| batch_peak(a, low, n1, o - (c - low));
        let h2 = |c: u64| batch_peak(b, low, n1, o - (c - low));
        assert forall|c: u64| #[trigger] g1(c) == h1(c) by {
            lemma_batch_same(a, b, low, n1, o - (c - low));
        }
        assert forall|c: u64| #[trigger] g2(c) == h2(c) by {
            lemma_batch_same(a, b, low, n1, o - (c - low));
        }
        assert(g1 =~= h1);
        assert(g2 =~= h2);
        lemma_batch_unfold(a, low, n, o);
        lemma_batch_unfold(b, low, n, o);
        lemma_regroup(a, g1);
        lemma_regroup(b, g1);
        lemma_regroup_peak(a, g2);
        lemma_regroup_peak(b, g2);
        assert forall|c: u64|
            class_weight(a, c) == class_weight(b, c) && class_max(a, c) == #[trigger] class_max(
                b,
                c,
            ) by {
            lemma_reordered(a, b, c);
        }
        law_row_order(a, b);
        assert((|c: u64| class_weight(a, c) * g1(c)) =~= (|c: u64| class_weight(b, c) * g1(c)))
            by {
            assert forall|c: u64| class_weight(a, c) == #[trigger] class_weight(b, c) by {
                lemma_reordered(a, b, c);
            }
        }
        assert((|c: u64| class_max(a, c) * g2(c)) =~= (|c: u64| class_max(b, c) * g2(c)));
        assert(cycle_values(a) == partition_of(a).values);
        assert(cycle_values(b) == partition_of(b).values);
    }
}

/// What a batch leaks does not depend on the order of the rows of the sweep.
pub proof fn law_batch_row_order(a: Seq<(u64, nat)>, b: Seq<(u64, nat)>, n: nat)
    requires
        a.to_multiset() == b.to_multiset(),
    ensures
        batch_bits(a, n) == batch_bits(b, n),
        batch_min_entropy(a, n) == batch_min_entropy(b, n),
{
    law_row_order(a, b);
    assert(cycle_values(a) == partition_of(a).values);
    assert(cycle_values(b) == partition_of(b).values);
    lemma_reordered(a, b, 0);
    let low = lowest(a);
    assert((|o: int| xlg(batch_mass(a, low, n, o))) =~= (|o: int| xlg(batch_mass(b, low, n, o))))
        by {
        assert forall|o: int| batch_mass(a, low, n, o) == #[trigger] batch_mass(b, low, n, o) by {
            lemma_batch_same(a, b, low, n, o);
        }
    }
    assert((|o: int| batch_peak(a, low, n, o)) =~= (|o: int| batch_peak(b, low, n, o))) by {
        assert forall|o: int| batch_peak(a, low, n, o) == #[trigger] batch_peak(b, low, n, o) by {
            lemma_batch_same(a, b, low, n, o);
        }
    }
}

/// The first `m` values of a function.
pub open spec fn listed(f: spec_fn(int) -> nat, m: int) -> Seq<nat> {
    Seq::new(
        if m < 0 {
            0
        } else {
            m as nat
        },
        |i: int| f(i),
    )
}

proof fn lemma_listed(f: spec_fn(int) -> nat, g: spec_fn(int) -> nat, m: int)
    requires
        forall|o: int| #[trigger] g(o) == xlg(f(o)),
    ensures
        sum(listed(f, m)) == upto(f, m),
        log_sum(listed(f, m)) == upto(g, m),
    decreases m,
{
    if m > 0 {
        lemma_listed(f, g, m - 1);
        assert(listed(f, m).drop_last() =~= listed(f, m - 1));
        assert(g(m - 1) == xlg(f(m - 1)));
    }
}

/// Rounding the logarithms down moves the leakage of a batch by at most one unit in
/// either direction, in the sense in which it does so for a single observation.
pub proof fn law_batch_accuracy(rows: Seq<(u64, nat)>, n: nat)
    requires
        total_weight(rows) > 0,
    ensures
        ({
            let total = pow(total_weight(rows) as int, n) as nat;
            let m = n * spread(rows) + 1;
            let masses = listed(|o: int| batch_mass(rows, lowest(rows), n, o), m);
            let bits = xlg(total) - log_sum(masses);
            &&& batch_bits(rows, n) == bits / (total as int)
            &&& bits >= 0
            &&& self_power(total) <= pow2((bits + total) as nat) * self_powers(masses)
            &&& pow2(bits as nat) * self_powers(masses) <= self_power(total) * pow2(total)
        }),
        ({
            let m = n * spread(rows) + 1;
            let peaks = upto(|o: int| batch_peak(rows, lowest(rows), n, o), m);
            let best = pow(peaks as int, LOG_ONE as nat);
            let base = pow(pow(max_weight(rows) as int, n), LOG_ONE as nat);
            let bits = batch_min_entropy(rows, n);
            &&& bits >= 0
            &&& best <= pow2((bits + 1) as nat) * base
            &&& pow2(bits as nat) * base <= best * 2
        }),
{
    let low = lowest(rows);
    let d = spread(rows);
    let m = n * d + 1;
    let total = pow(total_weight(rows) as int, n) as nat;
    let f = |o: int| batch_mass(rows, low, n, o);
    let g = |o: int| xlg(batch_mass(rows, low, n, o));
    let masses = listed(f, m);
    assert(rows.len() > 0);
    lemma_costs_between(rows);
    lemma_batch_total(rows, low, d, n);
    lemma_pow_positive(total_weight(rows) as int, n);
    lemma_listed(f, g, m);
    lemma_batch_logs_bound(rows, n);
    lemma_self_power(total);
    lemma_self_powers(masses);
    lemma_quotient(xlg(total), log_sum(masses), total, self_power(total), self_powers(masses));

    law_batch_bounds(rows, n);
    lemma_max_positive(rows);
    lemma_pow_positive(max_weight(rows) as int, n);
    let peaks = upto(|o: int| batch_peak(rows, low, n, o), m);
    let base = pow(max_weight(rows) as int, n) as nat;
    lemma_lg_monotone(base, peaks);
    lemma_lg_bounds(base);
    lemma_lg_bounds(peaks);
    lemma2_to64();
    lemma_quotient(
        lg(peaks),
        lg(base),
        1,
        pow(peaks as int, LOG_ONE as nat) as nat,
        pow(base as int, LOG_ONE as nat) as nat,
    );
}

// ---------------------------------------------------------------------------
// What one item adds at most
// ---------------------------------------------------------------------------

/// The secrets with every weight replaced by a weight that depends on the cycles.
spec fn class_rows(vals: Seq<u64>, f: spec_fn(u64) -> nat) -> Seq<(u64, nat)> {
    vals.map_values(|c: u64| (c, f(c)))
}

proof fn lemma_class_rows(vals: Seq<u64>, f: spec_fn(u64) -> nat, g: spec_fn(u64) -> nat)
    ensures
        row_sum(class_rows(vals, f), g) == sum_over(vals, |c: u64| f(c) * g(c)),
        total_weight(class_rows(vals, f)) == sum(vals.map_values(f)),
        weight_logs(class_rows(vals, f)) == log_sum(vals.map_values(f)),
    decreases vals.len(),
{
    if vals.len() > 0 {
        let t = vals.drop_last();
        lemma_class_rows(t, f, g);
        assert(class_rows(vals, f).drop_last() =~= class_rows(t, f));
        assert(vals.map_values(f).drop_last() =~= t.map_values(f));
    }
}

/// The secrets with every weight replaced by its `xlg`.
spec fn log_rows(rows: Seq<(u64, nat)>) -> Seq<(u64, nat)> {
    rows.map_values(|r: (u64, nat)| (r.0, xlg(r.1)))
}

proof fn lemma_log_rows_total(rows: Seq<(u64, nat)>)
    ensures
        total_weight(log_rows(rows)) == weight_logs(rows),
    decreases rows.len(),
{
    if rows.len() > 0 {
        lemma_log_rows_total(rows.drop_last());
        assert(log_rows(rows).drop_last() =~= log_rows(rows.drop_last()));
    }
}

/// A sum of products times its logarithm is at least what its terms contribute.
proof fn lemma_xlg_of_products(rows: Seq<(u64, nat)>, g: spec_fn(u64) -> nat)
    ensures
        row_sum(rows, |c: u64| xlg(g(c))) + row_sum(log_rows(rows), g) <= xlg(row_sum(rows, g)),
    decreases rows.len(),
{
    let h = |c: u64| xlg(g(c));
    if rows.len() > 0 {
        let t = rows.drop_last();
        lemma_xlg_of_products(t, g);
        assert(log_rows(rows).drop_last() =~= log_rows(t));
        let w = rows.last().1;
        let x = g(rows.last().0);
        let s = row_sum(t, g);
        let k = w * x;
        assert(h(rows.last().0) == xlg(x));
        assert(w * xlg(x) + xlg(w) * x <= xlg(k)) by {
            let lw = lg(w);
            let lx = lg(x);
            if w == 0 || x == 0 {
                assert(w * (x * lx) == 0 && (w * lw) * x == 0) by (nonlinear_arith)
                    requires
                        w == 0 || x == 0,
                ;
            } else {
                lemma_lg_product(w, x);
                let l = lg(k);
                assert(w * (x * lx) + (w * lw) * x == k * (lw + lx)) by (nonlinear_arith)
                    requires
                        k == w * x,
                ;
                assert(k * (lw + lx) <= k * l) by (nonlinear_arith)
                    requires
                        lw + lx <= l,
                        k >= 0,
                ;
            }
        }
        lemma_xlg_adds(s, k);
    }
}

proof fn lemma_xlg_adds(a: nat, b: nat)
    ensures
        xlg(a) + xlg(b) <= xlg(a + b),
{
    lemma_lg_monotone(a, a + b);
    lemma_lg_monotone(b, a + b);
    let la = lg(a);
    let lb = lg(b);
    let l = lg(a + b);
    assert(a * la + b * lb <= (a + b) * l) by (nonlinear_arith)
        requires
            la <= l,
            lb <= l,
    ;
}

proof fn lemma_upto_sum_below(
    f: spec_fn(int) -> nat,
    g: spec_fn(int) -> nat,
    h: spec_fn(int) -> nat,
    m: int,
)
    requires
        forall|o: int| 0 <= o < m ==> g(o) + h(o) <= #[trigger] f(o),
    ensures
        upto(g, m) + upto(h, m) <= upto(f, m),
    decreases m,
{
    if m > 0 {
        lemma_upto_sum_below(f, g, h, m - 1);
        assert(g(m - 1) + h(m - 1) <= f(m - 1));
    }
}

/// A lower bound on the sum of `xlg` over the outcomes of a batch with one more item.
proof fn lemma_logs_of_next_below(rows: Seq<(u64, nat)>, low: u64, d: int, n: nat)
    requires
        forall|i: int| 0 <= i < rows.len() ==> low <= (#[trigger] rows[i]).0 <= low + d,
        d >= 0,
    ensures
        total_weight(rows) * upto(|o: int| xlg(batch_mass(rows, low, n, o)), n * d + 1) + log_sum(
            partition_of(rows).weights,
        ) * pow(total_weight(rows) as int, n) <= upto(
            |o: int| xlg(batch_mass(rows, low, n + 1, o)),
            (n + 1) * d + 1,
        ),
{
    let vals = cycle_values(rows);
    let cw = |c: u64| class_weight(rows, c);
    let cr = class_rows(vals, cw);
    let lr = log_rows(cr);
    let m = n * d + 1;
    let m1 = (n + 1) * d + 1;
    assert(m1 == m + d && m >= 1) by (nonlinear_arith)
        requires
            m == n * d + 1,
            m1 == (n + 1) * d + 1,
            d >= 0,
            n >= 0,
    ;
    let mass = |o: int| batch_mass(rows, low, n, o);
    let f = |o: int| xlg(batch_mass(rows, low, n, o));
    let f1 = |o: int| xlg(batch_mass(rows, low, n + 1, o));
    let h = |o: int| row_sum(cr, |c: u64| f(o - (c - low)));
    let k = |o: int| row_sum(lr, |c: u64| mass(o - (c - low)));
    lemma_cycle_values(rows);
    assert forall|i: int| 0 <= i < cr.len() implies low <= (#[trigger] cr[i]).0 <= low + d by {
        assert(vals.contains(vals[i]));
        assert(occurs(rows, vals[i]));
        let j = choose|j: int| 0 <= j < rows.len() && (#[trigger] rows[j]).0 == vals[i];
        assert(low <= rows[j].0 <= low + d);
    }
    assert forall|i: int| 0 <= i < lr.len() implies low <= (#[trigger] lr[i]).0 <= low + d by {
        assert(low <= cr[i].0 <= low + d);
    }
    assert forall|o: int| o < 0 || o >= m implies #[trigger] mass(o) == 0 by {
        lemma_batch_support(rows, low, d, n, o);
    }
    assert forall|o: int| o < 0 || o >= m implies #[trigger] f(o) == 0 by {
        assert(mass(o) == 0);
        let l = lg(0);
        assert(0 * l == 0) by (nonlinear_arith);
    }
    lemma_swap_sums(cr, low, d, f, m, m1);
    lemma_swap_sums(lr, low, d, mass, m, m1);
    lemma_batch_total(rows, low, d, n);
    lemma_class_rows(vals, cw, |c: u64| 0nat);
    lemma_class_weights_total(rows);
    lemma_log_rows_total(cr);
    assert(vals.map_values(cw) =~= partition_of(rows).weights);
    assert forall|o: int| 0 <= o < m1 implies h(o) + k(o) <= #[trigger] f1(o) by {
        let g = |c: u64| batch_mass(rows, low, n, o - (c - low));
        lemma_batch_unfold(rows, low, n + 1, o);
        assert((|c: u64| batch_mass(rows, low, (n + 1 - 1) as nat, o - (c - low))) =~= g);
        lemma_regroup(rows, g);
        lemma_class_rows(vals, cw, g);
        assert((|c: u64| cw(c) * g(c)) =~= (|c: u64| class_weight(rows, c) * g(c)));
        lemma_xlg_of_products(cr, g);
        assert((|c: u64| xlg(g(c))) =~= (|c: u64| f(o - (c - low))));
        assert(g =~= (|c: u64| mass(o - (c - low))));
    }
    lemma_upto_sum_below(f1, h, k, m1);
}

/// An item adds to the Shannon leakage of a batch at most what it leaks alone, up to
/// two units of rounding.
pub proof fn law_marginal_limit(rows: Seq<(u64, nat)>, n: nat)
    requires
        total_weight(rows) > 0,
    ensures
        batch_bits(rows, n + 1) <= batch_bits(rows, n) + leakage_of(
            partition_of(rows),
        ).shannon_bits + 2,
        batch_marginal(rows, n + 1) <= leakage_of(partition_of(rows)).shannon_bits + 2,
{
    let p = partition_of(rows);
    let low = lowest(rows);
    let d = spread(rows);
    let w = total_weight(rows) as int;
    assert(rows.len() > 0);
    lemma_costs_between(rows);
    lemma_logs_of_next_below(rows, low, d, n);
    lemma_masses(rows);
    lemma_pow_positive(w, n);
    let t = pow(w, n);
    let t1 = pow(w, n + 1);
    assert(t1 == w * t) by {
        reveal(pow);
    }
    assert(t1 > 0) by (nonlinear_arith)
        requires
            t1 == w * t,
            w > 0,
            t > 0,
    ;
    let logs = upto(|o: int| xlg(batch_mass(rows, low, n, o)), n * d + 1) as int;
    let logs1 = upto(|o: int| xlg(batch_mass(rows, low, n + 1, o)), (n + 1) * d + 1) as int;
    let classes = log_sum(p.weights) as int;
    let a = xlg(t as nat) - logs;
    let a1 = xlg(t1 as nat) - logs1;
    let b = shannon_mass(p);
    lemma_batch_logs_bound(rows, n);
    lemma_lg_product(w as nat, t as nat);
    let lw = lg(w as nat) as int;
    let lt = lg(t as nat) as int;
    let l1 = lg(t1 as nat) as int;
    assert(t1 * l1 <= t1 * (lw + lt + 1)) by (nonlinear_arith)
        requires
            l1 <= lw + lt + 1,
            t1 > 0,
    ;
    assert(t1 * (lw + lt + 1) - (w * logs + classes * t) == a * w + b * t + t1)
        by (nonlinear_arith)
        requires
            t1 == w * t,
            a == t * lt - logs,
            b == w * lw - classes,
    ;
    assert(a1 <= a * w + b * t + t1);
    lemma_scaled_quotient(a, t, w);
    lemma_scaled_quotient(b, w, t);
    assert(t * w == t1) by (nonlinear_arith)
        requires
            t1 == w * t,
    ;
    lemma_sum_of_quotients(a * w, b * t, a1, t1);
    law_leakage_bounds(rows);
}

/// The quotient of a sum that exceeds two numbers by at most the divisor.
proof fn lemma_sum_of_quotients(x: int, y: int, z: int, d: int)
    requires
        d > 0,
        z <= x + y + d,
    ensures
        z / d <= x / d + y / d + 2,
{
    vstd::arithmetic::div_mod::lemma_fundamental_div_mod(x, d);
    vstd::arithmetic::div_mod::lemma_fundamental_div_mod(y, d);
    vstd::arithmetic::div_mod::lemma_fundamental_div_mod(z, d);
    let a = x / d;
    let b = y / d;
    let c = z / d;
    assert(c <= a + b + 2) by (nonlinear_arith)
        requires
            d > 0,
            d * c <= z,
            z <= x + y + d,
            x < d * a + d,
            y < d * b + d,
    ;
}

proof fn lemma_peak_over_below(vals: Seq<u64>, f: spec_fn(u64) -> nat)
    ensures
        peak_over(vals, f) <= sum_over(vals, f),
    decreases vals.len(),
{
    if vals.len() > 0 {
        lemma_peak_over_below(vals.drop_last(), f);
    }
}

proof fn lemma_upto_below(f: spec_fn(int) -> nat, g: spec_fn(int) -> nat, m: int)
    requires
        forall|o: int| 0 <= o < m ==> #[trigger] f(o) <= g(o),
    ensures
        upto(f, m) <= upto(g, m),
    decreases m,
{
    if m > 0 {
        lemma_upto_below(f, g, m - 1);
        assert(f(m - 1) <= g(m - 1));
    }
}

/// An upper bound on the sum of the peaks of a batch with one more item.
proof fn lemma_peaks_of_next_above(rows: Seq<(u64, nat)>, low: u64, d: int, n: nat)
    requires
        forall|i: int| 0 <= i < rows.len() ==> low <= (#[trigger] rows[i]).0 <= low + d,
        d >= 0,
    ensures
        upto(|o: int| batch_peak(rows, low, n + 1, o), (n + 1) * d + 1) <= sum(
            partition_of(rows).maxes,
        ) * upto(|o: int| batch_peak(rows, low, n, o), n * d + 1),
{
    let vals = cycle_values(rows);
    let cm = |c: u64| class_max(rows, c);
    let cr = class_rows(vals, cm);
    let m = n * d + 1;
    let m1 = (n + 1) * d + 1;
    assert(m1 == m + d && m >= 1) by (nonlinear_arith)
        requires
            m == n * d + 1,
            m1 == (n + 1) * d + 1,
            d >= 0,
            n >= 0,
    ;
    let f = |o: int| batch_peak(rows, low, n, o);
    let f1 = |o: int| batch_peak(rows, low, n + 1, o);
    let h = |o: int| row_sum(cr, |c: u64| f(o - (c - low)));
    lemma_cycle_values(rows);
    assert forall|i: int| 0 <= i < cr.len() implies low <= (#[trigger] cr[i]).0 <= low + d by {
        assert(vals.contains(vals[i]));
        assert(occurs(rows, vals[i]));
        let j = choose|j: int| 0 <= j < rows.len() && (#[trigger] rows[j]).0 == vals[i];
        assert(low <= rows[j].0 <= low + d);
    }
    assert forall|o: int| o < 0 || o >= m implies #[trigger] f(o) == 0 by {
        lemma_batch_support(rows, low, d, n, o);
    }
    lemma_swap_sums(cr, low, d, f, m, m1);
    lemma_class_rows(vals, cm, |c: u64| 0nat);
    assert(vals.map_values(cm) =~= partition_of(rows).maxes);
    assert forall|o: int| 0 <= o < m1 implies #[trigger] f1(o) <= h(o) by {
        let g = |c: u64| batch_peak(rows, low, n, o - (c - low));
        lemma_batch_unfold(rows, low, n + 1, o);
        assert((|c: u64| batch_peak(rows, low, (n + 1 - 1) as nat, o - (c - low))) =~= g);
        lemma_regroup_peak(rows, g);
        lemma_class_rows(vals, cm, g);
        assert((|c: u64| cm(c) * g(c)) =~= (|c: u64| class_max(rows, c) * g(c)));
        lemma_peak_over_below(vals, |c: u64| class_max(rows, c) * g(c));
        assert(g =~= (|c: u64| f(o - (c - low))));
    }
    lemma_upto_below(f1, h, m1);
}

/// An item adds to the min-entropy leakage of a batch at most what it leaks alone, up
/// to one unit of rounding.
pub proof fn law_min_entropy_step(rows: Seq<(u64, nat)>, n: nat)
    requires
        total_weight(rows) > 0,
    ensures
        batch_min_entropy(rows, n + 1) <= batch_min_entropy(rows, n) + leakage_of(
            partition_of(rows),
        ).min_entropy_bits + 1,
{
    let p = partition_of(rows);
    let low = lowest(rows);
    let d = spread(rows);
    assert(rows.len() > 0);
    lemma_costs_between(rows);
    lemma_peaks_of_next_above(rows, low, d, n);
    law_batch_bounds(rows, n);
    law_batch_bounds(rows, n + 1);
    lemma_masses(rows);
    lemma_max_positive(rows);
    let top = max_weight(rows) as int;
    lemma_pow_positive(top, n);
    let m = pow(top, n);
    let m1 = pow(top, n + 1);
    assert(m1 == top * m) by {
        reveal(pow);
    }
    let s = upto(|o: int| batch_peak(rows, low, n, o), n * d + 1);
    let s1 = upto(|o: int| batch_peak(rows, low, n + 1, o), (n + 1) * d + 1);
    lemma_lg_product(top as nat, m as nat);
    lemma_lg_product(sum(p.maxes), s);
    lemma_lg_monotone(s1, sum(p.maxes) * s);
    lemma_lg_monotone(m as nat, s);
    lemma_lg_monotone(p.max_secret, sum(p.maxes));
}

/// The min-entropy leakage of a batch is at most that of one item times the number of
/// items, up to one unit of rounding for each.
pub proof fn law_min_entropy_limit(rows: Seq<(u64, nat)>, n: nat)
    requires
        total_weight(rows) > 0,
    ensures
        batch_min_entropy(rows, n) <= n * (leakage_of(partition_of(rows)).min_entropy_bits + 1),
    decreases n,
{
    let k = leakage_of(partition_of(rows)).min_entropy_bits + 1;
    if n == 0 {
        law_empty_batch(rows);
        assert(0 * k == 0) by (nonlinear_arith);
    } else {
        let n1 = (n - 1) as nat;
        law_min_entropy_limit(rows, n1);
        law_min_entropy_step(rows, n1);
        assert(n * k == n1 * k + k) by (nonlinear_arith)
            requires
                n == n1 + 1,
        ;
    }
}

} // verus!
