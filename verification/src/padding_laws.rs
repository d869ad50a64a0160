//! What holds of every padding.

use crate::binary_log::lg;
use crate::buckets::{
    bucket_cost, ends_of, is_bucketing, is_cheapest, overhead, pad_to, precedes, sorted,
};
use crate::frontier::{
    bucket_maxima, is_frontier, is_frontier_row, lemma_padded_total, lemma_round_up_at,
    lemma_value_rows_sorted, padded_rows, round_up, value_rows, Frontier,
};
use crate::laws::{law_constant_observable, law_merging, law_uniform_prior, relabelled, uniform};
use crate::leakage::{leakage_of, lemma_regroup, lemma_row_bounds, row_sum, sum, sum_over};
use crate::partition::{
    class_weight, cycle_values, increasing, lemma_cycle_values, lemma_increasing_unique, occurs,
    partition_of, positive_weights, total_weight,
};
use vstd::arithmetic::power2::{lemma2_to64, pow2};
use vstd::prelude::*;

verus! {

/// The bucket that holds a place.
proof fn lemma_bucket_of(ends: Seq<int>, n: int, k: nat, p: int) -> (j: int)
    requires
        is_bucketing(ends, n, k),
        0 <= p < n,
    ensures
        0 <= j < k,
        ends[j] >= p,
        forall|i: int| 0 <= i < j ==> ends[i] < p,
    decreases k,
{
    if k == 1 || ends[k - 2] < p {
        assert forall|i: int| 0 <= i < k - 1 implies ends[i] < p by {
            if i < k - 2 {
                assert(ends[i] < ends[k - 2]);
            }
        }
        k - 1
    } else {
        let t = ends.drop_last();
        assert(is_bucketing(t, t.last() + 1, (k - 1) as nat));
        let j = lemma_bucket_of(t, t.last() + 1, (k - 1) as nat, p);
        assert forall|i: int| 0 <= i < j implies ends[i] < p by {
            assert(t[i] < p);
        }
        j
    }
}

/// Every end of a bucketing is a place.
proof fn lemma_ends_are_places(ends: Seq<int>, n: int, k: nat, j: int)
    requires
        is_bucketing(ends, n, k),
        0 <= j < k,
    ensures
        0 <= ends[j] < n,
{
    if j > 0 {
        assert(ends[0] < ends[j]);
    }
    if j < k - 1 {
        assert(ends[j] < ends[k - 1]);
    }
}

/// The largest costs of the buckets increase.
proof fn lemma_maxima_increase(values: Seq<u64>, ends: Seq<int>, k: nat)
    requires
        increasing(values),
        is_bucketing(ends, values.len() as int, k),
    ensures
        increasing(bucket_maxima(values, ends)),
{
    let m = bucket_maxima(values, ends);
    assert forall|i: int, j: int| 0 <= i < j < m.len() implies m[i] < m[j] by {
        lemma_ends_are_places(ends, values.len() as int, k, i);
        lemma_ends_are_places(ends, values.len() as int, k, j);
        assert(ends[i] < ends[j]);
    }
}

/// A cost is padded to the largest one of its bucket.
proof fn lemma_padded_cost(values: Seq<u64>, ends: Seq<int>, k: nat, p: int) -> (j: int)
    requires
        increasing(values),
        is_bucketing(ends, values.len() as int, k),
        0 <= p < values.len(),
    ensures
        0 <= j < k,
        p <= ends[j] < values.len(),
        forall|i: int| 0 <= i < j ==> ends[i] < p,
        round_up(bucket_maxima(values, ends), values[p]) == values[ends[j]],
        values[p] <= values[ends[j]],
{
    let n = values.len() as int;
    let m = bucket_maxima(values, ends);
    let j = lemma_bucket_of(ends, n, k, p);
    lemma_ends_are_places(ends, n, k, j);
    assert forall|i: int| 0 <= i < j implies m[i] < values[p] by {
        lemma_ends_are_places(ends, n, k, i);
        assert(ends[i] < p);
    }
    if p < ends[j] {
        assert(values[p] < values[ends[j]]);
    }
    lemma_round_up_at(m, values[p], j);
    j
}

/// Rounding up goes to the first maximum that is not below, and leaves a cost that is above
/// all of them.
pub proof fn law_round_up(maxima: Seq<u64>, c: u64)
    ensures
        (forall|j: int| 0 <= j < maxima.len() ==> #[trigger] maxima[j] < c) ==> round_up(maxima, c)
            == c,
        forall|j: int|
            0 <= j < maxima.len() && #[trigger] maxima[j] >= c && (forall|i: int|
                0 <= i < j ==> #[trigger] maxima[i] < c) ==> round_up(maxima, c) == maxima[j],
    decreases maxima.len(),
{
    if maxima.len() > 0 {
        let t = maxima.drop_first();
        law_round_up(t, c);
        if maxima[0] < c {
            assert forall|j: int|
                0 <= j < maxima.len() && #[trigger] maxima[j] >= c && (forall|i: int|
                    0 <= i < j ==> #[trigger] maxima[i] < c) implies round_up(maxima, c)
                == maxima[j] by {
                assert(t[j - 1] == maxima[j]);
                assert forall|i: int| 0 <= i < j - 1 implies #[trigger] t[i] < c by {
                    assert(maxima[i + 1] < c);
                }
            }
            if forall|j: int| 0 <= j < maxima.len() ==> #[trigger] maxima[j] < c {
                assert forall|j: int| 0 <= j < t.len() implies #[trigger] t[j] < c by {
                    assert(maxima[j + 1] < c);
                }
            }
        }
    }
}

/// Padding never takes cycles away.
pub proof fn law_padding_upward(rows: Seq<(u64, nat)>, ends: Seq<int>, k: nat)
    requires
        is_bucketing(ends, cycle_values(rows).len() as int, k),
    ensures
        forall|i: int|
            0 <= i < rows.len() ==> {
                &&& (#[trigger] padded_rows(rows, bucket_maxima(cycle_values(rows), ends))[i]).0
                    >= rows[i].0
                &&& padded_rows(rows, bucket_maxima(cycle_values(rows), ends))[i].1 == rows[i].1
            },
{
    lemma_cycle_values(rows);
    let values = cycle_values(rows);
    let m = bucket_maxima(values, ends);
    assert forall|i: int| 0 <= i < rows.len() implies (#[trigger] padded_rows(rows, m)[i]).0
        >= rows[i].0 && padded_rows(rows, m)[i].1 == rows[i].1 by {
        assert(occurs(rows, rows[i].0));
        let p = values.index_of(rows[i].0);
        assert(values[p] == rows[i].0);
        let j = lemma_padded_cost(values, ends, k, p);
    }
}

/// Padding into `k` buckets leaves exactly `k` distinct cycle counts, the largest
/// of each bucket, wherever the boundaries fall.
pub proof fn law_padded_classes(rows: Seq<(u64, nat)>, ends: Seq<int>, k: nat)
    requires
        is_bucketing(ends, cycle_values(rows).len() as int, k),
    ensures
        cycle_values(padded_rows(rows, bucket_maxima(cycle_values(rows), ends))) == bucket_maxima(
            cycle_values(rows),
            ends,
        ),
        bucket_maxima(cycle_values(rows), ends).len() == k,
{
    let values = cycle_values(rows);
    let n = values.len() as int;
    let m = bucket_maxima(values, ends);
    let q = padded_rows(rows, m);
    let got = cycle_values(q);
    lemma_cycle_values(rows);
    lemma_cycle_values(q);
    lemma_maxima_increase(values, ends, k);
    assert forall|x: u64| #[trigger] got.contains(x) <==> m.contains(x) by {
        if got.contains(x) {
            assert(occurs(q, x));
            let i = choose|i: int| 0 <= i < q.len() && (#[trigger] q[i]).0 == x;
            assert(occurs(rows, rows[i].0));
            let p = values.index_of(rows[i].0);
            assert(values[p] == rows[i].0);
            let j = lemma_padded_cost(values, ends, k, p);
            assert(m[j] == x);
        }
        if m.contains(x) {
            let b = m.index_of(x);
            assert(m[b] == x);
            lemma_ends_are_places(ends, n, k, b);
            let p = ends[b];
            let j = lemma_padded_cost(values, ends, k, p);
            if j < b {
                assert(ends[j] < ends[b]);
            }
            if b < j {
                assert(ends[b] < p);
            }
            assert(j == b);
            assert(values.contains(values[p]));
            assert(occurs(rows, values[p]));
            let i = choose|i: int| 0 <= i < rows.len() && (#[trigger] rows[i]).0 == values[p];
            assert(q[i].0 == x);
            assert(occurs(q, x));
        }
    }
    lemma_increasing_unique(got, m);
}

/// With `k` buckets and a uniform prior, min-entropy leakage is the logarithm of
/// `k`, independent of where the boundaries fall.
pub proof fn law_padded_uniform(rows: Seq<(u64, nat)>, ends: Seq<int>, k: nat, w: nat)
    requires
        is_bucketing(ends, cycle_values(rows).len() as int, k),
        w > 0,
        uniform(rows, w),
    ensures
        ({
            let p = partition_of(padded_rows(rows, bucket_maxima(cycle_values(rows), ends)));
            &&& sum(p.maxes) == k * w
            &&& p.max_secret == w
            &&& lg(k) <= leakage_of(p).min_entropy_bits <= lg(k) + 1
            &&& forall|e: nat| w == #[trigger] pow2(e) ==> leakage_of(p).min_entropy_bits == lg(k)
        }),
{
    let q = padded_rows(rows, bucket_maxima(cycle_values(rows), ends));
    law_padded_classes(rows, ends, k);
    assert(rows.len() > 0) by {
        if rows.len() == 0 {
            assert(cycle_values(q).len() == 0);
        }
    }
    assert forall|i: int| 0 <= i < q.len() implies (#[trigger] q[i]).1 == w by {
        assert(rows[i].1 == w);
    }
    law_uniform_prior(q, w);
}

/// Padding never reveals more than was revealed without it.
pub proof fn law_padding_reveals_less(rows: Seq<(u64, nat)>, maxima: Seq<u64>)
    requires
        total_weight(rows) > 0,
    ensures
        leakage_of(partition_of(padded_rows(rows, maxima))).shannon_bits <= leakage_of(
            partition_of(rows),
        ).shannon_bits,
        leakage_of(partition_of(padded_rows(rows, maxima))).min_entropy_bits <= leakage_of(
            partition_of(rows),
        ).min_entropy_bits,
{
    let f = |c: u64| round_up(maxima, c);
    law_merging(rows, f);
    assert(relabelled(rows, f) =~= padded_rows(rows, maxima));
}

// ---------------------------------------------------------------------------
// Overhead
// ---------------------------------------------------------------------------

/// The sum over the places of one bucket.
proof fn lemma_bucket_sum(
    vs: Seq<(u64, nat)>,
    values: Seq<u64>,
    f: spec_fn(u64) -> nat,
    i: int,
    e: int,
    c: u64,
)
    requires
        vs.len() == values.len(),
        0 <= i <= e <= values.len(),
        forall|p: int|
            i <= p < e ==> f(#[trigger] values[p]) == vs[p].1 * (c - vs[p].0),
    ensures
        sum_over(values.take(e), f) == sum_over(values.take(i), f) + pad_to(vs, i, e, c),
    decreases e - i,
{
    if i < e {
        lemma_bucket_sum(vs, values, f, i, e - 1, c);
        assert(values.take(e).drop_last() =~= values.take(e - 1));
        assert(f(values[e - 1]) == vs[e - 1].1 * (c - vs[e - 1].0));
    }
}

/// The sum over the places of all buckets.
proof fn lemma_buckets_sum(
    vs: Seq<(u64, nat)>,
    values: Seq<u64>,
    f: spec_fn(u64) -> nat,
    ends: Seq<int>,
    n: int,
    k: nat,
)
    requires
        vs.len() == values.len(),
        is_bucketing(ends, n, k),
        n <= values.len(),
        forall|j: int, p: int|
            0 <= j < k && (j == 0 || ends[j - 1] < p) && 0 <= p <= #[trigger] ends[j] ==> f(
                #[trigger] values[p],
            ) == vs[p].1 * (vs[ends[j]].0 - vs[p].0),
    ensures
        sum_over(values.take(n), f) == overhead(vs, ends),
    decreases k,
{
    let t = ends.drop_last();
    let e = n - 1;
    if k == 1 {
        assert(overhead(vs, t) == 0);
        assert forall|p: int| 0 <= p < n implies f(#[trigger] values[p]) == vs[p].1 * (vs[e].0
            - vs[p].0) by {
            assert(p <= ends[0]);
        }
        lemma_bucket_sum(vs, values, f, 0, n, vs[e].0);
        assert(values.take(0) =~= Seq::empty());
    } else {
        assert(ends[k - 2] < ends[k - 1]);
        let s = t.last() + 1;
        assert(is_bucketing(t, s, (k - 1) as nat));
        assert forall|j: int, p: int|
            0 <= j < k - 1 && (j == 0 || t[j - 1] < p) && 0 <= p
                <= #[trigger] t[j] implies f(#[trigger] values[p]) == vs[p].1 * (vs[t[j]].0
            - vs[p].0) by {
            assert(t[j] == ends[j]);
            if j > 0 {
                assert(t[j - 1] == ends[j - 1]);
            }
        }
        lemma_buckets_sum(vs, values, f, t, s, (k - 1) as nat);
        assert(s >= 0) by {
            lemma_ends_are_places(t, s, (k - 1) as nat, k - 2);
        }
        assert forall|p: int| s <= p < n implies f(#[trigger] values[p]) == vs[p].1 * (vs[e].0
            - vs[p].0) by {
            assert(ends[k - 2] < p);
            assert(p <= ends[k - 1]);
        }
        lemma_bucket_sum(vs, values, f, s, n, vs[e].0);
    }
}

proof fn lemma_row_sum_difference(rows: Seq<(u64, nat)>, m: Seq<u64>)
    requires
        forall|i: int| 0 <= i < rows.len() ==> round_up(m, (#[trigger] rows[i]).0) >= rows[i].0,
    ensures
        row_sum(padded_rows(rows, m), |c: u64| c as nat) == row_sum(rows, |c: u64| c as nat)
            + row_sum(rows, |c: u64| (round_up(m, c) - c) as nat),
    decreases rows.len(),
{
    if rows.len() > 0 {
        let t = rows.drop_last();
        assert forall|i: int| 0 <= i < t.len() implies round_up(m, (#[trigger] t[i]).0)
            >= t[i].0 by {
            assert(t[i] == rows[i]);
        }
        lemma_row_sum_difference(t, m);
        assert(padded_rows(rows, m).drop_last() =~= padded_rows(t, m));
        let w = rows.last().1;
        let c = rows[rows.len() - 1].0;
        let a = c as nat;
        let d = (round_up(m, c) - c) as nat;
        assert(w * (a + d) == w * a + w * d) by (nonlinear_arith);
    }
}

/// The overhead of a bucketing is what padding adds to the cycles of all secrets,
/// each counted with its weight.
pub proof fn law_padding_overhead(rows: Seq<(u64, nat)>, ends: Seq<int>, k: nat)
    requires
        is_bucketing(ends, cycle_values(rows).len() as int, k),
    ensures
        row_sum(
            padded_rows(rows, bucket_maxima(cycle_values(rows), ends)),
            |c: u64| c as nat,
        ) == row_sum(rows, |c: u64| c as nat) + overhead(value_rows(partition_of(rows)), ends),
{
    let values = cycle_values(rows);
    let n = values.len() as int;
    let vs = value_rows(partition_of(rows));
    let m = bucket_maxima(values, ends);
    let g = |c: u64| (round_up(m, c) - c) as nat;
    let f = |c: u64| class_weight(rows, c) * g(c);
    lemma_cycle_values(rows);
    law_padding_upward(rows, ends, k);
    assert forall|i: int| 0 <= i < rows.len() implies round_up(m, (#[trigger] rows[i]).0)
        >= rows[i].0 by {
        assert(padded_rows(rows, m)[i].0 >= rows[i].0);
    }
    lemma_row_sum_difference(rows, m);
    lemma_regroup(rows, g);
    assert forall|j: int, p: int|
        0 <= j < k && (j == 0 || ends[j - 1] < p) && 0 <= p <= #[trigger] ends[j] implies f(
        #[trigger] values[p],
    ) == vs[p].1 * (vs[ends[j]].0 - vs[p].0) by {
        lemma_ends_are_places(ends, n, k, j);
        let b = lemma_padded_cost(values, ends, k, p);
        if b < j {
            if b < j - 1 {
                assert(ends[b] < ends[j - 1]);
            }
        }
        if j < b {
            assert(ends[j] < p);
        }
        assert(b == j);
        assert(vs[p] == (values[p], class_weight(rows, values[p])));
        assert(vs[ends[j]].0 == values[ends[j]]);
    }
    lemma_buckets_sum(vs, values, f, ends, n, k);
    assert(values.take(n) =~= values);
}

/// A bucketing with as many buckets as places has one place in each.
pub proof fn lemma_full_bucketing(ends: Seq<int>, n: int, j: int)
    requires
        n >= 1,
        is_bucketing(ends, n, n as nat),
        0 <= j < n,
    ensures
        ends[j] == j,
    decreases n,
{
    lemma_ends_at_least(ends, n, n as nat, j);
    if j < n - 1 {
        assert(ends[n - 2] < ends[n - 1]);
        lemma_ends_at_least(ends, n, n as nat, n - 2);
        let t = ends.drop_last();
        assert(is_bucketing(t, n - 1, (n - 1) as nat));
        lemma_full_bucketing(t, n - 1, j);
    }
}

proof fn lemma_ends_at_least(ends: Seq<int>, n: int, k: nat, j: int)
    requires
        is_bucketing(ends, n, k),
        0 <= j < k,
    ensures
        ends[j] >= j,
    decreases j,
{
    if j > 0 {
        lemma_ends_at_least(ends, n, k, j - 1);
        assert(ends[j - 1] < ends[j]);
    }
}

/// With one bucket everything is padded to the largest cost, and nothing leaks.
pub proof fn law_single_bucket(rows: Seq<(u64, nat)>, ends: Seq<int>)
    requires
        total_weight(rows) > 0,
        is_bucketing(ends, cycle_values(rows).len() as int, 1),
    ensures
        ({
            let q = padded_rows(rows, bucket_maxima(cycle_values(rows), ends));
            &&& leakage_of(partition_of(q)).shannon_bits == 0
            &&& leakage_of(partition_of(q)).min_entropy_bits == 0
            &&& forall|i: int|
                0 <= i < q.len() ==> (#[trigger] q[i]).0 == cycle_values(rows).last()
        }),
{
    let values = cycle_values(rows);
    let m = bucket_maxima(values, ends);
    let q = padded_rows(rows, m);
    law_padded_classes(rows, ends, 1);
    lemma_padded_total(rows, m);
    law_constant_observable(q);
    lemma_cycle_values(q);
    assert forall|i: int| 0 <= i < q.len() implies (#[trigger] q[i]).0 == values.last() by {
        assert(occurs(q, q[i].0));
        let j = m.index_of(q[i].0);
        assert(m[j] == q[i].0);
    }
}

/// With as many buckets as distinct costs nothing is padded: there is no overhead,
/// and the leakage is that of the sweep itself.
pub proof fn law_no_padding(rows: Seq<(u64, nat)>, ends: Seq<int>)
    requires
        rows.len() > 0,
        is_bucketing(ends, cycle_values(rows).len() as int, cycle_values(rows).len()),
    ensures
        padded_rows(rows, bucket_maxima(cycle_values(rows), ends)) == rows,
        overhead(value_rows(partition_of(rows)), ends) == 0,
{
    let values = cycle_values(rows);
    let n = values.len() as int;
    let m = bucket_maxima(values, ends);
    let q = padded_rows(rows, m);
    lemma_cycle_values(rows);
    assert forall|i: int| 0 <= i < rows.len() implies q[i] == rows[i] by {
        assert(occurs(rows, rows[i].0));
        let p = values.index_of(rows[i].0);
        assert(values[p] == rows[i].0);
        let j = lemma_padded_cost(values, ends, n as nat, p);
        lemma_full_bucketing(ends, n, j);
        if j > 0 {
            lemma_full_bucketing(ends, n, j - 1);
        }
    }
    assert(q =~= rows);
    law_padding_overhead(rows, ends, n as nat);
}

proof fn lemma_pad_to_ordered(vs: Seq<(u64, nat)>, i: int, e: int, c: u64, d: u64)
    requires
        0 <= i,
        e <= vs.len(),
        c <= d,
    ensures
        pad_to(vs, i, e, c) <= pad_to(vs, i, e, d),
        i < e && c < d && vs[e - 1].1 > 0 ==> pad_to(vs, i, e, c) < pad_to(vs, i, e, d),
    decreases e - i,
{
    if i < e {
        lemma_pad_to_ordered(vs, i, e - 1, c, d);
        let w = vs[e - 1].1;
        let a = c - vs[e - 1].0;
        let b = d - vs[e - 1].0;
        assert(w * a <= w * b) by (nonlinear_arith)
            requires
                a <= b,
                w >= 0,
        ;
        if c < d && w > 0 {
            assert(w * a < w * b) by (nonlinear_arith)
                requires
                    a < b,
                    w > 0,
            ;
        }
    }
}

/// Whether the costs increase and every one of them has weight.
pub open spec fn strictly_sorted(vs: Seq<(u64, nat)>) -> bool {
    &&& forall|i: int, j: int|
        0 <= i < j < vs.len() ==> (#[trigger] vs[i]).0 < (#[trigger] vs[j]).0
    &&& forall|i: int| 0 <= i < vs.len() ==> (#[trigger] vs[i]).1 > 0
}

/// A bucketing that is not the finest can be refined at no cost.
proof fn lemma_refine(vs: Seq<(u64, nat)>, ends: Seq<int>, n: int, k: nat) -> (r: Seq<int>)
    requires
        sorted(vs),
        n <= vs.len(),
        k < n,
        is_bucketing(ends, n, k),
    ensures
        is_bucketing(r, n, k + 1),
        overhead(vs, r) <= overhead(vs, ends),
        strictly_sorted(vs) ==> overhead(vs, r) < overhead(vs, ends),
    decreases k,
{
    let t = ends.drop_last();
    let e = n - 1;
    let s = if k == 1 {
        0
    } else {
        t.last() + 1
    };
    if k > 1 {
        assert(ends[k - 2] < ends[k - 1]);
        lemma_ends_are_places(ends, n, k, k - 2);
    }
    if s < e {
        let u = t.push(e - 1);
        let r = u.push(e);
        assert forall|a: int, b: int| 0 <= a < b < r.len() implies r[a] < r[b] by {
            if a < t.len() - 1 {
                assert(ends[a] < ends[t.len() - 1]);
            }
            if b < t.len() {
                assert(ends[a] < ends[b]);
            }
        }
        assert(r.drop_last() =~= u);
        assert(u.drop_last() =~= t);
        assert(vs[e - 1].0 <= vs[e].0);
        lemma_pad_to_ordered(vs, s, e, vs[e - 1].0, vs[e].0);
        if strictly_sorted(vs) {
            assert(vs[e - 1].0 < vs[e].0);
            assert(vs[e - 1].1 > 0);
        }
        let w = vs[e].1;
        let c = vs[e].0;
        assert(w * (c - c) == 0) by (nonlinear_arith);
        assert(pad_to(vs, e, e, c) == 0);
        assert(bucket_cost(vs, e, e) == 0);
        assert(bucket_cost(vs, s, e) == pad_to(vs, s, e, c));
        assert(overhead(vs, u) == overhead(vs, t) + bucket_cost(vs, s, e - 1));
        assert(overhead(vs, r) == overhead(vs, u) + bucket_cost(vs, e, e));
        r
    } else {
        assert(k > 1);
        assert(is_bucketing(t, s, (k - 1) as nat));
        let u = lemma_refine(vs, t, s, (k - 1) as nat);
        let r = u.push(e);
        assert forall|a: int, b: int| 0 <= a < b < r.len() implies r[a] < r[b] by {
            lemma_ends_are_places(u, s, k, a);
        }
        assert(r.drop_last() =~= u);
        r
    }
}

/// One more bucket never costs more cycles, and costs fewer where the costs increase
/// and every one of them has weight.
pub proof fn law_more_buckets(vs: Seq<(u64, nat)>, a: Seq<int>, b: Seq<int>, n: int, k: nat)
    requires
        sorted(vs),
        n <= vs.len(),
        is_cheapest(vs, a, n, k),
        is_cheapest(vs, b, n, k + 1),
    ensures
        overhead(vs, b) <= overhead(vs, a),
        strictly_sorted(vs) ==> overhead(vs, b) < overhead(vs, a),
{
    lemma_ends_at_least(b, n, k + 1, k as int);
    let r = lemma_refine(vs, a, n, k);
}

/// What the frontier of a sweep promises: one bucket reveals nothing; each further
/// bucket costs no more cycles, and fewer where all weights are positive; no point
/// reveals more than the sweep itself; under a uniform prior the point for `k`
/// buckets has a min-entropy leakage of `log2(k)`; and with a bucket for each cost
/// there is no overhead and the leakage is that of the sweep.
pub proof fn law_frontier(f: Frontier, rows: Seq<(u64, nat)>, max_k: nat)
    requires
        total_weight(rows) > 0,
        cycle_values(rows).len() >= 2,
        is_frontier(f, rows, max_k),
    ensures
        f.rows@.len() > 0,
        f.rows@[0].leakage@.shannon_bits == 0,
        f.rows@[0].leakage@.min_entropy_bits == 0,
        forall|a: int, b: int|
            0 <= a <= b < f.rows@.len() ==> (#[trigger] f.rows@[b]).solution.total_overhead@ <= (
            #[trigger] f.rows@[a]).solution.total_overhead@,
        positive_weights(rows) ==> forall|a: int, b: int|
            0 <= a < b < f.rows@.len() ==> (#[trigger] f.rows@[b]).solution.total_overhead@ < (
            #[trigger] f.rows@[a]).solution.total_overhead@,
        forall|a: int| #![trigger f.rows@[a]]
            0 <= a < f.rows@.len() ==> {
                &&& f.rows@[a].leakage@.shannon_bits <= leakage_of(partition_of(rows)).shannon_bits
                &&& f.rows@[a].leakage@.min_entropy_bits <= leakage_of(
                    partition_of(rows),
                ).min_entropy_bits
                &&& f.rows@[a].leakage@.num_classes == f.rows@[a].k
                &&& uniform(rows, 1) ==> f.rows@[a].leakage@.min_entropy_bits == lg(
                    f.rows@[a].k as nat,
                )
                &&& f.rows@[a].k == cycle_values(rows).len()
                    ==> f.rows@[a].solution.total_overhead@ == 0 && f.rows@[a].leakage@
                    == leakage_of(partition_of(rows))
            },
{
    let p = partition_of(rows);
    let values = cycle_values(rows);
    let n = values.len() as int;
    let vs = value_rows(p);
    lemma_value_rows_sorted(rows);
    assert(is_frontier_row(f.rows@[0], rows, 1));
    law_single_bucket(rows, ends_of(f.rows@[0].solution.bounds@));
    assert forall|a: int, b: int| 0 <= a <= b < f.rows@.len() implies (
    #[trigger] f.rows@[b]).solution.total_overhead@ <= (
    #[trigger] f.rows@[a]).solution.total_overhead@ by {
        lemma_overhead_ordered(f, rows, max_k, a, b);
    }
    if positive_weights(rows) {
        assert forall|a: int, b: int| 0 <= a < b < f.rows@.len() implies (
        #[trigger] f.rows@[b]).solution.total_overhead@ < (
        #[trigger] f.rows@[a]).solution.total_overhead@ by {
            lemma_overhead_ordered(f, rows, max_k, a, b);
        }
    }
    assert forall|a: int| #![trigger f.rows@[a]] 0 <= a < f.rows@.len() implies {
        &&& f.rows@[a].leakage@.shannon_bits <= leakage_of(p).shannon_bits
        &&& f.rows@[a].leakage@.min_entropy_bits <= leakage_of(p).min_entropy_bits
        &&& f.rows@[a].leakage@.num_classes == f.rows@[a].k
        &&& uniform(rows, 1) ==> f.rows@[a].leakage@.min_entropy_bits == lg(f.rows@[a].k as nat)
        &&& f.rows@[a].k == values.len() ==> f.rows@[a].solution.total_overhead@ == 0
            && f.rows@[a].leakage@ == leakage_of(p)
    } by {
        let k = (a + 1) as nat;
        assert(is_frontier_row(f.rows@[a], rows, k));
        let ends = ends_of(f.rows@[a].solution.bounds@);
        law_padding_reveals_less(rows, bucket_maxima(values, ends));
        law_padded_classes(rows, ends, k);
        if uniform(rows, 1) {
            lemma2_to64();
            law_padded_uniform(rows, ends, k, 1);
            assert(pow2(0) == 1);
        }
        if k == values.len() {
            law_no_padding(rows, ends);
        }
    }
}

/// The classes of a sweep with positive weights have increasing costs and positive weights.
proof fn lemma_value_rows_strict(rows: Seq<(u64, nat)>)
    requires
        positive_weights(rows),
    ensures
        strictly_sorted(value_rows(partition_of(rows))),
{
    let p = partition_of(rows);
    let vs = value_rows(p);
    lemma_cycle_values(rows);
    assert forall|i: int, j: int| 0 <= i < j < vs.len() implies (#[trigger] vs[i]).0 < (
    #[trigger] vs[j]).0 by {
        assert(p.values[i] < p.values[j]);
    }
    assert forall|i: int| 0 <= i < vs.len() implies (#[trigger] vs[i]).1 > 0 by {
        let c = p.values[i];
        assert(p.values.contains(c));
        assert(occurs(rows, c));
        let k = choose|k: int| 0 <= k < rows.len() && (#[trigger] rows[k]).0 == c;
        lemma_row_bounds(rows, k);
        assert(rows[k].1 > 0);
    }
}

proof fn lemma_overhead_ordered(f: Frontier, rows: Seq<(u64, nat)>, max_k: nat, a: int, b: int)
    requires
        is_frontier(f, rows, max_k),
        0 <= a <= b < f.rows@.len(),
    ensures
        f.rows@[b].solution.total_overhead@ <= f.rows@[a].solution.total_overhead@,
        positive_weights(rows) && a < b ==> f.rows@[b].solution.total_overhead@
            < f.rows@[a].solution.total_overhead@,
    decreases b - a,
{
    if a < b {
        lemma_overhead_ordered(f, rows, max_k, a, b - 1);
        lemma_value_rows_sorted(rows);
        if positive_weights(rows) {
            lemma_value_rows_strict(rows);
        }
        let vs = value_rows(partition_of(rows));
        assert(is_frontier_row(f.rows@[b - 1], rows, b as nat));
        assert(is_frontier_row(f.rows@[b], rows, (b + 1) as nat));
        law_more_buckets(
            vs,
            ends_of(f.rows@[b - 1].solution.bounds@),
            ends_of(f.rows@[b].solution.bounds@),
            cycle_values(rows).len() as int,
            b as nat,
        );
    }
}

proof fn lemma_precedes(a: Seq<int>, b: Seq<int>)
    requires
        a.len() == b.len(),
        precedes(a, b),
    ensures
        a == b || exists|j: int|
            0 <= j < a.len() && #[trigger] a[j] < b[j] && forall|i: int|
                j < i < a.len() ==> a[i] == b[i],
    decreases a.len(),
{
    if a.len() == 0 {
        assert(a =~= b);
    } else {
        let n = a.len() - 1;
        let s = a.drop_last();
        let t = b.drop_last();
        if a.last() < b.last() {
            assert(a[n] < b[n]);
        } else {
            lemma_precedes(s, t);
            if s == t {
                assert(a =~= s.push(a.last()));
                assert(b =~= t.push(b.last()));
            } else {
                let j = choose|j: int|
                    0 <= j < s.len() && #[trigger] s[j] < t[j] && forall|i: int|
                        j < i < s.len() ==> s[i] == t[i];
                assert(a[j] < b[j]);
                assert forall|i: int| j < i < a.len() implies a[i] == b[i] by {
                    if i < n {
                        assert(s[i] == t[i]);
                    }
                }
            }
        }
    }
}

/// Among the paddings into `k` buckets of the least overhead, the one that is chosen has the
/// earlier end where it differs last from another, so that there is only one to choose.
pub proof fn law_ties(vs: Seq<(u64, nat)>, ends: Seq<int>, other: Seq<int>, n: int, k: nat)
    requires
        is_cheapest(vs, ends, n, k),
        is_bucketing(other, n, k),
    ensures
        overhead(vs, ends) <= overhead(vs, other),
        overhead(vs, ends) == overhead(vs, other) ==> ends == other || exists|j: int|
            0 <= j < k && #[trigger] ends[j] < other[j] && forall|i: int|
                j < i < k ==> ends[i] == other[i],
        is_cheapest(vs, other, n, k) ==> ends == other,
{
    if overhead(vs, ends) == overhead(vs, other) {
        lemma_precedes(ends, other);
        if is_cheapest(vs, other, n, k) && ends != other {
            lemma_precedes(other, ends);
            let j = choose|j: int|
                0 <= j < k && #[trigger] ends[j] < other[j] && forall|i: int|
                    j < i < k ==> ends[i] == other[i];
            let h = choose|h: int|
                0 <= h < k && #[trigger] other[h] < ends[h] && forall|i: int|
                    h < i < k ==> other[i] == ends[i];
            if h < j {
                assert(other[j] == ends[j]);
            } else if j < h {
                assert(ends[h] == other[h]);
            }
        }
    }
}

/// The first end that is not before a place.
pub open spec fn end_of(ends: Seq<int>, p: int) -> int
    decreases ends.len(),
{
    if ends.len() <= 1 || p > ends[ends.len() - 2] {
        ends.last()
    } else {
        end_of(ends.drop_last(), p)
    }
}

/// The weighted distance from the first `e` costs to the costs at the ends of their buckets.
pub open spec fn distance_to_ends(vs: Seq<(u64, nat)>, ends: Seq<int>, e: int) -> int
    decreases e,
{
    if e <= 0 {
        0
    } else {
        distance_to_ends(vs, ends, e - 1) + vs[e - 1].1 * (vs[end_of(ends, e - 1)].0 - vs[e - 1].0)
    }
}

proof fn lemma_distance_prefix(vs: Seq<(u64, nat)>, ends: Seq<int>, e: int)
    requires
        ends.len() >= 2,
        e <= ends[ends.len() - 2] + 1,
    ensures
        distance_to_ends(vs, ends, e) == distance_to_ends(vs, ends.drop_last(), e),
    decreases e,
{
    if e > 0 {
        lemma_distance_prefix(vs, ends, e - 1);
    }
}

proof fn lemma_distance_bucket(vs: Seq<(u64, nat)>, ends: Seq<int>, start: int, e: int)
    requires
        ends.len() >= 1,
        0 <= start <= e,
        ends.len() >= 2 ==> start == ends[ends.len() - 2] + 1,
        ends.len() == 1 ==> start == 0,
    ensures
        distance_to_ends(vs, ends, e) == distance_to_ends(vs, ends, start) + pad_to(
            vs,
            start,
            e,
            vs[ends.last()].0,
        ),
    decreases e - start,
{
    if start < e {
        lemma_distance_bucket(vs, ends, start, e - 1);
        assert(end_of(ends, e - 1) == ends.last());
    }
}

/// The overhead of a bucketing is the sum over costs of their weight times the distance to
/// the cost at the end of their bucket.
pub proof fn law_overhead(vs: Seq<(u64, nat)>, ends: Seq<int>, n: int, k: nat)
    requires
        is_bucketing(ends, n, k),
    ensures
        overhead(vs, ends) == distance_to_ends(vs, ends, n),
    decreases k,
{
    let t = ends.drop_last();
    if k == 1 {
        assert(overhead(vs, t) == 0);
        lemma_distance_bucket(vs, ends, 0, n);
    } else {
        let m = ends[ends.len() - 2] + 1;
        assert(t.last() == m - 1);
        assert(ends[ends.len() - 2] < ends[ends.len() - 1]);
        if ends.len() > 2 {
            assert(ends[0] < ends[ends.len() - 2]);
        }
        assert forall|a: int, b: int| 0 <= a < b < t.len() implies t[a] < t[b] by {
            assert(ends[a] < ends[b]);
        }
        law_overhead(vs, t, m, (k - 1) as nat);
        lemma_distance_prefix(vs, ends, m);
        lemma_distance_bucket(vs, ends, m, n);
    }
}

/// The first end that is not before a place is just that.
pub proof fn law_end_of(ends: Seq<int>, n: int, k: nat, p: int) -> (j: int)
    requires
        is_bucketing(ends, n, k),
        0 <= p < n,
    ensures
        0 <= j < k,
        end_of(ends, p) == ends[j],
        p <= ends[j],
        forall|i: int| 0 <= i < j ==> #[trigger] ends[i] < p,
    decreases k,
{
    if k == 1 {
        0
    } else if p > ends[ends.len() - 2] {
        assert forall|i: int| 0 <= i < k - 1 implies #[trigger] ends[i] < p by {
            if i < k - 2 {
                assert(ends[i] < ends[k - 2]);
            }
        }
        k - 1
    } else {
        let t = ends.drop_last();
        let m = ends[ends.len() - 2] + 1;
        assert(t.last() == m - 1);
        assert forall|a: int, b: int| 0 <= a < b < t.len() implies t[a] < t[b] by {
            assert(ends[a] < ends[b]);
        }
        let j = law_end_of(t, m, (k - 1) as nat, p);
        assert forall|i: int| 0 <= i < j implies #[trigger] ends[i] < p by {
            assert(t[i] == ends[i]);
        }
        j
    }
}

} // verus!
