//! The frontier between leakage and padding overhead.

use crate::buckets::{ends_of, is_cheapest, optimal_buckets, overhead, sorted, Bucketing};
use crate::leakage::{compute_leakage, leakage_of, row_sum, Leakage};
use crate::natural::Nat;
use crate::partition::{
    build_partition, cycle_values, lemma_cycle_values, partition_of, sample_rows, total_weight,
    Class, Partition, PartitionView, Sample,
};
use vstd::prelude::*;

verus! {

/// The distinct costs with the weights of their classes.
pub open spec fn value_rows(p: PartitionView) -> Seq<(u64, nat)> {
    Seq::new(p.values.len(), |i: int| (p.values[i], p.weights[i]))
}

/// The largest cost of each bucket.
pub open spec fn bucket_maxima(values: Seq<u64>, ends: Seq<int>) -> Seq<u64> {
    ends.map_values(|e: int| values[e])
}

/// The first maximum that is not below `c`, or `c` itself where there is none.
pub open spec fn round_up(maxima: Seq<u64>, c: u64) -> u64
    decreases maxima.len(),
{
    if maxima.len() == 0 {
        c
    } else if maxima[0] >= c {
        maxima[0]
    } else {
        round_up(maxima.drop_first(), c)
    }
}

/// The secrets with every cost padded up to the maximum of its bucket.
pub open spec fn padded_rows(rows: Seq<(u64, nat)>, maxima: Seq<u64>) -> Seq<(u64, nat)> {
    rows.map_values(|r: (u64, nat)| (round_up(maxima, r.0), r.1))
}

/// One point of the frontier: what `k` buckets cost and what they still reveal.
#[derive(Debug)]
pub struct FrontierRow {
    pub k: usize,
    pub solution: Bucketing,
    pub leakage: Leakage,
}

/// The points of the frontier, and what their overhead is measured against.
#[derive(Debug)]
pub struct Frontier {
    pub total_weight: Nat,
    /// The sum over secrets of weight times cycles, without padding.
    pub weighted_cycles: Nat,
    pub rows: Vec<FrontierRow>,
}

/// The larger of one and the smaller of two numbers.
pub open spec fn clamped(max_k: nat, n: nat) -> nat {
    if max_k < 1 {
        1
    } else if max_k > n {
        n
    } else {
        max_k
    }
}

/// Whether a row is the point of the frontier for `k` buckets.
pub open spec fn is_frontier_row(r: FrontierRow, rows: Seq<(u64, nat)>, k: nat) -> bool {
    let p = partition_of(rows);
    let ends = ends_of(r.solution.bounds@);
    &&& r.k == k
    &&& is_cheapest(value_rows(p), ends, p.values.len() as int, k)
    &&& r.solution.total_overhead@ == overhead(value_rows(p), ends)
    &&& r.leakage@ == leakage_of(partition_of(padded_rows(rows, bucket_maxima(p.values, ends))))
}

/// Whether this is the frontier of a sweep for one up to `max_k` buckets.
pub open spec fn is_frontier(f: Frontier, rows: Seq<(u64, nat)>, max_k: nat) -> bool {
    &&& f.total_weight@ == total_weight(rows)
    &&& f.weighted_cycles@ == row_sum(rows, |c: u64| c as nat)
    &&& f.rows@.len() == clamped(max_k, cycle_values(rows).len())
    &&& forall|a: int| #![trigger f.rows@[a]]
        0 <= a < f.rows@.len() ==> is_frontier_row(f.rows@[a], rows, (a + 1) as nat)
}

/// The classes of a partition as costs with weights.
pub(crate) fn class_samples(p: &Partition) -> (r: Vec<Sample>)
    ensures
        sample_rows(r@) == value_rows(p@),
{
    let mut r: Vec<Sample> = Vec::new();
    let mut i: usize = 0;
    while i < p.classes.len()
        invariant
            i <= p.classes@.len(),
            r@.len() == i,
            forall|j: int| #![trigger r@[j]]
                0 <= j < i ==> r@[j].cycles == p.classes@[j].cycles && r@[j].weight@
                    == p.classes@[j].weight@,
        decreases p.classes.len() - i,
    {
        let c: &Class = &p.classes[i];
        r.push(Sample { cycles: c.cycles, weight: c.weight.copy() });
        i = i + 1;
    }
    assert(sample_rows(r@) =~= value_rows(p@));
    r
}

proof fn lemma_round_up_skip(m: Seq<u64>, c: u64, i: int)
    requires
        0 <= i <= m.len(),
        forall|j: int| 0 <= j < i ==> m[j] < c,
    ensures
        round_up(m, c) == round_up(m.skip(i), c),
    decreases i,
{
    if i == 0 {
        assert(m.skip(0) =~= m);
    } else {
        let t = m.drop_first();
        assert forall|j: int| 0 <= j < i - 1 implies t[j] < c by {
            assert(t[j] == m[j + 1]);
        }
        lemma_round_up_skip(t, c, i - 1);
        assert(t.skip(i - 1) =~= m.skip(i));
    }
}

/// The value that `round_up` gives at a known place.
pub proof fn lemma_round_up_at(m: Seq<u64>, c: u64, i: int)
    requires
        0 <= i < m.len(),
        forall|j: int| 0 <= j < i ==> m[j] < c,
        m[i] >= c,
    ensures
        round_up(m, c) == m[i],
{
    lemma_round_up_skip(m, c, i);
    assert(m.skip(i)[0] == m[i]);
}

/// Pads one cost to the maximum of its bucket.
fn pad(values: &Vec<Sample>, bounds: &Vec<usize>, c: u64) -> (r: u64)
    requires
        forall|b: int| #![trigger bounds@[b]] 0 <= b < bounds@.len() ==> bounds@[b] < values@.len(),
    ensures
        r == round_up(
            bucket_maxima(
                sample_rows(values@).map_values(|x: (u64, nat)| x.0),
                ends_of(bounds@),
            ),
            c,
        ),
{
    let ghost vals = sample_rows(values@).map_values(|x: (u64, nat)| x.0);
    let ghost m = bucket_maxima(vals, ends_of(bounds@));
    let mut i: usize = 0;
    while i < bounds.len()
        invariant
            vals == sample_rows(values@).map_values(|x: (u64, nat)| x.0),
            m == bucket_maxima(vals, ends_of(bounds@)),
            forall|b: int| #![trigger bounds@[b]]
                0 <= b < bounds@.len() ==> bounds@[b] < values@.len(),
            i <= bounds@.len(),
            forall|j: int| 0 <= j < i ==> m[j] < c,
        decreases bounds.len() - i,
    {
        let e: usize = bounds[i];
        assert(m[i as int] == values@[e as int].cycles);
        if values[e].cycles >= c {
            proof {
                lemma_round_up_at(m, c, i as int);
            }
            return values[e].cycles;
        }
        i = i + 1;
    }
    proof {
        lemma_round_up_skip(m, c, i as int);
        assert(m.skip(i as int) =~= Seq::<u64>::empty());
    }
    c
}

/// Pads every secret of a sweep, keeping the weight of each.
fn pad_all(rows: &Vec<Sample>, values: &Vec<Sample>, bounds: &Vec<usize>) -> (r: Vec<Sample>)
    requires
        forall|b: int| #![trigger bounds@[b]] 0 <= b < bounds@.len() ==> bounds@[b] < values@.len(),
    ensures
        sample_rows(r@) == padded_rows(
            sample_rows(rows@),
            bucket_maxima(sample_rows(values@).map_values(|x: (u64, nat)| x.0), ends_of(bounds@)),
        ),
{
    let ghost m = bucket_maxima(
        sample_rows(values@).map_values(|x: (u64, nat)| x.0),
        ends_of(bounds@),
    );
    let mut r: Vec<Sample> = Vec::new();
    let mut i: usize = 0;
    while i < rows.len()
        invariant
            forall|b: int| #![trigger bounds@[b]]
                0 <= b < bounds@.len() ==> bounds@[b] < values@.len(),
            m == bucket_maxima(
                sample_rows(values@).map_values(|x: (u64, nat)| x.0),
                ends_of(bounds@),
            ),
            i <= rows@.len(),
            r@.len() == i,
            forall|j: int| #![trigger r@[j]]
                0 <= j < i ==> r@[j].cycles == round_up(m, rows@[j].cycles) && r@[j].weight@
                    == rows@[j].weight@,
        decreases rows.len() - i,
    {
        let c: u64 = pad(values, bounds, rows[i].cycles);
        r.push(Sample { cycles: c, weight: rows[i].weight.copy() });
        i = i + 1;
    }
    assert(sample_rows(r@) =~= padded_rows(sample_rows(rows@), m));
    r
}

pub proof fn lemma_padded_total(rows: Seq<(u64, nat)>, m: Seq<u64>)
    ensures
        total_weight(padded_rows(rows, m)) == total_weight(rows),
    decreases rows.len(),
{
    if rows.len() > 0 {
        lemma_padded_total(rows.drop_last(), m);
        assert(padded_rows(rows, m).drop_last() =~= padded_rows(rows.drop_last(), m));
    }
}

pub proof fn lemma_value_rows_sorted(rows: Seq<(u64, nat)>)
    ensures
        sorted(value_rows(partition_of(rows))),
        value_rows(partition_of(rows)).map_values(|x: (u64, nat)| x.0) == cycle_values(rows),
{
    lemma_cycle_values(rows);
    let p = partition_of(rows);
    let vs = value_rows(p);
    assert forall|i: int, j: int| 0 <= i <= j < vs.len() implies (#[trigger] vs[i]).0 <= (
    #[trigger] vs[j]).0 by {
        assert(vs[i].0 == p.values[i]);
        assert(vs[j].0 == p.values[j]);
        if i < j {
            assert(p.values[i] < p.values[j]);
        }
    }
    assert(vs.map_values(|x: (u64, nat)| x.0) =~= cycle_values(rows));
}

/// The sum over secrets of weight times cycles.
fn weighted_cycles(rows: &Vec<Sample>) -> (r: Nat)
    ensures
        r@ == row_sum(sample_rows(rows@), |c: u64| c as nat),
{
    let ghost all = sample_rows(rows@);
    let ghost id = |c: u64| c as nat;
    let mut r: Nat = Nat::zero();
    let mut i: usize = 0;
    assert(all.take(0) =~= Seq::empty());
    while i < rows.len()
        invariant
            all == sample_rows(rows@),
            id == (|c: u64| c as nat),
            i <= rows@.len(),
            r@ == row_sum(all.take(i as int), id),
        decreases rows.len() - i,
    {
        let c: Nat = Nat::from_u64(rows[i].cycles);
        proof {
            assert(all.take(i + 1).drop_last() =~= all.take(i as int));
            assert(all[i as int] == (rows@[i as int].cycles, rows@[i as int].weight@));
        }
        r = r.plus(&rows[i].weight.times(&c));
        i = i + 1;
    }
    assert(all.take(i as int) =~= all);
    r
}

/// Computes the frontier for one up to `max_k` buckets.
///
/// There is none where all secrets take the same number of cycles: then there
/// is nothing to pad.
pub fn padding_frontier(rows: &Vec<Sample>, max_k: usize) -> (r: Option<Frontier>)
    requires
        total_weight(sample_rows(rows@)) > 0 || cycle_values(sample_rows(rows@)).len() < 2,
    ensures
        r is None <==> cycle_values(sample_rows(rows@)).len() < 2,
        r is Some ==> is_frontier(r->Some_0, sample_rows(rows@), max_k as nat),
{
    let ghost all = sample_rows(rows@);
    let p: Partition = build_partition(rows);
    let n: usize = p.classes.len();
    assert(n == p@.values.len());
    if n < 2 {
        return None;
    }
    let values: Vec<Sample> = class_samples(&p);
    proof {
        lemma_value_rows_sorted(all);
        assert(values@.len() == sample_rows(values@).len());
    }
    let cap: usize = if max_k < 1 {
        1
    } else if max_k > n {
        n
    } else {
        max_k
    };
    let mut solutions: Vec<Bucketing> = optimal_buckets(&values, cap);
    let ghost found = solutions@;
    let mut out: Vec<FrontierRow> = Vec::new();
    let mut a: usize = 0;
    while a < cap
        invariant
            all == sample_rows(rows@),
            total_weight(all) > 0,
            sample_rows(values@) == value_rows(partition_of(all)),
            value_rows(partition_of(all)).map_values(|x: (u64, nat)| x.0) == cycle_values(all),
            n == values@.len() == cycle_values(all).len(),
            1 <= cap <= n,
            a <= cap,
            found.len() == cap,
            solutions@ == found.skip(a as int),
            forall|b: int| #![trigger found[b]]
                0 <= b < found.len() ==> {
                    &&& is_cheapest(
                        sample_rows(values@),
                        ends_of(found[b].bounds@),
                        values@.len() as int,
                        (b + 1) as nat,
                    )
                    &&& found[b].total_overhead@ == overhead(
                        sample_rows(values@),
                        ends_of(found[b].bounds@),
                    )
                },
            out@.len() == a,
            forall|b: int| #![trigger out@[b]]
                0 <= b < a ==> is_frontier_row(out@[b], all, (b + 1) as nat),
        decreases cap - a,
    {
        assert(solutions@[0] == found[a as int]);
        let s: Bucketing = solutions.remove(0);
        let ghost ends = ends_of(s.bounds@);
        proof {
            assert(solutions@ =~= found.skip(a + 1));
            assert(s == found[a as int]);
            assert forall|b: int| #![trigger s.bounds@[b]] 0 <= b < s.bounds@.len() implies
                s.bounds@[b] < values@.len() by {
                assert(ends[b] == s.bounds@[b]);
                if b < ends.len() - 1 {
                    assert(ends[b] < ends[ends.len() - 1]);
                }
            }
        }
        let padded: Vec<Sample> = pad_all(rows, &values, &s.bounds);
        proof {
            lemma_padded_total(all, bucket_maxima(cycle_values(all), ends));
        }
        let bp: Partition = build_partition(&padded);
        let leakage: Leakage = compute_leakage(&bp);
        out.push(FrontierRow { k: a + 1, solution: s, leakage });
        a = a + 1;
    }
    Some(
        Frontier {
            total_weight: p.total_weight.copy(),
            weighted_cycles: weighted_cycles(rows),
            rows: out,
        },
    )
}

} // verus!
