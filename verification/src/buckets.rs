//! Padding into buckets, and the cheapest way to do it.
//!
//! A padding scheme rounds every execution up to the largest cost in its bucket,
//! so that all secrets of a bucket become indistinguishable. An execution can
//! only be made longer, so the buckets are contiguous ranges of the sorted costs.

use crate::natural::Nat;
use crate::partition::{sample_rows, Sample};
use vstd::prelude::*;

verus! {

/// Whether the costs never decrease.
pub open spec fn sorted(vs: Seq<(u64, nat)>) -> bool {
    forall|i: int, j: int| 0 <= i <= j < vs.len() ==> (#[trigger] vs[i]).0 <= (#[trigger] vs[j]).0
}

/// The weighted overhead of padding the costs at places `i..e` up to `c`.
pub open spec fn pad_to(vs: Seq<(u64, nat)>, i: int, e: int, c: u64) -> int
    decreases e - i,
{
    if e <= i {
        0
    } else {
        pad_to(vs, i, e - 1, c) + vs[e - 1].1 * (c - vs[e - 1].0)
    }
}

/// The weighted overhead of one bucket that holds the places `i..=j`.
pub open spec fn bucket_cost(vs: Seq<(u64, nat)>, i: int, j: int) -> int {
    pad_to(vs, i, j + 1, vs[j].0)
}

/// Whether `ends` splits `n` places into `k` buckets that are not empty, each
/// given by its last place.
pub open spec fn is_bucketing(ends: Seq<int>, n: int, k: nat) -> bool {
    &&& k >= 1
    &&& ends.len() == k
    &&& ends[0] >= 0
    &&& forall|a: int, b: int| 0 <= a < b < ends.len() ==> ends[a] < ends[b]
    &&& ends.last() == n - 1
}

/// The weighted overhead of a bucketing.
pub open spec fn overhead(vs: Seq<(u64, nat)>, ends: Seq<int>) -> int
    decreases ends.len(),
{
    if ends.len() == 0 {
        0
    } else {
        let t = ends.drop_last();
        let start = if t.len() == 0 {
            0
        } else {
            t.last() + 1
        };
        overhead(vs, t) + bucket_cost(vs, start, ends.last())
    }
}

/// Orders bucketings of one length: where they differ last, the earlier end comes first.
pub open spec fn precedes(a: Seq<int>, b: Seq<int>) -> bool
    decreases a.len(),
{
    if a.len() == 0 || b.len() == 0 {
        true
    } else {
        ||| a.last() < b.last()
        ||| a.last() == b.last() && precedes(a.drop_last(), b.drop_last())
    }
}

/// Whether `ends` is the cheapest bucketing of `n` places into `k` buckets, and the
/// first among those of the same cost.
pub open spec fn is_cheapest(vs: Seq<(u64, nat)>, ends: Seq<int>, n: int, k: nat) -> bool {
    &&& is_bucketing(ends, n, k)
    &&& forall|other: Seq<int>| #[trigger]
        is_bucketing(other, n, k) ==> {
            ||| overhead(vs, ends) < overhead(vs, other)
            ||| overhead(vs, ends) == overhead(vs, other) && precedes(ends, other)
        }
}

/// The cost of the plan for `k` buckets over the places up to `j` whose last bucket starts at `i`.
spec fn candidate(vs: Seq<(u64, nat)>, k: nat, j: int, i: int) -> int
    decreases k, 0int, 0int,
{
    if k < 2 {
        0
    } else {
        overhead(vs, plan(vs, (k - 1) as nat, i - 1)) + bucket_cost(vs, i, j)
    }
}

/// The first start in `k - 1 ..= m` whose candidate is cheapest.
spec fn best_start(vs: Seq<(u64, nat)>, k: nat, j: int, m: int) -> int
    decreases k, 1int, m - (k - 1),
{
    if m <= k - 1 {
        k - 1
    } else {
        let b = best_start(vs, k, j, m - 1);
        if candidate(vs, k, j, m) < candidate(vs, k, j, b) {
            m
        } else {
            b
        }
    }
}

/// The bucketing that dynamic programming finds for the places up to `j`.
spec fn plan(vs: Seq<(u64, nat)>, k: nat, j: int) -> Seq<int>
    decreases k, 2int, 0int,
{
    if k <= 1 {
        seq![j]
    } else {
        plan(vs, (k - 1) as nat, best_start(vs, k, j, j) - 1).push(j)
    }
}

proof fn lemma_best_start(vs: Seq<(u64, nat)>, k: nat, j: int, m: int)
    requires
        k >= 2,
        m >= k - 1,
    ensures
        k - 1 <= best_start(vs, k, j, m) <= m,
        forall|i: int|
            k - 1 <= i <= m ==> candidate(vs, k, j, best_start(vs, k, j, m))
                <= #[trigger] candidate(vs, k, j, i),
        forall|i: int|
            k - 1 <= i < best_start(vs, k, j, m) ==> candidate(vs, k, j, best_start(vs, k, j, m))
                < #[trigger] candidate(vs, k, j, i),
    decreases m,
{
    if m > k - 1 {
        lemma_best_start(vs, k, j, m - 1);
    }
}

proof fn lemma_plan_is_bucketing(vs: Seq<(u64, nat)>, k: nat, j: int)
    requires
        1 <= k <= j + 1,
    ensures
        is_bucketing(plan(vs, k, j), j + 1, k),
    decreases k,
{
    if k > 1 {
        lemma_best_start(vs, k, j, j);
        let i = best_start(vs, k, j, j);
        lemma_plan_is_bucketing(vs, (k - 1) as nat, i - 1);
        let p = plan(vs, (k - 1) as nat, i - 1);
        let q = plan(vs, k, j);
        assert forall|a: int, b: int| 0 <= a < b < q.len() implies q[a] < q[b] by {
            if b == q.len() - 1 {
                if a < p.len() - 1 {
                    assert(p[a] < p[p.len() - 1]);
                }
            }
        }
    }
}

/// The last end of a bucketing leaves room for those before it.
proof fn lemma_bucketing_room(ends: Seq<int>, n: int, k: nat)
    requires
        is_bucketing(ends, n, k),
    ensures
        n >= k,
    decreases k,
{
    if k > 1 {
        let t = ends.drop_last();
        assert(ends[k - 2] < ends[k - 1]);
        assert(is_bucketing(t, t.last() + 1, (k - 1) as nat));
        lemma_bucketing_room(t, t.last() + 1, (k - 1) as nat);
    }
}

/// What dynamic programming finds is the cheapest bucketing.
proof fn lemma_plan_is_cheapest(vs: Seq<(u64, nat)>, k: nat, j: int)
    requires
        1 <= k <= j + 1,
    ensures
        is_cheapest(vs, plan(vs, k, j), j + 1, k),
    decreases k,
{
    lemma_plan_is_bucketing(vs, k, j);
    let best = plan(vs, k, j);
    if k == 1 {
        assert forall|other: Seq<int>| #[trigger] is_bucketing(other, j + 1, k) implies {
            ||| overhead(vs, best) < overhead(vs, other)
            ||| overhead(vs, best) == overhead(vs, other) && precedes(best, other)
        } by {
            assert(other =~= best);
            assert(precedes(best.drop_last(), other.drop_last()));
        }
    } else {
        let k1 = (k - 1) as nat;
        lemma_best_start(vs, k, j, j);
        let s = best_start(vs, k, j, j);
        let p = plan(vs, k1, s - 1);
        lemma_plan_is_bucketing(vs, k1, s - 1);
        assert(best.drop_last() =~= p);
        assert(overhead(vs, best) == candidate(vs, k, j, s));
        assert forall|other: Seq<int>| #[trigger] is_bucketing(other, j + 1, k) implies {
            ||| overhead(vs, best) < overhead(vs, other)
            ||| overhead(vs, best) == overhead(vs, other) && precedes(best, other)
        } by {
            let t = other.drop_last();
            let i = t.last() + 1;
            assert(other[k - 2] < other[k - 1]);
            assert(is_bucketing(t, i, k1));
            lemma_bucketing_room(t, i, k1);
            lemma_plan_is_cheapest(vs, k1, i - 1);
            assert(overhead(vs, other) == overhead(vs, t) + bucket_cost(vs, i, j));
            assert(candidate(vs, k, j, i) <= overhead(vs, other));
            assert(candidate(vs, k, j, s) <= candidate(vs, k, j, i));
            if overhead(vs, best) == overhead(vs, other) {
                assert(s <= i);
                if s == i {
                    assert(precedes(p, t));
                } else {
                    assert(p.last() == s - 1);
                    assert(precedes(p, t));
                }
            }
        }
    }
}

/// There is a cheapest bucketing into any number of buckets up to the number of places.
pub proof fn lemma_cheapest_exists(vs: Seq<(u64, nat)>, k: nat)
    requires
        1 <= k <= vs.len(),
    ensures
        exists|ends: Seq<int>| #[trigger] is_cheapest(vs, ends, vs.len() as int, k),
{
    lemma_plan_is_cheapest(vs, k, vs.len() - 1);
    assert(is_cheapest(vs, plan(vs, k, vs.len() - 1), vs.len() as int, k));
}

/// The sum of the first `e` weights.
spec fn weight_prefix(vs: Seq<(u64, nat)>, e: int) -> int
    decreases e,
{
    if e <= 0 {
        0
    } else {
        weight_prefix(vs, e - 1) + vs[e - 1].1
    }
}

/// The sum of the first `e` products of weight and cost.
spec fn product_prefix(vs: Seq<(u64, nat)>, e: int) -> int
    decreases e,
{
    if e <= 0 {
        0
    } else {
        product_prefix(vs, e - 1) + vs[e - 1].1 * vs[e - 1].0
    }
}

proof fn lemma_prefix_monotone(vs: Seq<(u64, nat)>, i: int, e: int)
    requires
        0 <= i <= e <= vs.len(),
    ensures
        0 <= weight_prefix(vs, i) <= weight_prefix(vs, e),
        0 <= product_prefix(vs, i) <= product_prefix(vs, e),
    decreases e,
{
    if i < e {
        lemma_prefix_monotone(vs, i, e - 1);
        let w = vs[e - 1].1;
        let v = vs[e - 1].0;
        assert(w * v >= 0) by (nonlinear_arith);
    } else if i > 0 {
        lemma_prefix_monotone(vs, i - 1, e - 1);
        let w = vs[e - 1].1;
        let v = vs[e - 1].0;
        assert(w * v >= 0) by (nonlinear_arith);
    }
}

/// The overhead of a bucket by differences of prefix sums.
proof fn lemma_pad_to(vs: Seq<(u64, nat)>, i: int, e: int, c: u64)
    requires
        0 <= i <= e <= vs.len(),
    ensures
        pad_to(vs, i, e, c) == c * (weight_prefix(vs, e) - weight_prefix(vs, i)) - (product_prefix(
            vs,
            e,
        ) - product_prefix(vs, i)),
    decreases e - i,
{
    let a = weight_prefix(vs, i);
    if i < e {
        lemma_pad_to(vs, i, e - 1, c);
        let b = weight_prefix(vs, e - 1);
        let w = vs[e - 1].1 as int;
        let v = vs[e - 1].0 as int;
        let x = c as int;
        assert(x * (b - a) + w * (x - v) == x * (b + w - a) - w * v) by (nonlinear_arith);
    } else {
        assert(c * (a - a) == 0) by (nonlinear_arith);
    }
}

/// Padding upwards costs nothing or more.
pub proof fn lemma_pad_to_nonnegative(vs: Seq<(u64, nat)>, i: int, e: int, c: u64)
    requires
        0 <= i,
        e <= vs.len(),
        forall|t: int| i <= t < e ==> (#[trigger] vs[t]).0 <= c,
    ensures
        pad_to(vs, i, e, c) >= 0,
    decreases e - i,
{
    if i < e {
        lemma_pad_to_nonnegative(vs, i, e - 1, c);
        let w = vs[e - 1].1 as int;
        let d = c - vs[e - 1].0;
        assert(w * d >= 0) by (nonlinear_arith)
            requires
                w >= 0,
                d >= 0,
        ;
    }
}

/// One solution: a total weighted overhead, and the last place of each bucket.
#[derive(Debug)]
pub struct Bucketing {
    pub total_overhead: Nat,
    pub bounds: Vec<usize>,
}

/// The places of a vector of bounds.
pub open spec fn ends_of(bounds: Seq<usize>) -> Seq<int> {
    bounds.map_values(|x: usize| x as int)
}

/// Prefix sums over the distinct costs, from which any bucket's overhead follows.
struct Prefixes {
    weights: Vec<Nat>,
    products: Vec<Nat>,
}

impl Prefixes {
    spec fn of(&self, vs: Seq<(u64, nat)>) -> bool {
        &&& self.weights@.len() == vs.len() + 1
        &&& self.products@.len() == vs.len() + 1
        &&& forall|e: int|
            0 <= e <= vs.len() ==> (#[trigger] self.weights@[e])@ == weight_prefix(vs, e)
        &&& forall|e: int|
            0 <= e <= vs.len() ==> (#[trigger] self.products@[e])@ == product_prefix(vs, e)
    }

    fn new(values: &Vec<Sample>) -> (r: Prefixes)
        ensures
            r.of(sample_rows(values@)),
    {
        let ghost vs = sample_rows(values@);
        let mut weights: Vec<Nat> = Vec::new();
        let mut products: Vec<Nat> = Vec::new();
        weights.push(Nat::zero());
        products.push(Nat::zero());
        let mut i: usize = 0;
        while i < values.len()
            invariant
                vs == sample_rows(values@),
                i <= values@.len(),
                weights@.len() == i + 1,
                products@.len() == i + 1,
                forall|e: int| 0 <= e <= i ==> (#[trigger] weights@[e])@ == weight_prefix(vs, e),
                forall|e: int| 0 <= e <= i ==> (#[trigger] products@[e])@ == product_prefix(vs, e),
            decreases values.len() - i,
        {
            let w: Nat = weights[i].plus(&values[i].weight);
            let c: Nat = Nat::from_u64(values[i].cycles);
            let q: Nat = products[i].plus(&values[i].weight.times(&c));
            assert(vs[i as int] == (values@[i as int].cycles, values@[i as int].weight@));
            weights.push(w);
            products.push(q);
            i = i + 1;
        }
        Prefixes { weights, products }
    }

    /// The overhead of the bucket that holds the places `i..=j`.
    fn cost(&self, values: &Vec<Sample>, i: usize, j: usize) -> (r: Nat)
        requires
            self.of(sample_rows(values@)),
            sorted(sample_rows(values@)),
            i <= j < values@.len(),
        ensures
            r@ == bucket_cost(sample_rows(values@), i as int, j as int),
    {
        let ghost vs = sample_rows(values@);
        proof {
            assert(vs[j as int] == (values@[j as int].cycles, values@[j as int].weight@));
            lemma_prefix_monotone(vs, i as int, j + 1);
            lemma_pad_to(vs, i as int, j + 1, vs[j as int].0);
            assert forall|t: int| i <= t < j + 1 implies (#[trigger] vs[t]).0 <= vs[j as int].0 by {
                assert(vs[t].0 <= vs[j as int].0);
            }
            lemma_pad_to_nonnegative(vs, i as int, j + 1, vs[j as int].0);
        }
        assert(j < values.len());
        let w: Nat = self.weights[j + 1].minus(&self.weights[i]);
        let q: Nat = self.products[j + 1].minus(&self.products[i]);
        let c: Nat = Nat::from_u64(values[j].cycles);
        c.times(&w).minus(&q)
    }
}

/// One row of the dynamic program: for every place `j` that `k` buckets can reach,
/// the least overhead and the start of the last bucket.
struct Layer {
    best: Vec<Nat>,
    cut: Vec<usize>,
}

impl Layer {
    /// The entry for place `j` stands at `j - (k - 1)`.
    spec fn solves(&self, vs: Seq<(u64, nat)>, k: nat) -> bool {
        &&& 1 <= k <= vs.len()
        &&& self.best@.len() == vs.len() - k + 1
        &&& self.cut@.len() == vs.len() - k + 1
        &&& forall|a: int| #![trigger self.best@[a]]
            0 <= a < self.best@.len() ==> self.best@[a]@ == overhead(vs, plan(vs, k, a + k - 1))
        &&& forall|a: int| #![trigger self.cut@[a]]
            0 <= a < self.cut@.len() ==> self.cut@[a] == (if k == 1 {
                0
            } else {
                best_start(vs, k, a + k - 1, a + k - 1)
            })
    }
}

proof fn lemma_first_layer(vs: Seq<(u64, nat)>, j: int)
    ensures
        overhead(vs, plan(vs, 1, j)) == bucket_cost(vs, 0, j),
{
    let p = plan(vs, 1, j);
    assert(p.drop_last() =~= Seq::<int>::empty());
    assert(overhead(vs, p.drop_last()) == 0);
}

fn first_layer(values: &Vec<Sample>, pre: &Prefixes) -> (r: Layer)
    requires
        pre.of(sample_rows(values@)),
        sorted(sample_rows(values@)),
        values@.len() > 0,
    ensures
        r.solves(sample_rows(values@), 1),
{
    let ghost vs = sample_rows(values@);
    let mut best: Vec<Nat> = Vec::new();
    let mut cut: Vec<usize> = Vec::new();
    let mut j: usize = 0;
    while j < values.len()
        invariant
            vs == sample_rows(values@),
            pre.of(vs),
            sorted(vs),
            j <= values@.len(),
            best@.len() == j,
            cut@.len() == j,
            forall|a: int| #![trigger best@[a]]
                0 <= a < j ==> best@[a]@ == overhead(vs, plan(vs, 1, a)),
            forall|a: int| #![trigger cut@[a]] 0 <= a < j ==> cut@[a] == 0,
        decreases values.len() - j,
    {
        let c: Nat = pre.cost(values, 0, j);
        proof {
            lemma_first_layer(vs, j as int);
        }
        best.push(c);
        cut.push(0);
        j = j + 1;
    }
    Layer { best, cut }
}

proof fn lemma_candidate(vs: Seq<(u64, nat)>, k: nat, j: int)
    requires
        2 <= k <= j + 1,
    ensures
        overhead(vs, plan(vs, k, j)) == candidate(vs, k, j, best_start(vs, k, j, j)),
{
    lemma_best_start(vs, k, j, j);
    let i = best_start(vs, k, j, j);
    let k1 = (k - 1) as nat;
    lemma_plan_is_bucketing(vs, k1, i - 1);
    let p = plan(vs, k, j);
    assert(p.drop_last() =~= plan(vs, k1, i - 1));
}

/// The layer for `k` buckets from that for `k - 1`.
fn next_layer(values: &Vec<Sample>, pre: &Prefixes, prev: &Layer, k: usize) -> (r: Layer)
    requires
        pre.of(sample_rows(values@)),
        sorted(sample_rows(values@)),
        2 <= k <= values@.len(),
        prev.solves(sample_rows(values@), (k - 1) as nat),
    ensures
        r.solves(sample_rows(values@), k as nat),
{
    let ghost vs = sample_rows(values@);
    let mut best: Vec<Nat> = Vec::new();
    let mut cut: Vec<usize> = Vec::new();
    let mut j: usize = k - 1;
    while j < values.len()
        invariant
            vs == sample_rows(values@),
            pre.of(vs),
            sorted(vs),
            2 <= k <= values@.len(),
            prev.solves(vs, (k - 1) as nat),
            k - 1 <= j <= values@.len(),
            best@.len() == j - (k - 1),
            cut@.len() == j - (k - 1),
            forall|a: int| #![trigger best@[a]]
                0 <= a < best@.len() ==> best@[a]@ == overhead(vs, plan(vs, k as nat, a + k - 1)),
            forall|a: int| #![trigger cut@[a]]
                0 <= a < cut@.len() ==> cut@[a] == best_start(vs, k as nat, a + k - 1, a + k - 1),
        decreases values.len() - j,
    {
        let mut i: usize = k - 1;
        let mut least: Nat = prev.best[0].plus(&pre.cost(values, i, j));
        let mut start: usize = i;
        proof {
            assert(prev.best@[0]@ == overhead(vs, plan(vs, (k - 1) as nat, k - 2)));
        }
        while i < j
            invariant
                vs == sample_rows(values@),
                pre.of(vs),
                sorted(vs),
                2 <= k <= values@.len(),
                prev.solves(vs, (k - 1) as nat),
                k - 1 <= i <= j < values@.len(),
                k - 1 <= start <= i,
                start == best_start(vs, k as nat, j as int, i as int),
                least@ == candidate(vs, k as nat, j as int, start as int),
            decreases j - i,
        {
            i = i + 1;
            let cand: Nat = prev.best[i - (k - 1)].plus(&pre.cost(values, i, j));
            proof {
                assert(prev.best@[i - (k - 1)]@ == overhead(vs, plan(vs, (k - 1) as nat, i - 1)));
                assert(cand@ == candidate(vs, k as nat, j as int, i as int));
            }
            if cand.less(&least) {
                least = cand;
                start = i;
            }
        }
        proof {
            lemma_candidate(vs, k as nat, j as int);
        }
        best.push(least);
        cut.push(start);
        j = j + 1;
    }
    Layer { best, cut }
}

/// Reads the bounds of the plan for `k` buckets off the layers.
fn trace(values: &Vec<Sample>, layers: &Vec<Layer>, k: usize) -> (bounds: Vec<usize>)
    requires
        1 <= k <= layers@.len(),
        layers@.len() <= values@.len(),
        forall|b: int| #![trigger layers@[b]]
            0 <= b < layers@.len() ==> layers@[b].solves(sample_rows(values@), (b + 1) as nat),
    ensures
        ends_of(bounds@) == plan(sample_rows(values@), k as nat, values@.len() - 1),
{
    let ghost vs = sample_rows(values@);
    let ghost whole = plan(vs, k as nat, vs.len() - 1);
    // The ends, last first.
    let mut back: Vec<usize> = Vec::new();
    let mut j: usize = values.len() - 1;
    let mut b: usize = k;
    back.push(j);
    let ghost rest = plan(vs, b as nat, j as int).drop_last();
    proof {
        lemma_plan_is_bucketing(vs, k as nat, j as int);
        assert(ends_of(back@).reverse() =~= seq![j as int]);
        assert(rest + ends_of(back@).reverse() =~= whole);
    }
    while b > 1
        invariant
            vs == sample_rows(values@),
            1 <= b <= k <= layers@.len(),
            layers@.len() <= values@.len(),
            forall|b: int| #![trigger layers@[b]]
                0 <= b < layers@.len() ==> layers@[b].solves(vs, (b + 1) as nat),
            b <= j + 1 <= values@.len(),
            rest == plan(vs, b as nat, j as int).drop_last(),
            rest + ends_of(back@).reverse() == whole,
        decreases b,
    {
        proof {
            assert(layers@[b - 1].solves(vs, b as nat));
            lemma_best_start(vs, b as nat, j as int, j as int);
        }
        let i: usize = layers[b - 1].cut[j - (b - 1)];
        proof {
            assert(i == best_start(vs, b as nat, j as int, j as int));
            let p = plan(vs, (b - 1) as nat, i - 1);
            lemma_plan_is_bucketing(vs, (b - 1) as nat, i - 1);
            assert(plan(vs, b as nat, j as int).drop_last() =~= p);
            let old_back = back@;
            assert(ends_of(old_back.push((i - 1) as usize)).reverse() =~= seq![i - 1] + ends_of(
                old_back,
            ).reverse());
            assert(p =~= p.drop_last() + seq![i - 1]);
            assert(p.drop_last() + ends_of(old_back.push((i - 1) as usize)).reverse() =~= whole);
            rest = p.drop_last();
        }
        j = i - 1;
        b = b - 1;
        back.push(j);
    }
    proof {
        assert(rest =~= Seq::<int>::empty());
    }
    let mut bounds: Vec<usize> = Vec::new();
    let mut n: usize = back.len();
    while n > 0
        invariant
            n <= back@.len(),
            bounds@ =~= back@.reverse().take(back@.len() - n),
        decreases n,
    {
        n = n - 1;
        bounds.push(back[n]);
    }
    proof {
        assert(bounds@ =~= back@.reverse());
        assert(ends_of(bounds@) =~= ends_of(back@).reverse());
        assert(rest + ends_of(back@).reverse() =~= ends_of(back@).reverse());
    }
    bounds
}

/// Optimal contiguous bucketing by dynamic programming.
///
/// For each number of buckets `k`, up to `max_k` and to the number of distinct
/// costs, the cheapest padding into exactly `k` buckets.
pub fn optimal_buckets(values: &Vec<Sample>, max_k: usize) -> (out: Vec<Bucketing>)
    requires
        sorted(sample_rows(values@)),
        values@.len() == 0 <==> max_k == 0,
    ensures
        out@.len() == (if max_k < values@.len() {
            max_k as nat
        } else {
            values@.len()
        }),
        forall|a: int| #![trigger out@[a]]
            0 <= a < out@.len() ==> {
                &&& is_cheapest(
                    sample_rows(values@),
                    ends_of(out@[a].bounds@),
                    values@.len() as int,
                    (a + 1) as nat,
                )
                &&& out@[a].total_overhead@ == overhead(
                    sample_rows(values@),
                    ends_of(out@[a].bounds@),
                )
            },
{
    let ghost vs = sample_rows(values@);
    let mut out: Vec<Bucketing> = Vec::new();
    if values.len() == 0 {
        return out;
    }
    let n: usize = values.len();
    let top: usize = if max_k < n {
        max_k
    } else {
        n
    };
    let pre: Prefixes = Prefixes::new(values);
    let mut layers: Vec<Layer> = Vec::new();
    layers.push(first_layer(values, &pre));
    let mut k: usize = 1;
    while k < top
        invariant
            vs == sample_rows(values@),
            n == values@.len(),
            sorted(vs),
            pre.of(vs),
            1 <= k <= top <= n,
            layers@.len() == k,
            forall|b: int| #![trigger layers@[b]]
                0 <= b < layers@.len() ==> layers@[b].solves(vs, (b + 1) as nat),
        decreases top - k,
    {
        assert(layers@[k - 1].solves(vs, k as nat));
        let next: Layer = next_layer(values, &pre, &layers[k - 1], k + 1);
        layers.push(next);
        k = k + 1;
    }
    let mut a: usize = 0;
    while a < top
        invariant
            vs == sample_rows(values@),
            n == values@.len(),
            1 <= top <= n,
            layers@.len() == top,
            forall|b: int| #![trigger layers@[b]]
                0 <= b < layers@.len() ==> layers@[b].solves(vs, (b + 1) as nat),
            a <= top,
            out@.len() == a,
            forall|b: int| #![trigger out@[b]]
                0 <= b < a ==> {
                    &&& is_cheapest(vs, ends_of(out@[b].bounds@), n as int, (b + 1) as nat)
                    &&& out@[b].total_overhead@ == overhead(vs, ends_of(out@[b].bounds@))
                },
        decreases top - a,
    {
        let bounds: Vec<usize> = trace(values, &layers, a + 1);
        proof {
            assert(layers@[a as int].solves(vs, (a + 1) as nat));
            lemma_plan_is_cheapest(vs, (a + 1) as nat, n - 1);
        }
        let total_overhead: Nat = layers[a].best[n - 1 - a].copy();
        out.push(Bucketing { total_overhead, bounds });
        a = a + 1;
    }
    out
}

} // verus!
