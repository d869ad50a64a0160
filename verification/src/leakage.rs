//! How many bits a partition reveals.

use crate::binary_log::{lemma_lg_monotone, lg, log2_fixed, LOG_ONE};
use crate::natural::Nat;
use crate::partition::{
    class_max, class_weight, cycle_values, increasing, larger, lemma_class_absent,
    lemma_cycle_values, lemma_put, max_weight, occurs, partition_of, put, total_weight, weight_logs,
    xlg, Class, Partition, PartitionView,
};
use vstd::prelude::*;

verus! {

/// The sum of a sequence.
pub open spec fn sum(s: Seq<nat>) -> nat
    decreases s.len(),
{
    if s.len() == 0 {
        0
    } else {
        sum(s.drop_last()) + s.last()
    }
}

/// The largest element of a sequence, zero for an empty one.
pub open spec fn greatest(s: Seq<nat>) -> nat
    decreases s.len(),
{
    if s.len() == 0 {
        0
    } else {
        larger(greatest(s.drop_last()), s.last())
    }
}

/// The sum of each element times its logarithm.
pub open spec fn log_sum(s: Seq<nat>) -> nat
    decreases s.len(),
{
    if s.len() == 0 {
        0
    } else {
        log_sum(s.drop_last()) + xlg(s.last())
    }
}

/// The exact ratio of two naturals.
#[derive(Debug)]
pub struct Ratio {
    pub num: Nat,
    pub den: Nat,
}

impl View for Ratio {
    type V = (nat, nat);

    open spec fn view(&self) -> (nat, nat) {
        (self.num@, self.den@)
    }
}

/// How much one observation of the cycle count reveals.
///
/// Quantities in bits are fixed-point numbers: they count units of one bit
/// divided by `LOG_ONE`.
#[derive(Debug)]
pub struct Leakage {
    /// I(S;O): average bits learned per observation.
    pub shannon_bits: u128,
    /// Min-entropy leakage: bits of guessing advantage.
    pub min_entropy_bits: u128,
    /// H(S|O): bits of uncertainty remaining after observing.
    pub residual_bits: u128,
    /// H(S): total secret entropy under the supplied prior.
    pub secret_bits: u128,
    /// Probability that an adversary who sees the observable guesses the secret
    /// correctly on a single try, playing optimally.
    pub guess_probability: Ratio,
    /// The part of H(S) that is revealed: the mass of I(S;O) over that of H(S), both
    /// before they are divided by the total weight and rounded.
    pub revealed: Ratio,
    pub num_classes: usize,
    /// Weight of the largest indistinguishable class.
    pub largest_class_weight: Nat,
}

/// The mathematical content of a `Leakage`.
#[verifier::ext_equal]
pub struct LeakageView {
    pub shannon_bits: int,
    pub min_entropy_bits: int,
    pub residual_bits: int,
    pub secret_bits: int,
    pub guess_probability: (nat, nat),
    pub revealed: (nat, nat),
    pub num_classes: nat,
    pub largest_class_weight: nat,
}

impl View for Leakage {
    type V = LeakageView;

    open spec fn view(&self) -> LeakageView {
        LeakageView {
            shannon_bits: self.shannon_bits as int,
            min_entropy_bits: self.min_entropy_bits as int,
            residual_bits: self.residual_bits as int,
            secret_bits: self.secret_bits as int,
            guess_probability: self.guess_probability@,
            revealed: self.revealed@,
            num_classes: self.num_classes as nat,
            largest_class_weight: self.largest_class_weight@,
        }
    }
}

/// The total weight times H(S): `W log W` less the sum of `w log w` over secrets.
pub open spec fn secret_mass(p: PartitionView) -> int {
    xlg(p.total) - p.logs
}

/// The total weight times H(S|O): the sum of `W_o log W_o` over classes less the
/// sum of `w log w` over secrets.
pub open spec fn residual_mass(p: PartitionView) -> int {
    log_sum(p.weights) - p.logs
}

/// The total weight times I(S;O).
pub open spec fn shannon_mass(p: PartitionView) -> int {
    xlg(p.total) - log_sum(p.weights)
}

/// The leakage of a partition.
///
/// Min-entropy leakage is the logarithm of the sum over classes of the largest
/// weight, less the logarithm of the largest weight overall.
pub open spec fn leakage_of(p: PartitionView) -> LeakageView {
    LeakageView {
        shannon_bits: shannon_mass(p) / (p.total as int),
        min_entropy_bits: lg(sum(p.maxes)) - lg(p.max_secret),
        residual_bits: residual_mass(p) / (p.total as int),
        secret_bits: secret_mass(p) / (p.total as int),
        guess_probability: (sum(p.maxes), p.total),
        revealed: (shannon_mass(p) as nat, secret_mass(p) as nat),
        num_classes: p.values.len(),
        largest_class_weight: greatest(p.weights),
    }
}

/// The sum of `f` over a sequence of cycle counts.
pub open spec fn sum_over(vals: Seq<u64>, f: spec_fn(u64) -> nat) -> nat
    decreases vals.len(),
{
    if vals.len() == 0 {
        0
    } else {
        sum_over(vals.drop_last(), f) + f(vals.last())
    }
}

/// The sum over secrets of weight times `g` of the cycles.
pub open spec fn row_sum(rows: Seq<(u64, nat)>, g: spec_fn(u64) -> nat) -> nat
    decreases rows.len(),
{
    if rows.len() == 0 {
        0
    } else {
        row_sum(rows.drop_last(), g) + rows.last().1 * g(rows.last().0)
    }
}

pub proof fn lemma_sum_over_is_sum(vals: Seq<u64>, f: spec_fn(u64) -> nat)
    ensures
        sum_over(vals, f) == sum(vals.map_values(f)),
    decreases vals.len(),
{
    if vals.len() > 0 {
        lemma_sum_over_is_sum(vals.drop_last(), f);
        assert(vals.map_values(f).drop_last() =~= vals.drop_last().map_values(f));
    }
}

pub proof fn lemma_sum_over_put(vals: Seq<u64>, c: u64, f: spec_fn(u64) -> nat)
    requires
        increasing(vals),
        !vals.contains(c),
    ensures
        sum_over(put(vals, c), f) == sum_over(vals, f) + f(c),
    decreases vals.len(),
{
    if vals.len() == 0 {
        assert(put(vals, c).drop_last() =~= vals);
    } else if vals.last() < c {
        assert(put(vals, c).drop_last() =~= vals);
    } else {
        assert(vals[vals.len() - 1] != c);
        let t = vals.drop_last();
        assert(!t.contains(c)) by {
            if t.contains(c) {
                assert(vals[t.index_of(c)] == c);
            }
        }
        lemma_sum_over_put(t, c, f);
        assert(put(vals, c).drop_last() =~= put(t, c));
    }
}

/// Changing the summand at one place changes the sum by that much, if the place is summed over.
pub proof fn lemma_sum_over_bump(
    vals: Seq<u64>,
    c: u64,
    f: spec_fn(u64) -> nat,
    g: spec_fn(u64) -> nat,
    d: nat,
)
    requires
        increasing(vals),
        forall|x: u64| x != c ==> #[trigger] g(x) == f(x),
        g(c) == f(c) + d,
    ensures
        sum_over(vals, g) == sum_over(vals, f) + (if vals.contains(c) {
            d
        } else {
            0
        }),
    decreases vals.len(),
{
    if vals.len() > 0 {
        let t = vals.drop_last();
        lemma_sum_over_bump(t, c, f, g, d);
        if vals.last() == c {
            assert(vals[vals.len() - 1] == c);
            assert(!t.contains(c)) by {
                if t.contains(c) {
                    let k = t.index_of(c);
                    assert(vals[k] < vals[vals.len() - 1]);
                }
            }
        } else {
            assert(vals.contains(c) == t.contains(c)) by {
                if vals.contains(c) {
                    let k = vals.index_of(c);
                    assert(t[k] == c);
                }
                if t.contains(c) {
                    assert(vals[t.index_of(c)] == c);
                }
            }
        }
    }
}

/// Summing over secrets is summing over classes.
pub proof fn lemma_regroup(rows: Seq<(u64, nat)>, g: spec_fn(u64) -> nat)
    ensures
        row_sum(rows, g) == sum_over(
            cycle_values(rows),
            |c: u64| class_weight(rows, c) * g(c),
        ),
    decreases rows.len(),
{
    if rows.len() > 0 {
        let t = rows.drop_last();
        let c = rows.last().0;
        let w = rows.last().1;
        lemma_regroup(t, g);
        lemma_cycle_values(t);
        let vals = cycle_values(t);
        let f1 = |x: u64| class_weight(t, x) * g(x);
        let f2 = |x: u64| class_weight(rows, x) * g(x);
        let d = w * g(c);
        assert((class_weight(t, c) + w) * g(c) == class_weight(t, c) * g(c) + w * g(c))
            by (nonlinear_arith);
        assert(f2(c) == f1(c) + d);
        assert forall|x: u64| x != c implies #[trigger] f2(x) == f1(x) by {}
        lemma_sum_over_bump(vals, c, f1, f2, d);
        lemma_put(vals, c);
        if !vals.contains(c) {
            lemma_sum_over_put(vals, c, f2);
            lemma_class_absent(t, c);
            assert(f1(c) == 0) by (nonlinear_arith)
                requires
                    class_weight(t, c) == 0,
                    f1(c) == class_weight(t, c) * g(c),
            ;
        }
    }
}

/// A secret weighs no more than its class, and its class no more than the whole.
pub proof fn lemma_row_bounds(rows: Seq<(u64, nat)>, i: int)
    requires
        0 <= i < rows.len(),
    ensures
        rows[i].1 <= class_max(rows, rows[i].0) <= class_weight(rows, rows[i].0),
        rows[i].1 <= max_weight(rows),
    decreases rows.len(),
{
    let t = rows.drop_last();
    lemma_class_max_bounds(rows, rows[i].0);
    if i < t.len() {
        lemma_row_bounds(t, i);
        assert(t[i] == rows[i]);
    }
}

pub proof fn lemma_class_max_bounds(rows: Seq<(u64, nat)>, c: u64)
    ensures
        class_max(rows, c) <= class_weight(rows, c) <= total_weight(rows),
        class_max(rows, c) <= max_weight(rows) <= total_weight(rows),
    decreases rows.len(),
{
    if rows.len() > 0 {
        lemma_class_max_bounds(rows.drop_last(), c);
    }
}

proof fn lemma_row_sum_dominates(rows: Seq<(u64, nat)>, g: spec_fn(u64) -> nat)
    requires
        forall|i: int| 0 <= i < rows.len() ==> lg(#[trigger] rows[i].1) <= g(rows[i].0),
    ensures
        weight_logs(rows) <= row_sum(rows, g),
    decreases rows.len(),
{
    if rows.len() > 0 {
        let t = rows.drop_last();
        assert forall|i: int| 0 <= i < t.len() implies lg(#[trigger] t[i].1) <= g(t[i].0) by {
            assert(t[i] == rows[i]);
        }
        lemma_row_sum_dominates(t, g);
        let w = rows[rows.len() - 1].1;
        let a = lg(w);
        let b = g(rows.last().0);
        assert(w * a <= w * b) by (nonlinear_arith)
            requires
                a <= b,
        ;
    }
}

/// The class weights add up to the total weight.
pub proof fn lemma_class_weights_total(rows: Seq<(u64, nat)>)
    ensures
        sum(partition_of(rows).weights) == total_weight(rows),
{
    let one = |c: u64| 1nat;
    let vals = cycle_values(rows);
    let f = |c: u64| class_weight(rows, c) * one(c);
    let h = |c: u64| class_weight(rows, c);
    lemma_regroup(rows, one);
    lemma_row_sum_one(rows);
    assert(f =~= h);
    lemma_sum_over_is_sum(vals, h);
}

proof fn lemma_row_sum_one(rows: Seq<(u64, nat)>)
    ensures
        row_sum(rows, |c: u64| 1nat) == total_weight(rows),
    decreases rows.len(),
{
    if rows.len() > 0 {
        lemma_row_sum_one(rows.drop_last());
    }
}

pub proof fn lemma_log_sum_is_sum_over(rows: Seq<(u64, nat)>, vals: Seq<u64>)
    ensures
        log_sum(vals.map_values(|c: u64| class_weight(rows, c))) == sum_over(
            vals,
            |c: u64| class_weight(rows, c) * lg(class_weight(rows, c)),
        ),
    decreases vals.len(),
{
    let m = |c: u64| class_weight(rows, c);
    if vals.len() > 0 {
        lemma_log_sum_is_sum_over(rows, vals.drop_last());
        assert(vals.map_values(m).drop_last() =~= vals.drop_last().map_values(m));
    }
}

/// No sequence of parts has a larger sum of `w log w` than the whole they add up to.
pub proof fn lemma_log_sum_bound(s: Seq<nat>, w: nat)
    requires
        sum(s) <= w,
    ensures
        log_sum(s) <= sum(s) * lg(w),
        log_sum(s) <= xlg(w),
    decreases s.len(),
{
    if s.len() > 0 {
        let t = s.drop_last();
        lemma_log_sum_bound(t, w);
        lemma_lg_monotone(s.last(), w);
        let x = s.last();
        let a = lg(x);
        let b = lg(w);
        assert(x * a <= x * b) by (nonlinear_arith)
            requires
                a <= b,
        ;
        assert(sum(t) * b + x * b == (sum(t) + x) * b) by (nonlinear_arith);
    }
    let b = lg(w);
    let y = sum(s);
    assert(y * b <= w * b) by (nonlinear_arith)
        requires
            y <= w,
    ;
}

pub proof fn lemma_sum_at_least(s: Seq<nat>, i: int)
    requires
        0 <= i < s.len(),
    ensures
        s[i] <= sum(s),
    decreases s.len(),
{
    if i < s.len() - 1 {
        lemma_sum_at_least(s.drop_last(), i);
    }
}

/// Some secret has the largest weight.
pub proof fn lemma_max_attained(rows: Seq<(u64, nat)>)
    requires
        rows.len() > 0,
    ensures
        exists|i: int| 0 <= i < rows.len() && (#[trigger] rows[i]).1 == max_weight(rows),
    decreases rows.len(),
{
    let t = rows.drop_last();
    if max_weight(rows) != rows[rows.len() - 1].1 {
        assert(t.len() == 0 ==> max_weight(t) == 0);
        lemma_max_attained(t);
        let i = choose|i: int| 0 <= i < t.len() && (#[trigger] t[i]).1 == max_weight(t);
        assert(rows[i].1 == max_weight(rows));
    }
}

/// None of the leaked quantities is negative, and none exceeds the entropy of the secret.
pub proof fn lemma_masses(rows: Seq<(u64, nat)>)
    ensures
        0 <= shannon_mass(partition_of(rows)) <= secret_mass(partition_of(rows)),
        0 <= residual_mass(partition_of(rows)) <= secret_mass(partition_of(rows)),
        secret_mass(partition_of(rows)) <= xlg(total_weight(rows)),
        max_weight(rows) <= sum(partition_of(rows).maxes) <= total_weight(rows),
{
    let p = partition_of(rows);
    lemma_class_weights_total(rows);
    lemma_log_sum_bound(p.weights, p.total);
    lemma_cycle_values(rows);
    let g = |c: u64| lg(class_weight(rows, c));
    assert forall|i: int| 0 <= i < rows.len() implies lg(#[trigger] rows[i].1) <= g(rows[i].0) by {
        lemma_row_bounds(rows, i);
        lemma_lg_monotone(rows[i].1, class_weight(rows, rows[i].0));
    }
    lemma_row_sum_dominates(rows, g);
    lemma_regroup(rows, g);
    lemma_log_sum_is_sum_over(rows, p.values);
    assert((|c: u64| class_weight(rows, c) * g(c)) =~= (|c: u64|
        class_weight(rows, c) * lg(class_weight(rows, c))));
    if rows.len() > 0 {
        lemma_max_attained(rows);
        let i = choose|i: int| 0 <= i < rows.len() && (#[trigger] rows[i]).1 == max_weight(rows);
        lemma_row_bounds(rows, i);
        let c = rows[i].0;
        assert(occurs(rows, c));
        let k = p.values.index_of(c);
        assert(p.maxes[k] == class_max(rows, c));
        lemma_sum_at_least(p.maxes, k);
    }
    lemma_sum_pointwise(p.maxes, p.weights, rows, p.values);
}

proof fn lemma_sum_pointwise(a: Seq<nat>, b: Seq<nat>, rows: Seq<(u64, nat)>, vals: Seq<u64>)
    requires
        a == vals.map_values(|c: u64| class_max(rows, c)),
        b == vals.map_values(|c: u64| class_weight(rows, c)),
    ensures
        sum(a) <= sum(b),
    decreases vals.len(),
{
    if vals.len() > 0 {
        let t = vals.drop_last();
        assert(a.drop_last() =~= t.map_values(|c: u64| class_max(rows, c)));
        assert(b.drop_last() =~= t.map_values(|c: u64| class_weight(rows, c)));
        lemma_sum_pointwise(a.drop_last(), b.drop_last(), rows, t);
        lemma_class_max_bounds(rows, vals.last());
    }
}

/// A quantity of bits: a mass divided by the total weight, rounded down.
pub(crate) fn bits_of(mass: &Nat, total: &Nat, limit: u128) -> (r: u128)
    requires
        total@ > 0,
        mass@ <= total@ * limit,
    ensures
        r == mass@ / total@,
        r <= limit,
{
    let (q, rest): (Nat, Nat) = mass.div_rem(total);
    proof {
        let a = q@ as int;
        let t = total@ as int;
        assert(a <= limit) by (nonlinear_arith)
            requires
                a * t <= t * limit,
                t > 0,
        ;
    }
    q.to_u128().unwrap()
}

/// Computes how much a partition reveals.
pub fn compute_leakage(p: &Partition) -> (l: Leakage)
    requires
        p.well_formed(),
        p@.total > 0,
    ensures
        l@ == leakage_of(p@),
        l.shannon_bits == leakage_of(p@).shannon_bits,
        l.min_entropy_bits == leakage_of(p@).min_entropy_bits,
        l.residual_bits == leakage_of(p@).residual_bits,
        l.secret_bits == leakage_of(p@).secret_bits,
        (l.guess_probability.num@, l.guess_probability.den@) == leakage_of(p@).guess_probability,
        (l.revealed.num@, l.revealed.den@) == leakage_of(p@).revealed,
        l.num_classes == leakage_of(p@).num_classes,
        l.largest_class_weight@ == leakage_of(p@).largest_class_weight,
{
    let ghost rows = choose|rows: Seq<(u64, nat)>| p@ == #[trigger] partition_of(rows);
    let n: usize = p.classes.len();
    let mut log_classes: Nat = Nat::zero();
    let mut maxes: Nat = Nat::zero();
    let mut largest: Nat = Nat::zero();
    let mut i: usize = 0;
    let ghost ws = p@.weights;
    let ghost ms = p@.maxes;
    assert(ws.take(0) =~= Seq::<nat>::empty());
    assert(ms.take(0) =~= Seq::<nat>::empty());
    while i < n
        invariant
            n == p.classes@.len(),
            i <= n,
            ws == p@.weights,
            ms == p@.maxes,
            log_classes@ == log_sum(ws.take(i as int)),
            maxes@ == sum(ms.take(i as int)),
            largest@ == greatest(ws.take(i as int)),
        decreases n - i,
    {
        let c: &Class = &p.classes[i];
        if !c.weight.is_zero() {
            let l: Nat = Nat::from_u128(log2_fixed(&c.weight));
            log_classes = log_classes.plus(&c.weight.times(&l));
        } else {
            assert(0 * lg(0) == 0) by (nonlinear_arith);
        }
        maxes = maxes.plus(&c.max_weight);
        largest = largest.larger(&c.weight);
        proof {
            assert(ws[i as int] == c.weight@);
            assert(ms[i as int] == c.max_weight@);
            assert(ws.take(i + 1).drop_last() =~= ws.take(i as int));
            assert(ms.take(i + 1).drop_last() =~= ms.take(i as int));
        }
        i = i + 1;
    }
    proof {
        assert(ws.take(n as int) =~= ws);
        assert(ms.take(n as int) =~= ms);
        lemma_masses(rows);
        lemma_max_positive(rows);
        lemma_lg_monotone(max_weight(rows), sum(ms));
    }
    let lt: u128 = log2_fixed(&p.total_weight);
    let log_total: Nat = p.total_weight.times(&Nat::from_u128(lt));
    let secret: Nat = log_total.minus(&p.w_log_w_total);
    let residual: Nat = log_classes.minus(&p.w_log_w_total);
    let shannon: Nat = log_total.minus(&log_classes);
    let min_entropy: u128 = log2_fixed(&maxes) - log2_fixed(&p.max_secret_weight);
    let l: Leakage = Leakage {
        shannon_bits: bits_of(&shannon, &p.total_weight, lt),
        min_entropy_bits: min_entropy,
        residual_bits: bits_of(&residual, &p.total_weight, lt),
        secret_bits: bits_of(&secret, &p.total_weight, lt),
        guess_probability: Ratio { num: maxes, den: p.total_weight.copy() },
        revealed: Ratio { num: shannon, den: secret },
        num_classes: n,
        largest_class_weight: largest,
    };
    assert(l@ =~= leakage_of(p@));
    l
}

/// A positive total has a positive largest weight.
pub proof fn lemma_max_positive(rows: Seq<(u64, nat)>)
    requires
        total_weight(rows) > 0,
    ensures
        max_weight(rows) > 0,
    decreases rows.len(),
{
    if rows.len() > 0 && rows.last().1 == 0 {
        lemma_max_positive(rows.drop_last());
    }
}

} // verus!
