//! What a partition holds of the smallest sweeps, and how leakage follows from it.

use crate::leakage::{leakage_of, residual_mass, row_sum, secret_mass, shannon_mass};
use crate::partition::{
    class_logs, class_max, class_weight, cycle_values, increasing, lemma_cycle_values,
    lemma_increasing_unique, max_weight, occurs, partition_of, sample_rows, total_weight,
    weight_logs, xlg, Sample,
};
use vstd::prelude::*;

verus! {

/// A sweep without secrets has no class and weighs nothing.
pub proof fn law_empty_sweep()
    ensures
        ({
            let p = partition_of(Seq::empty());
            &&& p.values.len() == 0
            &&& p.weights.len() == 0
            &&& p.maxes.len() == 0
            &&& p.class_logs.len() == 0
            &&& p.total == 0
            &&& p.max_secret == 0
            &&& p.logs == 0
            &&& p.secrets == 0
        }),
{
}

/// A sweep with one secret has one class, which is that secret.
pub proof fn law_single_secret(c: u64, w: nat)
    ensures
        ({
            let p = partition_of(seq![(c, w)]);
            &&& p.values == seq![c]
            &&& p.weights == seq![w]
            &&& p.maxes == seq![w]
            &&& p.class_logs == seq![xlg(w)]
            &&& p.total == w
            &&& p.max_secret == w
            &&& p.logs == xlg(w)
            &&& p.secrets == 1
        }),
{
    let rows = seq![(c, w)];
    let e = Seq::<(u64, nat)>::empty();
    assert(rows.drop_last() =~= e);
    assert(cycle_values(e) =~= Seq::empty());
    assert(total_weight(e) == 0);
    assert(max_weight(e) == 0);
    assert(weight_logs(e) == 0);
    assert(class_weight(e, c) == 0);
    assert(class_max(e, c) == 0);
    assert(class_logs(e, c) == 0);
    assert(cycle_values(rows) =~= seq![c]);
    let p = partition_of(rows);
    assert(p.weights =~= seq![w]);
    assert(p.maxes =~= seq![w]);
    assert(p.class_logs =~= seq![xlg(w)]);
}

/// There are as many classes as cycle counts that occur.
pub proof fn law_class_count(rows: Seq<(u64, nat)>, vals: Seq<u64>)
    requires
        increasing(vals),
        forall|c: u64| #[trigger] vals.contains(c) <==> occurs(rows, c),
    ensures
        partition_of(rows).values == vals,
        partition_of(rows).weights.len() == vals.len(),
        partition_of(rows).maxes.len() == vals.len(),
        leakage_of(partition_of(rows)).num_classes == vals.len(),
{
    lemma_cycle_values(rows);
    assert forall|c: u64| #[trigger] vals.contains(c) <==> cycle_values(rows).contains(c) by {}
    lemma_increasing_unique(vals, cycle_values(rows));
}

/// A quantity in bits, times the total weight, is the mass that stands for it, up to less
/// than one unit for each weight.
pub proof fn law_bits_of_masses(rows: Seq<(u64, nat)>)
    requires
        total_weight(rows) > 0,
    ensures
        ({
            let p = partition_of(rows);
            let l = leakage_of(p);
            let w = total_weight(rows);
            &&& l.shannon_bits * w <= shannon_mass(p) < (l.shannon_bits + 1) * w
            &&& l.residual_bits * w <= residual_mass(p) < (l.residual_bits + 1) * w
            &&& l.secret_bits * w <= secret_mass(p) < (l.secret_bits + 1) * w
        }),
{
    let p = partition_of(rows);
    let w = total_weight(rows) as int;
    lemma_floor(shannon_mass(p), w);
    lemma_floor(residual_mass(p), w);
    lemma_floor(secret_mass(p), w);
}

proof fn lemma_floor(m: int, w: int)
    requires
        w > 0,
    ensures
        (m / w) * w <= m < (m / w + 1) * w,
{
    vstd::arithmetic::div_mod::lemma_fundamental_div_mod(m, w);
    let q = m / w;
    assert(w * q == q * w) by (nonlinear_arith);
    assert((q + 1) * w == q * w + w) by (nonlinear_arith);
}

/// A sum over secrets is that of its parts, and over one secret it is the weight times the
/// value of the cycles.
pub proof fn law_row_sum(
    a: Seq<(u64, nat)>,
    b: Seq<(u64, nat)>,
    c: u64,
    w: nat,
    g: spec_fn(u64) -> nat,
)
    ensures
        row_sum(Seq::empty(), g) == 0,
        row_sum(seq![(c, w)], g) == w * g(c),
        row_sum(a + b, g) == row_sum(a, g) + row_sum(b, g),
    decreases b.len(),
{
    assert(row_sum(Seq::empty(), g) == 0);
    assert(seq![(c, w)].drop_last() =~= Seq::empty());
    if b.len() == 0 {
        assert(a + b =~= a);
    } else {
        law_row_sum(a, b.drop_last(), c, w, g);
        assert((a + b).drop_last() =~= a + b.drop_last());
    }
}

/// The secrets of a list of samples are its samples in order, with their own cycles and
/// weights.
pub proof fn law_sample_rows(s: Seq<Sample>)
    ensures
        sample_rows(s).len() == s.len(),
        forall|i: int|
            0 <= i < s.len() ==> #[trigger] sample_rows(s)[i] == (s[i].cycles, s[i].weight@),
{
}

} // verus!
