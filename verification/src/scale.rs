//! Leakage of a batch of independent items.
//!
//! When a guest processes several items and only the sum of their costs can be
//! observed, the distribution of that sum is the convolution of the distribution
//! of one item with itself.

use crate::binary_log::{lg, log2_fixed};
use crate::leakage::{
    bits_of, lemma_log_sum_bound, lemma_max_positive, lemma_regroup, log_sum, row_sum, sum,
    sum_over,
};
use crate::natural::Nat;
use crate::partition::{
    build_partition, class_max, class_weight, cycle_values, increasing, larger, lemma_class_absent,
    lemma_cycle_values, lemma_put, max_weight, occurs, partition_of, put, sample_rows, total_weight,
    xlg, Class, Partition, Sample,
};
use vstd::arithmetic::power::{lemma_pow0, lemma_pow_positive, pow};
use vstd::arithmetic::power2::pow2;
use vstd::prelude::*;

verus! {

/// The largest product, over secrets, of weight and `g` of the cycles.
pub open spec fn row_peak(rows: Seq<(u64, nat)>, g: spec_fn(u64) -> nat) -> nat
    decreases rows.len(),
{
    if rows.len() == 0 {
        0
    } else {
        larger(row_peak(rows.drop_last(), g), rows.last().1 * g(rows.last().0))
    }
}

/// The sum, over all batches of `n` secrets whose costs above `low` add up to `o`,
/// of the product of their weights.
pub open spec fn batch_mass(rows: Seq<(u64, nat)>, low: u64, n: nat, o: int) -> nat
    decreases n,
{
    if n == 0 {
        if o == 0 {
            1
        } else {
            0
        }
    } else {
        row_sum(rows, |c: u64| batch_mass(rows, low, (n - 1) as nat, o - (c - low)))
    }
}

/// The largest product of weights of any batch of `n` secrets whose costs above
/// `low` add up to `o`.
pub open spec fn batch_peak(rows: Seq<(u64, nat)>, low: u64, n: nat, o: int) -> nat
    decreases n,
{
    if n == 0 {
        if o == 0 {
            1
        } else {
            0
        }
    } else {
        row_peak(rows, |c: u64| batch_peak(rows, low, (n - 1) as nat, o - (c - low)))
    }
}

/// How the masses of a batch follow from those of the batch without its last item.
pub proof fn lemma_batch_unfold(rows: Seq<(u64, nat)>, low: u64, n: nat, o: int)
    requires
        n > 0,
    ensures
        batch_mass(rows, low, n, o) == row_sum(
            rows,
            |c: u64| batch_mass(rows, low, (n - 1) as nat, o - (c - low)),
        ),
        batch_peak(rows, low, n, o) == row_peak(
            rows,
            |c: u64| batch_peak(rows, low, (n - 1) as nat, o - (c - low)),
        ),
{
    let n1 = (n - 1) as nat;
    let g0 = |c: u64| batch_mass(rows, low, n1, o - (c - low));
    assert forall|g: spec_fn(u64) -> nat|
        (forall|c: u64| #[trigger] g(c) == batch_mass(rows, low, n1, o - (c - low))) implies (
    #[trigger] row_sum(rows, g)) == row_sum(rows, g0) by {
        assert(g =~= g0);
    }
    let h0 = |c: u64| batch_peak(rows, low, n1, o - (c - low));
    assert forall|h: spec_fn(u64) -> nat|
        (forall|c: u64| #[trigger] h(c) == batch_peak(rows, low, n1, o - (c - low))) implies (
    #[trigger] row_peak(rows, h)) == row_peak(rows, h0) by {
        assert(h =~= h0);
    }
}

/// The sum of `f` over `0..m`.
pub open spec fn upto(f: spec_fn(int) -> nat, m: int) -> nat
    decreases m,
{
    if m <= 0 {
        0
    } else {
        upto(f, m - 1) + f(m - 1)
    }
}

/// The least cost of a sweep.
pub open spec fn lowest(rows: Seq<(u64, nat)>) -> u64 {
    cycle_values(rows)[0]
}

/// The distance from the least to the greatest cost of a sweep.
pub open spec fn spread(rows: Seq<(u64, nat)>) -> int {
    cycle_values(rows).last() - cycle_values(rows)[0]
}

/// The total Shannon leakage of a batch of `n` items, in fixed point: the entropy
/// of the sum of their costs.
pub open spec fn batch_bits(rows: Seq<(u64, nat)>, n: nat) -> int {
    let whole = pow(total_weight(rows) as int, n) as nat;
    let low = lowest(rows);
    (xlg(whole) - upto(|o: int| xlg(batch_mass(rows, low, n, o)), n * spread(rows) + 1)) / (
    whole as int)
}

/// What the last of `n` items adds to the Shannon leakage of a batch, in fixed point.
///
/// The entropy of a sum never falls when an item is added, so a difference that
/// rounding makes negative stands for none.
pub open spec fn batch_marginal(rows: Seq<(u64, nat)>, n: nat) -> int {
    let d = batch_bits(rows, n) - batch_bits(rows, (n - 1) as nat);
    if d < 0 {
        0
    } else {
        d
    }
}

/// The min-entropy leakage of a batch of `n` items, in fixed point.
pub open spec fn batch_min_entropy(rows: Seq<(u64, nat)>, n: nat) -> int {
    let low = lowest(rows);
    let a = lg(upto(|o: int| batch_peak(rows, low, n, o), n * spread(rows) + 1));
    let b = lg(pow(max_weight(rows) as int, n) as nat);
    if a < b {
        0
    } else {
        a - b
    }
}

// ---------------------------------------------------------------------------
// Largest products over classes
// ---------------------------------------------------------------------------

/// The largest value of `f` over a sequence of cycle counts.
pub open spec fn peak_over(vals: Seq<u64>, f: spec_fn(u64) -> nat) -> nat
    decreases vals.len(),
{
    if vals.len() == 0 {
        0
    } else {
        larger(peak_over(vals.drop_last(), f), f(vals.last()))
    }
}

proof fn lemma_peak_over_put(vals: Seq<u64>, c: u64, f: spec_fn(u64) -> nat)
    requires
        increasing(vals),
        !vals.contains(c),
    ensures
        peak_over(put(vals, c), f) == larger(peak_over(vals, f), f(c)),
    decreases vals.len(),
{
    if vals.len() == 0 {
        assert(put(vals, c).drop_last() =~= vals);
    } else if vals.last() < c {
        assert(put(vals, c).drop_last() =~= vals);
    } else {
        assert(vals[vals.len() - 1] != c);
        let t = vals.drop_last();
        assert(!t.contains(c)) by {
            if t.contains(c) {
                assert(vals[t.index_of(c)] == c);
            }
        }
        lemma_peak_over_put(t, c, f);
        assert(put(vals, c).drop_last() =~= put(t, c));
    }
}

proof fn lemma_peak_over_bump(
    vals: Seq<u64>,
    c: u64,
    f: spec_fn(u64) -> nat,
    g: spec_fn(u64) -> nat,
    d: nat,
)
    requires
        forall|x: u64| x != c ==> #[trigger] g(x) == f(x),
        g(c) == larger(f(c), d),
    ensures
        peak_over(vals, g) == (if vals.contains(c) {
            larger(peak_over(vals, f), d)
        } else {
            peak_over(vals, f)
        }),
    decreases vals.len(),
{
    if vals.len() > 0 {
        let t = vals.drop_last();
        lemma_peak_over_bump(t, c, f, g, d);
        if vals.last() == c {
            assert(vals[vals.len() - 1] == c);
        } else {
            assert(vals.contains(c) == t.contains(c)) by {
                if vals.contains(c) {
                    let k = vals.index_of(c);
                    assert(t[k] == c);
                }
                if t.contains(c) {
                    assert(vals[t.index_of(c)] == c);
                }
            }
        }
    }
}

/// The largest product over secrets is the largest over classes.
pub proof fn lemma_regroup_peak(rows: Seq<(u64, nat)>, g: spec_fn(u64) -> nat)
    ensures
        row_peak(rows, g) == peak_over(cycle_values(rows), |c: u64| class_max(rows, c) * g(c)),
    decreases rows.len(),
{
    if rows.len() > 0 {
        let t = rows.drop_last();
        let c = rows.last().0;
        let w = rows.last().1;
        lemma_regroup_peak(t, g);
        lemma_cycle_values(t);
        let vals = cycle_values(t);
        let f1 = |x: u64| class_max(t, x) * g(x);
        let f2 = |x: u64| class_max(rows, x) * g(x);
        let d = w * g(c);
        let m = class_max(t, c);
        let y = g(c);
        assert(larger(m, w) * y == larger(m * y, w * y)) by (nonlinear_arith)
            requires
                m >= 0,
                w >= 0,
                y >= 0,
        ;
        assert(f2(c) == larger(f1(c), d));
        assert forall|x: u64| x != c implies #[trigger] f2(x) == f1(x) by {}
        lemma_peak_over_bump(vals, c, f1, f2, d);
        lemma_put(vals, c);
        if !vals.contains(c) {
            lemma_peak_over_put(vals, c, f2);
            lemma_class_absent(t, c);
            assert(f1(c) == 0) by (nonlinear_arith)
                requires
                    class_max(t, c) == 0,
                    f1(c) == class_max(t, c) * g(c),
            ;
        }
    }
}

// ---------------------------------------------------------------------------
// Sparse distributions
// ---------------------------------------------------------------------------

/// One outcome of a distribution that is zero almost everywhere.
struct Term {
    offset: u128,
    mass: Nat,
}

spec fn terms_of(s: Seq<Term>) -> Seq<(int, nat)> {
    s.map_values(|t: Term| (t.offset as int, t.mass@))
}

/// What a sparse distribution gives to an outcome.
spec fn mass_at(s: Seq<(int, nat)>, o: int) -> nat
    decreases s.len(),
{
    if s.len() == 0 {
        0
    } else {
        mass_at(s.drop_last(), o) + (if s.last().0 == o {
            s.last().1
        } else {
            0
        })
    }
}

spec fn ordered(s: Seq<(int, nat)>) -> bool {
    forall|i: int, j: int| 0 <= i < j < s.len() ==> (#[trigger] s[i]).0 < (#[trigger] s[j]).0
}

spec fn within(s: Seq<(int, nat)>, m: int) -> bool {
    forall|i: int| 0 <= i < s.len() ==> 0 <= (#[trigger] s[i]).0 < m
}

proof fn lemma_mass_beyond(s: Seq<(int, nat)>, o: int)
    requires
        forall|i: int| 0 <= i < s.len() ==> (#[trigger] s[i]).0 != o,
    ensures
        mass_at(s, o) == 0,
    decreases s.len(),
{
    if s.len() > 0 {
        let t = s.drop_last();
        assert forall|i: int| 0 <= i < t.len() implies (#[trigger] t[i]).0 != o by {
            assert(t[i] == s[i]);
        }
        lemma_mass_beyond(t, o);
        assert(s[s.len() - 1].0 != o);
    }
}

spec fn combine(add_up: bool, a: nat, b: nat) -> nat {
    if add_up {
        a + b
    } else {
        larger(a, b)
    }
}

/// Combines two sparse distributions outcome by outcome, by sum or by maximum.
fn merge(a: &Vec<Term>, b: &Vec<Term>, add_up: bool) -> (r: Vec<Term>)
    requires
        ordered(terms_of(a@)),
        ordered(terms_of(b@)),
    ensures
        ordered(terms_of(r@)),
        forall|o: int| #[trigger]
            mass_at(terms_of(r@), o) == combine(
                add_up,
                mass_at(terms_of(a@), o),
                mass_at(terms_of(b@), o),
            ),
        forall|m: int|
            within(terms_of(a@), m) && within(terms_of(b@), m) ==> #[trigger] within(
                terms_of(r@),
                m,
            ),
{
    let ghost ta = terms_of(a@);
    let ghost tb = terms_of(b@);
    let mut r: Vec<Term> = Vec::new();
    let mut i: usize = 0;
    let mut j: usize = 0;
    proof {
        assert(ta.take(0) =~= Seq::empty());
        assert(tb.take(0) =~= Seq::empty());
        assert(terms_of(r@) =~= Seq::empty());
    }
    while i < a.len() || j < b.len()
        invariant
            ta == terms_of(a@),
            tb == terms_of(b@),
            ordered(ta),
            ordered(tb),
            i <= a@.len(),
            j <= b@.len(),
            ordered(terms_of(r@)),
            forall|k: int| #![trigger r@[k]]
                0 <= k < r@.len() ==> {
                    &&& i < a@.len() ==> r@[k].offset < a@[i as int].offset
                    &&& j < b@.len() ==> r@[k].offset < b@[j as int].offset
                },
            i < a@.len() ==> forall|k: int| 0 <= k < j ==> (#[trigger] tb[k]).0 < ta[i as int].0,
            j < b@.len() ==> forall|k: int| 0 <= k < i ==> (#[trigger] ta[k]).0 < tb[j as int].0,
            forall|o: int| #[trigger]
                mass_at(terms_of(r@), o) == combine(
                    add_up,
                    mass_at(ta.take(i as int), o),
                    mass_at(tb.take(j as int), o),
                ),
            forall|m: int| within(ta, m) && within(tb, m) ==> #[trigger] within(terms_of(r@), m),
        decreases a.len() - i + b.len() - j,
    {
        let take_a: bool = i < a.len() && (j >= b.len() || a[i].offset <= b[j].offset);
        let take_b: bool = j < b.len() && (i >= a.len() || b[j].offset <= a[i].offset);
        let ghost i0 = i as int;
        let ghost j0 = j as int;
        let ghost old_r = r@;
        let ghost before = terms_of(r@);
        let offset: u128;
        let mass: Nat;
        if take_a && take_b {
            offset = a[i].offset;
            if add_up {
                mass = a[i].mass.plus(&b[j].mass);
            } else {
                mass = a[i].mass.larger(&b[j].mass);
            }
            i = i + 1;
            j = j + 1;
        } else if take_a {
            offset = a[i].offset;
            mass = a[i].mass.copy();
            i = i + 1;
        } else {
            offset = b[j].offset;
            mass = b[j].mass.copy();
            j = j + 1;
        }
        let ghost new_mass = mass@;
        r.push(Term { offset, mass });
        proof {
            let now = terms_of(r@);
            assert(now =~= before.push((offset as int, new_mass)));
            assert(now.drop_last() =~= before);
            if i > i0 {
                assert(ta.take(i as int).drop_last() =~= ta.take(i0));
                assert(ta[i0] == (a@[i0].offset as int, a@[i0].mass@));
                assert forall|k: int| 0 <= k < ta.take(i0).len() implies (
                #[trigger] ta.take(i0)[k]).0 != ta[i0].0 by {
                    assert(ta[k].0 < ta[i0].0);
                }
                lemma_mass_beyond(ta.take(i0), ta[i0].0);
                assert forall|k: int| 0 <= k < tb.take(j0).len() implies (
                #[trigger] tb.take(j0)[k]).0 != ta[i0].0 by {
                    assert(tb[k].0 < ta[i0].0);
                }
                lemma_mass_beyond(tb.take(j0), ta[i0].0);
            }
            if j > j0 {
                assert(tb.take(j as int).drop_last() =~= tb.take(j0));
                assert(tb[j0] == (b@[j0].offset as int, b@[j0].mass@));
                assert forall|k: int| 0 <= k < tb.take(j0).len() implies (
                #[trigger] tb.take(j0)[k]).0 != tb[j0].0 by {
                    assert(tb[k].0 < tb[j0].0);
                }
                lemma_mass_beyond(tb.take(j0), tb[j0].0);
                assert forall|k: int| 0 <= k < ta.take(i0).len() implies (
                #[trigger] ta.take(i0)[k]).0 != tb[j0].0 by {
                    assert(ta[k].0 < tb[j0].0);
                }
                lemma_mass_beyond(ta.take(i0), tb[j0].0);
            }
            assert forall|o: int| #[trigger] mass_at(now, o) == combine(
                add_up,
                mass_at(ta.take(i as int), o),
                mass_at(tb.take(j as int), o),
            ) by {
                assert(mass_at(before, o) == combine(
                    add_up,
                    mass_at(ta.take(i0), o),
                    mass_at(tb.take(j0), o),
                ));
            }
            assert forall|x: int, y: int| 0 <= x < y < now.len() implies (#[trigger] now[x]).0 < (
            #[trigger] now[y]).0 by {
                if y == now.len() - 1 {
                    assert(old_r[x] == r@[x]);
                    assert(now[x].0 == r@[x].offset);
                } else {
                    assert(before[x].0 < before[y].0);
                }
            }
            assert forall|k: int| #![trigger r@[k]] 0 <= k < r@.len() implies {
                &&& i < a@.len() ==> r@[k].offset < a@[i as int].offset
                &&& j < b@.len() ==> r@[k].offset < b@[j as int].offset
            } by {
                if i < a@.len() {
                    assert(ta[i as int].0 == a@[i as int].offset);
                    if i > i0 {
                        assert(ta[i0].0 < ta[i as int].0);
                    }
                }
                if j < b@.len() {
                    assert(tb[j as int].0 == b@[j as int].offset);
                    if j > j0 {
                        assert(tb[j0].0 < tb[j as int].0);
                    }
                }
                if k < old_r.len() {
                    assert(old_r[k] == r@[k]);
                }
                if i0 < a@.len() {
                    assert(ta[i0].0 == a@[i0].offset);
                }
                if j0 < b@.len() {
                    assert(tb[j0].0 == b@[j0].offset);
                }
            }
            if i < a@.len() {
                assert forall|k: int| 0 <= k < j implies (#[trigger] tb[k]).0 < ta[i as int].0 by {
                    assert(ta[i as int].0 == a@[i as int].offset);
                    if k < j0 {
                        if i > i0 {
                            assert(ta[i0].0 < ta[i as int].0);
                        }
                    } else {
                        assert(tb[k].0 == b@[k].offset);
                        if i > i0 {
                            assert(ta[i0].0 < ta[i as int].0);
                            assert(ta[i0].0 == a@[i0].offset);
                        }
                    }
                }
            }
            if j < b@.len() {
                assert forall|k: int| 0 <= k < i implies (#[trigger] ta[k]).0 < tb[j as int].0 by {
                    assert(tb[j as int].0 == b@[j as int].offset);
                    if k < i0 {
                        if j > j0 {
                            assert(tb[j0].0 < tb[j as int].0);
                        }
                    } else {
                        assert(ta[k].0 == a@[k].offset);
                        if j > j0 {
                            assert(tb[j0].0 < tb[j as int].0);
                            assert(tb[j0].0 == b@[j0].offset);
                        }
                    }
                }
            }
            assert forall|m: int| within(ta, m) && within(tb, m) implies #[trigger] within(
                now,
                m,
            ) by {
                assert(within(before, m));
                assert forall|k: int| 0 <= k < now.len() implies 0 <= (#[trigger] now[k]).0
                    < m by {
                    if k < before.len() {
                        assert(before[k] == now[k]);
                    } else if i > i0 {
                        assert(0 <= ta[i0].0 < m);
                    } else {
                        assert(0 <= tb[j0].0 < m);
                    }
                }
            }
        }
    }
    proof {
        assert(ta.take(i as int) =~= ta);
        assert(tb.take(j as int) =~= tb);
    }
    r
}

/// What one more item adds to an outcome: over the outcomes of the item, the product
/// of its mass and what `f` gives to the rest, combined by sum or by maximum.
spec fn convolution(
    add_up: bool,
    item: Seq<(int, nat)>,
    f: spec_fn(int) -> nat,
    o: int,
) -> nat
    decreases item.len(),
{
    if item.len() == 0 {
        0
    } else {
        combine(
            add_up,
            convolution(add_up, item.drop_last(), f, o),
            item.last().1 * f(o - item.last().0),
        )
    }
}

proof fn lemma_mass_shifted(s: Seq<(int, nat)>, t: Seq<(int, nat)>, d: int, w: nat, o: int)
    requires
        t == s.map_values(|x: (int, nat)| (x.0 + d, x.1 * w)),
    ensures
        mass_at(t, o) == w * mass_at(s, o - d),
    decreases s.len(),
{
    if s.len() > 0 {
        let s1 = s.drop_last();
        let t1 = t.drop_last();
        assert(t1 =~= s1.map_values(|x: (int, nat)| (x.0 + d, x.1 * w)));
        lemma_mass_shifted(s1, t1, d, w, o);
        let a = mass_at(s1, o - d);
        let x = s.last().1;
        assert(w * (a + x) == w * a + x * w) by (nonlinear_arith);
    } else {
        assert(w * 0 == 0) by (nonlinear_arith);
    }
}

/// A distribution moved by the offset of one outcome and multiplied by its mass.
fn shifted(s: &Vec<Term>, by: &Term, Ghost(m): Ghost<int>) -> (r: Vec<Term>)
    requires
        ordered(terms_of(s@)),
        within(terms_of(s@), m),
        m + by.offset <= u128::MAX,
    ensures
        ordered(terms_of(r@)),
        within(terms_of(r@), m + by.offset),
        forall|o: int| #[trigger]
            mass_at(terms_of(r@), o) == by.mass@ * mass_at(terms_of(s@), o - by.offset),
{
    let mut r: Vec<Term> = Vec::new();
    let mut i: usize = 0;
    let ghost d = by.offset as int;
    let ghost w = by.mass@;
    while i < s.len()
        invariant
            within(terms_of(s@), m),
            m + by.offset <= u128::MAX,
            d == by.offset,
            w == by.mass@,
            i <= s@.len(),
            r@.len() == i,
            forall|k: int| #![trigger r@[k]]
                0 <= k < i ==> r@[k].offset == s@[k].offset + d && r@[k].mass@ == s@[k].mass@ * w,
        decreases s.len() - i,
    {
        assert(terms_of(s@)[i as int].0 == s@[i as int].offset);
        r.push(Term { offset: s[i].offset + by.offset, mass: s[i].mass.times(&by.mass) });
        i = i + 1;
    }
    proof {
        let ts = terms_of(s@);
        let tr = terms_of(r@);
        assert(tr =~= ts.map_values(|x: (int, nat)| (x.0 + d, x.1 * w)));
        assert forall|o: int| #[trigger] mass_at(tr, o) == w * mass_at(ts, o - d) by {
            lemma_mass_shifted(ts, tr, d, w, o);
        }
        assert forall|x: int, y: int| 0 <= x < y < tr.len() implies (#[trigger] tr[x]).0 < (
        #[trigger] tr[y]).0 by {
            assert(ts[x].0 < ts[y].0);
        }
        assert forall|x: int| 0 <= x < tr.len() implies 0 <= (#[trigger] tr[x]).0 < m
            + by.offset by {
            assert(0 <= ts[x].0 < m);
        }
    }
    r
}

/// The distribution of a batch with one more item.
fn convolve(
    s: &Vec<Term>,
    item: &Vec<Term>,
    add_up: bool,
    Ghost(m): Ghost<int>,
    Ghost(d): Ghost<int>,
) -> (r: Vec<Term>)
    requires
        ordered(terms_of(s@)),
        within(terms_of(s@), m),
        m >= 1,
        d >= 0,
        within(terms_of(item@), d + 1),
        m + d <= u128::MAX,
    ensures
        ordered(terms_of(r@)),
        within(terms_of(r@), m + d),
        forall|o: int| #[trigger]
            mass_at(terms_of(r@), o) == convolution(
                add_up,
                terms_of(item@),
                |x: int| mass_at(terms_of(s@), x),
                o,
            ),
{
    let ghost f = |x: int| mass_at(terms_of(s@), x);
    let ghost ti = terms_of(item@);
    let mut r: Vec<Term> = Vec::new();
    let mut i: usize = 0;
    proof {
        assert(terms_of(r@) =~= Seq::empty());
        assert(ti.take(0) =~= Seq::empty());
    }
    while i < item.len()
        invariant
            f == (|x: int| mass_at(terms_of(s@), x)),
            ti == terms_of(item@),
            ordered(terms_of(s@)),
            within(terms_of(s@), m),
            within(ti, d + 1),
            m + d <= u128::MAX,
            i <= item@.len(),
            ordered(terms_of(r@)),
            within(terms_of(r@), m + d),
            forall|o: int| #[trigger]
                mass_at(terms_of(r@), o) == convolution(add_up, ti.take(i as int), f, o),
        decreases item.len() - i,
    {
        assert(ti[i as int].0 == item@[i as int].offset);
        let moved: Vec<Term> = shifted(s, &item[i], Ghost(m));
        let ghost before = terms_of(r@);
        proof {
            assert(within(terms_of(moved@), m + d));
            assert(ti.take(i + 1).drop_last() =~= ti.take(i as int));
        }
        r = merge(&r, &moved, add_up);
        proof {
            assert forall|o: int| #[trigger] mass_at(terms_of(r@), o) == convolution(
                add_up,
                ti.take(i + 1),
                f,
                o,
            ) by {
                assert(mass_at(before, o) == convolution(add_up, ti.take(i as int), f, o));
            }
        }
        i = i + 1;
    }
    assert(ti.take(i as int) =~= ti);
    r
}

// ---------------------------------------------------------------------------
// From sparse distributions to batches
// ---------------------------------------------------------------------------

/// The distribution of one item: its classes above the least cost.
spec fn item_weights(rows: Seq<(u64, nat)>, vals: Seq<u64>, low: u64) -> Seq<(int, nat)> {
    vals.map_values(|c: u64| (c - low, class_weight(rows, c)))
}

/// The largest weights of one item: those of its classes above the least cost.
spec fn item_maxes(rows: Seq<(u64, nat)>, vals: Seq<u64>, low: u64) -> Seq<(int, nat)> {
    vals.map_values(|c: u64| (c - low, class_max(rows, c)))
}

proof fn lemma_convolution_sum(
    rows: Seq<(u64, nat)>,
    vals: Seq<u64>,
    low: u64,
    f: spec_fn(int) -> nat,
    o: int,
)
    ensures
        convolution(true, item_weights(rows, vals, low), f, o) == sum_over(
            vals,
            |c: u64| class_weight(rows, c) * f(o - (c - low)),
        ),
    decreases vals.len(),
{
    if vals.len() > 0 {
        let t = vals.drop_last();
        lemma_convolution_sum(rows, t, low, f, o);
        assert(item_weights(rows, vals, low).drop_last() =~= item_weights(rows, t, low));
    }
}

proof fn lemma_convolution_peak(
    rows: Seq<(u64, nat)>,
    vals: Seq<u64>,
    low: u64,
    f: spec_fn(int) -> nat,
    o: int,
)
    ensures
        convolution(false, item_maxes(rows, vals, low), f, o) == peak_over(
            vals,
            |c: u64| class_max(rows, c) * f(o - (c - low)),
        ),
    decreases vals.len(),
{
    if vals.len() > 0 {
        let t = vals.drop_last();
        lemma_convolution_peak(rows, t, low, f, o);
        assert(item_maxes(rows, vals, low).drop_last() =~= item_maxes(rows, t, low));
    }
}

/// One convolution step gives the masses of the batch with one more item.
proof fn lemma_batch_step(
    rows: Seq<(u64, nat)>,
    low: u64,
    n: nat,
    f: spec_fn(int) -> nat,
    o: int,
)
    requires
        n > 0,
        forall|x: int| #[trigger] f(x) == batch_mass(rows, low, (n - 1) as nat, x),
    ensures
        convolution(true, item_weights(rows, cycle_values(rows), low), f, o) == batch_mass(
            rows,
            low,
            n,
            o,
        ),
{
    let vals = cycle_values(rows);
    let g = |c: u64| batch_mass(rows, low, (n - 1) as nat, o - (c - low));
    lemma_batch_unfold(rows, low, n, o);
    lemma_convolution_sum(rows, vals, low, f, o);
    lemma_regroup(rows, g);
    assert((|c: u64| class_weight(rows, c) * f(o - (c - low))) =~= (|c: u64|
        class_weight(rows, c) * g(c)));
}

proof fn lemma_batch_peak_step(
    rows: Seq<(u64, nat)>,
    low: u64,
    n: nat,
    f: spec_fn(int) -> nat,
    o: int,
)
    requires
        n > 0,
        forall|x: int| #[trigger] f(x) == batch_peak(rows, low, (n - 1) as nat, x),
    ensures
        convolution(false, item_maxes(rows, cycle_values(rows), low), f, o) == batch_peak(
            rows,
            low,
            n,
            o,
        ),
{
    let vals = cycle_values(rows);
    let g = |c: u64| batch_peak(rows, low, (n - 1) as nat, o - (c - low));
    lemma_batch_unfold(rows, low, n, o);
    lemma_convolution_peak(rows, vals, low, f, o);
    lemma_regroup_peak(rows, g);
    assert((|c: u64| class_max(rows, c) * f(o - (c - low))) =~= (|c: u64|
        class_max(rows, c) * g(c)));
}

// ---------------------------------------------------------------------------
// Sums over outcomes
// ---------------------------------------------------------------------------

/// The sum of `h` over the masses of a sparse distribution.
spec fn term_sum(s: Seq<(int, nat)>, h: spec_fn(nat) -> nat) -> nat
    decreases s.len(),
{
    if s.len() == 0 {
        0
    } else {
        term_sum(s.drop_last(), h) + h(s.last().1)
    }
}

proof fn lemma_upto_zero(f: spec_fn(int) -> nat, m: int)
    requires
        forall|o: int| 0 <= o < m ==> #[trigger] f(o) == 0,
    ensures
        upto(f, m) == 0,
    decreases m,
{
    if m > 0 {
        lemma_upto_zero(f, m - 1);
    }
}

pub proof fn lemma_upto_same(f: spec_fn(int) -> nat, g: spec_fn(int) -> nat, m: int)
    requires
        forall|o: int| 0 <= o < m ==> #[trigger] f(o) == g(o),
    ensures
        upto(f, m) == upto(g, m),
    decreases m,
{
    if m > 0 {
        lemma_upto_same(f, g, m - 1);
        assert(f(m - 1) == g(m - 1));
    }
}

proof fn lemma_upto_bump(f: spec_fn(int) -> nat, g: spec_fn(int) -> nat, m: int, p: int, d: nat)
    requires
        0 <= p < m,
        forall|o: int| 0 <= o < m && o != p ==> #[trigger] g(o) == f(o),
        g(p) == f(p) + d,
    ensures
        upto(g, m) == upto(f, m) + d,
    decreases m,
{
    if p == m - 1 {
        assert forall|o: int| 0 <= o < m - 1 implies #[trigger] f(o) == g(o) by {
            assert(g(o) == f(o));
        }
        lemma_upto_same(f, g, m - 1);
    } else {
        lemma_upto_bump(f, g, m - 1, p, d);
        assert(g(m - 1) == f(m - 1));
    }
}

/// Summing over the terms of a sparse distribution is summing over all outcomes.
proof fn lemma_sparse_sum(s: Seq<(int, nat)>, h: spec_fn(nat) -> nat, m: int)
    requires
        ordered(s),
        within(s, m),
        h(0) == 0,
    ensures
        term_sum(s, h) == upto(|o: int| h(mass_at(s, o)), m),
    decreases s.len(),
{
    let g = |o: int| h(mass_at(s, o));
    if s.len() == 0 {
        assert forall|o: int| 0 <= o < m implies #[trigger] g(o) == 0 by {}
        lemma_upto_zero(g, m);
    } else {
        let t = s.drop_last();
        let p = s.last().0;
        let f = |o: int| h(mass_at(t, o));
        assert forall|i: int, j: int| 0 <= i < j < t.len() implies (#[trigger] t[i]).0 < (
        #[trigger] t[j]).0 by {
            assert(s[i].0 < s[j].0);
        }
        assert forall|i: int| 0 <= i < t.len() implies 0 <= (#[trigger] t[i]).0 < m by {
            assert(0 <= s[i].0 < m);
        }
        lemma_sparse_sum(t, h, m);
        assert forall|i: int| 0 <= i < t.len() implies (#[trigger] t[i]).0 != p by {
            assert(s[i].0 < s[s.len() - 1].0);
        }
        lemma_mass_beyond(t, p);
        assert(0 <= s[s.len() - 1].0 < m);
        assert forall|o: int| 0 <= o < m && o != p implies #[trigger] g(o) == f(o) by {}
        assert(g(p) == f(p) + h(s.last().1));
        lemma_upto_bump(f, g, m, p, h(s.last().1));
    }
}

/// No batch has a cost outside the range that the extremes of one item give.
pub proof fn lemma_batch_support(rows: Seq<(u64, nat)>, low: u64, d: int, n: nat, o: int)
    requires
        forall|i: int| 0 <= i < rows.len() ==> low <= (#[trigger] rows[i]).0 <= low + d,
        o < 0 || o > n * d,
        d >= 0,
    ensures
        batch_mass(rows, low, n, o) == 0,
        batch_peak(rows, low, n, o) == 0,
    decreases n,
{
    if n > 0 {
        let n1 = (n - 1) as nat;
        assert(n * d == n1 * d + d) by (nonlinear_arith)
            requires
                n == n1 + 1,
        ;
        let g = |c: u64| batch_mass(rows, low, n1, o - (c - low));
        let h = |c: u64| batch_peak(rows, low, n1, o - (c - low));
        assert forall|i: int| 0 <= i < rows.len() implies g(#[trigger] rows[i].0) == 0 && h(
            rows[i].0,
        ) == 0 by {
            assert(low <= rows[i].0 <= low + d);
            lemma_batch_support(rows, low, d, n1, o - (rows[i].0 - low));
        }
        lemma_rows_vanish(rows, g, h);
        lemma_batch_unfold(rows, low, n, o);
    } else {
        assert(0 * d == 0) by (nonlinear_arith);
    }
}

proof fn lemma_rows_vanish(
    rows: Seq<(u64, nat)>,
    g: spec_fn(u64) -> nat,
    h: spec_fn(u64) -> nat,
)
    requires
        forall|i: int| 0 <= i < rows.len() ==> g(#[trigger] rows[i].0) == 0 && h(rows[i].0) == 0,
    ensures
        row_sum(rows, g) == 0,
        row_peak(rows, h) == 0,
    decreases rows.len(),
{
    if rows.len() > 0 {
        let t = rows.drop_last();
        assert forall|i: int| 0 <= i < t.len() implies g(#[trigger] t[i].0) == 0 && h(t[i].0)
            == 0 by {
            assert(t[i] == rows[i]);
        }
        lemma_rows_vanish(t, g, h);
        assert(g(rows[rows.len() - 1].0) == 0);
        let w = rows.last().1;
        assert(w * 0 == 0) by (nonlinear_arith);
    }
}

proof fn lemma_upto_shift(f: spec_fn(int) -> nat, d: int, m: int)
    requires
        d >= 0,
        forall|o: int| o < 0 ==> #[trigger] f(o) == 0,
    ensures
        upto(|o: int| f(o - d), m) == upto(f, m - d),
    decreases m,
{
    let g = |o: int| f(o - d);
    if m > 0 {
        lemma_upto_shift(f, d, m - 1);
        assert(g(m - 1) == f(m - 1 - d));
    }
}

pub proof fn lemma_upto_tail(f: spec_fn(int) -> nat, a: int, b: int)
    requires
        0 <= a <= b,
        forall|o: int| a <= o < b ==> #[trigger] f(o) == 0,
    ensures
        upto(f, b) == upto(f, a),
    decreases b - a,
{
    if a < b {
        lemma_upto_tail(f, a, b - 1);
        assert(f(b - 1) == 0);
    }
}

proof fn lemma_upto_add_scaled(
    f: spec_fn(int) -> nat,
    g: spec_fn(int) -> nat,
    h: spec_fn(int) -> nat,
    w: nat,
    m: int,
)
    requires
        forall|o: int| #[trigger] h(o) == f(o) + w * g(o),
    ensures
        upto(h, m) == upto(f, m) + w * upto(g, m),
    decreases m,
{
    if m > 0 {
        lemma_upto_add_scaled(f, g, h, w, m - 1);
        let a = upto(g, m - 1);
        let b = g(m - 1);
        assert(w * (a + b) == w * a + w * b) by (nonlinear_arith);
        assert(h(m - 1) == f(m - 1) + w * g(m - 1));
    } else {
        assert(w * 0 == 0) by (nonlinear_arith);
    }
}

/// Summing a batch over all outcomes, one item at a time.
pub proof fn lemma_swap_sums(
    rows: Seq<(u64, nat)>,
    low: u64,
    d: int,
    f: spec_fn(int) -> nat,
    top: int,
    m: int,
)
    requires
        forall|i: int| 0 <= i < rows.len() ==> low <= (#[trigger] rows[i]).0 <= low + d,
        forall|o: int| o < 0 || o >= top ==> #[trigger] f(o) == 0,
        top >= 0,
        m >= top + d,
    ensures
        upto(|o: int| row_sum(rows, |c: u64| f(o - (c - low))), m) == total_weight(rows) * upto(
            f,
            top,
        ),
    decreases rows.len(),
{
    let h = |o: int| row_sum(rows, |c: u64| f(o - (c - low)));
    let s = upto(f, top);
    if rows.len() == 0 {
        assert forall|o: int| 0 <= o < m implies #[trigger] h(o) == 0 by {}
        lemma_upto_zero(h, m);
        assert(0 * s == 0) by (nonlinear_arith);
    } else {
        let t = rows.drop_last();
        let c0 = rows.last().0;
        let w = rows.last().1;
        assert(low <= rows[rows.len() - 1].0 <= low + d);
        assert forall|i: int| 0 <= i < t.len() implies low <= (#[trigger] t[i]).0 <= low + d by {
            assert(t[i] == rows[i]);
        }
        lemma_swap_sums(t, low, d, f, top, m);
        let h1 = |o: int| row_sum(t, |c: u64| f(o - (c - low)));
        let g = |o: int| f(o - (c0 - low));
        assert forall|o: int| #[trigger] h(o) == h1(o) + w * g(o) by {
            let k = |c: u64| f(o - (c - low));
            assert(row_sum(rows, k) == row_sum(t, k) + w * k(c0));
        }
        lemma_upto_add_scaled(h1, g, h, w, m);
        lemma_upto_shift(f, c0 - low, m);
        lemma_upto_tail(f, top, m - (c0 - low));
        let a = total_weight(t);
        assert((a + w) * s == a * s + w * s) by (nonlinear_arith);
    }
}

/// The masses of all batches of `n` items add up to the `n`-th power of the total weight.
pub proof fn lemma_batch_total(rows: Seq<(u64, nat)>, low: u64, d: int, n: nat)
    requires
        forall|i: int| 0 <= i < rows.len() ==> low <= (#[trigger] rows[i]).0 <= low + d,
        d >= 0,
    ensures
        upto(|o: int| batch_mass(rows, low, n, o), n * d + 1) == pow(total_weight(rows) as int, n),
    decreases n,
{
    let f = |o: int| batch_mass(rows, low, n, o);
    if n == 0 {
        lemma_pow0(total_weight(rows) as int);
        assert(0 * d == 0) by (nonlinear_arith);
        assert(f(0) == 1);
        assert(upto(f, 0) == 0);
        assert(upto(f, 1) == 1);
    } else {
        let n1 = (n - 1) as nat;
        lemma_batch_total(rows, low, d, n1);
        let f1 = |o: int| batch_mass(rows, low, n1, o);
        assert(n * d == n1 * d + d) by (nonlinear_arith)
            requires
                n == n1 + 1,
        ;
        assert(n1 * d >= 0) by (nonlinear_arith)
            requires
                d >= 0,
        ;
        assert forall|o: int| o < 0 || o >= n1 * d + 1 implies #[trigger] f1(o) == 0 by {
            lemma_batch_support(rows, low, d, n1, o);
        }
        lemma_swap_sums(rows, low, d, f1, n1 * d + 1, n * d + 1);
        let h = |o: int| row_sum(rows, |c: u64| f1(o - (c - low)));
        assert forall|o: int| 0 <= o < n * d + 1 implies #[trigger] f(o) == h(o) by {
            lemma_batch_unfold(rows, low, n, o);
            assert((|c: u64| batch_mass(rows, low, n1, o - (c - low))) =~= (|c: u64|
                f1(o - (c - low))));
        }
        lemma_upto_same(f, h, n * d + 1);
        reveal(pow);
    }
}

// ---------------------------------------------------------------------------
// The table of batch sizes
// ---------------------------------------------------------------------------

/// The leakage of one batch size.
#[derive(Debug)]
pub struct ScaleRow {
    pub n: usize,
    pub min_entropy_bits: u128,
    /// The Shannon leakage about the batch as a whole.
    pub total_bits: u128,
    /// What the last item of the batch adds to the total.
    pub marginal_bits: u128,
}

/// Whether a row of the table is shown: the first four, the last one, and powers of two.
pub open spec fn is_shown(k: nat, n: nat) -> bool {
    k <= 4 || k == n || exists|e: nat| k == #[trigger] pow2(e)
}

/// The batch sizes up to `m` that the table for `n` items shows.
pub open spec fn shown_sizes(m: nat, n: nat) -> Seq<nat>
    decreases m,
{
    if m == 0 {
        Seq::empty()
    } else if is_shown(m, n) {
        shown_sizes((m - 1) as nat, n).push(m)
    } else {
        shown_sizes((m - 1) as nat, n)
    }
}

/// Whether a row holds the leakage of its batch size.
pub open spec fn is_scale_row(r: ScaleRow, rows: Seq<(u64, nat)>) -> bool {
    &&& r.n >= 1
    &&& r.min_entropy_bits == batch_min_entropy(rows, r.n as nat)
    &&& r.total_bits == batch_bits(rows, r.n as nat)
    &&& r.marginal_bits == batch_marginal(rows, r.n as nat)
}

/// Whether these are the rows of the table for batches of up to `n` items.
pub open spec fn is_scale_table(t: Seq<ScaleRow>, rows: Seq<(u64, nat)>, n: nat) -> bool {
    &&& t.map_values(|x: ScaleRow| x.n as nat) == shown_sizes(n, n)
    &&& forall|a: int| #![trigger t[a]] 0 <= a < t.len() ==> is_scale_row(t[a], rows)
}

/// Decides which batch sizes the table shows.
pub fn shows(k: usize, n: usize) -> (r: bool)
    requires
        k >= 1,
    ensures
        r == is_shown(k as nat, n as nat),
{
    if k <= 4 || k == n {
        return true;
    }
    let mut unit: u128 = 1;
    let ghost mut e: nat = 0;
    proof {
        vstd::arithmetic::power2::lemma2_to64();
    }
    while unit < k as u128
        invariant
            unit == pow2(e),
            unit < 2 * k,
            unit >= 1,
            e > 0 ==> pow2((e - 1) as nat) < k,
        decreases 2 * k - unit,
    {
        proof {
            vstd::arithmetic::power2::lemma_pow2_unfold(e + 1);
            e = e + 1;
        }
        unit = unit * 2;
    }
    proof {
        if unit != k {
            assert forall|x: nat| k != #[trigger] pow2(x) by {
                if x < e {
                    if x < e - 1 {
                        vstd::arithmetic::power2::lemma_pow2_strictly_increases(
                            x,
                            (e - 1) as nat,
                        );
                    }
                } else if x > e {
                    vstd::arithmetic::power2::lemma_pow2_strictly_increases(e, x);
                }
            }
        }
    }
    unit == k as u128
}

proof fn lemma_term_sums(s: Seq<(int, nat)>)
    ensures
        log_sum(s.map_values(|x: (int, nat)| x.1)) == term_sum(s, |w: nat| xlg(w)),
        sum(s.map_values(|x: (int, nat)| x.1)) == term_sum(s, |w: nat| w),
    decreases s.len(),
{
    let m = s.map_values(|x: (int, nat)| x.1);
    if s.len() > 0 {
        lemma_term_sums(s.drop_last());
        assert(m.drop_last() =~= s.drop_last().map_values(|x: (int, nat)| x.1));
    }
}

/// The entropy of a sparse distribution with the given total.
fn entropy(terms: &Vec<Term>, whole: &Nat, Ghost(m): Ghost<int>) -> (r: u128)
    requires
        ordered(terms_of(terms@)),
        within(terms_of(terms@), m),
        whole@ > 0,
        upto(|o: int| mass_at(terms_of(terms@), o), m) == whole@,
    ensures
        r == (xlg(whole@) - upto(|o: int| xlg(mass_at(terms_of(terms@), o)), m)) / (whole@ as int),
        r < 0x20_0000_0000_0000_0000_0000_0000_0000,
{
    let ghost ts = terms_of(terms@);
    let ghost xl = |w: nat| xlg(w);
    let ghost id = |w: nat| w;
    let mut logs: Nat = Nat::zero();
    let mut i: usize = 0;
    assert(ts.take(0) =~= Seq::empty());
    while i < terms.len()
        invariant
            ts == terms_of(terms@),
            xl == (|w: nat| xlg(w)),
            i <= terms@.len(),
            logs@ == term_sum(ts.take(i as int), xl),
        decreases terms.len() - i,
    {
        proof {
            assert(ts.take(i + 1).drop_last() =~= ts.take(i as int));
            assert(ts[i as int].1 == terms@[i as int].mass@);
            assert(xl(ts[i as int].1) == xlg(ts[i as int].1));
        }
        if !terms[i].mass.is_zero() {
            let l: Nat = Nat::from_u128(log2_fixed(&terms[i].mass));
            logs = logs.plus(&terms[i].mass.times(&l));
        } else {
            assert(0 * lg(0) == 0) by (nonlinear_arith);
        }
        i = i + 1;
    }
    proof {
        assert(ts.take(i as int) =~= ts);
        lemma_term_sums(ts);
        assert(xl(0) == 0) by {
            assert(0 * lg(0) == 0) by (nonlinear_arith);
        }
        lemma_sparse_sum(ts, xl, m);
        lemma_sparse_sum(ts, id, m);
        assert((|o: int| id(mass_at(ts, o))) =~= (|o: int| mass_at(ts, o)));
        assert((|o: int| xl(mass_at(ts, o))) =~= (|o: int| xlg(mass_at(ts, o))));
        lemma_log_sum_bound(ts.map_values(|x: (int, nat)| x.1), whole@);
    }
    let lt: u128 = log2_fixed(whole);
    let log_whole: Nat = whole.times(&Nat::from_u128(lt));
    let mass: Nat = log_whole.minus(&logs);
    bits_of(&mass, whole, lt)
}

/// The min-entropy leakage of a batch from its peaks and the largest weight of a batch.
fn peak_bits(terms: &Vec<Term>, top: &Nat, Ghost(m): Ghost<int>) -> (r: u128)
    requires
        ordered(terms_of(terms@)),
        within(terms_of(terms@), m),
        top@ > 0,
    ensures
        r == ({
            let a = lg(upto(|o: int| mass_at(terms_of(terms@), o), m));
            let b = lg(top@);
            if a < b {
                0
            } else {
                a - b
            }
        }),
{
    let ghost ts = terms_of(terms@);
    let ghost id = |w: nat| w;
    let mut total: Nat = Nat::zero();
    let mut i: usize = 0;
    assert(ts.take(0) =~= Seq::empty());
    while i < terms.len()
        invariant
            ts == terms_of(terms@),
            id == (|w: nat| w),
            i <= terms@.len(),
            total@ == term_sum(ts.take(i as int), id),
        decreases terms.len() - i,
    {
        proof {
            assert(ts.take(i + 1).drop_last() =~= ts.take(i as int));
            assert(ts[i as int].1 == terms@[i as int].mass@);
            assert(id(ts[i as int].1) == ts[i as int].1);
        }
        total = total.plus(&terms[i].mass);
        i = i + 1;
    }
    proof {
        assert(ts.take(i as int) =~= ts);
        lemma_sparse_sum(ts, id, m);
        assert((|o: int| id(mass_at(ts, o))) =~= (|o: int| mass_at(ts, o)));
        crate::binary_log::lemma_lg_one();
    }
    if total.is_zero() {
        return 0;
    }
    let a: u128 = log2_fixed(&total);
    let b: u128 = log2_fixed(top);
    if a < b {
        0
    } else {
        a - b
    }
}

/// The outcomes of one item, with the weight of each class or its largest weight.
fn item_terms(p: &Partition, peaks: bool, Ghost(rows): Ghost<Seq<(u64, nat)>>) -> (r: Vec<Term>)
    requires
        p@ == partition_of(rows),
        cycle_values(rows).len() > 0,
    ensures
        terms_of(r@) == (if peaks {
            item_maxes(rows, cycle_values(rows), lowest(rows))
        } else {
            item_weights(rows, cycle_values(rows), lowest(rows))
        }),
        within(terms_of(r@), spread(rows) + 1),
{
    let ghost vals = cycle_values(rows);
    proof {
        lemma_cycle_values(rows);
        assert(p@.values == vals);
        assert(p.classes@[0].cycles == p@.values[0]);
    }
    let low: u64 = p.classes[0].cycles;
    let mut r: Vec<Term> = Vec::new();
    let mut i: usize = 0;
    while i < p.classes.len()
        invariant
            p@ == partition_of(rows),
            vals == cycle_values(rows),
            increasing(vals),
            vals.len() > 0,
            low == lowest(rows),
            i <= p.classes@.len(),
            r@.len() == i,
            forall|k: int| #![trigger r@[k]]
                0 <= k < i ==> {
                    &&& r@[k].offset == vals[k] - low
                    &&& r@[k].mass@ == if peaks {
                        class_max(rows, vals[k])
                    } else {
                        class_weight(rows, vals[k])
                    }
                },
        decreases p.classes.len() - i,
    {
        let c: &Class = &p.classes[i];
        proof {
            assert(p@.values[i as int] == c.cycles);
            assert(p@.weights[i as int] == c.weight@);
            assert(p@.maxes[i as int] == c.max_weight@);
            if i > 0 {
                assert(vals[0] < vals[i as int]);
            }
        }
        let mass: Nat = if peaks {
            c.max_weight.copy()
        } else {
            c.weight.copy()
        };
        r.push(Term { offset: (c.cycles - low) as u128, mass });
        i = i + 1;
    }
    proof {
        assert(p@.values.len() == p.classes@.len());
        let tr = terms_of(r@);
        if peaks {
            assert(tr =~= item_maxes(rows, vals, low));
        } else {
            assert(tr =~= item_weights(rows, vals, low));
        }
        assert forall|k: int| 0 <= k < tr.len() implies 0 <= (#[trigger] tr[k]).0 < spread(rows)
            + 1 by {
            if k > 0 {
                assert(vals[0] < vals[k]);
            }
            if k < vals.len() - 1 {
                assert(vals[k] < vals[vals.len() - 1]);
            }
        }
    }
    r
}

/// The costs of a sweep lie between its least and its greatest cost.
pub proof fn lemma_costs_between(rows: Seq<(u64, nat)>)
    requires
        rows.len() > 0,
    ensures
        cycle_values(rows).len() > 0,
        spread(rows) >= 0,
        forall|i: int|
            0 <= i < rows.len() ==> lowest(rows) <= (#[trigger] rows[i]).0 <= lowest(rows) + spread(
                rows,
            ),
{
    lemma_cycle_values(rows);
    let vals = cycle_values(rows);
    assert(occurs(rows, rows[0].0));
    assert(vals.len() > 0);
    if vals.len() > 1 {
        assert(vals[0] < vals[vals.len() - 1]);
    }
    assert forall|i: int| 0 <= i < rows.len() implies lowest(rows) <= (#[trigger] rows[i]).0
        <= lowest(rows) + spread(rows) by {
        assert(occurs(rows, rows[i].0));
        let k = vals.index_of(rows[i].0);
        assert(vals[k] == rows[i].0);
        if k > 0 {
            assert(vals[0] < vals[k]);
        }
        if k < vals.len() - 1 {
            assert(vals[k] < vals[vals.len() - 1]);
        }
    }
}

/// The distribution of an empty batch: nothing is certain to cost nothing.
fn empty_batch() -> (r: Vec<Term>)
    ensures
        ordered(terms_of(r@)),
        within(terms_of(r@), 1),
        forall|o: int| #[trigger]
            mass_at(terms_of(r@), o) == (if o == 0 {
                1nat
            } else {
                0nat
            }),
{
    let mut r: Vec<Term> = Vec::new();
    r.push(Term { offset: 0, mass: Nat::from_u64(1) });
    proof {
        let tr = terms_of(r@);
        assert(tr =~= seq![(0int, 1nat)]);
        assert(tr.drop_last() =~= Seq::empty());
        assert forall|o: int| #[trigger] mass_at(tr, o) == (if o == 0 {
            1nat
        } else {
            0nat
        }) by {
            assert(mass_at(tr.drop_last(), o) == 0);
        }
    }
    r
}

/// The Shannon leakage of a batch whose distribution is known.
fn known_batch_bits(
    terms: &Vec<Term>,
    whole: &Nat,
    Ghost(rows): Ghost<Seq<(u64, nat)>>,
    Ghost(k): Ghost<nat>,
) -> (r: u128)
    requires
        total_weight(rows) > 0,
        rows.len() > 0,
        ordered(terms_of(terms@)),
        within(terms_of(terms@), k * spread(rows) + 1),
        forall|o: int| #[trigger]
            mass_at(terms_of(terms@), o) == batch_mass(rows, lowest(rows), k, o),
        whole@ == pow(total_weight(rows) as int, k),
    ensures
        r == batch_bits(rows, k),
        r < 0x20_0000_0000_0000_0000_0000_0000_0000,
{
    let ghost ts = terms_of(terms@);
    let ghost m = k * spread(rows) + 1;
    let ghost low = lowest(rows);
    proof {
        lemma_costs_between(rows);
        lemma_pow_positive(total_weight(rows) as int, k);
        lemma_batch_total(rows, low, spread(rows), k);
        lemma_upto_same(
            |o: int| mass_at(ts, o),
            |o: int| batch_mass(rows, low, k, o),
            m,
        );
        lemma_upto_same(
            |o: int| xlg(mass_at(ts, o)),
            |o: int| xlg(batch_mass(rows, low, k, o)),
            m,
        );
    }
    entropy(terms, whole, Ghost(m))
}

/// Predicts the leakage of batches of up to `n` items whose costs are independent
/// draws from the measured distribution, when only the sum of the costs can be seen.
///
/// There is no table where all secrets take the same number of cycles: then
/// nothing leaks at any batch size.
pub fn scale_table(rows: &Vec<Sample>, n: usize) -> (r: Option<Vec<ScaleRow>>)
    requires
        total_weight(sample_rows(rows@)) > 0 || cycle_values(sample_rows(rows@)).len() < 2,
    ensures
        r is None <==> cycle_values(sample_rows(rows@)).len() < 2,
        r is Some ==> is_scale_table(r->Some_0@, sample_rows(rows@), n as nat),
{
    let ghost all = sample_rows(rows@);
    let p: Partition = build_partition(rows);
    assert(p.classes@.len() == p@.values.len());
    if p.classes.len() < 2 {
        return None;
    }
    let ghost low = lowest(all);
    let ghost d = spread(all);
    proof {
        lemma_cycle_values(all);
        assert(all.len() > 0);
        lemma_costs_between(all);
        lemma_max_positive(all);
        lemma_pow0(total_weight(all) as int);
        lemma_pow0(max_weight(all) as int);
        assert(0 * d == 0) by (nonlinear_arith);
    }
    let item: Vec<Term> = item_terms(&p, false, Ghost(all));
    let item_peaks: Vec<Term> = item_terms(&p, true, Ghost(all));
    let mut masses: Vec<Term> = empty_batch();
    let mut peaks: Vec<Term> = empty_batch();
    let mut whole: Nat = Nat::from_u64(1);
    let mut top: Nat = Nat::from_u64(1);
    let mut out: Vec<ScaleRow> = Vec::new();
    let mut k: usize = 0;
    assert(out@.map_values(|x: ScaleRow| x.n as nat) =~= shown_sizes(0, n as nat));
    while k < n
        invariant
            all == sample_rows(rows@),
            p@ == partition_of(all),
            low == lowest(all),
            d == spread(all),
            0 <= d <= u64::MAX,
            all.len() > 0,
            total_weight(all) > 0,
            max_weight(all) > 0,
            terms_of(item@) == item_weights(all, cycle_values(all), low),
            terms_of(item_peaks@) == item_maxes(all, cycle_values(all), low),
            within(terms_of(item@), d + 1),
            within(terms_of(item_peaks@), d + 1),
            k <= n,
            ordered(terms_of(masses@)),
            within(terms_of(masses@), k * d + 1),
            forall|o: int| #[trigger]
                mass_at(terms_of(masses@), o) == batch_mass(all, low, k as nat, o),
            ordered(terms_of(peaks@)),
            within(terms_of(peaks@), k * d + 1),
            forall|o: int| #[trigger]
                mass_at(terms_of(peaks@), o) == batch_peak(all, low, k as nat, o),
            whole@ == pow(total_weight(all) as int, k as nat),
            top@ == pow(max_weight(all) as int, k as nat),
            out@.map_values(|x: ScaleRow| x.n as nat) == shown_sizes(k as nat, n as nat),
            forall|a: int| #![trigger out@[a]]
                0 <= a < out@.len() ==> is_scale_row(out@[a], all),
        decreases n - k,
    {
        let ghost m = k * d + 1;
        let ghost m1 = (k + 1) * d + 1;
        proof {
            assert(m1 == m + d) by (nonlinear_arith)
                requires
                    m == k * d + 1,
                    m1 == (k + 1) * d + 1,
            ;
            assert(m >= 1) by (nonlinear_arith)
                requires
                    m == k * d + 1,
                    d >= 0,
            ;
            assert(m1 <= u128::MAX) by (nonlinear_arith)
                requires
                    m1 == (k + 1) * d + 1,
                    k + 1 <= 0xffff_ffff_ffff_ffff,
                    0 <= d <= 0xffff_ffff_ffff_ffff,
            ;
        }
        let next: Vec<Term> = convolve(&masses, &item, true, Ghost(m), Ghost(d));
        let next_peaks: Vec<Term> = convolve(&peaks, &item_peaks, false, Ghost(m), Ghost(d));
        let next_whole: Nat = whole.times(&p.total_weight);
        let next_top: Nat = top.times(&p.max_secret_weight);
        proof {
            let f = |x: int| mass_at(terms_of(masses@), x);
            let g = |x: int| mass_at(terms_of(peaks@), x);
            assert forall|o: int| #[trigger] mass_at(terms_of(next@), o) == batch_mass(
                all,
                low,
                (k + 1) as nat,
                o,
            ) by {
                lemma_batch_step(all, low, (k + 1) as nat, f, o);
            }
            assert forall|o: int| #[trigger] mass_at(terms_of(next_peaks@), o) == batch_peak(
                all,
                low,
                (k + 1) as nat,
                o,
            ) by {
                lemma_batch_peak_step(all, low, (k + 1) as nat, g, o);
            }
            reveal(pow);
            let w = total_weight(all) as int;
            let x = max_weight(all) as int;
            let a = pow(w, k as nat);
            let b = pow(x, k as nat);
            assert(a * w == w * a) by (nonlinear_arith);
            assert(b * x == x * b) by (nonlinear_arith);
            lemma_pow_positive(x, (k + 1) as nat);
        }
        k = k + 1;
        let ghost shown_before = out@;
        if shows(k, n) {
            let before: u128 = known_batch_bits(
                &masses,
                &whole,
                Ghost(all),
                Ghost((k - 1) as nat),
            );
            let now: u128 = known_batch_bits(&next, &next_whole, Ghost(all), Ghost(k as nat));
            let min_entropy_bits: u128 = peak_bits(&next_peaks, &next_top, Ghost(m1));
            proof {
                lemma_upto_same(
                    |o: int| mass_at(terms_of(next_peaks@), o),
                    |o: int| batch_peak(all, low, k as nat, o),
                    m1,
                );
            }
            out.push(
                ScaleRow {
                    n: k,
                    min_entropy_bits,
                    total_bits: now,
                    marginal_bits: if now < before {
                        0
                    } else {
                        now - before
                    },
                },
            );
            proof {
                assert(out@.map_values(|x: ScaleRow| x.n as nat) =~= shown_before.map_values(
                    |x: ScaleRow| x.n as nat,
                ).push(k as nat));
            }
        }
        masses = next;
        peaks = next_peaks;
        whole = next_whole;
        top = next_top;
    }
    Some(out)
}

} // verus!
