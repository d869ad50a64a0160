//! The partition of the secrets that a cycle count induces.
//!
//! Two secrets that take the same number of cycles cannot be told apart, so a
//! sweep splits its secrets into classes, one for each distinct cycle count.

use crate::binary_log::{lemma_lg_one, lg, log2_fixed};
use crate::natural::Nat;
use vstd::prelude::*;

verus! {

/// One measured secret: the cycles it took and its prior weight.
#[derive(Debug)]
pub struct Sample {
    pub cycles: u64,
    pub weight: Nat,
}

/// The cycles and weights of a sequence of samples.
pub open spec fn sample_rows(s: Seq<Sample>) -> Seq<(u64, nat)> {
    s.map_values(|x: Sample| (x.cycles, x.weight@))
}

/// Whether every secret has a weight greater than zero.
pub open spec fn positive_weights(rows: Seq<(u64, nat)>) -> bool {
    forall|i: int| 0 <= i < rows.len() ==> (#[trigger] rows[i]).1 > 0
}

/// The sum of all weights.
pub open spec fn total_weight(rows: Seq<(u64, nat)>) -> nat
    decreases rows.len(),
{
    if rows.len() == 0 {
        0
    } else {
        total_weight(rows.drop_last()) + rows.last().1
    }
}

pub open spec fn larger(a: nat, b: nat) -> nat {
    if a < b {
        b
    } else {
        a
    }
}

/// The largest single weight.
pub open spec fn max_weight(rows: Seq<(u64, nat)>) -> nat
    decreases rows.len(),
{
    if rows.len() == 0 {
        0
    } else {
        larger(max_weight(rows.drop_last()), rows.last().1)
    }
}

/// The sum of the weights of the secrets that take `c` cycles.
pub open spec fn class_weight(rows: Seq<(u64, nat)>, c: u64) -> nat
    decreases rows.len(),
{
    if rows.len() == 0 {
        0
    } else {
        class_weight(rows.drop_last(), c) + (if rows.last().0 == c {
            rows.last().1
        } else {
            0
        })
    }
}

/// The largest single weight among the secrets that take `c` cycles.
pub open spec fn class_max(rows: Seq<(u64, nat)>, c: u64) -> nat
    decreases rows.len(),
{
    if rows.len() == 0 {
        0
    } else {
        larger(
            class_max(rows.drop_last(), c),
            if rows.last().0 == c {
                rows.last().1
            } else {
                0
            },
        )
    }
}

/// A weight times its own logarithm.
pub open spec fn xlg(w: nat) -> nat {
    w * lg(w)
}

/// The sum of `xlg` over all weights.
pub open spec fn weight_logs(rows: Seq<(u64, nat)>) -> nat
    decreases rows.len(),
{
    if rows.len() == 0 {
        0
    } else {
        weight_logs(rows.drop_last()) + xlg(rows.last().1)
    }
}

/// The sum of `xlg` over the weights of the secrets that take `c` cycles.
pub open spec fn class_logs(rows: Seq<(u64, nat)>, c: u64) -> nat
    decreases rows.len(),
{
    if rows.len() == 0 {
        0
    } else {
        class_logs(rows.drop_last(), c) + (if rows.last().0 == c {
            xlg(rows.last().1)
        } else {
            0
        })
    }
}

/// Whether some secret takes `c` cycles.
pub open spec fn occurs(rows: Seq<(u64, nat)>, c: u64) -> bool {
    exists|i: int| 0 <= i < rows.len() && (#[trigger] rows[i]).0 == c
}

/// Whether a sequence increases strictly.
pub open spec fn increasing(s: Seq<u64>) -> bool {
    forall|i: int, j: int| 0 <= i < j < s.len() ==> s[i] < s[j]
}

/// Puts a value at its place in an increasing sequence, unless it is there already.
pub open spec fn put(s: Seq<u64>, c: u64) -> Seq<u64>
    decreases s.len(),
{
    if s.len() == 0 {
        seq![c]
    } else if s.last() < c {
        s.push(c)
    } else if s.last() == c {
        s
    } else {
        put(s.drop_last(), c).push(s.last())
    }
}

/// The distinct cycle counts, in increasing order.
pub open spec fn cycle_values(rows: Seq<(u64, nat)>) -> Seq<u64>
    decreases rows.len(),
{
    if rows.len() == 0 {
        Seq::empty()
    } else {
        put(cycle_values(rows.drop_last()), rows.last().0)
    }
}

/// What a partition holds: its classes in increasing order of cycles, each with
/// its weight, the largest single weight in it and the sum of `xlg` over its
/// secrets, and the totals over all secrets.
#[verifier::ext_equal]
pub struct PartitionView {
    pub values: Seq<u64>,
    pub weights: Seq<nat>,
    pub maxes: Seq<nat>,
    pub class_logs: Seq<nat>,
    pub total: nat,
    pub max_secret: nat,
    pub logs: nat,
    pub secrets: nat,
}

/// The partition of a sequence of secrets.
pub open spec fn partition_of(rows: Seq<(u64, nat)>) -> PartitionView {
    let values = cycle_values(rows);
    PartitionView {
        values,
        weights: values.map_values(|c: u64| class_weight(rows, c)),
        maxes: values.map_values(|c: u64| class_max(rows, c)),
        class_logs: values.map_values(|c: u64| class_logs(rows, c)),
        total: total_weight(rows),
        max_secret: max_weight(rows),
        logs: weight_logs(rows),
        secrets: rows.len(),
    }
}

/// One class of indistinguishable secrets.
#[derive(Debug)]
pub struct Class {
    /// The cycles that every secret of the class takes.
    pub cycles: u64,
    /// The sum of the weights in the class.
    pub weight: Nat,
    /// The largest single weight in the class.
    pub max_weight: Nat,
    /// The sum over the secrets of the class of a weight times its logarithm.
    pub w_log_w: Nat,
}

/// The partition of the secret space induced by the cycle count.
#[derive(Debug)]
pub struct Partition {
    pub classes: Vec<Class>,
    pub total_weight: Nat,
    pub max_secret_weight: Nat,
    /// The sum over secrets of a weight times its logarithm.
    pub w_log_w_total: Nat,
    pub num_secrets: usize,
}

pub open spec fn class_values(s: Seq<Class>) -> Seq<u64> {
    s.map_values(|x: Class| x.cycles)
}

impl View for Partition {
    type V = PartitionView;

    open spec fn view(&self) -> PartitionView {
        PartitionView {
            values: class_values(self.classes@),
            weights: self.classes@.map_values(|x: Class| x.weight@),
            maxes: self.classes@.map_values(|x: Class| x.max_weight@),
            class_logs: self.classes@.map_values(|x: Class| x.w_log_w@),
            total: self.total_weight@,
            max_secret: self.max_secret_weight@,
            logs: self.w_log_w_total@,
            secrets: self.num_secrets as nat,
        }
    }
}

impl Partition {
    /// Whether this is the partition of some sequence of secrets.
    pub open spec fn well_formed(&self) -> bool {
        exists|rows: Seq<(u64, nat)>| self@ == #[trigger] partition_of(rows)
    }
}

/// Putting a value into an increasing sequence keeps it increasing and adds that value alone.
pub proof fn lemma_put(s: Seq<u64>, c: u64)
    requires
        increasing(s),
    ensures
        increasing(put(s, c)),
        forall|x: u64| put(s, c).contains(x) <==> s.contains(x) || x == c,
        s.contains(c) ==> put(s, c) == s,
        !s.contains(c) ==> put(s, c).len() == s.len() + 1,
    decreases s.len(),
{
    let r = put(s, c);
    if s.len() == 0 {
        assert(r[0] == c);
        assert forall|x: u64| r.contains(x) <==> s.contains(x) || x == c by {
            if x == c {
                assert(r[0] == x);
            }
        }
    } else if s.last() < c {
        assert forall|x: u64| r.contains(x) <==> s.contains(x) || x == c by {
            if s.contains(x) {
                let i = s.index_of(x);
                assert(r[i] == x);
            }
            if x == c {
                assert(r[s.len() as int] == x);
            }
        }
        if s.contains(c) {
            let i = s.index_of(c);
            assert(s[i] <= s.last());
        }
    } else if s.last() == c {
        assert(s[s.len() - 1] == c);
    } else {
        let t = s.drop_last();
        let l = s.last();
        lemma_put(t, c);
        assert forall|x: u64| r.contains(x) <==> s.contains(x) || x == c by {
            if r.contains(x) {
                let i = r.index_of(x);
                if i < put(t, c).len() {
                    assert(put(t, c)[i] == x);
                    assert(put(t, c).contains(x));
                    if t.contains(x) {
                        assert(s[t.index_of(x)] == x);
                    }
                } else {
                    assert(s[s.len() - 1] == x);
                }
            }
            if s.contains(x) {
                let i = s.index_of(x);
                if i < t.len() {
                    assert(t[i] == x);
                    assert(t.contains(x));
                    assert(r[put(t, c).index_of(x)] == x);
                } else {
                    assert(r[put(t, c).len() as int] == x);
                }
            }
            if x == c {
                assert(put(t, c).contains(x));
                assert(r[put(t, c).index_of(x)] == x);
            }
        }
        assert forall|i: int, j: int| 0 <= i < j < r.len() implies r[i] < r[j] by {
            if j == r.len() - 1 {
                assert(put(t, c).contains(put(t, c)[i]));
                if t.contains(r[i]) {
                    let k = t.index_of(r[i]);
                    assert(s[k] < s[s.len() - 1]);
                }
            }
        }
        if s.contains(c) {
            let i = s.index_of(c);
            assert(t[i] == c);
            assert(r =~= s);
        } else {
            assert(!t.contains(c)) by {
                if t.contains(c) {
                    assert(s[t.index_of(c)] == c);
                }
            }
        }
    }
}

/// The distinct cycle counts are increasing and are those that occur.
pub proof fn lemma_cycle_values(rows: Seq<(u64, nat)>)
    ensures
        increasing(cycle_values(rows)),
        forall|c: u64| cycle_values(rows).contains(c) <==> occurs(rows, c),
    decreases rows.len(),
{
    if rows.len() > 0 {
        let t = rows.drop_last();
        lemma_cycle_values(t);
        lemma_put(cycle_values(t), rows.last().0);
        assert forall|c: u64| cycle_values(rows).contains(c) <==> occurs(rows, c) by {
            if occurs(t, c) {
                let i = choose|i: int| 0 <= i < t.len() && (#[trigger] t[i]).0 == c;
                assert(rows[i].0 == c);
            }
            if occurs(rows, c) {
                let i = choose|i: int| 0 <= i < rows.len() && (#[trigger] rows[i]).0 == c;
                if i < t.len() {
                    assert(t[i].0 == c);
                } else {
                    assert(c == rows.last().0);
                }
            }
            if c == rows.last().0 {
                assert(rows[rows.len() - 1].0 == c);
            }
        }
    }
}

/// Increasing sequences of the same elements are the same.
pub proof fn lemma_increasing_unique(a: Seq<u64>, b: Seq<u64>)
    requires
        increasing(a),
        increasing(b),
        forall|x: u64| #[trigger] a.contains(x) <==> b.contains(x),
    ensures
        a == b,
    decreases a.len(),
{
    if a.len() == 0 {
        if b.len() > 0 {
            assert(b.contains(b[0]));
            assert(a.contains(b[0]));
        }
        assert(a =~= b);
    } else {
        let x = a[a.len() - 1];
        assert(a.contains(x));
        assert(b.contains(x));
        let y = b[b.len() - 1];
        assert(b.contains(y));
        assert(a.contains(y));
        let i = a.index_of(y);
        let j = b.index_of(x);
        assert(a[i] == y && b[j] == x);
        assert(x == y);
        let s = a.drop_last();
        let t = b.drop_last();
        assert forall|z: u64| #[trigger] s.contains(z) <==> t.contains(z) by {
            if s.contains(z) {
                let u = s.index_of(z);
                assert(a[u] == z && a[u] < a[a.len() - 1]);
                assert(a.contains(z));
                let v = b.index_of(z);
                assert(b[v] == z);
                assert(t[v] == z);
            }
            if t.contains(z) {
                let u = t.index_of(z);
                assert(b[u] == z && b[u] < b[b.len() - 1]);
                assert(b.contains(z));
                assert(a.contains(z));
                let v = a.index_of(z);
                assert(a[v] == z);
                assert(s[v] == z);
            }
        }
        lemma_increasing_unique(s, t);
        assert(a =~= s.push(x));
        assert(b =~= t.push(y));
    }
}

/// Where a value goes in an increasing sequence, given its rank.
proof fn lemma_put_at(s: Seq<u64>, c: u64, i: int)
    requires
        increasing(s),
        0 <= i <= s.len(),
        forall|j: int| 0 <= j < i ==> s[j] < c,
        forall|j: int| i <= j < s.len() ==> s[j] >= c,
    ensures
        put(s, c) == if i < s.len() && s[i] == c {
            s
        } else {
            s.insert(i, c)
        },
    decreases s.len(),
{
    if s.len() == 0 {
        assert(s.insert(0, c) =~= seq![c]);
    } else if s.last() < c {
        assert(i == s.len());
        assert(s.insert(i, c) =~= s.push(c));
    } else if s.last() == c {
        if i < s.len() - 1 {
            assert(s[i] < s[s.len() - 1]);
        }
    } else {
        let t = s.drop_last();
        lemma_put_at(t, c, i);
        if i < t.len() && t[i] == c {
            assert(t.push(s.last()) =~= s);
        } else {
            assert(t.insert(i, c).push(s.last()) =~= s.insert(i, c));
        }
    }
}

/// Weights of a class that does not occur are zero.
pub proof fn lemma_class_absent(rows: Seq<(u64, nat)>, c: u64)
    requires
        !occurs(rows, c),
    ensures
        class_weight(rows, c) == 0,
        class_max(rows, c) == 0,
        class_logs(rows, c) == 0,
    decreases rows.len(),
{
    if rows.len() > 0 {
        let t = rows.drop_last();
        assert(rows[rows.len() - 1].0 != c);
        assert(!occurs(t, c)) by {
            if occurs(t, c) {
                let i = choose|i: int| 0 <= i < t.len() && (#[trigger] t[i]).0 == c;
                assert(rows[i].0 == c);
            }
        }
        lemma_class_absent(t, c);
    }
}

/// The product of a weight and its logarithm; zero for a zero weight.
fn weight_times_log(w: &Nat) -> (r: Nat)
    ensures
        r@ == xlg(w@),
{
    if w.is_zero() {
        proof {
            lemma_lg_one();
        }
        Nat::zero()
    } else {
        let l: Nat = Nat::from_u128(log2_fixed(w));
        w.times(&l)
    }
}

impl Partition {
    /// The first place whose class takes at least `c` cycles.
    fn rank(&self, c: u64) -> (r: usize)
        requires
            increasing(class_values(self.classes@)),
        ensures
            r <= self.classes@.len(),
            forall|j: int| 0 <= j < r ==> (#[trigger] self.classes@[j]).cycles < c,
            forall|j: int|
                r <= j < self.classes@.len() ==> (#[trigger] self.classes@[j]).cycles >= c,
    {
        let mut lo: usize = 0;
        let mut hi: usize = self.classes.len();
        let ghost v = class_values(self.classes@);
        while lo < hi
            invariant
                v == class_values(self.classes@),
                increasing(v),
                lo <= hi <= self.classes@.len(),
                forall|j: int| 0 <= j < lo ==> (#[trigger] self.classes@[j]).cycles < c,
                forall|j: int|
                    hi <= j < self.classes@.len() ==> (#[trigger] self.classes@[j]).cycles >= c,
            decreases hi - lo,
        {
            let mid: usize = lo + (hi - lo) / 2;
            if self.classes[mid].cycles < c {
                proof {
                    assert forall|j: int| 0 <= j < mid + 1 implies (
                    #[trigger] self.classes@[j]).cycles < c by {
                        assert(v[j] == self.classes@[j].cycles);
                        assert(v[mid as int] == self.classes@[mid as int].cycles);
                    }
                }
                lo = mid + 1;
            } else {
                proof {
                    assert forall|j: int| mid <= j < self.classes@.len() implies (
                    #[trigger] self.classes@[j]).cycles >= c by {
                        assert(v[j] == self.classes@[j].cycles);
                        assert(v[mid as int] == self.classes@[mid as int].cycles);
                    }
                }
                hi = mid;
            }
        }
        lo
    }

    /// Adds one secret to the partition of `rows`.
    fn record(&mut self, cycles: u64, weight: &Nat, Ghost(rows): Ghost<Seq<(u64, nat)>>)
        requires
            old(self)@ == partition_of(rows),
            old(self).num_secrets < usize::MAX,
        ensures
            final(self)@ == partition_of(rows.push((cycles, weight@))),
    {
        let ghost next = rows.push((cycles, weight@));
        let ghost before = self.classes@;
        let ghost values = class_values(self.classes@);
        proof {
            assert(next.drop_last() =~= rows);
            lemma_cycle_values(rows);
        }
        let l: Nat = weight_times_log(weight);
        let i: usize = self.rank(cycles);
        proof {
            assert forall|j: int| 0 <= j < i implies values[j] < cycles by {
                assert(before[j].cycles < cycles);
            }
            assert forall|j: int| i <= j < values.len() implies values[j] >= cycles by {
                assert(before[j].cycles >= cycles);
            }
            lemma_put_at(values, cycles, i as int);
        }
        if i < self.classes.len() && self.classes[i].cycles == cycles {
            let w: Nat = self.classes[i].weight.plus(weight);
            let m: Nat = self.classes[i].max_weight.larger(weight);
            let x: Nat = self.classes[i].w_log_w.plus(&l);
            self.classes.set(i, Class { cycles, weight: w, max_weight: m, w_log_w: x });
            proof {
                assert(class_values(self.classes@) =~= values);
            }
        } else {
            proof {
                assert(!occurs(rows, cycles)) by {
                    if values.contains(cycles) {
                        let k = values.index_of(cycles);
                        assert(values[k] == cycles);
                        assert(k >= i);
                        if k > i {
                            assert(values[i as int] < values[k]);
                        }
                    }
                }
                lemma_class_absent(rows, cycles);
            }
            self.classes.insert(
                i,
                Class {
                    cycles,
                    weight: weight.copy(),
                    max_weight: weight.copy(),
                    w_log_w: l.copy(),
                },
            );
            proof {
                assert(class_values(self.classes@) =~= values.insert(i as int, cycles));
            }
        }
        proof {
            let now = self.classes@;
            assert(class_values(now) == cycle_values(next));
            assert forall|j: int| 0 <= j < now.len() implies (#[trigger] now[j]).weight@
                == class_weight(next, now[j].cycles) && now[j].max_weight@ == class_max(
                next,
                now[j].cycles,
            ) && now[j].w_log_w@ == class_logs(next, now[j].cycles) by {
                assert(class_values(now)[j] == now[j].cycles);
                lemma_cycle_values(next);
                if now.len() == before.len() {
                    assert(partition_of(rows).values[j] == before[j].cycles);
                    assert(partition_of(rows).weights[j] == before[j].weight@);
                    assert(partition_of(rows).maxes[j] == before[j].max_weight@);
                    assert(partition_of(rows).class_logs[j] == before[j].w_log_w@);
                    assert(values[j] == before[j].cycles);
                    if j != i {
                        assert(class_values(now)[i as int] == cycles);
                    }
                } else {
                    let k = if j < i {
                        j
                    } else {
                        j - 1
                    };
                    if j != i {
                        assert(partition_of(rows).values[k] == before[k].cycles);
                        assert(partition_of(rows).weights[k] == before[k].weight@);
                        assert(partition_of(rows).maxes[k] == before[k].max_weight@);
                        assert(partition_of(rows).class_logs[k] == before[k].w_log_w@);
                        assert(class_values(now)[i as int] == cycles);
                    }
                }
            }
            assert(now.map_values(|x: Class| x.weight@) =~= partition_of(next).weights);
            assert(now.map_values(|x: Class| x.max_weight@) =~= partition_of(next).maxes);
            assert(now.map_values(|x: Class| x.w_log_w@) =~= partition_of(next).class_logs);
        }
        self.w_log_w_total = self.w_log_w_total.plus(&l);
        self.total_weight = self.total_weight.plus(weight);
        self.max_secret_weight = self.max_secret_weight.larger(weight);
        self.num_secrets = self.num_secrets + 1;
        assert(self@ =~= partition_of(next));
    }
}

/// Builds the partition of a sweep.
pub fn build_partition(rows: &Vec<Sample>) -> (p: Partition)
    ensures
        p@ == partition_of(sample_rows(rows@)),
        p.well_formed(),
        p.total_weight@ == total_weight(sample_rows(rows@)),
        p.max_secret_weight@ == max_weight(sample_rows(rows@)),
        p.w_log_w_total@ == weight_logs(sample_rows(rows@)),
        p.num_secrets == rows@.len(),
        p.classes@.len() == cycle_values(sample_rows(rows@)).len(),
        forall|i: int| #![trigger p.classes@[i]]
            0 <= i < p.classes@.len() ==> {
                let c = cycle_values(sample_rows(rows@))[i];
                &&& p.classes@[i].cycles == c
                &&& p.classes@[i].weight@ == class_weight(sample_rows(rows@), c)
                &&& p.classes@[i].max_weight@ == class_max(sample_rows(rows@), c)
                &&& p.classes@[i].w_log_w@ == class_logs(sample_rows(rows@), c)
            },
{
    let mut p: Partition = Partition {
        classes: Vec::new(),
        total_weight: Nat::zero(),
        max_secret_weight: Nat::zero(),
        w_log_w_total: Nat::zero(),
        num_secrets: 0,
    };
    let ghost all = sample_rows(rows@);
    proof {
        assert(all.take(0) =~= Seq::empty());
        assert(p@ =~= partition_of(all.take(0)));
    }
    let mut i: usize = 0;
    while i < rows.len()
        invariant
            i <= rows@.len(),
            all == sample_rows(rows@),
            p@ == partition_of(all.take(i as int)),
        decreases rows.len() - i,
    {
        proof {
            assert(all.take(i as int).push(all[i as int]) =~= all.take(i + 1));
        }
        p.record(rows[i].cycles, &rows[i].weight, Ghost(all.take(i as int)));
        i = i + 1;
    }
    assert(all.take(i as int) =~= all);
    proof {
        let v = partition_of(all);
        assert forall|j: int| #![trigger p.classes@[j]] 0 <= j < p.classes@.len() implies {
            let c = cycle_values(all)[j];
            &&& p.classes@[j].cycles == c
            &&& p.classes@[j].weight@ == class_weight(all, c)
            &&& p.classes@[j].max_weight@ == class_max(all, c)
            &&& p.classes@[j].w_log_w@ == class_logs(all, c)
        } by {
            assert(p@.values[j] == v.values[j]);
            assert(p@.weights[j] == v.weights[j]);
            assert(p@.maxes[j] == v.maxes[j]);
            assert(p@.class_logs[j] == v.class_logs[j]);
        }
    }
    p
}

} // verus!
