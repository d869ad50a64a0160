//! Batches listed one by one.

use crate::batch_laws::{batch_cost, batch_weight};
use crate::leakage::row_sum;
use crate::scale::{batch_mass, lemma_batch_unfold};
use vstd::prelude::*;

verus! {

/// The batches of a list with one more secret each, for each of the first `m` secrets.
pub open spec fn lengthened(list: Seq<Seq<int>>, m: nat) -> Seq<Seq<int>>
    decreases m,
{
    if m == 0 {
        Seq::empty()
    } else {
        lengthened(list, (m - 1) as nat) + list.map_values(|t: Seq<int>| t.push(m - 1))
    }
}

/// All batches of `n` secrets out of `m`.
pub open spec fn all_batches(m: nat, n: nat) -> Seq<Seq<int>>
    decreases n,
{
    if n == 0 {
        seq![Seq::empty()]
    } else {
        lengthened(all_batches(m, (n - 1) as nat), m)
    }
}

/// The sum of the weights of those batches of a list whose costs above `low` add up to `o`.
pub open spec fn weight_at(
    rows: Seq<(u64, nat)>,
    low: u64,
    list: Seq<Seq<int>>,
    o: int,
) -> nat
    decreases list.len(),
{
    if list.len() == 0 {
        0
    } else if batch_cost(rows, low, list.last()) == o {
        weight_at(rows, low, list.drop_last(), o) + batch_weight(rows, list.last())
    } else {
        weight_at(rows, low, list.drop_last(), o)
    }
}

proof fn lemma_lengthened(list: Seq<Seq<int>>, m: nat)
    requires
        list.no_duplicates(),
    ensures
        lengthened(list, m).no_duplicates(),
        forall|b: Seq<int>| #[trigger]
            lengthened(list, m).contains(b) <==> b.len() > 0 && 0 <= b.last() < m && list.contains(
                b.drop_last(),
            ),
    decreases m,
{
    let r = lengthened(list, m);
    if m > 0 {
        let m1 = (m - 1) as nat;
        let a = lengthened(list, m1);
        let f = |t: Seq<int>| t.push(m - 1);
        let c = list.map_values(f);
        lemma_lengthened(list, m1);
        assert forall|i: int| 0 <= i < list.len() implies (#[trigger] c[i]).last() == m - 1
            && c[i].drop_last() == list[i] by {
            assert(list[i].push(m - 1).drop_last() =~= list[i]);
        }
        assert forall|b: Seq<int>| #[trigger] r.contains(b) <==> b.len() > 0 && 0 <= b.last() < m
            && list.contains(b.drop_last()) by {
            if r.contains(b) {
                let i = r.index_of(b);
                if i < a.len() {
                    assert(a[i] == b);
                    assert(a.contains(b));
                } else {
                    let j = i - a.len();
                    assert(b == c[j]);
                    assert(list[j] == b.drop_last());
                }
            }
            if b.len() > 0 && 0 <= b.last() < m && list.contains(b.drop_last()) {
                if b.last() < m1 {
                    assert(a.contains(b));
                    assert(r[a.index_of(b)] == b);
                } else {
                    let j = list.index_of(b.drop_last());
                    assert(b.drop_last().push(b.last()) =~= b);
                    assert(c[j] == b);
                    assert(r[a.len() + j] == b);
                }
            }
        }
        assert forall|i: int, j: int| 0 <= i < r.len() && 0 <= j < r.len() && i != j implies r[i]
            != r[j] by {
            if i < a.len() && j < a.len() {
                assert(a[i] != a[j]);
            } else if i < a.len() {
                assert(a.contains(a[i]));
                assert(c[j - a.len()].last() == m - 1);
            } else if j < a.len() {
                assert(a.contains(a[j]));
                assert(c[i - a.len()].last() == m - 1);
            } else {
                assert(c[i - a.len()].drop_last() == list[i - a.len()]);
                assert(c[j - a.len()].drop_last() == list[j - a.len()]);
            }
        }
    }
}

/// All batches are listed, each once.
pub proof fn law_all_batches(m: nat, n: nat)
    ensures
        all_batches(m, n).no_duplicates(),
        forall|b: Seq<int>| #[trigger]
            all_batches(m, n).contains(b) <==> b.len() == n && forall|i: int|
                0 <= i < b.len() ==> 0 <= #[trigger] b[i] < m,
    decreases n,
{
    let r = all_batches(m, n);
    if n == 0 {
        let e = Seq::<int>::empty();
        assert(r =~= seq![e]);
        assert forall|b: Seq<int>| #[trigger] r.contains(b) <==> b.len() == 0 by {
            if b.len() == 0 {
                assert(b =~= e);
                assert(r[0] == b);
            }
        }
    } else {
        let n1 = (n - 1) as nat;
        let t = all_batches(m, n1);
        law_all_batches(m, n1);
        lemma_lengthened(t, m);
        assert forall|b: Seq<int>| #[trigger] r.contains(b) <==> b.len() == n && forall|i: int|
            0 <= i < b.len() ==> 0 <= #[trigger] b[i] < m by {
            let d = b.drop_last();
            if r.contains(b) {
                assert(t.contains(d));
                assert forall|i: int| 0 <= i < b.len() implies 0 <= #[trigger] b[i] < m by {
                    if i < d.len() {
                        assert(d[i] == b[i]);
                    }
                }
            }
            if b.len() == n && forall|i: int| 0 <= i < b.len() ==> 0 <= #[trigger] b[i] < m {
                assert forall|i: int| 0 <= i < d.len() implies 0 <= #[trigger] d[i] < m by {
                    assert(d[i] == b[i]);
                }
                assert(0 <= b[b.len() - 1] < m);
                assert(t.contains(d));
            }
        }
    }
}

proof fn lemma_weight_joined(
    rows: Seq<(u64, nat)>,
    low: u64,
    a: Seq<Seq<int>>,
    b: Seq<Seq<int>>,
    o: int,
)
    ensures
        weight_at(rows, low, a + b, o) == weight_at(rows, low, a, o) + weight_at(rows, low, b, o),
    decreases b.len(),
{
    if b.len() == 0 {
        assert(a + b =~= a);
    } else {
        assert((a + b).drop_last() =~= a + b.drop_last());
        lemma_weight_joined(rows, low, a, b.drop_last(), o);
    }
}

proof fn lemma_weight_pushed(
    rows: Seq<(u64, nat)>,
    low: u64,
    list: Seq<Seq<int>>,
    i: int,
    o: int,
)
    requires
        0 <= i < rows.len(),
    ensures
        weight_at(rows, low, list.map_values(|t: Seq<int>| t.push(i)), o) == rows[i].1 * weight_at(
            rows,
            low,
            list,
            o - (rows[i].0 - low),
        ),
    decreases list.len(),
{
    let f = |t: Seq<int>| t.push(i);
    let c = list.map_values(f);
    let w = rows[i].1;
    if list.len() == 0 {
        assert(w * 0 == 0) by (nonlinear_arith);
    } else {
        let s = list.drop_last();
        lemma_weight_pushed(rows, low, s, i, o);
        assert(c.drop_last() =~= s.map_values(f));
        let t = list.last();
        assert(c.last() == t.push(i));
        assert(t.push(i).drop_last() =~= t);
        let a = weight_at(rows, low, s, o - (rows[i].0 - low));
        let b = batch_weight(rows, t);
        assert(w * (a + b) == w * a + w * b) by (nonlinear_arith);
    }
}

proof fn lemma_weight_lengthened(
    rows: Seq<(u64, nat)>,
    low: u64,
    list: Seq<Seq<int>>,
    m: nat,
    o: int,
)
    requires
        m <= rows.len(),
    ensures
        weight_at(rows, low, lengthened(list, m), o) == row_sum(
            rows.take(m as int),
            |c: u64| weight_at(rows, low, list, o - (c - low)),
        ),
    decreases m,
{
    let g = |c: u64| weight_at(rows, low, list, o - (c - low));
    if m > 0 {
        let m1 = (m - 1) as nat;
        lemma_weight_lengthened(rows, low, list, m1, o);
        lemma_weight_pushed(rows, low, list, m - 1, o);
        lemma_weight_joined(
            rows,
            low,
            lengthened(list, m1),
            list.map_values(|t: Seq<int>| t.push(m - 1)),
            o,
        );
        assert(rows.take(m as int).drop_last() =~= rows.take(m1 as int));
        assert(rows.take(m as int).last() == rows[m - 1]);
    } else {
        assert(rows.take(0).len() == 0);
    }
}

/// The mass at a cost is the sum, over all batches of that cost, of the products of their
/// weights.
pub proof fn law_mass_is_sum(rows: Seq<(u64, nat)>, low: u64, n: nat, o: int)
    ensures
        batch_mass(rows, low, n, o) == weight_at(rows, low, all_batches(rows.len(), n), o),
    decreases n,
{
    if n == 0 {
        let e = Seq::<int>::empty();
        let list = all_batches(rows.len(), 0);
        assert(list =~= seq![e]);
        assert(list.drop_last() =~= Seq::empty());
        assert(weight_at(rows, low, list.drop_last(), o) == 0);
        assert(batch_cost(rows, low, e) == 0);
        assert(batch_weight(rows, e) == 1);
    } else {
        let n1 = (n - 1) as nat;
        let list = all_batches(rows.len(), n1);
        let g = |c: u64| batch_mass(rows, low, n1, o - (c - low));
        let h = |c: u64| weight_at(rows, low, list, o - (c - low));
        assert forall|c: u64| #[trigger] g(c) == h(c) by {
            law_mass_is_sum(rows, low, n1, o - (c - low));
        }
        assert(g =~= h);
        lemma_batch_unfold(rows, low, n, o);
        lemma_weight_lengthened(rows, low, list, rows.len(), o);
        assert(rows.take(rows.len() as int) =~= rows);
    }
}

} // verus!
