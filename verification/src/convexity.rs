//! Convexity of `x log x`, on naturals.
//!
//! An inequality between logarithms of rationals is an inequality between powers of
//! naturals, and is proved as one. Rounding comes in at the very end, where powers
//! are compared with powers of two.

use crate::binary_log::{lemma_lg_bounds, lemma_pow_base_monotone, lg, LOG_ONE};
use crate::laws::{lemma_self_power, lemma_weight_logs_is_sum, self_power};
use crate::leakage::{
    leakage_of, lemma_class_weights_total, log_sum, row_sum, secret_mass, shannon_mass, sum,
};
use crate::partition::{
    class_weight, cycle_values, lemma_cycle_values, occurs, partition_of, total_weight, xlg,
};
use vstd::arithmetic::power::{
    lemma_pow0, lemma_pow1, lemma_pow_adds, lemma_pow_distributes, lemma_pow_multiplies,
    lemma_pow_positive, pow,
};
use vstd::arithmetic::power2::{
    lemma2_to64, lemma_pow2, lemma_pow2_adds, lemma_pow2_strictly_increases, pow2,
};
use vstd::prelude::*;

verus! {

proof fn lemma_pow_nonnegative(b: int, e: nat)
    requires
        b >= 0,
    ensures
        pow(b, e) >= 0,
{
    lemma_pow_base_monotone(0, b, e);
}

proof fn lemma_pow_step(b: int, e: nat)
    ensures
        pow(b, e + 1) == b * pow(b, e),
{
    reveal(pow);
}

/// A power lies above its tangent.
proof fn lemma_bernoulli(y: int, z: int, m: nat)
    requires
        y >= 0,
        z >= 0,
    ensures
        pow(y, m + 1) >= pow(z, m) * (z + (m + 1) * (y - z)),
    decreases m,
{
    lemma_pow_step(y, m);
    if m == 0 {
        lemma_pow0(y);
        lemma_pow0(z);
        assert(y * 1 == y) by (nonlinear_arith);
        assert(1 * (z + (0 + 1) * (y - z)) == y) by (nonlinear_arith);
    } else {
        let k = (m - 1) as nat;
        lemma_bernoulli(y, z, k);
        lemma_pow_step(z, k);
        lemma_pow_nonnegative(z, k);
        let a = pow(y, m);
        let b = pow(z, k);
        let t = y - z;
        let i = m as int;
        assert(y * a >= y * (b * (z + i * t))) by (nonlinear_arith)
            requires
                a >= b * (z + i * t),
                y >= 0,
        ;
        let c = z + i * t;
        let e = z + (i + 1) * t;
        let f = i * (t * t);
        assert((z + t) * (z + i * t) == z * (z + (i + 1) * t) + i * (t * t)) by (nonlinear_arith);
        assert(y * c == z * e + f);
        assert(y * (b * c) == b * (y * c)) by (nonlinear_arith);
        assert(b * (z * e + f) == (z * b) * e + b * f) by (nonlinear_arith);
        assert(b * (i * (t * t)) >= 0) by (nonlinear_arith)
            requires
                b >= 0,
                i >= 0,
        ;
    }
}

/// One more number against the mean of those before it.
proof fn lemma_mean_step(s: int, x: int, n: nat)
    requires
        s >= 0,
        x >= 0,
        n >= 1,
    ensures
        pow(s + x, n + 1) * pow(n as int, n) >= pow((n + 1) as int, n + 1) * pow(s, n) * x,
{
    let k = n as int;
    let y = k * (s + x);
    let z = (k + 1) * s;
    assert(y >= 0 && z >= 0) by (nonlinear_arith)
        requires
            s >= 0,
            x >= 0,
            k >= 1,
            y == k * (s + x),
            z == (k + 1) * s,
    ;
    lemma_bernoulli(y, z, n);
    assert(z + (k + 1) * (y - z) == (k + 1) * (k * x)) by (nonlinear_arith)
        requires
            y == k * (s + x),
            z == (k + 1) * s,
    ;
    lemma_pow_distributes(k, s + x, n + 1);
    lemma_pow_distributes(k + 1, s, n);
    lemma_pow_step(k, n);
    lemma_pow_step(k + 1, n);
    let p = pow(s + x, n + 1);
    let q = pow(k, n);
    let a = pow(k + 1, n);
    let b = pow(s, n);
    assert((k * q) * p >= (a * b) * ((k + 1) * (k * x)));
    assert((k * q) * p == k * (p * q)) by (nonlinear_arith);
    assert((a * b) * ((k + 1) * (k * x)) == k * ((((k + 1) * a) * b) * x)) by (nonlinear_arith);
    let u = p * q;
    let v = (((k + 1) * a) * b) * x;
    assert(u >= v) by (nonlinear_arith)
        requires
            k * u >= k * v,
            k >= 1,
    ;
}

/// The geometric mean of `a` copies of `p` and `b` of `q` is at most their mean.
proof fn lemma_two_means(a: nat, b: nat, p: nat, q: nat)
    ensures
        pow((a * p + b * q) as int, a + b) >= pow((a + b) as int, a + b) * pow(p as int, a) * pow(
            q as int,
            b,
        ),
    decreases b,
{
    if b == 0 {
        assert(0 * q == 0) by (nonlinear_arith);
        lemma_pow_distributes(a as int, p as int, a);
        lemma_pow0(q as int);
        let v = pow(a as int, a) * pow(p as int, a);
        assert(v * 1 == v) by (nonlinear_arith);
    } else {
        let c = (b - 1) as nat;
        let n = a + c;
        let s = a * p + c * q;
        assert(a * p + b * q == s + q) by (nonlinear_arith)
            requires
                s == a * p + c * q,
                b == c + 1,
        ;
        if n == 0 {
            lemma_pow0(p as int);
            lemma_pow1((s + q) as int);
            lemma_pow1(q as int);
            lemma_pow1(1);
            assert(0 * p == 0 && 0 * q == 0) by (nonlinear_arith);
            assert(1 * 1 * (q as int) == q) by (nonlinear_arith);
        } else {
            lemma_two_means(a, c, p, q);
            lemma_mean_step(s as int, q as int, n);
            lemma_pow_step(q as int, c);
            lemma_pow_positive(n as int, n);
            lemma_pow_nonnegative((n + 1) as int, n + 1);
            let l = pow((s + q) as int, n + 1);
            let m = pow(n as int, n);
            let t = pow((n + 1) as int, n + 1);
            let u = pow(s as int, n);
            let v = pow(p as int, a);
            let w = pow(q as int, c);
            let x = q as int;
            assert(t * u * x >= t * (m * v * w) * x) by (nonlinear_arith)
                requires
                    u >= m * v * w,
                    t >= 0,
                    x >= 0,
            ;
            assert(t * (m * v * w) * x == m * (t * v * (x * w))) by (nonlinear_arith);
            assert(l * m == m * l) by (nonlinear_arith);
            let r = t * v * (x * w);
            assert(l >= r) by (nonlinear_arith)
                requires
                    m * l >= m * r,
                    m > 0,
            ;
        }
    }
}

/// The sum of two parts against the parts, in the form in which parts are added one by one.
proof fn lemma_log_sum_step(s: nat, t: nat, w: nat, x: nat)
    ensures
        pow(s as int, s) * pow(x as int, w * x) * pow((t + w) as int, s + w * x) >= pow(
            (s + w * x) as int,
            s + w * x,
        ) * pow(t as int, s),
{
    let k = w * x;
    let n = s + k;
    let ss = pow(s as int, s);
    let xk = pow(x as int, k);
    let v = pow((t + w) as int, n);
    if x == 0 {
        assert(w * 0 == 0) by (nonlinear_arith);
        lemma_pow0(0);
        lemma_pow_base_monotone(t as int, (t + w) as int, s);
        lemma_pow_nonnegative(s as int, s);
        let u = pow(t as int, s);
        assert(ss * 1 * v >= ss * u) by (nonlinear_arith)
            requires
                v >= u,
                ss >= 0,
        ;
    } else if s == 0 {
        lemma_pow0(0);
        lemma_pow0(t as int);
        lemma_pow_distributes(x as int, (t + w) as int, k);
        assert(x * (t + w) >= w * x) by (nonlinear_arith);
        lemma_pow_base_monotone(k as int, (x * (t + w)) as int, k);
        assert(1 * xk * v == xk * v) by (nonlinear_arith);
        let z = pow(k as int, k);
        assert(z * 1 == z) by (nonlinear_arith);
    } else {
        let p = t * x;
        lemma_two_means(s, k, p, s);
        assert(s * p + k * s == (s * x) * (t + w)) by (nonlinear_arith)
            requires
                p == t * x,
                k == w * x,
        ;
        lemma_pow_distributes((s * x) as int, (t + w) as int, n);
        lemma_pow_distributes(s as int, x as int, n);
        lemma_pow_distributes(t as int, x as int, s);
        lemma_pow_adds(s as int, s, k);
        lemma_pow_adds(x as int, s, k);
        lemma_pow_positive(s as int, k);
        lemma_pow_positive(x as int, s);
        let nn = pow(n as int, n);
        let sk = pow(s as int, k);
        let xs = pow(x as int, s);
        let ts = pow(t as int, s);
        assert(((ss * sk) * (xs * xk)) * v >= nn * (ts * xs) * sk);
        let c = sk * xs;
        assert(((ss * sk) * (xs * xk)) * v == c * (ss * xk * v)) by (nonlinear_arith)
            requires
                c == sk * xs,
        ;
        assert(nn * (ts * xs) * sk == c * (nn * ts)) by (nonlinear_arith)
            requires
                c == sk * xs,
        ;
        assert(c > 0) by (nonlinear_arith)
            requires
                sk > 0,
                xs > 0,
                c == sk * xs,
        ;
        let a = ss * xk * v;
        let b = nn * ts;
        assert(a >= b) by (nonlinear_arith)
            requires
                c * a >= c * b,
                c > 0,
        ;
    }
}

/// The product over secrets of `g` of the cycles, each to the power of weight times itself.
spec fn row_powers(rows: Seq<(u64, nat)>, g: spec_fn(u64) -> nat) -> int
    decreases rows.len(),
{
    if rows.len() == 0 {
        1
    } else {
        let x = g(rows.last().0);
        row_powers(rows.drop_last(), g) * pow(x as int, rows.last().1 * x)
    }
}

proof fn lemma_no_weight(rows: Seq<(u64, nat)>, g: spec_fn(u64) -> nat)
    requires
        total_weight(rows) == 0,
    ensures
        row_sum(rows, g) == 0,
    decreases rows.len(),
{
    if rows.len() > 0 {
        lemma_no_weight(rows.drop_last(), g);
        let x = g(rows.last().0);
        assert(0 * x == 0) by (nonlinear_arith);
    }
}

/// Convexity: a weighted sum to its own power is at most the product of the parts to
/// theirs, times the total weight to the power of the sum.
proof fn lemma_convexity(rows: Seq<(u64, nat)>, g: spec_fn(u64) -> nat)
    ensures
        row_powers(rows, g) * pow(total_weight(rows) as int, row_sum(rows, g)) >= pow(
            row_sum(rows, g) as int,
            row_sum(rows, g),
        ),
        row_powers(rows, g) >= 0,
    decreases rows.len(),
{
    if rows.len() == 0 {
        lemma_pow0(0);
    } else {
        let r = rows.drop_last();
        let w = rows.last().1;
        let x = g(rows.last().0);
        let s = row_sum(r, g);
        let t = total_weight(r);
        lemma_convexity(r, g);
        lemma_log_sum_step(s, t, w, x);
        lemma_pow_nonnegative(x as int, w * x);
        lemma_pow_nonnegative((t + w) as int, s + w * x);
        let p = row_powers(r, g);
        let ts = pow(t as int, s);
        assert(ts > 0) by {
            if t == 0 {
                lemma_no_weight(r, g);
                lemma_pow0(0);
            } else {
                lemma_pow_positive(t as int, s);
            }
        }
        let ss = pow(s as int, s);
        let xk = pow(x as int, w * x);
        let v = pow((t + w) as int, s + w * x);
        let nn = pow((s + w * x) as int, s + w * x);
        assert(p * xk >= 0) by (nonlinear_arith)
            requires
                p >= 0,
                xk >= 0,
        ;
        assert((p * ts) * (xk * v) >= ss * (xk * v)) by (nonlinear_arith)
            requires
                p * ts >= ss,
                xk >= 0,
                v >= 0,
        ;
        assert(ss * (xk * v) == ss * xk * v) by (nonlinear_arith);
        assert((p * ts) * (xk * v) == ts * ((p * xk) * v)) by (nonlinear_arith);
        assert(nn * ts == ts * nn) by (nonlinear_arith);
        let a = (p * xk) * v;
        assert(a >= nn) by (nonlinear_arith)
            requires
                ts * a >= ts * nn,
                ts > 0,
        ;
    }
}

proof fn lemma_row_powers_bound(rows: Seq<(u64, nat)>, g: spec_fn(u64) -> nat)
    ensures
        pow(row_powers(rows, g), LOG_ONE as nat) <= pow2(
            row_sum(rows, |c: u64| xlg(g(c))) + row_sum(rows, g),
        ),
        row_powers(rows, g) >= 0,
    decreases rows.len(),
{
    let one = LOG_ONE as nat;
    let h = |c: u64| xlg(g(c));
    if rows.len() == 0 {
        lemma2_to64();
        vstd::arithmetic::power::lemma1_pow(one);
    } else {
        let r = rows.drop_last();
        let w = rows.last().1;
        let x = g(rows.last().0);
        lemma_row_powers_bound(r, g);
        let p = row_powers(r, g);
        let xk = pow(x as int, w * x);
        lemma_pow_nonnegative(x as int, w * x);
        assert(p * xk >= 0) by (nonlinear_arith)
            requires
                p >= 0,
                xk >= 0,
        ;
        lemma_pow_distributes(p, xk, one);
        lemma_pow_multiplies(x as int, w * x, one);
        lemma_pow_multiplies(x as int, x * one, w);
        assert((w * x) * one == (x * one) * w) by (nonlinear_arith);
        lemma_self_power(x);
        let sp = pow(x as int, x * one);
        lemma_pow_nonnegative(x as int, x * one);
        assert(sp == self_power(x));
        let e = xlg(x) + x;
        lemma_pow_base_monotone(sp, pow2(e) as int, w);
        lemma_pow2(e);
        lemma_pow_multiplies(2, e, w);
        lemma_pow2(e * w);
        assert(pow(xk, one) <= pow2(e * w));
        let a = row_sum(r, h) + row_sum(r, g);
        lemma_pow_nonnegative(p, one);
        lemma_pow_nonnegative(xk, one);
        vstd::arithmetic::mul::lemma_mul_upper_bound(
            pow(p, one),
            pow2(a) as int,
            pow(xk, one),
            pow2(e * w) as int,
        );
        lemma_pow2_adds(a, e * w);
        let l = xlg(x);
        assert((l + x) * w == w * l + w * x) by (nonlinear_arith);
        assert(h(rows.last().0) == l);
    }
}

/// A weighted sum times its logarithm, against the same for its parts.
pub proof fn lemma_xlg_convex(rows: Seq<(u64, nat)>, g: spec_fn(u64) -> nat)
    requires
        total_weight(rows) > 0,
    ensures
        xlg(row_sum(rows, g)) <= row_sum(rows, |c: u64| xlg(g(c))) + row_sum(rows, g) * (lg(
            total_weight(rows),
        ) + 2),
{
    let one = LOG_ONE as nat;
    let s = row_sum(rows, g);
    let t = total_weight(rows);
    let q = row_sum(rows, |c: u64| xlg(g(c)));
    let p = row_powers(rows, g);
    let ts = pow(t as int, s);
    let ss = pow(s as int, s);
    lemma_convexity(rows, g);
    lemma_row_powers_bound(rows, g);
    lemma_pow_nonnegative(s as int, s);
    lemma_pow_nonnegative(t as int, s);
    lemma_pow_base_monotone(ss, p * ts, one);
    lemma_pow_distributes(p, ts, one);
    lemma_pow_multiplies(s as int, s, one);
    lemma_self_power(s);
    assert(pow(ss, one) == self_power(s));
    let l = lg(t);
    lemma_lg_bounds(t);
    lemma_pow_multiplies(t as int, s, one);
    lemma_pow_multiplies(t as int, one, s);
    assert(s * one == one * s) by (nonlinear_arith);
    lemma_pow_positive(t as int, one);
    lemma_pow_base_monotone(pow(t as int, one), pow2(l + 1) as int, s);
    lemma_pow2(l + 1);
    lemma_pow_multiplies(2, l + 1, s);
    lemma_pow2((l + 1) * s);
    assert(pow(ts, one) <= pow2((l + 1) * s));
    lemma_pow_nonnegative(p, one);
    lemma_pow_nonnegative(ts, one);
    vstd::arithmetic::mul::lemma_mul_upper_bound(
        pow(p, one),
        pow2(q + s) as int,
        pow(ts, one),
        pow2((l + 1) * s) as int,
    );
    lemma_pow2_adds(q + s, (l + 1) * s);
    let e = q + s + (l + 1) * s;
    assert(pow2(xlg(s)) <= pow2(e));
    assert(xlg(s) <= e) by {
        if xlg(s) > e {
            lemma_pow2_strictly_increases(e, xlg(s));
        }
    }
    assert(s + (l + 1) * s == s * (l + 2)) by (nonlinear_arith);
}

/// One secret of weight one for each of several keys.
spec fn flat(keys: Seq<u64>) -> Seq<(u64, nat)> {
    keys.map_values(|c: u64| (c, 1nat))
}

proof fn lemma_flat(keys: Seq<u64>, g: spec_fn(u64) -> nat)
    ensures
        total_weight(flat(keys)) == keys.len(),
        row_sum(flat(keys), g) == sum(keys.map_values(g)),
        row_sum(flat(keys), |c: u64| xlg(g(c))) == log_sum(keys.map_values(g)),
    decreases keys.len(),
{
    let h = |c: u64| xlg(g(c));
    if keys.len() > 0 {
        let t = keys.drop_last();
        lemma_flat(t, g);
        assert(flat(keys).drop_last() =~= flat(t));
        assert(keys.map_values(g).drop_last() =~= t.map_values(g));
        let c = keys.last();
        let x = g(c);
        let y = xlg(x);
        assert(flat(keys).last() == (c, 1nat));
        assert(1 * x == x && 1 * y == y) by (nonlinear_arith);
        assert(h(c) == y);
    }
}

/// A whole against any number of parts.
proof fn lemma_parts(keys: Seq<u64>, g: spec_fn(u64) -> nat)
    requires
        keys.len() > 0,
    ensures
        xlg(sum(keys.map_values(g))) <= log_sum(keys.map_values(g)) + sum(keys.map_values(g)) * (lg(
            keys.len(),
        ) + 2),
{
    lemma_flat(keys, g);
    lemma_xlg_convex(flat(keys), g);
}

proof fn lemma_quotient_bound(m: int, w: int, x: int)
    requires
        w > 0,
        m <= w * x,
    ensures
        m / w <= x,
{
    vstd::arithmetic::div_mod::lemma_div_is_ordered(m, w * x, w);
    vstd::arithmetic::div_mod::lemma_div_multiples_vanish(x, w);
}

/// Shannon leakage is at most the logarithm of the number of distinct cycle counts,
/// and the entropy of the secret at most that of the number of secrets, up to two
/// units of rounding.
pub proof fn law_entropy_limits(rows: Seq<(u64, nat)>)
    requires
        total_weight(rows) > 0,
        rows.len() <= u64::MAX,
    ensures
        leakage_of(partition_of(rows)).shannon_bits <= lg(cycle_values(rows).len()) + 2,
        leakage_of(partition_of(rows)).secret_bits <= lg(rows.len()) + 2,
{
    let p = partition_of(rows);
    let w = p.total as int;
    lemma_cycle_values(rows);
    assert(occurs(rows, rows[0].0));
    assert(p.values.contains(rows[0].0));
    lemma_class_weights_total(rows);
    lemma_parts(p.values, |c: u64| class_weight(rows, c));
    lemma_quotient_bound(shannon_mass(p), w, lg(p.values.len()) as int + 2);

    let keys = Seq::new(rows.len(), |i: int| i as u64);
    let g = |c: u64| rows[c as int].1;
    let ws = rows.map_values(|r: (u64, nat)| r.1);
    assert(keys.map_values(g) =~= ws);
    lemma_weight_logs_is_sum(rows);
    lemma_parts(keys, g);
    lemma_quotient_bound(secret_mass(p), w, lg(rows.len()) as int + 2);
}

} // verus!
