//! Base-two logarithms of naturals, in fixed point.
//!
//! Every entropy in this library is a sum of products of a weight and the
//! base-two logarithm of a weight. The logarithm is taken to a fixed number of
//! binary places, rounded down, and that value is exact: it is the integer part
//! of the true logarithm times `LOG_ONE`.

use crate::natural::Nat;
use vstd::arithmetic::logarithm::{lemma_log0, lemma_log_s, log};
use vstd::arithmetic::power::{lemma_pow1, lemma_pow_adds, lemma_pow_positive, pow};
use vstd::arithmetic::power2::{
    lemma2_to64, lemma2_to64_rest, lemma_pow2_adds, lemma_pow2_pos, lemma_pow2_strictly_increases,
    lemma_pow2_unfold, pow2,
};
use vstd::prelude::*;

verus! {

/// Binary places of a logarithm.
pub const LOG_PLACES: u128 = 48;

/// The fixed-point representation of one bit.
pub const LOG_ONE: u64 = 0x1_0000_0000_0000;

/// The base-two logarithm of `x` times `LOG_ONE`, rounded down.
///
/// Rounding `LOG_ONE * log2(x)` down is the same as rounding the base-two
/// logarithm of the power `x ^ LOG_ONE` down, which is a number of halvings.
pub open spec fn lg(x: nat) -> nat {
    log(2, pow(x as int, LOG_ONE as nat)) as nat
}

/// A number between two adjacent powers of two has the lower exponent as logarithm.
pub proof fn lemma_log2_unique(y: int, r: nat)
    requires
        pow2(r) <= y < pow2(r + 1),
    ensures
        log(2, y) == r,
    decreases r,
{
    lemma2_to64();
    if r == 0 {
        lemma_log0(2, y);
    } else {
        lemma_pow2_unfold(r);
        lemma_pow2_unfold(r + 1);
        lemma_pow2_pos((r - 1) as nat);
        lemma_log_s(2, y);
        lemma_log2_unique(y / 2, (r - 1) as nat);
    }
}

/// A positive number lies between the powers of two around its logarithm.
pub proof fn lemma_log2_bounds(y: int)
    requires
        y >= 1,
    ensures
        log(2, y) >= 0,
        pow2(log(2, y) as nat) <= y < pow2((log(2, y) + 1) as nat),
    decreases y,
{
    lemma2_to64();
    if y == 1 {
        lemma_log0(2, 1);
    } else {
        lemma_log_s(2, y);
        lemma_log2_bounds(y / 2);
        let l = log(2, y / 2);
        lemma_pow2_unfold((l + 1) as nat);
        lemma_pow2_unfold((l + 2) as nat);
    }
}

/// The interval that one squaring step starts from, around `power / 2^exponent`.
spec fn encloses(lower: int, upper: int, unit: int, power: int, scale: int) -> bool {
    &&& lower * scale <= power * unit
    &&& power * unit <= upper * scale
}

proof fn lemma_square_lower(z: int, r: int, x: int, q: int, w: int)
    requires
        0 <= z,
        0 < r,
        0 <= x,
        0 < q,
        z * r <= x * q,
        w * q <= z * z,
    ensures
        w * (r * r) <= (x * x) * q,
{
    assert((z * r) * (z * r) <= (x * q) * (x * q)) by (nonlinear_arith)
        requires
            0 <= z * r,
            z * r <= x * q,
    ;
    assert(0 <= z * r) by (nonlinear_arith)
        requires
            0 <= z,
            0 < r,
    ;
    assert((w * q) * (r * r) <= (z * z) * (r * r)) by (nonlinear_arith)
        requires
            w * q <= z * z,
            0 < r,
    ;
    assert((z * z) * (r * r) == (z * r) * (z * r)) by (nonlinear_arith);
    assert((x * q) * (x * q) == ((x * x) * q) * q) by (nonlinear_arith);
    assert((w * q) * (r * r) == (w * (r * r)) * q) by (nonlinear_arith);
    let a = w * (r * r);
    let b = (x * x) * q;
    assert(a <= b) by (nonlinear_arith)
        requires
            a * q <= b * q,
            0 < q,
    ;
}

proof fn lemma_square_upper(z: int, r: int, x: int, q: int, w: int)
    requires
        0 <= z,
        0 < r,
        0 <= x,
        0 < q,
        x * q <= z * r,
        z * z <= w * q,
    ensures
        (x * x) * q <= w * (r * r),
{
    assert((x * q) * (x * q) <= (z * r) * (z * r)) by (nonlinear_arith)
        requires
            0 <= x * q,
            x * q <= z * r,
    ;
    assert(0 <= x * q) by (nonlinear_arith)
        requires
            0 <= x,
            0 < q,
    ;
    assert((z * z) * (r * r) <= (w * q) * (r * r)) by (nonlinear_arith)
        requires
            z * z <= w * q,
            0 < r,
    ;
    assert((z * z) * (r * r) == (z * r) * (z * r)) by (nonlinear_arith);
    assert((x * q) * (x * q) == ((x * x) * q) * q) by (nonlinear_arith);
    assert((w * q) * (r * r) == (w * (r * r)) * q) by (nonlinear_arith);
    let a = w * (r * r);
    let b = (x * x) * q;
    assert(b <= a) by (nonlinear_arith)
        requires
            b * q <= a * q,
            0 < q,
    ;
}

/// Divides by a power of two, rounding up.
fn shift_right_up(x: &Nat, n: u128) -> (r: Nat)
    ensures
        x@ <= r@ * pow2(n as nat) < x@ + pow2(n as nat),
        x@ % pow2(n as nat) == 0 ==> r@ == x@ / pow2(n as nat),
{
    let (q, exact): (Nat, bool) = x.shift_right(n);
    proof {
        lemma_pow2_pos(n as nat);
        let d = pow2(n as nat) as int;
        vstd::arithmetic::div_mod::lemma_fundamental_div_mod(x@ as int, d);
        let k = x@ as int / d;
        assert(d * k == k * d) by (nonlinear_arith);
        assert((k + 1) * d == k * d + d) by (nonlinear_arith);
    }
    if exact {
        q
    } else {
        let one: Nat = Nat::from_u64(1);
        q.plus(&one)
    }
}

/// What is left of a division by a power of two, rounding down.
fn shift_right_down(x: &Nat, n: u128) -> (r: Nat)
    ensures
        r@ * pow2(n as nat) <= x@ < r@ * pow2(n as nat) + pow2(n as nat),
        r@ == x@ / pow2(n as nat),
{
    let (q, exact): (Nat, bool) = x.shift_right(n);
    proof {
        lemma_pow2_pos(n as nat);
        let d = pow2(n as nat) as int;
        vstd::arithmetic::div_mod::lemma_fundamental_div_mod(x@ as int, d);
        let k = x@ as int / d;
        assert(d * k == k * d) by (nonlinear_arith);
    }
    q
}

/// Without truncation, the square of an exactly known value divides evenly.
proof fn lemma_exact_square(z: int, r: nat, x: int, p: nat)
    requires
        z * pow2(r) == x * pow2(p),
        2 * r <= p,
    ensures
        z * z == ((x * x) * pow2((p - 2 * r) as nat)) * pow2(p),
        (z * z) % (pow2(p) as int) == 0,
{
    let a = pow2(r) as int;
    let b = pow2((p - r) as nat) as int;
    let c = pow2((p - 2 * r) as nat) as int;
    let q = pow2(p) as int;
    lemma_pow2_pos(r);
    lemma_pow2_pos(p);
    lemma_pow2_adds(r, (p - r) as nat);
    lemma_pow2_adds(r, (p - 2 * r) as nat);
    assert(q == a * b);
    assert(b == a * c);
    assert(z == x * b) by (nonlinear_arith)
        requires
            z * a == x * (a * b),
            a > 0,
    ;
    assert((x * b) * (x * b) == ((x * x) * c) * (a * b)) by (nonlinear_arith)
        requires
            b == a * c,
    ;
    vstd::arithmetic::div_mod::lemma_mod_multiples_basic((x * x) * c, q);
}

/// One attempt at the logarithm, carrying `32 * digits` binary places.
///
/// The value is squared repeatedly inside an enclosing interval; each squaring
/// gives one more binary place of the logarithm. The attempt gives up where the
/// interval is too wide to tell the next place.
fn attempt(x: &Nat, digits: u128) -> (res: Option<u128>)
    requires
        x@ > 0,
        digits < 0x100_0000_0000_0000_0000_0000_0000_0000,
    ensures
        res is Some ==> {
            &&& pow2(res->Some_0 as nat) <= pow(x@ as int, LOG_ONE as nat)
            &&& pow(x@ as int, LOG_ONE as nat) < pow2(res->Some_0 as nat + 1)
            &&& res->Some_0 < 0x20_0000_0000_0000_0000_0000_0000_0000
        },
        res is None ==> 32 * digits < 0x1_0000_0000_0000 * 0x20_0000_0000_0000_0000,
{
    let places: u128 = 32 * digits;
    let n: u128 = x.top_bit();
    let one: Nat = Nat::from_u64(1);
    let two: Nat = one.shift_left(places + 1);
    let start: Nat = x.shift_left(places);
    let mut lower: Nat = shift_right_down(&start, n);
    let mut upper: Nat = shift_right_up(&start, n);
    let mut r: u128 = n;
    let ghost unit = pow2(places as nat) as int;
    let ghost enough = places >= 0x1_0000_0000_0000 * 0x20_0000_0000_0000_0000;
    proof {
        lemma_pow2_pos(places as nat);
        lemma_pow2_pos(n as nat);
        lemma_pow2_unfold((places + 1) as nat);
        lemma_pow2_unfold((n + 1) as nat);
        lemma2_to64();
        lemma2_to64_rest();
        lemma_pow1(x@ as int);
        let q = unit;
        let s = pow2(n as nat) as int;
        let v = x@ as int;
        let l = lower@ as int;
        let u = upper@ as int;
        assert(q <= l) by (nonlinear_arith)
            requires
                v * q < l * s + s,
                s <= v,
                q > 0,
                s > 0,
        ;
        assert(l < 2 * q) by (nonlinear_arith)
            requires
                l * s <= v * q,
                v < 2 * s,
                q > 0,
                s > 0,
        ;
        assert(l <= u) by (nonlinear_arith)
            requires
                l * s <= v * q,
                v * q <= u * s,
                s > 0,
        ;
        if enough {
            lemma_pow2_adds(n as nat, (places - n) as nat);
            let c = pow2((places - n) as nat) as int;
            assert(v * q == (v * c) * s) by (nonlinear_arith)
                requires
                    q == s * c,
            ;
            vstd::arithmetic::div_mod::lemma_mod_multiples_basic(v * c, s);
        }
    }
    if !upper.less(&two) {
        return None;
    }
    let mut i: u128 = 0;
    while i < LOG_PLACES
        invariant
            x@ > 0,
            i <= 48,
            LOG_PLACES == 48,
            n < 0x20_0000_0000_0000_0000,
            places == 32 * digits,
            digits < 0x100_0000_0000_0000_0000_0000_0000_0000,
            unit == pow2(places as nat),
            two@ == 2 * unit,
            unit <= lower@ <= upper@ < 2 * unit,
            encloses(
                lower@ as int,
                upper@ as int,
                unit,
                pow(x@ as int, pow2(i as nat)),
                pow2(r as nat) as int,
            ),
            r < pow2(i as nat) * (n + 1),
            enough == (places >= 0x1_0000_0000_0000 * 0x20_0000_0000_0000_0000),
            enough ==> lower@ == upper@,
        decreases 48 - i,
    {
        let ghost power = pow(x@ as int, pow2(i as nat));
        let ghost scale = pow2(r as nat) as int;
        let ghost l0 = lower@ as int;
        let ghost u0 = upper@ as int;
        proof {
            lemma_pow2_pos(places as nat);
            lemma_pow2_pos(r as nat);
            lemma_pow_positive(x@ as int, pow2(i as nat));
            lemma_pow2_unfold((i + 1) as nat);
            lemma_pow_adds(x@ as int, pow2(i as nat), pow2(i as nat));
            lemma_pow2_adds(r as nat, r as nat);
            lemma_pow2_unfold((2 * r + 1) as nat);
            lemma2_to64();
            lemma2_to64_rest();
            if i + 1 < 48 {
                lemma_pow2_strictly_increases((i + 1) as nat, 48);
            }
            let b = pow2(i as nat) as int;
            assert(2 * r + 1 < (2 * b) * (n + 1)) by (nonlinear_arith)
                requires
                    r + 1 <= b * (n + 1),
            ;
            assert((2 * b) * (n + 1) <= 0x1_0000_0000_0000 * 0x20_0000_0000_0000_0000)
                by (nonlinear_arith)
                requires
                    2 * b <= 0x1_0000_0000_0000,
                    n + 1 <= 0x20_0000_0000_0000_0000,
                    b >= 0,
                    n >= 0,
            ;
            if enough {
                lemma_exact_square(l0, r as nat, power, places as nat);
            }
        }
        lower = shift_right_down(&lower.times(&lower), places);
        upper = shift_right_up(&upper.times(&upper), places);
        let ghost l1 = lower@ as int;
        let ghost u1 = upper@ as int;
        proof {
            lemma_square_lower(l0, scale, power, unit, l1);
            lemma_square_upper(u0, scale, power, unit, u1);
            assert(unit <= l1) by (nonlinear_arith)
                requires
                    l0 * l0 < l1 * unit + unit,
                    unit <= l0,
                    unit > 0,
            ;
            assert(l1 <= u1) by (nonlinear_arith)
                requires
                    l1 * unit <= l0 * l0,
                    u0 * u0 <= u1 * unit,
                    0 <= l0 <= u0,
                    unit > 0,
            ;
            assert(l1 < 4 * unit) by (nonlinear_arith)
                requires
                    l1 * unit <= l0 * l0,
                    0 <= l0 < 2 * unit,
                    unit > 0,
            ;
        }
        if !lower.less(&two) {
            proof {
                if enough {
                    // The value is an even number of units: one place is left to halve.
                    let c = pow2((places - 2 * r) as nat) as int;
                    let m = (power * power) * c;
                    assert(l1 == m) by {
                        vstd::arithmetic::div_mod::lemma_div_multiples_vanish(m, unit);
                        assert(unit * m == m * unit) by (nonlinear_arith);
                    }
                    lemma_pow2_unfold((places - 2 * r) as nat);
                    let h = pow2((places - 2 * r - 1) as nat) as int;
                    assert(m == (power * power * h) * 2) by (nonlinear_arith)
                        requires
                            m == (power * power) * (2 * h),
                    ;
                    assert(m % 2 == 0);
                    assert(u1 == l1);
                }
            }
            lower = shift_right_down(&lower, 1);
            upper = shift_right_up(&upper, 1);
            r = 2 * r + 1;
            proof {
                let rr = scale * scale;
                let l2 = lower@ as int;
                let u2 = upper@ as int;
                let pp = power * power;
                assert(l2 * (2 * rr) <= pp * unit) by (nonlinear_arith)
                    requires
                        l2 * 2 <= l1,
                        l1 * rr <= pp * unit,
                        rr >= 0,
                ;
                assert(pp * unit <= u2 * (2 * rr)) by (nonlinear_arith)
                    requires
                        u1 <= u2 * 2,
                        pp * unit <= u1 * rr,
                        rr >= 0,
                ;
            }
        } else {
            if !upper.less(&two) {
                return None;
            }
            r = 2 * r;
        }
        if !upper.less(&two) {
            return None;
        }
        i = i + 1;
    }
    proof {
        lemma2_to64();
        lemma2_to64_rest();
        lemma_pow2_unfold((r + 1) as nat);
        lemma_pow2_pos(places as nat);
        lemma_pow2_pos(r as nat);
        let l = lower@ as int;
        let u = upper@ as int;
        let s = pow2(r as nat) as int;
        let y = pow(x@ as int, pow2(48));
        assert(pow2(48) * (n + 1) <= 0x1_0000_0000_0000 * 0x20_0000_0000_0000_0000)
            by (nonlinear_arith)
            requires
                pow2(48) == 0x1_0000_0000_0000,
                n + 1 <= 0x20_0000_0000_0000_0000,
        ;
        assert(s <= y) by (nonlinear_arith)
            requires
                unit <= l,
                l * s <= y * unit,
                unit > 0,
                s > 0,
        ;
        assert(y < 2 * s) by (nonlinear_arith)
            requires
                u < 2 * unit,
                y * unit <= u * s,
                unit > 0,
                s > 0,
        ;
    }
    Some(r)
}

/// The logarithm of a positive number in fixed point.
pub fn log2_fixed(x: &Nat) -> (r: u128)
    requires
        x@ > 0,
    ensures
        r == lg(x@),
        r < 0x20_0000_0000_0000_0000_0000_0000_0000,
{
    let mut digits: u128 = 3;
    loop
        invariant
            x@ > 0,
            digits < 0x100_0000_0000_0000_0000_0000_0000_0000,
        decreases 0x200_0000_0000_0000_0000_0000_0000_0000 - digits,
    {
        match attempt(x, digits) {
            Some(r) => {
                proof {
                    lemma_log2_unique(pow(x@ as int, LOG_ONE as nat), r as nat);
                }
                return r;
            },
            None => {
                digits = 2 * digits + 1;
            },
        }
    }
}

/// The value in fixed point is within one unit of the true logarithm.
pub proof fn lemma_lg_bounds(x: nat)
    requires
        x > 0,
    ensures
        pow2(lg(x)) <= pow(x as int, LOG_ONE as nat) < pow2(lg(x) + 1),
{
    lemma_pow_positive(x as int, LOG_ONE as nat);
    lemma_log2_bounds(pow(x as int, LOG_ONE as nat));
}

pub proof fn lemma_pow_base_monotone(a: int, b: int, e: nat)
    requires
        0 <= a <= b,
    ensures
        0 <= pow(a, e) <= pow(b, e),
    decreases e,
{
    reveal(pow);
    if e > 0 {
        lemma_pow_base_monotone(a, b, (e - 1) as nat);
        let x = pow(a, (e - 1) as nat);
        let y = pow(b, (e - 1) as nat);
        assert(0 <= a * x <= b * y) by (nonlinear_arith)
            requires
                0 <= a <= b,
                0 <= x <= y,
        ;
    }
}

/// A larger number has no smaller logarithm.
pub proof fn lemma_lg_monotone(a: nat, b: nat)
    requires
        a <= b,
    ensures
        lg(a) <= lg(b),
{
    lemma_pow_base_monotone(a as int, b as int, LOG_ONE as nat);
    let x = pow(a as int, LOG_ONE as nat);
    let y = pow(b as int, LOG_ONE as nat);
    vstd::arithmetic::logarithm::lemma_log_nonnegative(2, x);
    vstd::arithmetic::logarithm::lemma_log_nonnegative(2, y);
    vstd::arithmetic::logarithm::lemma_log_is_ordered(2, x, y);
}

/// One has the logarithm zero.
pub proof fn lemma_lg_one()
    ensures
        lg(0) == 0,
        lg(1) == 0,
{
    vstd::arithmetic::power::lemma1_pow(LOG_ONE as nat);
    lemma_log0(2, 1);
    lemma_lg_monotone(0, 1);
}

/// A power of two as a factor adds its exponent, with nothing lost to rounding.
pub proof fn lemma_lg_shift(x: nat, e: nat)
    requires
        x > 0,
    ensures
        lg(x * pow2(e)) == lg(x) + e * LOG_ONE,
{
    let one = LOG_ONE as nat;
    let y = pow(x as int, one);
    lemma_lg_bounds(x);
    vstd::arithmetic::power2::lemma_pow2(e);
    vstd::arithmetic::power::lemma_pow_distributes(x as int, pow2(e) as int, one);
    vstd::arithmetic::power::lemma_pow_multiplies(2, e, one);
    vstd::arithmetic::power2::lemma_pow2(e * one);
    let s = pow2(e * one) as int;
    assert(pow((x * pow2(e)) as int, one) == y * s);
    lemma_pow2_adds(lg(x), e * one);
    lemma_pow2_adds(lg(x) + 1, e * one);
    lemma_pow2_pos(e * one);
    let a = pow2(lg(x)) as int;
    let b = pow2(lg(x) + 1) as int;
    assert(a * s <= y * s < b * s) by (nonlinear_arith)
        requires
            a <= y < b,
            s > 0,
    ;
    assert(lg(x) + 1 + e * one == lg(x) + e * one + 1);
    lemma_log2_unique(y * s, lg(x) + e * one);
}

/// The power of two with exponent `e` has exactly `e` bits.
pub proof fn lemma_lg_pow2(e: nat)
    ensures
        lg(pow2(e)) == e * LOG_ONE,
{
    lemma_lg_one();
    lemma_lg_shift(1, e);
    assert(1 * pow2(e) == pow2(e));
}

/// The logarithm of a product is the sum of the logarithms, up to one unit of rounding.
pub proof fn lemma_lg_product(a: nat, b: nat)
    requires
        a > 0,
        b > 0,
    ensures
        lg(a) + lg(b) <= lg(a * b) <= lg(a) + lg(b) + 1,
{
    let one = LOG_ONE as nat;
    lemma_lg_bounds(a);
    lemma_lg_bounds(b);
    assert(a * b > 0) by (nonlinear_arith)
        requires
            a > 0,
            b > 0,
    ;
    lemma_lg_bounds(a * b);
    vstd::arithmetic::power::lemma_pow_distributes(a as int, b as int, one);
    let x = pow(a as int, one);
    let y = pow(b as int, one);
    let ra = pow2(lg(a)) as int;
    let rb = pow2(lg(b)) as int;
    lemma_pow2_unfold(lg(a) + 1);
    lemma_pow2_unfold(lg(b) + 1);
    lemma_pow2_pos(lg(a));
    lemma_pow2_pos(lg(b));
    assert(ra * rb <= x * y) by (nonlinear_arith)
        requires
            0 < ra <= x,
            0 < rb <= y,
    ;
    assert(x * y < 4 * (ra * rb)) by (nonlinear_arith)
        requires
            0 < x < 2 * ra,
            0 < y < 2 * rb,
    ;
    lemma_pow2_adds(lg(a), lg(b));
    let m = lg(a) + lg(b);
    lemma_pow2_unfold(m + 1);
    lemma_pow2_unfold(m + 2);
    let z = lg(a * b);
    if z < m {
        if z + 1 < m {
            lemma_pow2_strictly_increases(z + 1, m);
        }
    }
    if z > m + 1 {
        if z > m + 2 {
            lemma_pow2_strictly_increases(m + 2, z);
        }
    }
}

} // verus!
