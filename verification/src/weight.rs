//! Prior weights.
//!
//! A weight is read from text as a binary floating-point number of double
//! precision and handed over as its 64 bits. Such a number is a whole multiple
//! of one smallest unit, and only the ratios of weights matter, so a list of
//! weights is a list of naturals.

use crate::natural::Nat;
use vstd::arithmetic::power2::{
    lemma2_to64, lemma2_to64_rest, lemma_pow2_adds, lemma_pow2_pos, lemma_pow2_unfold, pow2,
};
use vstd::prelude::*;

verus! {

/// The bits of infinity; positive numbers are those from one up to here.
pub const INFINITY_BITS: u64 = 0x7ff0_0000_0000_0000;

/// The bits of the number one.
pub const ONE_BITS: u64 = 0x3ff0_0000_0000_0000;

/// The weight of the leading bit that normal numbers leave out.
pub const HIDDEN_BIT: u64 = 0x10_0000_0000_0000;

/// Whether the bits are those of a number greater than zero, infinity among them.
pub open spec fn is_positive(bits: u64) -> bool {
    0 < bits <= INFINITY_BITS
}

/// Whether the bits are those of a finite number greater than zero.
pub open spec fn is_weight(bits: u64) -> bool {
    0 < bits < INFINITY_BITS
}

/// The significand of a positive finite number.
pub open spec fn significand(bits: u64) -> nat {
    if bits / HIDDEN_BIT == 0 {
        (bits % HIDDEN_BIT) as nat
    } else {
        (bits % HIDDEN_BIT + HIDDEN_BIT) as nat
    }
}

/// The exponent of a positive finite number, counted from the smallest.
pub open spec fn scale(bits: u64) -> nat {
    if bits / HIDDEN_BIT == 0 {
        0
    } else {
        (bits / HIDDEN_BIT - 1) as nat
    }
}

/// A positive finite number as a multiple of the smallest one.
pub open spec fn units(bits: u64) -> nat {
    significand(bits) * pow2(scale(bits))
}

/// How often a positive number can be halved evenly.
pub open spec fn twos(n: nat) -> nat
    decreases n,
{
    if n > 0 && n % 2 == 0 {
        1 + twos(n / 2)
    } else {
        0
    }
}

/// How often all of several numbers can be halved evenly.
pub open spec fn common_twos(bits: Seq<u64>) -> nat
    decreases bits.len(),
{
    if bits.len() == 0 {
        0
    } else if bits.len() == 1 {
        twos(units(bits[0]))
    } else {
        let a = common_twos(bits.drop_last());
        let b = twos(units(bits.last()));
        if b < a {
            b
        } else {
            a
        }
    }
}

/// The weights of a list in their largest common unit that is a power of two.
pub open spec fn weights_of(bits: Seq<u64>) -> Seq<nat> {
    bits.map_values(|b: u64| units(b) / pow2(common_twos(bits)))
}

pub proof fn lemma_twos_scaled(n: nat, k: nat)
    requires
        n > 0,
    ensures
        n * pow2(k) > 0,
        twos(n * pow2(k)) == twos(n) + k,
    decreases k,
{
    lemma_pow2_pos(k);
    assert(n * pow2(k) > 0) by (nonlinear_arith)
        requires
            n > 0,
            pow2(k) > 0,
    ;
    if k == 0 {
        lemma2_to64();
        assert(n * 1 == n) by (nonlinear_arith);
    } else {
        let k1 = (k - 1) as nat;
        lemma_twos_scaled(n, k1);
        lemma_pow2_unfold(k);
        let p = pow2(k1);
        assert(n * (2 * p) == 2 * (n * p)) by (nonlinear_arith);
    }
}

/// The odd part of a number, with the number of halvings that leads to it.
fn odd_part(m: u64) -> (r: (u64, u128))
    requires
        m > 0,
    ensures
        r.0 > 0,
        r.1 == twos(m as nat),
        m == r.0 * pow2(r.1 as nat),
        twos(r.0 as nat) == 0,
        r.1 < 64,
{
    let mut odd: u64 = m;
    let mut k: u128 = 0;
    proof {
        lemma2_to64();
        lemma2_to64_rest();
        assert(m * 1 == m) by (nonlinear_arith);
    }
    while odd % 2 == 0
        invariant
            odd > 0,
            m > 0,
            m == odd * pow2(k as nat),
            twos(m as nat) == k + twos(odd as nat),
            k < 64,
            pow2(64) == 0x1_0000_0000_0000_0000,
        decreases odd,
    {
        let half: u64 = odd / 2;
        proof {
            lemma_pow2_unfold((k + 1) as nat);
            let p = pow2(k as nat);
            let h = half as int;
            assert(odd == 2 * h);
            assert((2 * h) * p == h * (2 * p)) by (nonlinear_arith);
            if k == 63 {
                assert(h * (2 * p) >= 2 * p) by (nonlinear_arith)
                    requires
                        h >= 1,
                        p >= 0,
                ;
            }
        }
        odd = half;
        k = k + 1;
    }
    (odd, k)
}

/// The significand and scale of a positive finite number.
fn decode(bits: u64) -> (r: (u64, u128))
    requires
        is_weight(bits),
    ensures
        r.0 == significand(bits),
        r.0 > 0,
        r.1 == scale(bits),
        r.1 < 2048,
{
    let field: u64 = bits / HIDDEN_BIT;
    let fraction: u64 = bits % HIDDEN_BIT;
    if field == 0 {
        (fraction, 0)
    } else {
        (fraction + HIDDEN_BIT, (field - 1) as u128)
    }
}

/// One weight as an odd number and a number of doublings.
struct Scaled {
    odd: u64,
    doublings: u128,
}

fn scaled(bits: u64) -> (r: Scaled)
    requires
        is_weight(bits),
    ensures
        r.odd > 0,
        r.doublings == twos(units(bits)),
        r.doublings < 4096,
        units(bits) == r.odd * pow2(r.doublings as nat),
{
    let (m, s): (u64, u128) = decode(bits);
    let (odd, k): (u64, u128) = odd_part(m);
    proof {
        lemma_twos_scaled(m as nat, s as nat);
        lemma_pow2_adds(k as nat, s as nat);
        let a = pow2(k as nat);
        let b = pow2(s as nat);
        assert((odd * a) * b == odd * (a * b)) by (nonlinear_arith);
    }
    Scaled { odd, doublings: k + s }
}

pub proof fn lemma_common_twos(bits: Seq<u64>, i: int)
    requires
        0 <= i < bits.len(),
    ensures
        common_twos(bits) <= twos(units(bits[i])),
    decreases bits.len(),
{
    if bits.len() > 1 {
        if i < bits.len() - 1 {
            lemma_common_twos(bits.drop_last(), i);
        }
    }
}

/// The exact weights of a list of binary floating-point numbers, unless one is
/// not a positive finite number.
pub fn exact_weights(bits: &Vec<u64>) -> (r: Option<Vec<Nat>>)
    ensures
        r is Some <==> forall|i: int| 0 <= i < bits@.len() ==> is_weight(#[trigger] bits@[i]),
        r is Some ==> {
            &&& r->Some_0@.len() == bits@.len()
            &&& forall|i: int| #![trigger r->Some_0@[i]]
                0 <= i < bits@.len() ==> {
                    &&& r->Some_0@[i]@ == weights_of(bits@)[i]
                    &&& r->Some_0@[i]@ > 0
                    &&& units(bits@[i]) == r->Some_0@[i]@ * pow2(common_twos(bits@))
                }
        },
{
    let mut parts: Vec<Scaled> = Vec::new();
    let mut least: u128 = 0;
    let mut i: usize = 0;
    assert(bits@.take(0) =~= Seq::empty());
    while i < bits.len()
        invariant
            i <= bits@.len(),
            parts@.len() == i,
            least == common_twos(bits@.take(i as int)),
            least < 4096,
            forall|j: int| 0 <= j < i ==> is_weight(#[trigger] bits@[j]),
            forall|j: int| #![trigger parts@[j]]
                0 <= j < i ==> {
                    &&& parts@[j].odd > 0
                    &&& parts@[j].doublings == twos(units(bits@[j]))
                    &&& parts@[j].doublings < 4096
                    &&& units(bits@[j]) == parts@[j].odd * pow2(parts@[j].doublings as nat)
                },
        decreases bits.len() - i,
    {
        if !(bits[i] > 0 && bits[i] < INFINITY_BITS) {
            assert(!is_weight(bits@[i as int]));
            return None;
        }
        let s: Scaled = scaled(bits[i]);
        proof {
            assert(bits@.take(i + 1).drop_last() =~= bits@.take(i as int));
        }
        if i == 0 || s.doublings < least {
            least = s.doublings;
        }
        parts.push(s);
        i = i + 1;
    }
    assert(bits@.take(i as int) =~= bits@);
    let mut r: Vec<Nat> = Vec::new();
    let mut k: usize = 0;
    while k < parts.len()
        invariant
            parts@.len() == bits@.len(),
            least == common_twos(bits@),
            forall|j: int| #![trigger parts@[j]]
                0 <= j < parts@.len() ==> {
                    &&& parts@[j].odd > 0
                    &&& parts@[j].doublings == twos(units(bits@[j]))
                    &&& parts@[j].doublings < 4096
                    &&& units(bits@[j]) == parts@[j].odd * pow2(parts@[j].doublings as nat)
                },
            k <= parts@.len(),
            r@.len() == k,
            forall|j: int| #![trigger r@[j]]
                0 <= j < k ==> {
                    &&& r@[j]@ == weights_of(bits@)[j]
                    &&& r@[j]@ > 0
                    &&& units(bits@[j]) == r@[j]@ * pow2(common_twos(bits@))
                },
        decreases parts.len() - k,
    {
        proof {
            lemma_common_twos(bits@, k as int);
        }
        let w: Nat = Nat::from_u64(parts[k].odd).shift_left(parts[k].doublings - least);
        proof {
            let d = parts@[k as int].doublings as nat;
            let l = least as nat;
            let o = parts@[k as int].odd as int;
            lemma_pow2_adds((d - l) as nat, l);
            lemma_pow2_pos((d - l) as nat);
            lemma_pow2_pos(l);
            let a = pow2((d - l) as nat) as int;
            let b = pow2(l) as int;
            assert(o * (a * b) == (o * a) * b) by (nonlinear_arith);
            assert(o * a > 0) by (nonlinear_arith)
                requires
                    o > 0,
                    a > 0,
            ;
            vstd::arithmetic::div_mod::lemma_div_multiples_vanish(o * a, b);
            assert(b * (o * a) == (o * a) * b) by (nonlinear_arith);
        }
        r.push(w);
        k = k + 1;
    }
    Some(r)
}

} // verus!
