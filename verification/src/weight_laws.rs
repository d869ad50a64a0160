//! What holds of every prior weight.

use crate::csv::{bits_of_rows, samples_of, Row};
use crate::weight::{
    common_twos, is_positive, is_weight, lemma_common_twos, scale, significand, twos, units,
    weights_of, HIDDEN_BIT,
};
use vstd::arithmetic::power2::{lemma2_to64, lemma_pow2_pos, lemma_pow2_unfold, pow2};
use vstd::prelude::*;

verus! {

/// A weight is positive if its bits are above those of zero and not above those of infinity,
/// and finite if they are below those of infinity.
pub proof fn law_weight_ranges(bits: u64)
    ensures
        is_positive(bits) <==> 0 < bits <= 0x7ff0_0000_0000_0000,
        is_weight(bits) <==> 0 < bits < 0x7ff0_0000_0000_0000,
{
}

/// The smallest numbers are consecutive multiples of the very smallest, and raising the
/// exponent of a larger one by one doubles it.
pub proof fn law_units(bits: u64)
    ensures
        bits < 0x20_0000_0000_0000 ==> units(bits) == bits,
        0x10_0000_0000_0000 <= bits < 0x7fe0_0000_0000_0000 ==> units(
            (bits + 0x10_0000_0000_0000) as u64,
        ) == 2 * units(bits),
{
    lemma2_to64();
    if bits < 0x20_0000_0000_0000 {
        let m = significand(bits);
        assert(m == bits);
        assert(m * 1 == m);
    }
    if 0x10_0000_0000_0000 <= bits < 0x7fe0_0000_0000_0000 {
        let next = (bits + HIDDEN_BIT) as u64;
        assert(next / HIDDEN_BIT == bits / HIDDEN_BIT + 1);
        assert(next % HIDDEN_BIT == bits % HIDDEN_BIT);
        let s = (bits / HIDDEN_BIT - 1) as nat;
        lemma_pow2_unfold(s + 1);
        let m = significand(bits);
        let p = pow2(s);
        assert(m * (2 * p) == 2 * (m * p)) by (nonlinear_arith);
    }
}

proof fn lemma_twos_divide(n: nat, k: nat) -> (q: nat)
    requires
        n > 0,
        k <= twos(n),
    ensures
        n == q * pow2(k),
        q > 0,
        k == twos(n) ==> q % 2 == 1,
    decreases k,
{
    lemma2_to64();
    if k == 0 {
        assert(n * 1 == n);
        n
    } else {
        let k1 = (k - 1) as nat;
        let q = lemma_twos_divide(n / 2, k1);
        lemma_pow2_unfold(k);
        let p = pow2(k1);
        assert(q * (2 * p) == 2 * (q * p)) by (nonlinear_arith);
        q
    }
}

proof fn lemma_common_attained(bits: Seq<u64>) -> (i: int)
    requires
        bits.len() > 0,
    ensures
        0 <= i < bits.len(),
        common_twos(bits) == twos(units(bits[i])),
    decreases bits.len(),
{
    if bits.len() == 1 {
        0
    } else {
        let t = bits.drop_last();
        let i = lemma_common_attained(t);
        if twos(units(bits.last())) < common_twos(t) {
            bits.len() - 1
        } else {
            i
        }
    }
}

proof fn lemma_units_positive(bits: u64)
    requires
        is_weight(bits),
    ensures
        units(bits) > 0,
{
    let s = scale(bits);
    lemma_pow2_pos(s);
    let m = significand(bits);
    let p = pow2(s);
    assert(m * p > 0) by (nonlinear_arith)
        requires
            m > 0,
            p > 0,
    ;
}

/// The samples of a sweep with finite weights have its cycle counts in order, and weights in
/// exactly the ratios of those of its rows: all are in one unit, a power of two, and no
/// larger power of two would do.
pub proof fn law_samples(rows: Seq<Row>) -> (unit: nat)
    requires
        forall|i: int| 0 <= i < rows.len() ==> is_weight((#[trigger] rows[i]).bits),
    ensures
        samples_of(rows).len() == rows.len(),
        forall|i: int| #![trigger samples_of(rows)[i]]
            0 <= i < rows.len() ==> {
                &&& samples_of(rows)[i].0 == rows[i].cycles
                &&& samples_of(rows)[i].1 > 0
                &&& samples_of(rows)[i].1 * pow2(unit) == units(rows[i].bits)
            },
        rows.len() > 0 ==> exists|i: int|
            0 <= i < rows.len() && (#[trigger] samples_of(rows)[i]).1 % 2 == 1,
{
    let bits = bits_of_rows(rows);
    let unit = common_twos(bits);
    lemma_pow2_pos(unit);
    let s = samples_of(rows);
    let u = pow2(unit) as int;
    assert forall|i: int| #![trigger s[i]] 0 <= i < rows.len() implies {
        &&& s[i].0 == rows[i].cycles
        &&& s[i].1 > 0
        &&& s[i].1 * pow2(unit) == units(rows[i].bits)
        &&& unit == twos(units(rows[i].bits)) ==> s[i].1 % 2 == 1
    } by {
        assert(is_weight(rows[i].bits));
        assert(bits[i] == rows[i].bits);
        lemma_units_positive(bits[i]);
        lemma_common_twos(bits, i);
        let q = lemma_twos_divide(units(bits[i]), unit) as int;
        assert(q * u == u * q) by (nonlinear_arith);
        vstd::arithmetic::div_mod::lemma_div_multiples_vanish(q, u);
        assert(weights_of(bits)[i] == units(bits[i]) / pow2(unit));
    }
    if rows.len() > 0 {
        let i = lemma_common_attained(bits);
        assert(bits[i] == rows[i].bits);
        assert(s[i].1 % 2 == 1);
    }
    unit
}

} // verus!
